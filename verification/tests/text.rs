use accent_proust_wasm::text::{join, sorted};

fn strings(items: &[&str]) -> Vec<String> {
    items.iter().map(|s| String::from(*s)).collect()
}

#[test]
fn join_puts_the_separator_between_each_two() {
    assert_eq!(join(&strings(&[]), ", "), "");
    assert_eq!(join(&strings(&["a"]), ", "), "a");
    assert_eq!(join(&strings(&["a", "b", "c"]), ", "), "a, b, c");
}

#[test]
fn sorted_follows_the_order_of_str() {
    let list = sorted(&strings(&["list", "Heading", "item", "heading", "é", "z", "it"]));
    assert_eq!(list, strings(&["Heading", "heading", "it", "item", "list", "z", "é"]));
}
