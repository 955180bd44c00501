use accent_proust_wasm::path::{decimal_string, Path};

#[test]
fn the_root_is_config() {
    assert_eq!(Path::root().as_str(), "config");
}

#[test]
fn children_and_indexes_extend_the_path() {
    let at = Path::root().child("tags").child("callout").child("children").index(12);
    assert_eq!(at.as_str(), "config.tags.callout.children[12]");
    let copy = at.clone();
    assert_eq!(copy.as_str(), at.as_str());
}

#[test]
fn decimal_has_no_leading_zero() {
    assert_eq!(decimal_string(0), "0");
    assert_eq!(decimal_string(7), "7");
    assert_eq!(decimal_string(10), "10");
    assert_eq!(decimal_string(4_294_967_295), "4294967295");
}
