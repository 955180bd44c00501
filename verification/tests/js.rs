use accent_proust_wasm::js::plain_object;

#[test]
fn an_object_without_a_prototype_is_plain() {
    // `Object.create(null)`.
    assert!(plain_object(false, false));
    assert!(plain_object(false, true));
}

#[test]
fn an_object_literal_is_plain() {
    // `{}`: its prototype is `Object.prototype`, which has none.
    assert!(plain_object(true, false));
}

#[test]
fn a_class_instance_is_not_plain() {
    // A `Date`, a `Map`, a class instance: one more link in the chain.
    assert!(!plain_object(true, true));
}
