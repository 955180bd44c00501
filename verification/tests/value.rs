use accent_proust_wasm::js::{release, JsData, JsEntry, JsObject};
use accent_proust_wasm::path::Path;
use accent_proust_wasm::value::{value, variables, Node, Value};

/// An expected value, written as a tree.
enum Tree {
    Null,
    Bool(bool),
    Num(f64),
    Str(&'static str),
    Arr(Vec<Tree>),
    Hash(Vec<(&'static str, Tree)>),
}

/// The value a tree is held as: every node after the nodes it holds, in
/// document order.
fn flat(tree: Tree) -> Value {
    let mut nodes = Vec::new();
    let root = put(tree, &mut nodes);
    Value { nodes, root }
}

fn put(tree: Tree, nodes: &mut Vec<Node>) -> usize {
    let node = match tree {
        Tree::Null => Node::Null,
        Tree::Bool(b) => Node::Boolean(b),
        Tree::Num(n) => Node::Number(n.to_bits()),
        Tree::Str(s) => Node::String(String::from(s)),
        Tree::Arr(items) => Node::Array(items.into_iter().map(|t| put(t, nodes)).collect()),
        Tree::Hash(pairs) => {
            Node::Hash(pairs.into_iter().map(|(k, t)| (String::from(k), put(t, nodes))).collect())
        }
    };
    nodes.push(node);
    nodes.len() - 1
}

fn text(s: &str) -> JsData {
    JsData::Text(String::from(s))
}

fn num(n: f64) -> JsData {
    JsData::Number(n.to_bits())
}

fn object(entries: Vec<(&str, JsData)>) -> JsData {
    JsData::Object(plain(entries))
}

fn plain(entries: Vec<(&str, JsData)>) -> JsObject {
    JsObject {
        plain: true,
        entries: entries
            .into_iter()
            .map(|(key, value)| JsEntry { key: String::from(key), value: Some(value) })
            .collect(),
        fields: vec![],
    }
}

fn at(name: &str) -> Path {
    Path::root().child("variables").child(name)
}

#[test]
fn scalars_convert_to_themselves() {
    assert_eq!(value(&JsData::Null, &at("x")), Ok(flat(Tree::Null)));
    assert_eq!(value(&JsData::Undefined, &at("x")), Ok(flat(Tree::Null)));
    assert_eq!(value(&JsData::Bool(true), &at("x")), Ok(flat(Tree::Bool(true))));
    assert_eq!(value(&num(3.0), &at("x")), Ok(flat(Tree::Num(3.0))));
    assert_eq!(value(&text("note"), &at("x")), Ok(flat(Tree::Str("note"))));
}

#[test]
fn a_nested_value_keeps_its_shape_and_its_key_order() {
    let outer = object(vec![
        ("z", num(1.0)),
        ("a", JsData::Array(vec![object(vec![("deep", text("x"))]), num(2.0), JsData::Null])),
        ("m", object(vec![("n", JsData::Bool(true))])),
    ]);
    let expected = flat(Tree::Hash(vec![
        ("z", Tree::Num(1.0)),
        (
            "a",
            Tree::Arr(vec![Tree::Hash(vec![("deep", Tree::Str("x"))]), Tree::Num(2.0), Tree::Null]),
        ),
        ("m", Tree::Hash(vec![("n", Tree::Bool(true))])),
    ]));
    assert_eq!(value(&outer, &at("outer")), Ok(expected));
}

#[test]
fn a_deep_value_does_not_exhaust_the_stack() {
    let mut deep = JsData::Null;
    for _ in 0..10_000 {
        deep = JsData::Array(vec![deep]);
    }
    let converted = value(&deep, &at("deep")).unwrap();
    assert_eq!(converted.nodes.len(), 10_001);
    assert_eq!(converted.root, 10_000);
    assert_eq!(converted.nodes[0], Node::Null);
    assert_eq!(converted.nodes[10_000], Node::Array(vec![9_999]));
    // The converted value is flat and drops as it is; the input is taken
    // apart one level at a time.
    release(deep);
}

#[test]
fn releasing_a_deep_object_does_not_exhaust_the_stack() {
    let mut deep = JsData::Null;
    for _ in 0..100_000 {
        deep = JsData::Object(JsObject {
            plain: false,
            entries: vec![JsEntry { key: String::from("next"), value: Some(deep) }],
            fields: vec![JsEntry { key: String::from("default"), value: Some(JsData::Null) }],
        });
    }
    release(deep);
}

#[test]
fn a_function_is_refused_with_its_path() {
    let holder = object(vec![("list", JsData::Array(vec![num(1.0), JsData::Function]))]);
    assert_eq!(
        value(&holder, &at("hooks")),
        Err(String::from(
            "config.variables.hooks.list[1]: a function has no Markdoc counterpart; use a string, number, boolean, null, array or plain object"
        ))
    );
}

#[test]
fn the_first_failure_in_document_order_is_reported() {
    let holder = JsData::Array(vec![JsData::Symbol, JsData::BigInt]);
    assert_eq!(
        value(&holder, &at("x")),
        Err(String::from(
            "config.variables.x[0]: a symbol has no Markdoc counterpart; use a string, number, boolean, null, array or plain object"
        ))
    );
}

#[test]
fn a_class_instance_is_refused_rather_than_flattened() {
    let date = JsData::Object(JsObject { plain: false, entries: vec![], fields: vec![] });
    let message = value(&date, &at("when")).unwrap_err();
    assert!(message.starts_with("config.variables.when: a class instance or built-in object"));
}

#[test]
fn a_property_that_cannot_be_read_is_named() {
    let holder = JsData::Object(JsObject {
        plain: true,
        entries: vec![
            JsEntry { key: String::from("ok"), value: Some(num(1.0)) },
            JsEntry { key: String::from("bad"), value: None },
        ],
        fields: vec![],
    });
    assert_eq!(
        value(&holder, &at("x")),
        Err(String::from("config.variables.x.bad: cannot be read"))
    );
}

#[test]
fn variables_keep_authored_order() {
    let source = plain(vec![
        ("flags", object(vec![("beta", JsData::Bool(true))])),
        ("count", num(3.0)),
    ]);
    let map = variables(&source, &Path::root().child("variables")).unwrap();
    let keys: Vec<&String> = map.keys().collect();
    assert_eq!(keys, vec!["flags", "count"]);
    assert_eq!(map.get("count"), Some(&flat(Tree::Num(3.0))));
    assert_eq!(map.get("flags"), Some(&flat(Tree::Hash(vec![("beta", Tree::Bool(true))]))));
}

#[test]
fn a_variable_that_cannot_be_read_is_named() {
    let source = JsObject {
        plain: true,
        entries: vec![JsEntry { key: String::from("secret"), value: None }],
        fields: vec![],
    };
    let error = variables(&source, &Path::root().child("variables")).unwrap_err();
    assert_eq!(error, "config.variables.secret: cannot be read");
}
