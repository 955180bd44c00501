use accent_proust_wasm::config::{build, field_names};
use accent_proust_wasm::js::{JsData, JsEntry, JsObject};
use accent_proust_wasm::schema::{ErrorLevel, RenderPolicy, ValidationType};
use accent_proust_wasm::value::{Node, Value};

fn text(s: &str) -> JsData {
    JsData::Text(String::from(s))
}

fn object(entries: Vec<(&str, JsData)>) -> JsData {
    JsData::Object(JsObject {
        plain: true,
        entries: entries
            .into_iter()
            .map(|(key, value)| JsEntry { key: String::from(key), value: Some(value) })
            .collect(),
        fields: vec![],
    })
}

fn known() -> Vec<String> {
    ["document", "heading", "paragraph", "fence", "item", "list"]
        .iter()
        .map(|s| String::from(*s))
        .collect()
}

/// The callout a host declares: a render name and two typed attributes.
fn callout() -> JsData {
    object(vec![(
        "tags",
        object(vec![(
            "callout",
            object(vec![
                ("render", text("Callout")),
                (
                    "attributes",
                    object(vec![
                        (
                            "type",
                            object(vec![
                                ("type", text("String")),
                                ("default", text("note")),
                                ("matches", JsData::Array(vec![text("note"), text("warning")])),
                            ]),
                        ),
                        (
                            "title",
                            object(vec![("type", text("String")), ("required", JsData::Bool(true))]),
                        ),
                    ]),
                ),
            ]),
        )]),
    )])
}

fn error_of(declared: &JsData) -> String {
    match build(declared, &known()) {
        Ok(_) => String::new(),
        Err(message) => message,
    }
}

#[test]
fn a_declared_tag_crosses_with_its_attributes() {
    let declarations = build(&callout(), &known()).unwrap();
    assert_eq!(declarations.tags.len(), 1);
    let (name, schema) = &declarations.tags[0];
    assert_eq!(name, "callout");
    assert_eq!(schema.render, Some(Some(String::from("Callout"))));
    assert!(schema.children.is_none());
    assert_eq!(schema.attributes.len(), 2);
    let (first, kind) = &schema.attributes[0];
    assert_eq!(first, "type");
    assert!(matches!(kind.attribute_type, Some(ValidationType::String)));
    assert_eq!(kind.default, Some(Value { nodes: vec![Node::String(String::from("note"))], root: 0 }));
    assert_eq!(kind.matches, Some(vec![String::from("note"), String::from("warning")]));
    assert!(kind.required.is_none());
    let (second, title) = &schema.attributes[1];
    assert_eq!(second, "title");
    assert_eq!(title.required, Some(true));
    assert!(declarations.nodes.is_empty());
    assert!(declarations.variables.is_none());
}

#[test]
fn an_empty_configuration_declares_nothing() {
    for empty in [JsData::Null, JsData::Undefined] {
        let declarations = build(&empty, &known()).unwrap();
        assert!(declarations.tags.is_empty());
        assert!(declarations.nodes.is_empty());
        assert!(declarations.variables.is_none());
    }
}

#[test]
fn a_hook_is_refused_by_name() {
    let declared = object(vec![(
        "tags",
        object(vec![("callout", object(vec![("validate", JsData::Function)]))]),
    )]);
    let text = error_of(&declared);
    assert!(text.contains("config.tags.callout.validate"), "{text}");
    assert!(text.contains("code does not cross"), "{text}");
    assert!(text.ends_with(
        "Expected one of render, children, attributes, slots, selfClosing, inline, description"
    ));
}

#[test]
fn an_error_names_the_path_to_the_problem() {
    let declared = object(vec![(
        "tags",
        object(vec![(
            "callout",
            object(vec![(
                "attributes",
                object(vec![("type", object(vec![("type", text("Str"))]))]),
            )]),
        )]),
    )]);
    let text = error_of(&declared);
    assert!(text.contains("config.tags.callout.attributes.type.type"), "{text}");
    assert!(text.contains("\"Str\""), "{text}");
}

#[test]
fn partials_and_functions_say_why_rather_than_just_no() {
    let text = error_of(&object(vec![("partials", object(vec![]))]));
    assert!(text.contains("not supported yet"), "{text}");
    let text = error_of(&object(vec![("functions", object(vec![]))]));
    assert!(text.contains("a function is code"), "{text}");
    assert!(text.starts_with("config.functions: unrecognised key"), "{text}");
}

#[test]
fn an_unknown_node_type_lists_what_is_known() {
    let text = error_of(&object(vec![("nodes", object(vec![("headline", object(vec![]))]))]));
    assert!(text.contains("unknown node type \"headline\""), "{text}");
    assert!(text.contains("heading"), "it should list the real ones: {text}");
    assert!(
        text.ends_with("expected one of document, fence, heading, item, list, paragraph"),
        "{text}"
    );
}

#[test]
fn a_node_schema_can_be_overridden() {
    let declared = object(vec![("nodes", object(vec![("heading", object(vec![("render", text("Heading"))]))]))]);
    let declarations = build(&declared, &known()).unwrap();
    assert_eq!(declarations.nodes.len(), 1);
    assert_eq!(declarations.nodes[0].0, "heading");
    assert_eq!(declarations.nodes[0].1.render, Some(Some(String::from("Heading"))));
}

#[test]
fn a_regexp_in_matches_explains_the_divergence() {
    let regexp = JsData::Object(JsObject { plain: false, entries: vec![], fields: vec![] });
    let declared = object(vec![(
        "tags",
        object(vec![(
            "callout",
            object(vec![("attributes", object(vec![("type", object(vec![("matches", regexp)]))]))]),
        )]),
    )]);
    let text = error_of(&declared);
    assert!(text.contains("regular expression"), "{text}");
    assert!(text.starts_with("config.tags.callout.attributes.type.matches: "), "{text}");
}

#[test]
fn a_non_plain_object_is_refused_rather_than_flattened() {
    let date = JsData::Object(JsObject { plain: false, entries: vec![], fields: vec![] });
    let text = error_of(&object(vec![("variables", object(vec![("when", date)]))]));
    assert!(text.contains("config.variables.when"), "{text}");
}

#[test]
fn variables_cross_the_boundary() {
    let declared = object(vec![(
        "variables",
        object(vec![
            ("flags", object(vec![("beta", JsData::Bool(true))])),
            ("count", JsData::Number(3.0f64.to_bits())),
        ]),
    )]);
    let declarations = build(&declared, &known()).unwrap();
    let map = declarations.variables.unwrap();
    assert_eq!(map.len(), 2);
    assert_eq!(
        map.get("flags"),
        Some(&Value {
            nodes: vec![Node::Boolean(true), Node::Hash(vec![(String::from("beta"), 0)])],
            root: 1,
        })
    );
}

#[test]
fn a_schema_render_of_true_is_refused() {
    let declared = object(vec![("tags", object(vec![("box", object(vec![("render", JsData::Bool(true))]))]))]);
    assert_eq!(
        error_of(&declared),
        "config.tags.box.render: expected an element name or false, not true"
    );
    let declared = object(vec![("tags", object(vec![("box", object(vec![("render", JsData::Bool(false))]))]))]);
    let declarations = build(&declared, &known()).unwrap();
    assert_eq!(declarations.tags[0].1.render, Some(None));
}

#[test]
fn children_slots_and_flags_cross() {
    let declared = object(vec![(
        "tags",
        object(vec![(
            "box",
            object(vec![
                ("children", JsData::Array(vec![text("paragraph"), text("list")])),
                (
                    "slots",
                    object(vec![("title", object(vec![("render", text("h2")), ("required", JsData::Bool(true))]))]),
                ),
                ("selfClosing", JsData::Bool(true)),
                ("inline", JsData::Bool(false)),
                ("description", text("A box.")),
            ]),
        )]),
    )]);
    let declarations = build(&declared, &known()).unwrap();
    let schema = &declarations.tags[0].1;
    assert_eq!(schema.children, Some(vec![String::from("paragraph"), String::from("list")]));
    assert_eq!(schema.slots.len(), 1);
    assert_eq!(schema.slots[0].0, "title");
    assert!(matches!(&schema.slots[0].1.render, Some(RenderPolicy::Renamed(n)) if n == "h2"));
    assert_eq!(schema.slots[0].1.required, Some(true));
    assert_eq!(schema.self_closing, Some(true));
    assert_eq!(schema.inline, Some(false));
    assert_eq!(schema.description, Some(String::from("A box.")));
}

#[test]
fn an_unknown_child_type_names_its_index() {
    let declared = object(vec![(
        "tags",
        object(vec![("box", object(vec![("children", JsData::Array(vec![text("paragraph"), text("para")]))]))]),
    )]);
    let text = error_of(&declared);
    assert!(text.starts_with("config.tags.box.children[1]: unknown node type \"para\""), "{text}");
}

#[test]
fn attribute_types_levels_and_render_policies_cross() {
    let declared = object(vec![(
        "tags",
        object(vec![(
            "box",
            object(vec![(
                "attributes",
                object(vec![(
                    "size",
                    object(vec![
                        ("type", JsData::Array(vec![text("Number"), text("String")])),
                        ("errorLevel", text("warning")),
                        ("render", text("data-size")),
                        ("description", text("How big.")),
                    ]),
                )]),
            )]),
        )]),
    )]);
    let declarations = build(&declared, &known()).unwrap();
    let attribute = &declarations.tags[0].1.attributes[0].1;
    match &attribute.attribute_type {
        Some(ValidationType::Union(list)) => {
            assert_eq!(list.len(), 2);
            assert!(matches!(list[0], ValidationType::Number));
            assert!(matches!(list[1], ValidationType::String));
        },
        _ => panic!("expected a union"),
    }
    assert_eq!(attribute.error_level, Some(ErrorLevel::Warning));
    assert!(matches!(&attribute.render, Some(RenderPolicy::Renamed(n)) if n == "data-size"));
    assert_eq!(attribute.description, Some(String::from("How big.")));
}

#[test]
fn each_refusal_has_its_own_message() {
    let with = |attribute: JsData| {
        object(vec![(
            "tags",
            object(vec![("box", object(vec![("attributes", object(vec![("a", attribute)]))]))]),
        )])
    };
    assert_eq!(
        error_of(&with(object(vec![("type", JsData::Function)]))),
        "config.tags.box.attributes.a.type: a custom attribute type is code and cannot cross into WebAssembly; declare one of String, Number, Boolean, Object or Array, and leave the custom check to the server"
    );
    assert_eq!(
        error_of(&with(object(vec![("type", JsData::Bool(true))]))),
        "config.tags.box.attributes.a.type: expected an attribute type name as a string, or an array of them"
    );
    assert_eq!(
        error_of(&with(object(vec![("errorLevel", text("fatal"))]))),
        "config.tags.box.attributes.a.errorLevel: expected one of debug, info, warning, error, critical"
    );
    assert_eq!(
        error_of(&with(object(vec![("required", text("yes"))]))),
        "config.tags.box.attributes.a.required: expected true or false"
    );
    assert_eq!(
        error_of(&with(object(vec![("render", JsData::Null)]))),
        "config.tags.box.attributes.a.render: expected true, false, or a name to render under"
    );
    assert_eq!(
        error_of(&with(object(vec![("description", JsData::Bool(false))]))),
        "config.tags.box.attributes.a.description: expected a string"
    );
    assert_eq!(
        error_of(&with(object(vec![("matches", JsData::Array(vec![text("x"), JsData::Null]))]))),
        "config.tags.box.attributes.a.matches[1]: expected a string"
    );
    assert_eq!(
        error_of(&with(JsData::Array(vec![]))),
        "config.tags.box.attributes.a: expected an object"
    );
    assert_eq!(
        error_of(&object(vec![("tags", object(vec![("box", object(vec![("children", text("p"))]))]))])),
        "config.tags.box.children: expected an array"
    );
    assert_eq!(error_of(&text("x")), "config: expected an object");
}

#[test]
fn an_unreadable_declaration_is_named() {
    let declared = object(vec![(
        "tags",
        JsData::Object(JsObject {
            plain: true,
            entries: vec![JsEntry { key: String::from("box"), value: None }],
            fields: vec![],
        }),
    )]);
    assert_eq!(error_of(&declared), "config.tags.box.box: cannot be read");
}

#[test]
fn an_undefined_property_counts_as_absent() {
    let declared = object(vec![("tags", JsData::Undefined), ("variables", JsData::Undefined)]);
    let declarations = build(&declared, &known()).unwrap();
    assert!(declarations.tags.is_empty());
    assert!(declarations.variables.is_none());
}

#[test]
fn messages_around_a_quoted_name_are_exact() {
    let at = accent_proust_wasm::path::Path::root().child("tags").child("x").child("type");
    assert_eq!(
        accent_proust_wasm::config::unknown_attribute_type_message(&at, "\"Str\""),
        "config.tags.x.type: unknown attribute type \"Str\"; expected String, Number, Boolean, Object, Array, or an array of those"
    );
    let names = vec![String::from("paragraph"), String::from("heading"), String::from("document")];
    assert_eq!(
        accent_proust_wasm::config::unknown_node_type_message(
            &accent_proust_wasm::path::Path::root().child("nodes").child("h"),
            "\"h\"",
            &names
        ),
        "config.nodes.h: unknown node type \"h\"; expected one of document, heading, paragraph"
    );
}

fn inheriting(fields: Vec<(&str, Option<JsData>)>) -> JsData {
    JsData::Object(JsObject {
        plain: false,
        entries: vec![],
        fields: fields
            .into_iter()
            .map(|(key, value)| JsEntry { key: String::from(key), value })
            .collect(),
    })
}

#[test]
fn an_inherited_field_declares_tags() {
    // `Object.create({ tags: { box: {} } })`: no own key, `tags` found on the prototype.
    let declared = inheriting(vec![("tags", Some(object(vec![("box", object(vec![]))])))]);
    let declarations = build(&declared, &known()).unwrap();
    assert_eq!(declarations.tags.len(), 1);
    assert_eq!(declarations.tags[0].0, "box");
}

#[test]
fn a_field_that_is_not_enumerable_is_read() {
    // A schema whose `render` was defined with `enumerable: false`.
    let schema = inheriting(vec![("render", Some(text("Box")))]);
    let declared = object(vec![("tags", object(vec![("box", schema)]))]);
    let declarations = build(&declared, &known()).unwrap();
    assert_eq!(declarations.tags[0].1.render, Some(Some(String::from("Box"))));
}

#[test]
fn an_inherited_field_that_throws_is_named() {
    let declared = inheriting(vec![("nodes", None)]);
    assert_eq!(error_of(&declared), "config.nodes: cannot be read");
}

#[test]
fn an_own_key_is_read_before_a_field() {
    let declared = JsData::Object(JsObject {
        plain: true,
        entries: vec![JsEntry { key: String::from("tags"), value: Some(JsData::Undefined) }],
        fields: vec![JsEntry { key: String::from("tags"), value: Some(text("x")) }],
    });
    let declarations = build(&declared, &known()).unwrap();
    assert!(declarations.tags.is_empty());
}

#[test]
fn the_field_names_are_those_a_declaration_is_read_for() {
    let names = field_names();
    assert_eq!(
        names,
        vec![
            "tags", "nodes", "variables", "render", "children", "attributes", "slots",
            "selfClosing", "inline", "description", "type", "default", "required", "matches",
            "errorLevel",
        ]
    );
}
