//! A host's schema declarations, from JavaScript.
//!
//! The declarations are data: a name, the allowed children, typed
//! attributes, slots, a render policy, and variables. All of that crosses. A
//! hook is code -- a `transform` or `validate` function, a custom attribute
//! type, a `RegExp` in `matches` -- and none of it crosses, so a declaration
//! carrying one is refused with the path to it rather than half accepted.
use crate::js::{
    err_in, keys_of, lemma_element_well_formed, lemma_err_in_part, lemma_field_well_formed,
    lemma_here_part, lemma_here_whole, lemma_names_part, lemma_one_step, lemma_reach_entry, lookup,
    names_part, part, reach, read_field, well_formed, JsData, JsEntry, JsObject,
};
use crate::outside::{debug_quoted, debug_text};
use crate::path::{
    child_text, here, lemma_first_refusal_decides, lemma_here, path_text, root_text, Path, Seg,
};
use crate::schema::{
    attribute_view, attributes_view, declarations_view, render_view, schema_view, schemas_view,
    slot_view, slots_view, type_view, types_view, AttributeV, Declarations, DeclarationsV,
    ErrorLevel, RenderPolicy, RenderV, Schema, SchemaAttribute, SchemaSlot, SchemaV, SlotV, TypeV,
    ValidationType,
};
use crate::text::{join, join_text, sorted, text_order, texts};
use crate::value::{
    convert, convert_variables, element_path, js_index, lemma_convert_named,
    leading_entries, leading_items, lemma_unreadable_names, lemma_variables_named, unreadable,
    unreadable_message, value, variables, ValueV,
};
use vstd::prelude::*;

verus! {

// --- What the checks say, mathematically -----------------------------------

/// The keys a configuration may carry.
pub open spec fn top_level_keys() -> Seq<Seq<char>> {
    seq!["tags"@, "nodes"@, "variables"@]
}

/// The keys a schema may carry.
pub open spec fn schema_keys() -> Seq<Seq<char>> {
    seq!["render"@, "children"@, "attributes"@, "slots"@, "selfClosing"@, "inline"@, "description"@]
}

/// The keys an attribute declaration may carry.
pub open spec fn attribute_keys() -> Seq<Seq<char>> {
    seq!["type"@, "default"@, "required"@, "matches"@, "render"@, "errorLevel"@, "description"@]
}

/// The keys a slot declaration may carry.
pub open spec fn slot_keys() -> Seq<Seq<char>> {
    seq!["render"@, "required"@]
}

/// The names a declaration is read for: those of a configuration and of a
/// schema, and those of an attribute declaration that a schema does not
/// already have (a slot's are among them).
pub open spec fn field_names_spec() -> Seq<Seq<char>> {
    top_level_keys() + schema_keys() + seq!["type"@, "default"@, "required"@, "matches"@, "errorLevel"@]
}

/// The value as an object.
pub open spec fn as_object_spec(d: JsData, at: Seq<char>) -> Result<JsObject, Seq<char>> {
    match d {
        JsData::Object(o) => Ok(o),
        _ => Err(at + ": expected an object"@),
    }
}

/// One property: `None` when it is absent or `undefined`.
pub open spec fn property_spec(o: JsObject, key: Seq<char>, at: Seq<char>) -> Result<
    Option<JsData>,
    Seq<char>,
> {
    match read_field(o, key) {
        None => Ok(None),
        Some(e) => match e.value {
            None => Err(unreadable(at, key)),
            Some(d) => if d is Undefined {
                Ok(None)
            } else {
                Ok(Some(d))
            },
        },
    }
}

/// Why a key is refused, when there is more to say than that it is unknown.
pub open spec fn refusal_reason(key: Seq<char>) -> Seq<char> {
    if key == "transform"@ || key == "validate"@ {
        " -- a hook is code, and code does not cross into WebAssembly. Declare what you can and leave the rest to the server, which sees the whole document"@
    } else if key == "functions"@ {
        " -- a function is code. Markdoc's own are already present; a host's own cannot cross"@
    } else if key == "partials"@ {
        " -- partials are not supported yet: a parsed partial borrows its source, and holding both across the boundary needs a design this does not have"@
    } else {
        seq![]
    }
}

/// The message for the first key, in order, that is not allowed.
pub open spec fn unknown_key(entries: Seq<JsEntry>, allowed: Seq<Seq<char>>, at: Seq<char>) -> Option<
    Seq<char>,
>
    decreases entries.len(),
{
    if entries.len() == 0 {
        None
    } else if allowed.contains(entries[0].key@) {
        unknown_key(entries.drop_first(), allowed, at)
    } else {
        let key = entries[0].key@;
        Some(child_text(at, key) + ": unrecognised key"@ + refusal_reason(key)
            + ". Expected one of "@ + join_text(allowed, ", "@))
    }
}

/// An optional property, converted when present.
pub open spec fn opt_field<T>(
    o: JsObject,
    key: Seq<char>,
    at: Seq<char>,
    conv: spec_fn(JsData, Seq<char>) -> Result<T, Seq<char>>,
) -> Result<Option<T>, Seq<char>> {
    match property_spec(o, key, at) {
        Err(e) => Err(e),
        Ok(None) => Ok(None),
        Ok(Some(d)) => match conv(d, child_text(at, key)) {
            Err(e) => Err(e),
            Ok(v) => Ok(Some(v)),
        },
    }
}

/// A render policy: `true`, `false`, or a name to render under.
pub open spec fn render_policy_spec(d: JsData, at: Seq<char>) -> Result<RenderV, Seq<char>> {
    match d {
        JsData::Bool(true) => Ok(RenderV::Named),
        JsData::Bool(false) => Ok(RenderV::Hidden),
        JsData::Text(s) => Ok(RenderV::Renamed(s@)),
        _ => Err(at + ": expected true, false, or a name to render under"@),
    }
}

/// A boolean.
pub open spec fn boolean_spec(d: JsData, at: Seq<char>) -> Result<bool, Seq<char>> {
    match d {
        JsData::Bool(b) => Ok(b),
        _ => Err(at + ": expected true or false"@),
    }
}

/// A string.
pub open spec fn string_spec(d: JsData, at: Seq<char>) -> Result<Seq<char>, Seq<char>> {
    match d {
        JsData::Text(s) => Ok(s@),
        _ => Err(at + ": expected a string"@),
    }
}

/// An error level, by its upstream spelling.
pub open spec fn error_level_spec(d: JsData, at: Seq<char>) -> Result<ErrorLevel, Seq<char>> {
    let refused = Err(at + ": expected one of debug, info, warning, error, critical"@);
    match d {
        JsData::Text(s) => if s@ == "debug"@ {
            Ok(ErrorLevel::Debug)
        } else if s@ == "info"@ {
            Ok(ErrorLevel::Info)
        } else if s@ == "warning"@ {
            Ok(ErrorLevel::Warning)
        } else if s@ == "error"@ {
            Ok(ErrorLevel::Error)
        } else if s@ == "critical"@ {
            Ok(ErrorLevel::Critical)
        } else {
            refused
        },
        _ => refused,
    }
}

/// An attribute type: a name, or an array of them for a union.
pub open spec fn attribute_type_spec(d: JsData, at: Seq<char>) -> Result<TypeV, Seq<char>>
    decreases d,
{
    match d {
        JsData::Array(items) => match type_list_spec(items@, at) {
            Ok(list) => Ok(TypeV::Union(list)),
            Err(e) => Err(e),
        },
        JsData::Text(s) => if s@ == "String"@ {
            Ok(TypeV::String)
        } else if s@ == "Number"@ {
            Ok(TypeV::Number)
        } else if s@ == "Boolean"@ {
            Ok(TypeV::Boolean)
        } else if s@ == "Object"@ {
            Ok(TypeV::Object)
        } else if s@ == "Array"@ {
            Ok(TypeV::Array)
        } else {
            Err(at + ": unknown attribute type "@ + debug_text(s@)
                + "; expected String, Number, Boolean, Object, Array, or an array of those"@)
        },
        JsData::Function => Err(
            at
                + ": a custom attribute type is code and cannot cross into WebAssembly; declare one of String, Number, Boolean, Object or Array, and leave the custom check to the server"@,
        ),
        _ => Err(at + ": expected an attribute type name as a string, or an array of them"@),
    }
}

/// The members of a union, in order.
pub open spec fn type_list_spec(items: Seq<JsData>, at: Seq<char>) -> Result<Seq<TypeV>, Seq<char>>
    decreases items,
{
    if items.len() == 0 {
        Ok(seq![])
    } else {
        match type_list_spec(items.drop_last(), at) {
            Err(e) => Err(e),
            Ok(list) => match attribute_type_spec(items.last(), element_path(at, items.len() - 1)) {
                Err(e) => Err(e),
                Ok(t) => Ok(list.push(t)),
            },
        }
    }
}

/// A `matches` declaration: an array of acceptable strings.
pub open spec fn matches_spec(d: JsData, at: Seq<char>) -> Result<Seq<Seq<char>>, Seq<char>> {
    match d {
        JsData::Array(items) => text_list_spec(items@, at),
        _ => Err(
            at
                + ": expected an array of acceptable values. A regular expression is not supported here: the engine carries no regular expression engine on purpose, and a host pattern is code that cannot cross into WebAssembly"@,
        ),
    }
}

/// The strings of an array, in order.
pub open spec fn text_list_spec(items: Seq<JsData>, at: Seq<char>) -> Result<Seq<Seq<char>>, Seq<char>>
    decreases items.len(),
{
    if items.len() == 0 {
        Ok(seq![])
    } else {
        match text_list_spec(items.drop_last(), at) {
            Err(e) => Err(e),
            Ok(list) => match items.last() {
                JsData::Text(s) => Ok(list.push(s@)),
                _ => Err(element_path(at, items.len() - 1) + ": expected a string"@),
            },
        }
    }
}

/// A node type, by its upstream spelling, among the known ones.
pub open spec fn node_type_spec(known: Seq<Seq<char>>, name: Seq<char>, at: Seq<char>) -> Result<
    Seq<char>,
    Seq<char>,
> {
    if known.contains(name) {
        Ok(name)
    } else {
        Err(at + ": unknown node type "@ + debug_text(name) + "; expected one of "@ + join_text(
            known.sort_by(text_order()),
            ", "@,
        ))
    }
}

/// The allowed children of a schema, in order.
pub open spec fn children_spec(d: JsData, at: Seq<char>, known: Seq<Seq<char>>) -> Result<
    Seq<Seq<char>>,
    Seq<char>,
> {
    match d {
        JsData::Array(items) => child_list_spec(items@, at, known),
        _ => Err(at + ": expected an array"@),
    }
}

/// The node types of an array, in order.
pub open spec fn child_list_spec(items: Seq<JsData>, at: Seq<char>, known: Seq<Seq<char>>) -> Result<
    Seq<Seq<char>>,
    Seq<char>,
>
    decreases items.len(),
{
    if items.len() == 0 {
        Ok(seq![])
    } else {
        match child_list_spec(items.drop_last(), at, known) {
            Err(e) => Err(e),
            Ok(list) => {
                let p = element_path(at, items.len() - 1);
                match items.last() {
                    JsData::Text(s) => match node_type_spec(known, s@, p) {
                        Err(e) => Err(e),
                        Ok(n) => Ok(list.push(n)),
                    },
                    _ => Err(p + ": expected a node type name"@),
                }
            },
        }
    }
}

/// A schema's render policy: a name, or `false` for none. `true` names
/// nothing to fall back on.
pub open spec fn schema_render_spec(d: JsData, at: Seq<char>) -> Result<Option<Seq<char>>, Seq<char>> {
    match render_policy_spec(d, at) {
        Err(e) => Err(e),
        Ok(RenderV::Hidden) => Ok(None),
        Ok(RenderV::Renamed(name)) => Ok(Some(name)),
        Ok(RenderV::Named) => Err(at + ": expected an element name or false, not true"@),
    }
}

/// A slot declaration.
#[verifier::opaque]
pub open spec fn slot_spec(d: JsData, at: Seq<char>) -> Result<SlotV, Seq<char>> {
    match as_object_spec(d, at) {
        Err(e) => Err(e),
        Ok(o) => match unknown_key(o.entries@, slot_keys(), at) {
            Some(e) => Err(e),
            None => {
                let render = opt_field(o, "render"@, at, |d: JsData, p: Seq<char>| render_policy_spec(d, p));
                let required = opt_field(o, "required"@, at, |d: JsData, p: Seq<char>| boolean_spec(d, p));
                if render is Err {
                    Err(render->Err_0)
                } else if required is Err {
                    Err(required->Err_0)
                } else {
                    Ok(SlotV { render: render->Ok_0, required: required->Ok_0 })
                }
            },
        },
    }
}

/// An attribute declaration.
#[verifier::opaque]
pub open spec fn attribute_spec(d: JsData, at: Seq<char>) -> Result<AttributeV, Seq<char>> {
    match as_object_spec(d, at) {
        Err(e) => Err(e),
        Ok(o) => match unknown_key(o.entries@, attribute_keys(), at) {
            Some(e) => Err(e),
            None => {
                let t = opt_field(o, "type"@, at, |d: JsData, p: Seq<char>| attribute_type_spec(d, p));
                let default = opt_field(o, "default"@, at, |d: JsData, p: Seq<char>| convert(d, p));
                let required = opt_field(o, "required"@, at, |d: JsData, p: Seq<char>| boolean_spec(d, p));
                let matches = opt_field(o, "matches"@, at, |d: JsData, p: Seq<char>| matches_spec(d, p));
                let render = opt_field(o, "render"@, at, |d: JsData, p: Seq<char>| render_policy_spec(d, p));
                let level = opt_field(o, "errorLevel"@, at, |d: JsData, p: Seq<char>| error_level_spec(d, p));
                let description = opt_field(o, "description"@, at, |d: JsData, p: Seq<char>| string_spec(d, p));
                if t is Err {
                    Err(t->Err_0)
                } else if default is Err {
                    Err(default->Err_0)
                } else if required is Err {
                    Err(required->Err_0)
                } else if matches is Err {
                    Err(matches->Err_0)
                } else if render is Err {
                    Err(render->Err_0)
                } else if level is Err {
                    Err(level->Err_0)
                } else if description is Err {
                    Err(description->Err_0)
                } else {
                    Ok(AttributeV {
                        attribute_type: t->Ok_0,
                        default: default->Ok_0,
                        required: required->Ok_0,
                        matches: matches->Ok_0,
                        render: render->Ok_0,
                        error_level: level->Ok_0,
                        description: description->Ok_0,
                    })
                }
            },
        },
    }
}

/// The attribute declarations of an object, in key order.
pub open spec fn attribute_entries(entries: Seq<JsEntry>, at: Seq<char>) -> Result<
    Seq<(Seq<char>, AttributeV)>,
    Seq<char>,
>
    decreases entries.len(),
{
    if entries.len() == 0 {
        Ok(seq![])
    } else {
        match attribute_entries(entries.drop_last(), at) {
            Err(e) => Err(e),
            Ok(list) => {
                let e = entries.last();
                let p = child_text(at, e.key@);
                match e.value {
                    None => Err(unreadable(p, e.key@)),
                    Some(d) => match attribute_spec(d, p) {
                        Err(err) => Err(err),
                        Ok(a) => Ok(list.push((e.key@, a))),
                    },
                }
            },
        }
    }
}

/// The slot declarations of an object, in key order.
pub open spec fn slot_entries(entries: Seq<JsEntry>, at: Seq<char>) -> Result<
    Seq<(Seq<char>, SlotV)>,
    Seq<char>,
>
    decreases entries.len(),
{
    if entries.len() == 0 {
        Ok(seq![])
    } else {
        match slot_entries(entries.drop_last(), at) {
            Err(e) => Err(e),
            Ok(list) => {
                let e = entries.last();
                let p = child_text(at, e.key@);
                match e.value {
                    None => Err(unreadable(p, e.key@)),
                    Some(d) => match slot_spec(d, p) {
                        Err(err) => Err(err),
                        Ok(s) => Ok(list.push((e.key@, s))),
                    },
                }
            },
        }
    }
}

/// The `attributes` of a schema.
pub open spec fn attributes_spec(d: JsData, at: Seq<char>) -> Result<
    Seq<(Seq<char>, AttributeV)>,
    Seq<char>,
> {
    match as_object_spec(d, at) {
        Err(e) => Err(e),
        Ok(o) => attribute_entries(o.entries@, at),
    }
}

/// The `slots` of a schema.
pub open spec fn slots_spec(d: JsData, at: Seq<char>) -> Result<Seq<(Seq<char>, SlotV)>, Seq<char>> {
    match as_object_spec(d, at) {
        Err(e) => Err(e),
        Ok(o) => slot_entries(o.entries@, at),
    }
}

/// A list that may be absent, as a list.
pub open spec fn or_empty<T>(o: Option<Seq<T>>) -> Seq<T> {
    match o {
        Some(s) => s,
        None => seq![],
    }
}

/// A tag or node declaration.
#[verifier::opaque]
pub open spec fn schema_spec(d: JsData, at: Seq<char>, known: Seq<Seq<char>>) -> Result<SchemaV, Seq<char>> {
    match as_object_spec(d, at) {
        Err(e) => Err(e),
        Ok(o) => match unknown_key(o.entries@, schema_keys(), at) {
            Some(e) => Err(e),
            None => {
                let render = opt_field(o, "render"@, at, |d: JsData, p: Seq<char>| schema_render_spec(d, p));
                let children = opt_field(o, "children"@, at, |d: JsData, p: Seq<char>| children_spec(d, p, known));
                let attributes = opt_field(o, "attributes"@, at, |d: JsData, p: Seq<char>| attributes_spec(d, p));
                let slots = opt_field(o, "slots"@, at, |d: JsData, p: Seq<char>| slots_spec(d, p));
                let self_closing = opt_field(o, "selfClosing"@, at, |d: JsData, p: Seq<char>| boolean_spec(d, p));
                let inline = opt_field(o, "inline"@, at, |d: JsData, p: Seq<char>| boolean_spec(d, p));
                let description = opt_field(o, "description"@, at, |d: JsData, p: Seq<char>| string_spec(d, p));
                if render is Err {
                    Err(render->Err_0)
                } else if children is Err {
                    Err(children->Err_0)
                } else if attributes is Err {
                    Err(attributes->Err_0)
                } else if slots is Err {
                    Err(slots->Err_0)
                } else if self_closing is Err {
                    Err(self_closing->Err_0)
                } else if inline is Err {
                    Err(inline->Err_0)
                } else if description is Err {
                    Err(description->Err_0)
                } else {
                    Ok(SchemaV {
                        render: render->Ok_0,
                        children: children->Ok_0,
                        attributes: or_empty(attributes->Ok_0),
                        slots: or_empty(slots->Ok_0),
                        self_closing: self_closing->Ok_0,
                        inline: inline->Ok_0,
                        description: description->Ok_0,
                    })
                }
            },
        },
    }
}

/// The tag declarations of an object, in key order.
pub open spec fn tag_entries(entries: Seq<JsEntry>, at: Seq<char>, known: Seq<Seq<char>>) -> Result<
    Seq<(Seq<char>, SchemaV)>,
    Seq<char>,
>
    decreases entries.len(),
{
    if entries.len() == 0 {
        Ok(seq![])
    } else {
        match tag_entries(entries.drop_last(), at, known) {
            Err(e) => Err(e),
            Ok(list) => {
                let e = entries.last();
                let p = child_text(at, e.key@);
                match e.value {
                    None => Err(unreadable(p, e.key@)),
                    Some(d) => match schema_spec(d, p, known) {
                        Err(err) => Err(err),
                        Ok(s) => Ok(list.push((e.key@, s))),
                    },
                }
            },
        }
    }
}

/// The node declarations of an object, in key order, each under a known
/// node type.
pub open spec fn node_entries(entries: Seq<JsEntry>, at: Seq<char>, known: Seq<Seq<char>>) -> Result<
    Seq<(Seq<char>, SchemaV)>,
    Seq<char>,
>
    decreases entries.len(),
{
    if entries.len() == 0 {
        Ok(seq![])
    } else {
        match node_entries(entries.drop_last(), at, known) {
            Err(e) => Err(e),
            Ok(list) => {
                let e = entries.last();
                let p = child_text(at, e.key@);
                match node_type_spec(known, e.key@, p) {
                    Err(err) => Err(err),
                    Ok(node) => match e.value {
                        None => Err(unreadable(p, e.key@)),
                        Some(d) => match schema_spec(d, p, known) {
                            Err(err) => Err(err),
                            Ok(s) => Ok(list.push((node, s))),
                        },
                    },
                }
            },
        }
    }
}

/// The `tags` of a configuration.
#[verifier::opaque]
pub open spec fn tags_spec(d: JsData, at: Seq<char>, known: Seq<Seq<char>>) -> Result<
    Seq<(Seq<char>, SchemaV)>,
    Seq<char>,
> {
    match as_object_spec(d, at) {
        Err(e) => Err(e),
        Ok(o) => tag_entries(o.entries@, at, known),
    }
}

/// The `nodes` of a configuration.
#[verifier::opaque]
pub open spec fn nodes_spec(d: JsData, at: Seq<char>, known: Seq<Seq<char>>) -> Result<
    Seq<(Seq<char>, SchemaV)>,
    Seq<char>,
> {
    match as_object_spec(d, at) {
        Err(e) => Err(e),
        Ok(o) => node_entries(o.entries@, at, known),
    }
}

/// The `variables` of a configuration.
#[verifier::opaque]
pub open spec fn variables_spec(d: JsData, at: Seq<char>) -> Result<Seq<(Seq<char>, ValueV)>, Seq<char>> {
    match as_object_spec(d, at) {
        Err(e) => Err(e),
        Ok(o) => convert_variables(o.entries@, at),
    }
}

/// A host's declarations, given the names of the node types the engine
/// knows: nothing for `null` or `undefined`, otherwise each declaration
/// checked, the first problem refused with the path to it.
pub open spec fn build_spec(d: JsData, known: Seq<Seq<char>>) -> Result<DeclarationsV, Seq<char>> {
    let at = root_text();
    match d {
        JsData::Undefined => Ok(DeclarationsV { tags: seq![], nodes: seq![], variables: None }),
        JsData::Null => Ok(DeclarationsV { tags: seq![], nodes: seq![], variables: None }),
        _ => match as_object_spec(d, at) {
            Err(e) => Err(e),
            Ok(o) => match unknown_key(o.entries@, top_level_keys(), at) {
                Some(e) => Err(e),
                None => {
                    let tags = opt_field(o, "tags"@, at, |d: JsData, p: Seq<char>| tags_spec(d, p, known));
                    let nodes = opt_field(o, "nodes"@, at, |d: JsData, p: Seq<char>| nodes_spec(d, p, known));
                    let vars = opt_field(o, "variables"@, at, |d: JsData, p: Seq<char>| variables_spec(d, p));
                    if tags is Err {
                        Err(tags->Err_0)
                    } else if nodes is Err {
                        Err(nodes->Err_0)
                    } else if vars is Err {
                        Err(vars->Err_0)
                    } else {
                        Ok(DeclarationsV {
                            tags: or_empty(tags->Ok_0),
                            nodes: or_empty(nodes->Ok_0),
                            variables: vars->Ok_0,
                        })
                    }
                },
            },
        },
    }
}

// --- What each declared value becomes ------------------------------------

/// The spelling of an error level, as upstream writes it.
pub open spec fn level_name(l: ErrorLevel) -> Seq<char> {
    match l {
        ErrorLevel::Debug => "debug"@,
        ErrorLevel::Info => "info"@,
        ErrorLevel::Warning => "warning"@,
        ErrorLevel::Error => "error"@,
        ErrorLevel::Critical => "critical"@,
    }
}

/// An error level is read from its own name, and from nothing else: the
/// text "error" gives `Error`, "critical" gives `Critical`, and so on.
pub proof fn lemma_error_level_by_name(d: JsData, at: Seq<char>, l: ErrorLevel)
    ensures
        error_level_spec(d, at) == Ok::<ErrorLevel, Seq<char>>(l) <==> (d matches JsData::Text(s)
            && s@ == level_name(l)),
{
    reveal_strlit("debug");
    reveal_strlit("info");
    reveal_strlit("warning");
    reveal_strlit("error");
    reveal_strlit("critical");
    assert("debug"@[0] != "error"@[0]);
    assert("debug"@ != "error"@);
    assert("debug"@.len() != "info"@.len() && "debug"@.len() != "warning"@.len() && "debug"@.len() != "critical"@.len());
    assert("info"@.len() != "warning"@.len() && "info"@.len() != "error"@.len() && "info"@.len() != "critical"@.len());
    assert("warning"@.len() != "error"@.len() && "warning"@.len() != "critical"@.len() && "error"@.len() != "critical"@.len());
    match l {
        ErrorLevel::Debug => {},
        ErrorLevel::Info => {},
        ErrorLevel::Warning => {},
        ErrorLevel::Error => {},
        ErrorLevel::Critical => {},
    }
}

/// The name of a type that is not a union, as upstream writes it.
pub open spec fn declared_type_name(t: TypeV) -> Option<Seq<char>> {
    match t {
        TypeV::String => Some("String"@),
        TypeV::Number => Some("Number"@),
        TypeV::Boolean => Some("Boolean"@),
        TypeV::Object => Some("Object"@),
        TypeV::Array => Some("Array"@),
        TypeV::Union(_) => None,
    }
}

/// A type written as a name is the type of that name: "Array" gives
/// `Array`, "Object" gives `Object`, and so on; no other text gives a type.
pub proof fn lemma_attribute_type_by_name(s: String, at: Seq<char>, t: TypeV)
    ensures
        attribute_type_spec(JsData::Text(s), at) == Ok::<TypeV, Seq<char>>(t) <==> declared_type_name(t) == Some(
            s@,
        ),
{
    reveal_strlit("String");
    reveal_strlit("Number");
    reveal_strlit("Boolean");
    reveal_strlit("Object");
    reveal_strlit("Array");
    assert("String"@[0] != "Number"@[0] && "String"@ != "Number"@);
    assert("String"@[0] != "Object"@[0] && "String"@ != "Object"@);
    assert("Number"@[0] != "Object"@[0] && "Number"@ != "Object"@);
    assert("Boolean"@.len() != "String"@.len() && "Boolean"@.len() != "Array"@.len());
    assert("Array"@.len() != "String"@.len());
    match t {
        TypeV::String => {},
        TypeV::Number => {},
        TypeV::Boolean => {},
        TypeV::Object => {},
        TypeV::Array => {},
        TypeV::Union(_) => {},
    }
}

/// The members of a union, one per element, each the type its element
/// declares; and a union is accepted when each of its elements is.
pub proof fn lemma_union_of_members(items: Seq<JsData>, at: Seq<char>)
    ensures
        type_list_spec(items, at) matches Ok(ts) ==> {
            &&& ts.len() == items.len()
            &&& forall|i: int|
                0 <= i < items.len() ==> attribute_type_spec(#[trigger] items[i], element_path(at, i))
                    == Ok::<TypeV, Seq<char>>(ts[i])
        },
        (forall|i: int| 0 <= i < items.len() ==> (#[trigger] attribute_type_spec(items[i], element_path(at, i))) is Ok)
            ==> type_list_spec(items, at) is Ok,
    decreases items.len(),
{
    if items.len() > 0 {
        lemma_union_of_members(items.drop_last(), at);
        assert forall|i: int| 0 <= i < items.len() - 1 implies #[trigger] items.drop_last()[i] == items[i] by {}
        if let Ok(ts) = type_list_spec(items, at) {
            let prev = type_list_spec(items.drop_last(), at)->Ok_0;
            assert forall|i: int| 0 <= i < items.len() implies attribute_type_spec(#[trigger] items[i], element_path(at, i))
                == Ok::<TypeV, Seq<char>>(ts[i]) by {
                if i < items.len() - 1 {
                    assert(items.drop_last()[i] == items[i]);
                    assert(ts[i] == prev[i]);
                }
            }
        }
        if forall|i: int| 0 <= i < items.len() ==> (#[trigger] attribute_type_spec(items[i], element_path(at, i))) is Ok {
            assert forall|i: int| 0 <= i < items.len() - 1 implies (#[trigger] attribute_type_spec(items.drop_last()[i], element_path(at, i))) is Ok by {
                assert(items.drop_last()[i] == items[i]);
            }
            assert(attribute_type_spec(items[items.len() - 1], element_path(at, items.len() - 1)) is Ok);
        }
    }
}

/// The text of a value that is a string.
pub open spec fn text_of(d: JsData) -> Seq<char> {
    match d {
        JsData::Text(s) => s@,
        _ => seq![],
    }
}

/// The allowed children cross as declared: an array of known node type
/// names gives exactly those names, in order, an empty array giving none
/// allowed; anything else is refused.
pub proof fn lemma_children_as_declared(items: Seq<JsData>, at: Seq<char>, known: Seq<Seq<char>>)
    ensures
        child_list_spec(items, at, known) matches Ok(l) ==> {
            &&& l.len() == items.len()
            &&& forall|i: int|
                0 <= i < items.len() ==> (#[trigger] items[i]) is Text && l[i] == text_of(items[i])
                    && known.contains(l[i])
        },
        (forall|i: int| 0 <= i < items.len() ==> (#[trigger] items[i]) is Text && known.contains(text_of(items[i])))
            ==> child_list_spec(items, at, known) == Ok::<Seq<Seq<char>>, Seq<char>>(items.map_values(|d: JsData| text_of(d))),
    decreases items.len(),
{
    if items.len() > 0 {
        lemma_children_as_declared(items.drop_last(), at, known);
        assert forall|i: int| 0 <= i < items.len() - 1 implies #[trigger] items.drop_last()[i] == items[i] by {}
        if let Ok(l) = child_list_spec(items, at, known) {
            let prev = child_list_spec(items.drop_last(), at, known)->Ok_0;
            assert forall|i: int| 0 <= i < items.len() implies (#[trigger] items[i]) is Text && l[i] == text_of(items[i])
                && known.contains(l[i]) by {
                if i < items.len() - 1 {
                    assert(items.drop_last()[i] == items[i]);
                    assert(l[i] == prev[i]);
                }
            }
        }
        if forall|i: int| 0 <= i < items.len() ==> (#[trigger] items[i]) is Text && known.contains(text_of(items[i])) {
            assert forall|i: int| 0 <= i < items.len() - 1 implies (#[trigger] items.drop_last()[i]) is Text
                && known.contains(text_of(items.drop_last()[i])) by {
                assert(items.drop_last()[i] == items[i]);
            }
            assert(items[items.len() - 1] is Text);
            assert(items.drop_last().map_values(|d: JsData| text_of(d)).push(text_of(items.last()))
                =~= items.map_values(|d: JsData| text_of(d)));
        }
    } else {
        assert(items.map_values(|d: JsData| text_of(d)) =~= Seq::<Seq<char>>::empty());
    }
}

/// The acceptable values of `matches` cross as declared: an array of
/// strings gives exactly those strings, in order; anything else is refused.
pub proof fn lemma_matches_as_declared(items: Seq<JsData>, at: Seq<char>)
    ensures
        text_list_spec(items, at) matches Ok(l) ==> {
            &&& l.len() == items.len()
            &&& forall|i: int| 0 <= i < items.len() ==> (#[trigger] items[i]) is Text && l[i] == text_of(items[i])
        },
        (forall|i: int| 0 <= i < items.len() ==> (#[trigger] items[i]) is Text) ==> text_list_spec(items, at)
            == Ok::<Seq<Seq<char>>, Seq<char>>(items.map_values(|d: JsData| text_of(d))),
    decreases items.len(),
{
    if items.len() > 0 {
        lemma_matches_as_declared(items.drop_last(), at);
        assert forall|i: int| 0 <= i < items.len() - 1 implies #[trigger] items.drop_last()[i] == items[i] by {}
        if let Ok(l) = text_list_spec(items, at) {
            let prev = text_list_spec(items.drop_last(), at)->Ok_0;
            assert forall|i: int| 0 <= i < items.len() implies (#[trigger] items[i]) is Text && l[i] == text_of(items[i]) by {
                if i < items.len() - 1 {
                    assert(items.drop_last()[i] == items[i]);
                    assert(l[i] == prev[i]);
                }
            }
        }
        if forall|i: int| 0 <= i < items.len() ==> (#[trigger] items[i]) is Text {
            assert forall|i: int| 0 <= i < items.len() - 1 implies (#[trigger] items.drop_last()[i]) is Text by {
                assert(items.drop_last()[i] == items[i]);
            }
            assert(items[items.len() - 1] is Text);
            assert(items.drop_last().map_values(|d: JsData| text_of(d)).push(text_of(items.last()))
                =~= items.map_values(|d: JsData| text_of(d)));
        }
    } else {
        assert(items.map_values(|d: JsData| text_of(d)) =~= Seq::<Seq<char>>::empty());
    }
}

/// A flag is the boolean written, a description the string written, and a
/// render policy is `Named` for `true`, `Hidden` for `false` and `Renamed`
/// to the name for a string; a schema's render is no element for `false`
/// and the element named for a string. Nothing else is accepted.
pub proof fn lemma_scalars_as_declared(d: JsData, at: Seq<char>)
    ensures
        boolean_spec(d, at) is Ok <==> d is Bool,
        d matches JsData::Bool(b) ==> boolean_spec(d, at) == Ok::<bool, Seq<char>>(b),
        string_spec(d, at) is Ok <==> d is Text,
        d matches JsData::Text(s) ==> string_spec(d, at) == Ok::<Seq<char>, Seq<char>>(s@),
        render_policy_spec(d, at) is Ok <==> (d is Bool || d is Text),
        d == JsData::Bool(true) ==> render_policy_spec(d, at) == Ok::<RenderV, Seq<char>>(RenderV::Named),
        d == JsData::Bool(false) ==> render_policy_spec(d, at) == Ok::<RenderV, Seq<char>>(RenderV::Hidden),
        d matches JsData::Text(s) ==> render_policy_spec(d, at) == Ok::<RenderV, Seq<char>>(RenderV::Renamed(s@)),
        schema_render_spec(d, at) is Ok <==> (d == JsData::Bool(false) || d is Text),
        d == JsData::Bool(false) ==> schema_render_spec(d, at) == Ok::<Option<Seq<char>>, Seq<char>>(None),
        d matches JsData::Text(s) ==> schema_render_spec(d, at) == Ok::<Option<Seq<char>>, Seq<char>>(Some(s@)),
{
}

/// What a declaration holds under a field: nothing when the field is
/// absent, else what converting the field's value gives, which must have
/// accepted it.
pub open spec fn crosses<T>(
    read: Result<Option<JsData>, Seq<char>>,
    got: Option<T>,
    converted: spec_fn(JsData) -> Result<T, Seq<char>>,
) -> bool {
    match read {
        Ok(None) => got is None,
        Ok(Some(x)) => got is Some && converted(x) == Ok::<T, Seq<char>>(got->Some_0),
        Err(_) => false,
    }
}

/// Every own key of `o` is among `allowed`.
pub open spec fn only_keys(o: JsObject, allowed: Seq<Seq<char>>) -> bool {
    forall|i: int| 0 <= i < o.entries@.len() ==> allowed.contains(#[trigger] o.entries@[i].key@)
}

/// Nothing unknown is found where every key is allowed.
proof fn lemma_no_unknown_key(entries: Seq<JsEntry>, allowed: Seq<Seq<char>>, at: Seq<char>)
    ensures
        unknown_key(entries, allowed, at) is None <==> forall|i: int| 0 <= i < entries.len() ==> allowed.contains(
            #[trigger] entries[i].key@,
        ),
    decreases entries.len(),
{
    if entries.len() > 0 {
        lemma_no_unknown_key(entries.drop_first(), allowed, at);
        assert forall|i: int| 0 <= i < entries.len() - 1 implies #[trigger] entries.drop_first()[i] == entries[i + 1] by {}
        if forall|i: int| 0 <= i < entries.len() ==> allowed.contains(#[trigger] entries[i].key@) {
            assert forall|i: int| 0 <= i < entries.drop_first().len() implies allowed.contains(#[trigger] entries.drop_first()[i].key@) by {
                assert(entries.drop_first()[i] == entries[i + 1]);
            }
        }
        if unknown_key(entries, allowed, at) is None {
            assert forall|i: int| 0 <= i < entries.len() implies allowed.contains(#[trigger] entries[i].key@) by {
                if i > 0 {
                    assert(entries.drop_first()[i - 1] == entries[i]);
                }
            }
        }
    }
}

/// An attribute declaration crosses field by field: each field of the
/// result is its field's value converted, and nothing where the field is
/// absent; every key it carries is one an attribute may carry.
pub proof fn lemma_attribute_as_declared(d: JsData, at: Seq<char>)
    ensures
        attribute_spec(d, at) matches Ok(a) ==> d matches JsData::Object(o) && {
            &&& only_keys(o, attribute_keys())
            &&& crosses(property_spec(o, "type"@, at), a.attribute_type, |x: JsData| attribute_type_spec(x, child_text(at, "type"@)))
            &&& crosses(property_spec(o, "default"@, at), a.default, |x: JsData| convert(x, child_text(at, "default"@)))
            &&& crosses(property_spec(o, "required"@, at), a.required, |x: JsData| boolean_spec(x, child_text(at, "required"@)))
            &&& crosses(property_spec(o, "matches"@, at), a.matches, |x: JsData| matches_spec(x, child_text(at, "matches"@)))
            &&& crosses(property_spec(o, "render"@, at), a.render, |x: JsData| render_policy_spec(x, child_text(at, "render"@)))
            &&& crosses(property_spec(o, "errorLevel"@, at), a.error_level, |x: JsData| error_level_spec(x, child_text(at, "errorLevel"@)))
            &&& crosses(property_spec(o, "description"@, at), a.description, |x: JsData| string_spec(x, child_text(at, "description"@)))
        },
{
    reveal(attribute_spec);
    if let JsData::Object(o) = d {
        lemma_no_unknown_key(o.entries@, attribute_keys(), at);
    }
}

/// The level a declaration names is the level its attribute gets: for
/// `errorLevel: "error"` the attribute's level is `Error`.
pub proof fn lemma_attribute_level_by_name(d: JsData, at: Seq<char>, l: ErrorLevel)
    requires
        d matches JsData::Object(o) && property_spec(o, "errorLevel"@, at) matches Ok(Some(x)) && x matches JsData::Text(s)
            && s@ == level_name(l),
    ensures
        attribute_spec(d, at) matches Ok(a) ==> a.error_level == Some(l),
{
    lemma_attribute_as_declared(d, at);
    let x = property_spec(d->Object_0, "errorLevel"@, at)->Ok_0->Some_0;
    lemma_error_level_by_name(x, child_text(at, "errorLevel"@), l);
}

/// The type a declaration names is the type its attribute gets: for
/// `type: "Array"` the attribute's type is `Array`.
pub proof fn lemma_attribute_type_as_named(d: JsData, at: Seq<char>, t: TypeV)
    requires
        d matches JsData::Object(o) && property_spec(o, "type"@, at) matches Ok(Some(x)) && x matches JsData::Text(s)
            && declared_type_name(t) == Some(s@),
    ensures
        attribute_spec(d, at) matches Ok(a) ==> a.attribute_type == Some(t),
{
    lemma_attribute_as_declared(d, at);
    let x = property_spec(d->Object_0, "type"@, at)->Ok_0->Some_0;
    lemma_attribute_type_by_name(x->Text_0, child_text(at, "type"@), t);
}

/// A slot declaration crosses field by field.
pub proof fn lemma_slot_as_declared(d: JsData, at: Seq<char>)
    ensures
        slot_spec(d, at) matches Ok(sl) ==> d matches JsData::Object(o) && {
            &&& only_keys(o, slot_keys())
            &&& crosses(property_spec(o, "render"@, at), sl.render, |x: JsData| render_policy_spec(x, child_text(at, "render"@)))
            &&& crosses(property_spec(o, "required"@, at), sl.required, |x: JsData| boolean_spec(x, child_text(at, "required"@)))
        },
{
    reveal(slot_spec);
    if let JsData::Object(o) = d {
        lemma_no_unknown_key(o.entries@, slot_keys(), at);
    }
}

/// A list that is present as what it converted to, and empty when absent.
pub open spec fn crosses_list<T>(
    read: Result<Option<JsData>, Seq<char>>,
    got: Seq<T>,
    converted: spec_fn(JsData) -> Result<Option<Seq<T>>, Seq<char>>,
) -> bool {
    match read {
        Ok(None) => got.len() == 0,
        Ok(Some(x)) => converted(x) == Ok::<Option<Seq<T>>, Seq<char>>(Some(got)),
        Err(_) => false,
    }
}

/// A tag or node declaration crosses field by field: its render, its
/// allowed children (an empty array allowing none, an absent one leaving
/// them open), its attributes and slots, and its flags and description.
pub proof fn lemma_schema_as_declared(d: JsData, at: Seq<char>, known: Seq<Seq<char>>)
    ensures
        schema_spec(d, at, known) matches Ok(sc) ==> d matches JsData::Object(o) && {
            &&& only_keys(o, schema_keys())
            &&& crosses(property_spec(o, "render"@, at), sc.render, |x: JsData| schema_render_spec(x, child_text(at, "render"@)))
            &&& crosses(property_spec(o, "children"@, at), sc.children, |x: JsData| children_spec(x, child_text(at, "children"@), known))
            &&& crosses_list(property_spec(o, "attributes"@, at), sc.attributes, |x: JsData| match attributes_spec(x, child_text(at, "attributes"@)) {
                Ok(l) => Ok(Some(l)),
                Err(e) => Err(e),
            })
            &&& crosses_list(property_spec(o, "slots"@, at), sc.slots, |x: JsData| match slots_spec(x, child_text(at, "slots"@)) {
                Ok(l) => Ok(Some(l)),
                Err(e) => Err(e),
            })
            &&& crosses(property_spec(o, "selfClosing"@, at), sc.self_closing, |x: JsData| boolean_spec(x, child_text(at, "selfClosing"@)))
            &&& crosses(property_spec(o, "inline"@, at), sc.inline, |x: JsData| boolean_spec(x, child_text(at, "inline"@)))
            &&& crosses(property_spec(o, "description"@, at), sc.description, |x: JsData| string_spec(x, child_text(at, "description"@)))
        },
{
    reveal(schema_spec);
    if let JsData::Object(o) = d {
        lemma_no_unknown_key(o.entries@, schema_keys(), at);
    }
}

/// A `children` array of known names is exactly the schema's children: for
/// `children: []` no child type is allowed, which is not the same as
/// leaving children open.
pub proof fn lemma_schema_children_as_declared(d: JsData, at: Seq<char>, known: Seq<Seq<char>>)
    requires
        d matches JsData::Object(o) && property_spec(o, "children"@, at) matches Ok(Some(x)) && x matches JsData::Array(
            items,
        ) && forall|i: int| 0 <= i < items@.len() ==> (#[trigger] items@[i]) is Text && known.contains(text_of(items@[i])),
    ensures
        schema_spec(d, at, known) matches Ok(sc) ==> sc.children == Some(
            property_spec(d->Object_0, "children"@, at)->Ok_0->Some_0->Array_0@.map_values(
                |e: JsData| text_of(e),
            ),
        ),
{
    lemma_schema_as_declared(d, at, known);
    let x = property_spec(d->Object_0, "children"@, at)->Ok_0->Some_0;
    lemma_children_as_declared(x->Array_0@, child_text(at, "children"@), known);
}

/// Each declaration of a list is its value converted, under its key, in
/// the order the keys were written.
pub open spec fn each_declared<T>(
    entries: Seq<JsEntry>,
    list: Seq<(Seq<char>, T)>,
    at: Seq<char>,
    conv: spec_fn(JsData, Seq<char>) -> Result<T, Seq<char>>,
) -> bool {
    &&& list.len() == entries.len()
    &&& forall|i: int|
        0 <= i < list.len() ==> {
            &&& (#[trigger] list[i]).0 == entries[i].key@
            &&& entries[i].value is Some
            &&& conv(entries[i].value->Some_0, child_text(at, entries[i].key@)) == Ok::<T, Seq<char>>(
                list[i].1,
            )
        }
}

/// A list built one declaration at a time, each its value converted, holds
/// each declaration converted.
proof fn lemma_each_declared<T>(
    f: spec_fn(Seq<JsEntry>) -> Result<Seq<(Seq<char>, T)>, Seq<char>>,
    conv: spec_fn(JsData, Seq<char>) -> Result<T, Seq<char>>,
    entries: Seq<JsEntry>,
    at: Seq<char>,
)
    requires
        f(Seq::<JsEntry>::empty()) matches Ok(l) ==> l.len() == 0,
        forall|t: Seq<JsEntry>|
            t.len() > 0 && (#[trigger] f(t)) is Ok ==> {
                &&& f(t.drop_last()) is Ok
                &&& t.last().value is Some
                &&& conv(t.last().value->Some_0, child_text(at, t.last().key@)) is Ok
                &&& f(t)->Ok_0 == f(t.drop_last())->Ok_0.push(
                    (t.last().key@, conv(t.last().value->Some_0, child_text(at, t.last().key@))->Ok_0),
                )
            },
    ensures
        f(entries) matches Ok(l) ==> each_declared(entries, l, at, conv),
    decreases entries.len(),
{
    if entries.len() == 0 {
        assert(entries =~= Seq::<JsEntry>::empty());
    } else if f(entries) is Ok {
        lemma_each_declared(f, conv, entries.drop_last(), at);
        let l = f(entries)->Ok_0;
        let prev = f(entries.drop_last())->Ok_0;
        assert forall|i: int| 0 <= i < l.len() implies {
            &&& (#[trigger] l[i]).0 == entries[i].key@
            &&& entries[i].value is Some
            &&& conv(entries[i].value->Some_0, child_text(at, entries[i].key@)) == Ok::<T, Seq<char>>(l[i].1)
        } by {
            if i < l.len() - 1 {
                assert(l[i] == prev[i]);
                assert(entries.drop_last()[i] == entries[i]);
            }
        }
    }
}

/// Each attribute of a schema is its declaration converted, under its name,
/// in the order written.
pub proof fn lemma_attributes_as_declared(entries: Seq<JsEntry>, at: Seq<char>)
    ensures
        attribute_entries(entries, at) matches Ok(l) ==> each_declared(entries, l, at, |x: JsData, p: Seq<char>| attribute_spec(x, p)),
{
    lemma_each_declared(|t: Seq<JsEntry>| attribute_entries(t, at), |x: JsData, p: Seq<char>| attribute_spec(x, p), entries, at);
}

/// Each slot of a schema is its declaration converted, under its name, in
/// the order written.
pub proof fn lemma_slots_as_declared(entries: Seq<JsEntry>, at: Seq<char>)
    ensures
        slot_entries(entries, at) matches Ok(l) ==> each_declared(entries, l, at, |x: JsData, p: Seq<char>| slot_spec(x, p)),
{
    lemma_each_declared(|t: Seq<JsEntry>| slot_entries(t, at), |x: JsData, p: Seq<char>| slot_spec(x, p), entries, at);
}

/// Each tag is its declaration converted, under its name, in the order
/// written.
pub proof fn lemma_tags_as_declared(entries: Seq<JsEntry>, at: Seq<char>, known: Seq<Seq<char>>)
    ensures
        tag_entries(entries, at, known) matches Ok(l) ==> each_declared(entries, l, at, |x: JsData, p: Seq<char>| schema_spec(x, p, known)),
{
    lemma_each_declared(|t: Seq<JsEntry>| tag_entries(t, at, known), |x: JsData, p: Seq<char>| schema_spec(x, p, known), entries, at);
}

/// Each node declaration is its value converted, under a known node type
/// of the name written, in the order written.
pub proof fn lemma_nodes_as_declared(entries: Seq<JsEntry>, at: Seq<char>, known: Seq<Seq<char>>)
    ensures
        node_entries(entries, at, known) matches Ok(l) ==> {
            &&& each_declared(entries, l, at, |x: JsData, p: Seq<char>| schema_spec(x, p, known))
            &&& forall|i: int| 0 <= i < l.len() ==> known.contains((#[trigger] l[i]).0)
        },
    decreases entries.len(),
{
    lemma_each_declared(|t: Seq<JsEntry>| node_entries(t, at, known), |x: JsData, p: Seq<char>| schema_spec(x, p, known), entries, at);
    if entries.len() > 0 {
        lemma_nodes_as_declared(entries.drop_last(), at, known);
        if let Ok(l) = node_entries(entries, at, known) {
            let prev = node_entries(entries.drop_last(), at, known)->Ok_0;
            assert forall|i: int| 0 <= i < l.len() implies known.contains((#[trigger] l[i]).0) by {
                if i < l.len() - 1 {
                    assert(l[i] == prev[i]);
                }
            }
        }
    }
}

/// A host's declarations cross as written: nothing for `null` or
/// `undefined`; otherwise only the keys `tags`, `nodes` and `variables`,
/// the tags and nodes the lists their objects convert to (empty where
/// absent), and the variables what their object converts to (none where
/// absent).
pub proof fn lemma_build_as_declared(d: JsData, known: Seq<Seq<char>>)
    ensures
        build_spec(d, known) matches Ok(r) ==> {
            &&& (d is Undefined || d is Null) ==> r.tags.len() == 0 && r.nodes.len() == 0 && r.variables is None
            &&& d matches JsData::Object(o) ==> {
                &&& only_keys(o, top_level_keys())
                &&& crosses_list(property_spec(o, "tags"@, root_text()), r.tags, |x: JsData| match tags_spec(x, child_text(root_text(), "tags"@), known) {
                    Ok(l) => Ok(Some(l)),
                    Err(e) => Err(e),
                })
                &&& crosses_list(property_spec(o, "nodes"@, root_text()), r.nodes, |x: JsData| match nodes_spec(x, child_text(root_text(), "nodes"@), known) {
                    Ok(l) => Ok(Some(l)),
                    Err(e) => Err(e),
                })
                &&& crosses(property_spec(o, "variables"@, root_text()), r.variables, |x: JsData| variables_spec(x, child_text(root_text(), "variables"@)))
            }
        },
{
    if let JsData::Object(o) = d {
        lemma_no_unknown_key(o.entries@, top_level_keys(), root_text());
    }
}

/// The tags of a configuration are the declarations of its `tags` object,
/// each converted, in order; likewise its nodes and its variables.
pub proof fn lemma_groups_as_declared(d: JsData, at: Seq<char>, known: Seq<Seq<char>>)
    ensures
        tags_spec(d, at, known) matches Ok(l) ==> d matches JsData::Object(o) && each_declared(o.entries@, l, at, |x: JsData, p: Seq<char>| schema_spec(x, p, known)),
        nodes_spec(d, at, known) matches Ok(l) ==> d matches JsData::Object(o) && each_declared(o.entries@, l, at, |x: JsData, p: Seq<char>| schema_spec(x, p, known)),
        variables_spec(d, at) matches Ok(l) ==> d matches JsData::Object(o) && convert_variables(o.entries@, at) == Ok::<Seq<(Seq<char>, ValueV)>, Seq<char>>(l),
        attributes_spec(d, at) matches Ok(l) ==> d matches JsData::Object(o) && each_declared(o.entries@, l, at, |x: JsData, p: Seq<char>| attribute_spec(x, p)),
        slots_spec(d, at) matches Ok(l) ==> d matches JsData::Object(o) && each_declared(o.entries@, l, at, |x: JsData, p: Seq<char>| slot_spec(x, p)),
{
    reveal(tags_spec);
    reveal(nodes_spec);
    reveal(variables_spec);
    if let JsData::Object(o) = d {
        lemma_tags_as_declared(o.entries@, at, known);
        lemma_nodes_as_declared(o.entries@, at, known);
        lemma_attributes_as_declared(o.entries@, at);
        lemma_slots_as_declared(o.entries@, at);
    }
}

/// A property is absent when reading it finds nothing or `undefined`, is
/// refused when the read threw, and is otherwise the value read.
pub proof fn lemma_property_as_read(o: JsObject, key: Seq<char>, at: Seq<char>)
    ensures
        property_spec(o, key, at) == Ok::<Option<JsData>, Seq<char>>(None) <==> (read_field(o, key) is None
            || read_field(o, key)->Some_0.value == Some(JsData::Undefined)),
        property_spec(o, key, at) is Err <==> (read_field(o, key) matches Some(e) && e.value is None),
        forall|x: JsData|
            property_spec(o, key, at) == Ok::<Option<JsData>, Seq<char>>(Some(x)) <==> (read_field(o, key) matches Some(e)
                && e.value == Some(x) && !(x is Undefined)),
{
}

// --- Reading, with the path attached ----------------------------------------

/// A message: the path, then what is wrong there.
fn message(at: &Path, text: &str) -> (m: String)
    ensures
        m@ == at@ + text@,
{
    let mut m = String::from_str(at.as_str());
    m.append(text);
    m
}

/// Whether a string is the given text.
fn is_text(s: &String, text: &str) -> (same: bool)
    ensures
        same == (s@ == text@),
{
    let t = String::from_str(text);
    *s == t
}

/// Whether a list holds the given text.
fn contains_text(list: &Vec<String>, s: &String) -> (found: bool)
    ensures
        found == texts(list@).contains(s@),
{
    let n = list.len();
    for i in 0..n
        invariant
            n == list@.len(),
            forall|j: int| 0 <= j < i ==> texts(list@)[j] != s@,
    {
        if list[i] == *s {
            assert(texts(list@)[i as int] == s@);
            return true;
        }
    }
    false
}

/// The value as an object, or a message saying it is not one.
fn as_object<'a>(d: &'a JsData, at: &Path) -> (result: Result<&'a JsObject, String>)
    ensures
        match result {
            Ok(o) => as_object_spec(*d, at@) == Ok::<JsObject, Seq<char>>(*o),
            Err(e) => as_object_spec(*d, at@) == Err::<JsObject, Seq<char>>(e@),
        },
{
    match d {
        JsData::Object(o) => Ok(o),
        _ => Err(message(at, ": expected an object")),
    }
}

/// Past the first `i` entries, none of which is under `key`, the lookup is
/// the same.
proof fn lemma_lookup_skip(entries: Seq<JsEntry>, key: Seq<char>, i: int)
    requires
        0 <= i <= entries.len(),
        forall|j: int| 0 <= j < i ==> (#[trigger] entries[j]).key@ != key,
    ensures
        lookup(entries, key) == lookup(entries.skip(i), key),
    decreases i,
{
    if i > 0 {
        assert(entries.drop_first().skip(i - 1) =~= entries.skip(i));
        assert forall|j: int| 0 <= j < i - 1 implies (#[trigger] entries.drop_first()[j]).key@ != key by {
            assert(entries.drop_first()[j] == entries[j + 1]);
        }
        lemma_lookup_skip(entries.drop_first(), key, i - 1);
        assert(entries[0].key@ != key);
    } else {
        assert(entries.skip(0) =~= entries);
    }
}

/// The first entry under `key`.
fn find<'a>(list: &'a Vec<JsEntry>, key: &String) -> (found: Option<&'a JsEntry>)
    ensures
        match found {
            Some(e) => lookup(list@, key@) == Some(*e),
            None => lookup(list@, key@) is None,
        },
{
    let n = list.len();
    let mut i: usize = 0;
    while i < n
        invariant
            n == list@.len(),
            0 <= i <= n,
            forall|j: int| 0 <= j < i ==> (#[trigger] list@[j]).key@ != key@,
        decreases n - i,
    {
        if list[i].key == *key {
            proof {
                lemma_lookup_skip(list@, key@, i as int);
                assert(list@.skip(i as int)[0] == list@[i as int]);
            }
            return Some(&list[i]);
        }
        i = i + 1;
    }
    proof {
        lemma_lookup_skip(list@, key@, n as int);
        assert(list@.skip(n as int) =~= Seq::<JsEntry>::empty());
    }
    None
}

/// One property, or `None` when it is absent or `undefined`.
fn property<'a>(object: &'a JsObject, key: &str, at: &Path) -> (result: Result<Option<&'a JsData>, String>)
    ensures
        match result {
            Ok(Some(d)) => property_spec(*object, key@, at@) == Ok::<Option<JsData>, Seq<char>>(Some(*d)),
            Ok(None) => property_spec(*object, key@, at@) == Ok::<Option<JsData>, Seq<char>>(None),
            Err(e) => property_spec(*object, key@, at@) == Err::<Option<JsData>, Seq<char>>(e@),
        },
{
    let wanted = String::from_str(key);
    let found = match find(&object.entries, &wanted) {
        Some(e) => Some(e),
        None => find(&object.fields, &wanted),
    };
    match found {
        None => Ok(None),
        Some(e) => match &e.value {
            None => Err(unreadable_message(at, key)),
            Some(JsData::Undefined) => Ok(None),
            Some(d) => Ok(Some(d)),
        },
    }
}

/// Why a key is refused.
fn refusal(key: &String) -> (reason: String)
    ensures
        reason@ == refusal_reason(key@),
{
    if is_text(key, "transform") || is_text(key, "validate") {
        String::from_str(
            " -- a hook is code, and code does not cross into WebAssembly. Declare what you can and leave the rest to the server, which sees the whole document",
        )
    } else if is_text(key, "functions") {
        String::from_str(
            " -- a function is code. Markdoc's own are already present; a host's own cannot cross",
        )
    } else if is_text(key, "partials") {
        String::from_str(
            " -- partials are not supported yet: a parsed partial borrows its source, and holding both across the boundary needs a design this does not have",
        )
    } else {
        String::new()
    }
}

/// Refuse a key that is not allowed, naming it and saying why.
fn reject_unknown(object: &JsObject, allowed: &Vec<String>, at: &Path) -> (result: Result<(), String>)
    ensures
        match result {
            Ok(_) => unknown_key(object.entries@, texts(allowed@), at@) is None,
            Err(e) => unknown_key(object.entries@, texts(allowed@), at@) == Some(e@),
        },
{
    let entries = &object.entries;
    let n = entries.len();
    let mut i: usize = 0;
    assert(entries@.skip(0) =~= entries@);
    while i < n
        invariant
            n == entries@.len(),
            entries@ == object.entries@,
            0 <= i <= n,
            unknown_key(entries@, texts(allowed@), at@) == unknown_key(entries@.skip(i as int), texts(allowed@), at@),
        decreases n - i,
    {
        let key = &entries[i].key;
        proof {
            assert(entries@.skip(i as int)[0] == entries@[i as int]);
            assert(entries@.skip(i as int).drop_first() =~= entries@.skip(i + 1));
        }
        if !contains_text(allowed, key) {
            let mut m = String::from_str(at.child(key.as_str()).as_str());
            m.append(": unrecognised key");
            let reason = refusal(key);
            m.append(reason.as_str());
            m.append(". Expected one of ");
            let list = join(allowed, ", ");
            m.append(list.as_str());
            return Err(m);
        }
        i = i + 1;
    }
    assert(entries@.skip(n as int) =~= Seq::<JsEntry>::empty());
    Ok(())
}

/// The keys a configuration may carry.
fn top_level_list() -> (list: Vec<String>)
    ensures
        texts(list@) == top_level_keys(),
{
    let list = vec![String::from_str("tags"), String::from_str("nodes"), String::from_str("variables")];
    assert(texts(list@) =~= top_level_keys());
    list
}

/// The keys a schema may carry.
fn schema_list() -> (list: Vec<String>)
    ensures
        texts(list@) == schema_keys(),
{
    let list = vec![
        String::from_str("render"),
        String::from_str("children"),
        String::from_str("attributes"),
        String::from_str("slots"),
        String::from_str("selfClosing"),
        String::from_str("inline"),
        String::from_str("description"),
    ];
    assert(texts(list@) =~= schema_keys());
    list
}

/// The keys an attribute declaration may carry.
fn attribute_list() -> (list: Vec<String>)
    ensures
        texts(list@) == attribute_keys(),
{
    let list = vec![
        String::from_str("type"),
        String::from_str("default"),
        String::from_str("required"),
        String::from_str("matches"),
        String::from_str("render"),
        String::from_str("errorLevel"),
        String::from_str("description"),
    ];
    assert(texts(list@) =~= attribute_keys());
    list
}

/// The names a declaration is read for, which a host reads on each object
/// it hands over (see `JsObject::fields`).
pub fn field_names() -> (names: Vec<String>)
    ensures
        texts(names@) == field_names_spec(),
{
    let mut names = top_level_list();
    let mut more = schema_list();
    names.append(&mut more);
    let mut rest = vec![
        String::from_str("type"),
        String::from_str("default"),
        String::from_str("required"),
        String::from_str("matches"),
        String::from_str("errorLevel"),
    ];
    names.append(&mut rest);
    assert(texts(names@) =~= field_names_spec());
    names
}

/// The keys a slot declaration may carry.
fn slot_list() -> (list: Vec<String>)
    ensures
        texts(list@) == slot_keys(),
{
    let list = vec![String::from_str("render"), String::from_str("required")];
    assert(texts(list@) =~= slot_keys());
    list
}

// --- Converting declarations -----------------------------------------------

/// A render policy: `true`, `false`, or a name to render under.
fn render_policy(d: &JsData, at: &Path) -> (result: Result<RenderPolicy, String>)
    ensures
        match result {
            Ok(r) => render_policy_spec(*d, at@) == Ok::<RenderV, Seq<char>>(render_view(r)),
            Err(e) => render_policy_spec(*d, at@) == Err::<RenderV, Seq<char>>(e@),
        },
{
    match d {
        JsData::Bool(flag) => Ok(
            if *flag {
                RenderPolicy::Named
            } else {
                RenderPolicy::Hidden
            },
        ),
        JsData::Text(name) => Ok(RenderPolicy::Renamed(name.clone())),
        _ => Err(message(at, ": expected true, false, or a name to render under")),
    }
}

/// The value as a boolean.
fn boolean(d: &JsData, at: &Path) -> (result: Result<bool, String>)
    ensures
        match result {
            Ok(b) => boolean_spec(*d, at@) == Ok::<bool, Seq<char>>(b),
            Err(e) => boolean_spec(*d, at@) == Err::<bool, Seq<char>>(e@),
        },
{
    match d {
        JsData::Bool(flag) => Ok(*flag),
        _ => Err(message(at, ": expected true or false")),
    }
}

/// The value as a string.
fn string(d: &JsData, at: &Path) -> (result: Result<String, String>)
    ensures
        match result {
            Ok(s) => string_spec(*d, at@) == Ok::<Seq<char>, Seq<char>>(s@),
            Err(e) => string_spec(*d, at@) == Err::<Seq<char>, Seq<char>>(e@),
        },
{
    match d {
        JsData::Text(text) => Ok(text.clone()),
        _ => Err(message(at, ": expected a string")),
    }
}

/// An error level by its upstream spelling.
fn error_level(d: &JsData, at: &Path) -> (result: Result<ErrorLevel, String>)
    ensures
        match result {
            Ok(l) => error_level_spec(*d, at@) == Ok::<ErrorLevel, Seq<char>>(l),
            Err(e) => error_level_spec(*d, at@) == Err::<ErrorLevel, Seq<char>>(e@),
        },
{
    if let JsData::Text(text) = d {
        if is_text(text, "debug") {
            return Ok(ErrorLevel::Debug);
        } else if is_text(text, "info") {
            return Ok(ErrorLevel::Info);
        } else if is_text(text, "warning") {
            return Ok(ErrorLevel::Warning);
        } else if is_text(text, "error") {
            return Ok(ErrorLevel::Error);
        } else if is_text(text, "critical") {
            return Ok(ErrorLevel::Critical);
        }
    }
    Err(message(at, ": expected one of debug, info, warning, error, critical"))
}

/// A `matches` declaration: an array of acceptable strings. A regular
/// expression is refused: it is code.
fn matches(d: &JsData, at: &Path) -> (result: Result<Vec<String>, String>)
    ensures
        match result {
            Ok(list) => matches_spec(*d, at@) == Ok::<Seq<Seq<char>>, Seq<char>>(texts(list@)),
            Err(e) => matches_spec(*d, at@) == Err::<Seq<Seq<char>>, Seq<char>>(e@),
        },
{
    let items = match d {
        JsData::Array(items) => items,
        _ => {
            return Err(
                message(
                    at,
                    ": expected an array of acceptable values. A regular expression is not supported here: the engine carries no regular expression engine on purpose, and a host pattern is code that cannot cross into WebAssembly",
                ),
            );
        },
    };
    let mut accepted: Vec<String> = Vec::new();
    let n = items.len();
    assert(items@.take(0) =~= Seq::<JsData>::empty());
    assert(texts(accepted@) =~= Seq::<Seq<char>>::empty());
    for i in 0..n
        invariant
            n == items@.len(),
            *d == JsData::Array(*items),
            text_list_spec(items@.take(i as int), at@) == Ok::<Seq<Seq<char>>, Seq<char>>(texts(accepted@)),
    {
        proof {
            assert(items@.take(i + 1).drop_last() =~= items@.take(i as int));
            assert(items@.take(i + 1).last() == items@[i as int]);
        }
        match &items[i] {
            JsData::Text(text) => {
                let ghost before = accepted@;
                accepted.push(text.clone());
                assert(texts(accepted@) =~= texts(before).push(text@));
            },
            _ => {
                let m = message(&at.index(js_index(i)), ": expected a string");
                proof {
                    lemma_first_refusal_decides(
                        |t: Seq<JsData>| text_list_spec(t, at@),
                        items@,
                        i + 1,
                    );
                }
                return Err(m);
            },
        }
    }
    assert(items@.take(n as int) =~= items@);
    Ok(accepted)
}


/// An attribute type: a name, or an array of them for a union. A custom
/// type is a function, which is code, and is refused.
fn attribute_type(d: &JsData, at: &Path) -> (result: Result<ValidationType, String>)
    ensures
        match result {
            Ok(t) => attribute_type_spec(*d, at@) == Ok::<TypeV, Seq<char>>(type_view(t)),
            Err(e) => attribute_type_spec(*d, at@) == Err::<TypeV, Seq<char>>(e@),
        },
    decreases *d,
{
    match d {
        JsData::Array(items) => {
            let mut union: Vec<ValidationType> = Vec::new();
            let n = items.len();
            for i in 0..n
                invariant
                    n == items@.len(),
                    *d == JsData::Array(*items),
                    type_list_spec(items@.take(i as int), at@) == Ok::<Seq<TypeV>, Seq<char>>(
                        types_view(union@),
                    ),
            {
                proof {
                    assert(items@.take(i + 1).drop_last() =~= items@.take(i as int));
                    assert(items@.take(i + 1).last() == items@[i as int]);
                }
                match attribute_type(&items[i], &at.index(js_index(i))) {
                    Ok(t) => {
                        let ghost before = union@;
                        union.push(t);
                        assert(union@.drop_last() =~= before);
                    },
                    Err(e) => {
                        proof {
                            lemma_first_refusal_decides(
                                |t: Seq<JsData>| type_list_spec(t, at@),
                                items@,
                                i + 1,
                            );
                        }
                        return Err(e);
                    },
                }
            }
            assert(items@.take(n as int) =~= items@);
            Ok(ValidationType::Union(union))
        },
        JsData::Text(name) => {
            if is_text(name, "String") {
                Ok(ValidationType::String)
            } else if is_text(name, "Number") {
                Ok(ValidationType::Number)
            } else if is_text(name, "Boolean") {
                Ok(ValidationType::Boolean)
            } else if is_text(name, "Object") {
                Ok(ValidationType::Object)
            } else if is_text(name, "Array") {
                Ok(ValidationType::Array)
            } else {
                let quoted = debug_quoted(name.as_str());
                Err(unknown_attribute_type_message(at, quoted.as_str()))
            }
        },
        JsData::Function => Err(
            message(
                at,
                ": a custom attribute type is code and cannot cross into WebAssembly; declare one of String, Number, Boolean, Object or Array, and leave the custom check to the server",
            ),
        ),
        _ => Err(message(at, ": expected an attribute type name as a string, or an array of them")),
    }
}

/// The message for an attribute type that is not one of the five names,
/// given the name as `Debug` quotes it.
pub fn unknown_attribute_type_message(at: &Path, quoted: &str) -> (m: String)
    ensures
        m@ == at@ + ": unknown attribute type "@ + quoted@
            + "; expected String, Number, Boolean, Object, Array, or an array of those"@,
{
    let mut m = message(at, ": unknown attribute type ");
    m.append(quoted);
    m.append("; expected String, Number, Boolean, Object, Array, or an array of those");
    m
}

/// The message for a node type the engine does not know, given the name as
/// `Debug` quotes it: the known names follow in the order of `str`.
pub fn unknown_node_type_message(at: &Path, quoted: &str, known: &Vec<String>) -> (m: String)
    ensures
        m@ == at@ + ": unknown node type "@ + quoted@ + "; expected one of "@ + join_text(
            texts(known@).sort_by(text_order()),
            ", "@,
        ),
{
    let mut m = message(at, ": unknown node type ");
    m.append(quoted);
    m.append("; expected one of ");
    let list = join(&sorted(known), ", ");
    m.append(list.as_str());
    m
}

/// A node type among the known ones, or a message listing them in order.
fn node_type(known: &Vec<String>, name: &String, at: &Path) -> (result: Result<String, String>)
    ensures
        match result {
            Ok(n) => node_type_spec(texts(known@), name@, at@) == Ok::<Seq<char>, Seq<char>>(n@),
            Err(e) => node_type_spec(texts(known@), name@, at@) == Err::<Seq<char>, Seq<char>>(e@),
        },
{
    if contains_text(known, name) {
        Ok(name.clone())
    } else {
        let quoted = debug_quoted(name.as_str());
        Err(unknown_node_type_message(at, quoted.as_str(), known))
    }
}

/// The node types a schema allows as children.
fn children(d: &JsData, at: &Path, known: &Vec<String>) -> (result: Result<Vec<String>, String>)
    ensures
        match result {
            Ok(list) => children_spec(*d, at@, texts(known@)) == Ok::<Seq<Seq<char>>, Seq<char>>(texts(list@)),
            Err(e) => children_spec(*d, at@, texts(known@)) == Err::<Seq<Seq<char>>, Seq<char>>(e@),
        },
{
    let items = match d {
        JsData::Array(items) => items,
        _ => {
            return Err(message(at, ": expected an array"));
        },
    };
    let mut allowed: Vec<String> = Vec::new();
    let n = items.len();
    assert(items@.take(0) =~= Seq::<JsData>::empty());
    assert(texts(allowed@) =~= Seq::<Seq<char>>::empty());
    for i in 0..n
        invariant
            n == items@.len(),
            *d == JsData::Array(*items),
            child_list_spec(items@.take(i as int), at@, texts(known@)) == Ok::<Seq<Seq<char>>, Seq<char>>(
                texts(allowed@),
            ),
    {
        proof {
            assert(items@.take(i + 1).drop_last() =~= items@.take(i as int));
            assert(items@.take(i + 1).last() == items@[i as int]);
        }
        let item_at = at.index(js_index(i));
        match &items[i] {
            JsData::Text(name) => {
                match node_type(known, name, &item_at) {
                    Ok(node) => {
                        let ghost before = allowed@;
                        let ghost text = node@;
                        allowed.push(node);
                        assert(texts(allowed@) =~= texts(before).push(text));
                    },
                    Err(e) => {
                        proof {
                            lemma_first_refusal_decides(
                                |t: Seq<JsData>| child_list_spec(t, at@, texts(known@)),
                                items@,
                                i + 1,
                            );
                        }
                        return Err(e);
                    },
                }
            },
            _ => {
                let m = message(&item_at, ": expected a node type name");
                proof {
                    lemma_first_refusal_decides(
                        |t: Seq<JsData>| child_list_spec(t, at@, texts(known@)),
                        items@,
                        i + 1,
                    );
                }
                return Err(m);
            },
        }
    }
    assert(items@.take(n as int) =~= items@);
    Ok(allowed)
}

/// A schema's render policy: a name, or `false` for none.
fn schema_render(d: &JsData, at: &Path) -> (result: Result<Option<String>, String>)
    ensures
        match result {
            Ok(r) => schema_render_spec(*d, at@) == Ok::<Option<Seq<char>>, Seq<char>>(
                crate::schema::opt_text(r),
            ),
            Err(e) => schema_render_spec(*d, at@) == Err::<Option<Seq<char>>, Seq<char>>(e@),
        },
{
    match render_policy(d, at)? {
        RenderPolicy::Hidden => Ok(None),
        RenderPolicy::Renamed(name) => Ok(Some(name)),
        RenderPolicy::Named => Err(message(at, ": expected an element name or false, not true")),
    }
}

/// A slot declaration.
fn slot(d: &JsData, at: &Path) -> (result: Result<SchemaSlot, String>)
    ensures
        match result {
            Ok(s) => slot_spec(*d, at@) == Ok::<SlotV, Seq<char>>(slot_view(s)),
            Err(e) => slot_spec(*d, at@) == Err::<SlotV, Seq<char>>(e@),
        },
{
    proof {
        reveal(slot_spec);
    }
    let object = as_object(d, at)?;
    reject_unknown(object, &slot_list(), at)?;
    let render = match property(object, "render", at)? {
        None => None,
        Some(v) => Some(render_policy(v, &at.child("render"))?),
    };
    let required = match property(object, "required", at)? {
        None => None,
        Some(v) => Some(boolean(v, &at.child("required"))?),
    };
    Ok(SchemaSlot { render, required })
}

/// An attribute declaration.
fn attribute(d: &JsData, at: &Path) -> (result: Result<SchemaAttribute, String>)
    ensures
        match result {
            Ok(a) => attribute_spec(*d, at@) == Ok::<AttributeV, Seq<char>>(attribute_view(a)),
            Err(e) => attribute_spec(*d, at@) == Err::<AttributeV, Seq<char>>(e@),
        },
{
    proof {
        reveal(attribute_spec);
    }
    let object = as_object(d, at)?;
    reject_unknown(object, &attribute_list(), at)?;
    let attribute_type = match property(object, "type", at)? {
        None => None,
        Some(v) => Some(attribute_type(v, &at.child("type"))?),
    };
    let default = match property(object, "default", at)? {
        None => None,
        Some(v) => Some(value(v, &at.child("default"))?),
    };
    let required = match property(object, "required", at)? {
        None => None,
        Some(v) => Some(boolean(v, &at.child("required"))?),
    };
    let matches = match property(object, "matches", at)? {
        None => None,
        Some(v) => Some(matches(v, &at.child("matches"))?),
    };
    let render = match property(object, "render", at)? {
        None => None,
        Some(v) => Some(render_policy(v, &at.child("render"))?),
    };
    let error_level = match property(object, "errorLevel", at)? {
        None => None,
        Some(v) => Some(error_level(v, &at.child("errorLevel"))?),
    };
    let description = match property(object, "description", at)? {
        None => None,
        Some(v) => Some(string(v, &at.child("description"))?),
    };
    Ok(
        SchemaAttribute {
            attribute_type,
            default,
            required,
            matches,
            render,
            error_level,
            description,
        },
    )
}

/// The `attributes` of a schema, in key order.
fn attributes(d: &JsData, at: &Path) -> (result: Result<Vec<(String, SchemaAttribute)>, String>)
    ensures
        match result {
            Ok(list) => attributes_spec(*d, at@) == Ok::<Seq<(Seq<char>, AttributeV)>, Seq<char>>(
                attributes_view(list@),
            ),
            Err(e) => attributes_spec(*d, at@) == Err::<Seq<(Seq<char>, AttributeV)>, Seq<char>>(e@),
        },
{
    let object = as_object(d, at)?;
    let entries = &object.entries;
    let mut list: Vec<(String, SchemaAttribute)> = Vec::new();
    let n = entries.len();
    assert(entries@.take(0) =~= Seq::<JsEntry>::empty());
    assert(attributes_view(list@) =~= Seq::<(Seq<char>, AttributeV)>::empty());
    for i in 0..n
        invariant
            n == entries@.len(),
            entries@ == object.entries@,
            as_object_spec(*d, at@) == Ok::<JsObject, Seq<char>>(*object),
            attribute_entries(entries@.take(i as int), at@) == Ok::<Seq<(Seq<char>, AttributeV)>, Seq<char>>(
                attributes_view(list@),
            ),
    {
        proof {
            assert(entries@.take(i + 1).drop_last() =~= entries@.take(i as int));
            assert(entries@.take(i + 1).last() == entries@[i as int]);
        }
        let entry = &entries[i];
        let item_at = at.child(entry.key.as_str());
        let declared = match &entry.value {
            None => {
                let m = unreadable_message(&item_at, entry.key.as_str());
                proof {
                    lemma_first_refusal_decides(
                        |t: Seq<JsEntry>| attribute_entries(t, at@),
                        entries@,
                        i + 1,
                    );
                }
                return Err(m);
            },
            Some(v) => v,
        };
        match attribute(declared, &item_at) {
            Ok(a) => {
                let ghost before = list@;
                let ghost pair = (entry.key@, attribute_view(a));
                list.push((entry.key.clone(), a));
                assert(attributes_view(list@) =~= attributes_view(before).push(pair));
            },
            Err(e) => {
                proof {
                    lemma_first_refusal_decides(
                        |t: Seq<JsEntry>| attribute_entries(t, at@),
                        entries@,
                        i + 1,
                    );
                }
                return Err(e);
            },
        }
    }
    assert(entries@.take(n as int) =~= entries@);
    Ok(list)
}

/// The `slots` of a schema, in key order.
fn slots(d: &JsData, at: &Path) -> (result: Result<Vec<(String, SchemaSlot)>, String>)
    ensures
        match result {
            Ok(list) => slots_spec(*d, at@) == Ok::<Seq<(Seq<char>, SlotV)>, Seq<char>>(slots_view(list@)),
            Err(e) => slots_spec(*d, at@) == Err::<Seq<(Seq<char>, SlotV)>, Seq<char>>(e@),
        },
{
    let object = as_object(d, at)?;
    let entries = &object.entries;
    let mut list: Vec<(String, SchemaSlot)> = Vec::new();
    let n = entries.len();
    assert(entries@.take(0) =~= Seq::<JsEntry>::empty());
    assert(slots_view(list@) =~= Seq::<(Seq<char>, SlotV)>::empty());
    for i in 0..n
        invariant
            n == entries@.len(),
            entries@ == object.entries@,
            as_object_spec(*d, at@) == Ok::<JsObject, Seq<char>>(*object),
            slot_entries(entries@.take(i as int), at@) == Ok::<Seq<(Seq<char>, SlotV)>, Seq<char>>(
                slots_view(list@),
            ),
    {
        proof {
            assert(entries@.take(i + 1).drop_last() =~= entries@.take(i as int));
            assert(entries@.take(i + 1).last() == entries@[i as int]);
        }
        let entry = &entries[i];
        let item_at = at.child(entry.key.as_str());
        let declared = match &entry.value {
            None => {
                let m = unreadable_message(&item_at, entry.key.as_str());
                proof {
                    lemma_first_refusal_decides(
                        |t: Seq<JsEntry>| slot_entries(t, at@),
                        entries@,
                        i + 1,
                    );
                }
                return Err(m);
            },
            Some(v) => v,
        };
        match slot(declared, &item_at) {
            Ok(s) => {
                let ghost before = list@;
                let ghost pair = (entry.key@, slot_view(s));
                list.push((entry.key.clone(), s));
                assert(slots_view(list@) =~= slots_view(before).push(pair));
            },
            Err(e) => {
                proof {
                    lemma_first_refusal_decides(
                        |t: Seq<JsEntry>| slot_entries(t, at@),
                        entries@,
                        i + 1,
                    );
                }
                return Err(e);
            },
        }
    }
    assert(entries@.take(n as int) =~= entries@);
    Ok(list)
}

/// A tag or node declaration.
fn schema(d: &JsData, at: &Path, known: &Vec<String>) -> (result: Result<Schema, String>)
    ensures
        match result {
            Ok(s) => schema_spec(*d, at@, texts(known@)) == Ok::<SchemaV, Seq<char>>(schema_view(s)),
            Err(e) => schema_spec(*d, at@, texts(known@)) == Err::<SchemaV, Seq<char>>(e@),
        },
{
    proof {
        reveal(schema_spec);
    }
    let object = as_object(d, at)?;
    reject_unknown(object, &schema_list(), at)?;
    let render = match property(object, "render", at)? {
        None => None,
        Some(v) => Some(schema_render(v, &at.child("render"))?),
    };
    let children = match property(object, "children", at)? {
        None => None,
        Some(v) => Some(children(v, &at.child("children"), known)?),
    };
    let attributes = match property(object, "attributes", at)? {
        None => {
            let none: Vec<(String, SchemaAttribute)> = Vec::new();
            assert(attributes_view(none@) =~= Seq::<(Seq<char>, AttributeV)>::empty());
            none
        },
        Some(v) => attributes(v, &at.child("attributes"))?,
    };
    let slots = match property(object, "slots", at)? {
        None => {
            let none: Vec<(String, SchemaSlot)> = Vec::new();
            assert(slots_view(none@) =~= Seq::<(Seq<char>, SlotV)>::empty());
            none
        },
        Some(v) => slots(v, &at.child("slots"))?,
    };
    let self_closing = match property(object, "selfClosing", at)? {
        None => None,
        Some(v) => Some(boolean(v, &at.child("selfClosing"))?),
    };
    let inline = match property(object, "inline", at)? {
        None => None,
        Some(v) => Some(boolean(v, &at.child("inline"))?),
    };
    let description = match property(object, "description", at)? {
        None => None,
        Some(v) => Some(string(v, &at.child("description"))?),
    };
    let schema = Schema { render, children, attributes, slots, self_closing, inline, description };
    Ok(schema)
}

/// The `tags` of a configuration, in key order.
fn tags(d: &JsData, at: &Path, known: &Vec<String>) -> (result: Result<Vec<(String, Schema)>, String>)
    ensures
        match result {
            Ok(list) => tags_spec(*d, at@, texts(known@)) == Ok::<Seq<(Seq<char>, SchemaV)>, Seq<char>>(
                schemas_view(list@),
            ),
            Err(e) => tags_spec(*d, at@, texts(known@)) == Err::<Seq<(Seq<char>, SchemaV)>, Seq<char>>(e@),
        },
{
    proof {
        reveal(tags_spec);
        reveal(nodes_spec);
    }
    let object = as_object(d, at)?;
    assert(tags_spec(*d, at@, texts(known@)) == tag_entries(object.entries@, at@, texts(known@)));
    let entries = &object.entries;
    let mut list: Vec<(String, Schema)> = Vec::new();
    let n = entries.len();
    assert(entries@.take(0) =~= Seq::<JsEntry>::empty());
    assert(schemas_view(list@) =~= Seq::<(Seq<char>, SchemaV)>::empty());
    for i in 0..n
        invariant
            n == entries@.len(),
            entries@ == object.entries@,
            as_object_spec(*d, at@) == Ok::<JsObject, Seq<char>>(*object),
            tags_spec(*d, at@, texts(known@)) == tag_entries(object.entries@, at@, texts(known@)),
            tag_entries(entries@.take(i as int), at@, texts(known@)) == Ok::<
                Seq<(Seq<char>, SchemaV)>,
                Seq<char>,
            >(schemas_view(list@)),
    {
        proof {
            assert(entries@.take(i + 1).drop_last() =~= entries@.take(i as int));
            assert(entries@.take(i + 1).last() == entries@[i as int]);
        }
        let entry = &entries[i];
        let item_at = at.child(entry.key.as_str());
        let declared = match &entry.value {
            None => {
                let m = unreadable_message(&item_at, entry.key.as_str());
                proof {
                    lemma_first_refusal_decides(
                        |t: Seq<JsEntry>| tag_entries(t, at@, texts(known@)),
                        entries@,
                        i + 1,
                    );
                }
                return Err(m);
            },
            Some(v) => v,
        };
        match schema(declared, &item_at, known) {
            Ok(s) => {
                let ghost before = list@;
                let ghost pair = (entry.key@, schema_view(s));
                list.push((entry.key.clone(), s));
                assert(schemas_view(list@) =~= schemas_view(before).push(pair));
            },
            Err(e) => {
                proof {
                    lemma_first_refusal_decides(
                        |t: Seq<JsEntry>| tag_entries(t, at@, texts(known@)),
                        entries@,
                        i + 1,
                    );
                }
                return Err(e);
            },
        }
    }
    assert(entries@.take(n as int) =~= entries@);
    Ok(list)
}

/// The `nodes` of a configuration, in key order, each under a known node type.
fn nodes(d: &JsData, at: &Path, known: &Vec<String>) -> (result: Result<Vec<(String, Schema)>, String>)
    ensures
        match result {
            Ok(list) => nodes_spec(*d, at@, texts(known@)) == Ok::<Seq<(Seq<char>, SchemaV)>, Seq<char>>(
                schemas_view(list@),
            ),
            Err(e) => nodes_spec(*d, at@, texts(known@)) == Err::<Seq<(Seq<char>, SchemaV)>, Seq<char>>(e@),
        },
{
    proof {
        reveal(tags_spec);
        reveal(nodes_spec);
    }
    let object = as_object(d, at)?;
    assert(nodes_spec(*d, at@, texts(known@)) == node_entries(object.entries@, at@, texts(known@)));
    let entries = &object.entries;
    let mut list: Vec<(String, Schema)> = Vec::new();
    let n = entries.len();
    assert(entries@.take(0) =~= Seq::<JsEntry>::empty());
    assert(schemas_view(list@) =~= Seq::<(Seq<char>, SchemaV)>::empty());
    for i in 0..n
        invariant
            n == entries@.len(),
            entries@ == object.entries@,
            as_object_spec(*d, at@) == Ok::<JsObject, Seq<char>>(*object),
            nodes_spec(*d, at@, texts(known@)) == node_entries(object.entries@, at@, texts(known@)),
            node_entries(entries@.take(i as int), at@, texts(known@)) == Ok::<
                Seq<(Seq<char>, SchemaV)>,
                Seq<char>,
            >(schemas_view(list@)),
    {
        proof {
            assert(entries@.take(i + 1).drop_last() =~= entries@.take(i as int));
            assert(entries@.take(i + 1).last() == entries@[i as int]);
        }
        let entry = &entries[i];
        let item_at = at.child(entry.key.as_str());
        let node = match node_type(known, &entry.key, &item_at) {
            Ok(node) => node,
            Err(e) => {
                proof {
                    lemma_first_refusal_decides(
                        |t: Seq<JsEntry>| node_entries(t, at@, texts(known@)),
                        entries@,
                        i + 1,
                    );
                }
                return Err(e);
            },
        };
        let declared = match &entry.value {
            None => {
                let m = unreadable_message(&item_at, entry.key.as_str());
                proof {
                    lemma_first_refusal_decides(
                        |t: Seq<JsEntry>| node_entries(t, at@, texts(known@)),
                        entries@,
                        i + 1,
                    );
                }
                return Err(m);
            },
            Some(v) => v,
        };
        match schema(declared, &item_at, known) {
            Ok(s) => {
                let ghost before = list@;
                let ghost pair = (node@, schema_view(s));
                list.push((node, s));
                assert(schemas_view(list@) =~= schemas_view(before).push(pair));
            },
            Err(e) => {
                proof {
                    lemma_first_refusal_decides(
                        |t: Seq<JsEntry>| node_entries(t, at@, texts(known@)),
                        entries@,
                        i + 1,
                    );
                }
                return Err(e);
            },
        }
    }
    assert(entries@.take(n as int) =~= entries@);
    Ok(list)
}

/// The `variables` of a configuration.
fn host_variables(d: &JsData, at: &Path) -> (result: Result<indexmap::IndexMap<String, crate::value::Value>, String>)
    ensures
        match result {
            Ok(map) => variables_spec(*d, at@) == Ok::<Seq<(Seq<char>, ValueV)>, Seq<char>>(
                crate::outside::variable_entries(map),
            ),
            Err(e) => variables_spec(*d, at@) == Err::<Seq<(Seq<char>, ValueV)>, Seq<char>>(e@),
        },
{
    proof {
        reveal(variables_spec);
    }
    let object = as_object(d, at)?;
    variables(object, at)
}

/// Build a host's declarations from what it passed, given the names of the
/// node types the engine knows.
///
/// `null` or `undefined` declares nothing, which leaves the built-ins alone.
/// Otherwise every key is checked, in order, and the first problem is
/// refused with a message that starts with the path to it.
pub fn build(declared: &JsData, known: &Vec<String>) -> (result: Result<Declarations, String>)
    ensures
        match result {
            Ok(d) => build_spec(*declared, texts(known@)) == Ok::<DeclarationsV, Seq<char>>(
                declarations_view(d),
            ),
            Err(e) => build_spec(*declared, texts(known@)) == Err::<DeclarationsV, Seq<char>>(e@),
        },
{
    let at = Path::root();
    match declared {
        JsData::Undefined | JsData::Null => {
            let d = Declarations { tags: Vec::new(), nodes: Vec::new(), variables: None };
            assert(schemas_view(d.tags@) =~= Seq::<(Seq<char>, SchemaV)>::empty());
            assert(schemas_view(d.nodes@) =~= Seq::<(Seq<char>, SchemaV)>::empty());
            return Ok(d);
        },
        _ => {},
    }
    let object = as_object(declared, &at)?;
    reject_unknown(object, &top_level_list(), &at)?;
    let tags = match property(object, "tags", &at)? {
        None => {
            let none: Vec<(String, Schema)> = Vec::new();
            assert(schemas_view(none@) =~= Seq::<(Seq<char>, SchemaV)>::empty());
            none
        },
        Some(v) => tags(v, &at.child("tags"), known)?,
    };
    let nodes = match property(object, "nodes", &at)? {
        None => {
            let none: Vec<(String, Schema)> = Vec::new();
            assert(schemas_view(none@) =~= Seq::<(Seq<char>, SchemaV)>::empty());
            none
        },
        Some(v) => nodes(v, &at.child("nodes"), known)?,
    };
    let variables = match property(object, "variables", &at)? {
        None => None,
        Some(v) => Some(host_variables(v, &at.child("variables"))?),
    };
    let d = Declarations { tags, nodes, variables };
    Ok(d)
}

// --- Every refusal names where it happened ----------------------------------

proof fn lemma_as_object_named(d: JsData, at: Seq<char>)
    ensures
        err_in(as_object_spec(d, at), d, at),
{
    reveal_strlit(": expected an object");
    lemma_here(at, ": expected an object"@);
    lemma_here_whole(at + ": expected an object"@, d, at);
}

/// A field read from an object, as the one step to it.
proof fn lemma_field_step(o: JsObject, key: Seq<char>, at: Seq<char>)
    ensures
        reach(JsData::Object(o), seq![Seg::Key(key)]) == match read_field(o, key) {
            Some(e) => Some(e.value),
            None => None::<Option<JsData>>,
        },
        path_text(at, seq![Seg::Key(key)]) == child_text(at, key),
{
    lemma_one_step(JsData::Object(o), at, Seg::Key(key));
}

proof fn lemma_property_named(o: JsObject, key: Seq<char>, at: Seq<char>)
    ensures
        err_in(property_spec(o, key, at), JsData::Object(o), at),
{
    lemma_field_step(o, key, at);
    if property_spec(o, key, at) is Err {
        lemma_unreadable_names(JsData::Object(o), at, key);
    }
}

proof fn lemma_unknown_key_named(o: JsObject, m: int, allowed: Seq<Seq<char>>, at: Seq<char>)
    requires
        well_formed(JsData::Object(o)),
        0 <= m <= o.entries@.len(),
    ensures
        unknown_key(o.entries@.skip(m), allowed, at) matches Some(e) ==> names_part(e, JsData::Object(o), at),
    decreases o.entries@.len() - m,
{
    let entries = o.entries@.skip(m);
    if entries.len() > 0 {
        let key = entries[0].key@;
        assert(entries.drop_first() =~= o.entries@.skip(m + 1));
        if allowed.contains(key) {
            lemma_unknown_key_named(o, m + 1, allowed, at);
        } else {
            let rest = ": unrecognised key"@ + refusal_reason(key) + ". Expected one of "@ + join_text(
                allowed,
                ", "@,
            );
            reveal_strlit(": unrecognised key");
            assert(rest[0] == ':' && rest[1] == ' ');
            assert(unknown_key(entries, allowed, at)->Some_0 =~= child_text(at, key) + rest);
            assert(entries[0] == o.entries@[m]);
            lemma_reach_entry(o, m);
            lemma_field_step(o, key, at);
            lemma_here(child_text(at, key), rest);
            lemma_here_part(child_text(at, key) + rest, JsData::Object(o), at, seq![Seg::Key(key)]);
        }
    }
}

proof fn lemma_scalars_named(d: JsData, at: Seq<char>)
    requires
        well_formed(d),
    ensures
        err_in(render_policy_spec(d, at), d, at),
        err_in(boolean_spec(d, at), d, at),
        err_in(string_spec(d, at), d, at),
        err_in(error_level_spec(d, at), d, at),
        err_in(matches_spec(d, at), d, at),
        err_in(schema_render_spec(d, at), d, at),
{
    reveal_strlit(": expected true, false, or a name to render under");
    lemma_here(at, ": expected true, false, or a name to render under"@);
    lemma_here_whole(at + ": expected true, false, or a name to render under"@, d, at);
    reveal_strlit(": expected true or false");
    lemma_here(at, ": expected true or false"@);
    lemma_here_whole(at + ": expected true or false"@, d, at);
    reveal_strlit(": expected a string");
    lemma_here(at, ": expected a string"@);
    lemma_here_whole(at + ": expected a string"@, d, at);
    reveal_strlit(": expected one of debug, info, warning, error, critical");
    lemma_here(at, ": expected one of debug, info, warning, error, critical"@);
    lemma_here_whole(at + ": expected one of debug, info, warning, error, critical"@, d, at);
    reveal_strlit(": expected an array of acceptable values. A regular expression is not supported here: the engine carries no regular expression engine on purpose, and a host pattern is code that cannot cross into WebAssembly");
    lemma_here(at, ": expected an array of acceptable values. A regular expression is not supported here: the engine carries no regular expression engine on purpose, and a host pattern is code that cannot cross into WebAssembly"@);
    lemma_here_whole(at + ": expected an array of acceptable values. A regular expression is not supported here: the engine carries no regular expression engine on purpose, and a host pattern is code that cannot cross into WebAssembly"@, d, at);
    reveal_strlit(": expected an element name or false, not true");
    lemma_here(at, ": expected an element name or false, not true"@);
    lemma_here_whole(at + ": expected an element name or false, not true"@, d, at);
    if let JsData::Array(items) = d {
        lemma_text_list_named(d, items@, at);
    }
}

/// Element `k` of an array, as the one step to it.
proof fn lemma_element_step(d: JsData, at: Seq<char>, k: int)
    requires
        well_formed(d),
        d is Array,
        0 <= k < d->Array_0@.len(),
    ensures
        reach(d, seq![Seg::Index(k as nat)]) == Some(Some(d->Array_0@[k])),
        path_text(at, seq![Seg::Index(k as nat)]) == element_path(at, k),
        well_formed(d->Array_0@[k]),
{
    lemma_one_step(d, at, Seg::Index(k as nat));
    lemma_element_well_formed(d->Array_0@, k);
}

proof fn lemma_text_list_named(d: JsData, items: Seq<JsData>, at: Seq<char>)
    requires
        well_formed(d),
        leading_items(items, d),
    ensures
        err_in(text_list_spec(items, at), d, at),
    decreases items.len(),
{
    if items.len() > 0 {
        lemma_text_list_named(d, items.drop_last(), at);
        let k = items.len() - 1;
        let p = element_path(at, k);
        lemma_element_step(d, at, k);
        reveal_strlit(": expected a string");
        lemma_here(p, ": expected a string"@);
        lemma_here_part(p + ": expected a string"@, d, at, seq![Seg::Index(k as nat)]);
    }
}

proof fn lemma_attribute_type_named(d: JsData, at: Seq<char>)
    requires
        well_formed(d),
    ensures
        err_in(attribute_type_spec(d, at), d, at),
    decreases d,
{
    match d {
        JsData::Array(items) => {
            lemma_type_list_named(d, items@, at);
        },
        JsData::Text(s) => {
            let rest = ": unknown attribute type "@ + debug_text(s@)
                + "; expected String, Number, Boolean, Object, Array, or an array of those"@;
            assert(at + ": unknown attribute type "@ + debug_text(s@)
                + "; expected String, Number, Boolean, Object, Array, or an array of those"@ =~= at
                + rest);
            reveal_strlit(": unknown attribute type ");
            assert(rest[0] == ':' && rest[1] == ' ');
            lemma_here(at, rest);
            lemma_here_whole(at + rest, d, at);
        },
        JsData::Function => {
            reveal_strlit(": a custom attribute type is code and cannot cross into WebAssembly; declare one of String, Number, Boolean, Object or Array, and leave the custom check to the server");
            lemma_here(at, ": a custom attribute type is code and cannot cross into WebAssembly; declare one of String, Number, Boolean, Object or Array, and leave the custom check to the server"@);
            lemma_here_whole(at + ": a custom attribute type is code and cannot cross into WebAssembly; declare one of String, Number, Boolean, Object or Array, and leave the custom check to the server"@, d, at);
        },
        _ => {
            reveal_strlit(": expected an attribute type name as a string, or an array of them");
            lemma_here(at, ": expected an attribute type name as a string, or an array of them"@);
            lemma_here_whole(at + ": expected an attribute type name as a string, or an array of them"@, d, at);
        },
    }
}

proof fn lemma_type_list_named(d: JsData, items: Seq<JsData>, at: Seq<char>)
    requires
        well_formed(d),
        leading_items(items, d),
    ensures
        err_in(type_list_spec(items, at), d, at),
    decreases items,
{
    if items.len() > 0 {
        lemma_type_list_named(d, items.drop_last(), at);
        let k = items.len() - 1;
        let x = items.last();
        let p = element_path(at, k);
        lemma_element_step(d, at, k);
        lemma_attribute_type_named(x, p);
        lemma_err_in_part(attribute_type_spec(x, p), d, at, seq![Seg::Index(k as nat)], x);
    }
}

proof fn lemma_node_type_named(known: Seq<Seq<char>>, name: Seq<char>, at: Seq<char>)
    ensures
        node_type_spec(known, name, at) matches Err(e) ==> here(e, at),
{
    let rest = ": unknown node type "@ + debug_text(name) + "; expected one of "@ + join_text(
        known.sort_by(text_order()),
        ", "@,
    );
    assert(at + ": unknown node type "@ + debug_text(name) + "; expected one of "@ + join_text(
        known.sort_by(text_order()),
        ", "@,
    ) =~= at + rest);
    reveal_strlit(": unknown node type ");
    assert(rest[0] == ':' && rest[1] == ' ');
    lemma_here(at, rest);
}

proof fn lemma_children_named(d: JsData, at: Seq<char>, known: Seq<Seq<char>>)
    requires
        well_formed(d),
    ensures
        err_in(children_spec(d, at, known), d, at),
{
    reveal_strlit(": expected an array");
    lemma_here(at, ": expected an array"@);
    lemma_here_whole(at + ": expected an array"@, d, at);
    if let JsData::Array(items) = d {
        lemma_child_list_named(d, items@, at, known);
    }
}

proof fn lemma_child_list_named(d: JsData, items: Seq<JsData>, at: Seq<char>, known: Seq<Seq<char>>)
    requires
        well_formed(d),
        leading_items(items, d),
    ensures
        err_in(child_list_spec(items, at, known), d, at),
    decreases items.len(),
{
    if items.len() > 0 {
        lemma_child_list_named(d, items.drop_last(), at, known);
        let k = items.len() - 1;
        let p = element_path(at, k);
        lemma_element_step(d, at, k);
        reveal_strlit(": expected a node type name");
        lemma_here(p, ": expected a node type name"@);
        lemma_here_part(p + ": expected a node type name"@, d, at, seq![Seg::Index(k as nat)]);
        if let JsData::Text(s) = items.last() {
            lemma_node_type_named(known, s@, p);
            if let Err(e) = node_type_spec(known, s@, p) {
                lemma_here_part(e, d, at, seq![Seg::Index(k as nat)]);
            }
        }
    }
}

/// A field read from `o` under `key`, converted by a conversion whose
/// refusals name a part of the field's value.
proof fn lemma_field_named<T>(o: JsObject, key: Seq<char>, at: Seq<char>, conv: spec_fn(JsData, Seq<char>) -> Result<T, Seq<char>>)
    requires
        property_spec(o, key, at) matches Ok(Some(x)) ==> err_in(conv(x, child_text(at, key)), x, child_text(at, key)),
    ensures
        err_in(opt_field(o, key, at, conv), JsData::Object(o), at),
{
    lemma_property_named(o, key, at);
    lemma_field_step(o, key, at);
    if let Ok(Some(x)) = property_spec(o, key, at) {
        lemma_err_in_part(conv(x, child_text(at, key)), JsData::Object(o), at, seq![Seg::Key(key)], x);
    }
}

/// What a field of a well-formed object reads as is well formed.
proof fn lemma_property_well_formed(o: JsObject, key: Seq<char>, at: Seq<char>)
    requires
        well_formed(JsData::Object(o)),
    ensures
        property_spec(o, key, at) matches Ok(Some(x)) ==> well_formed(x),
{
    lemma_field_well_formed(o, key);
}

proof fn lemma_slot_named(d: JsData, at: Seq<char>)
    requires
        well_formed(d),
    ensures
        err_in(slot_spec(d, at), d, at),
{
    reveal(slot_spec);
    lemma_as_object_named(d, at);
    if let Ok(o) = as_object_spec(d, at) {
        assert(o.entries@.skip(0) =~= o.entries@);
        lemma_unknown_key_named(o, 0, slot_keys(), at);
        lemma_property_well_formed(o, "render"@, at);
        lemma_property_well_formed(o, "required"@, at);
        if let Ok(Some(x)) = property_spec(o, "render"@, at) {
            lemma_scalars_named(x, child_text(at, "render"@));
        }
        if let Ok(Some(x)) = property_spec(o, "required"@, at) {
            lemma_scalars_named(x, child_text(at, "required"@));
        }
        lemma_field_named(o, "render"@, at, |d: JsData, p: Seq<char>| render_policy_spec(d, p));
        lemma_field_named(o, "required"@, at, |d: JsData, p: Seq<char>| boolean_spec(d, p));
    }
}

proof fn lemma_attribute_named(d: JsData, at: Seq<char>)
    requires
        well_formed(d),
    ensures
        err_in(attribute_spec(d, at), d, at),
{
    reveal(attribute_spec);
    lemma_as_object_named(d, at);
    if let Ok(o) = as_object_spec(d, at) {
        assert(o.entries@.skip(0) =~= o.entries@);
        lemma_unknown_key_named(o, 0, attribute_keys(), at);
        lemma_property_well_formed(o, "type"@, at);
        lemma_property_well_formed(o, "default"@, at);
        lemma_property_well_formed(o, "required"@, at);
        lemma_property_well_formed(o, "matches"@, at);
        lemma_property_well_formed(o, "render"@, at);
        lemma_property_well_formed(o, "errorLevel"@, at);
        lemma_property_well_formed(o, "description"@, at);
        if let Ok(Some(x)) = property_spec(o, "type"@, at) {
            lemma_attribute_type_named(x, child_text(at, "type"@));
        }
        if let Ok(Some(x)) = property_spec(o, "default"@, at) {
            lemma_convert_named(x, child_text(at, "default"@));
        }
        if let Ok(Some(x)) = property_spec(o, "required"@, at) {
            lemma_scalars_named(x, child_text(at, "required"@));
        }
        if let Ok(Some(x)) = property_spec(o, "matches"@, at) {
            lemma_scalars_named(x, child_text(at, "matches"@));
        }
        if let Ok(Some(x)) = property_spec(o, "render"@, at) {
            lemma_scalars_named(x, child_text(at, "render"@));
        }
        if let Ok(Some(x)) = property_spec(o, "errorLevel"@, at) {
            lemma_scalars_named(x, child_text(at, "errorLevel"@));
        }
        if let Ok(Some(x)) = property_spec(o, "description"@, at) {
            lemma_scalars_named(x, child_text(at, "description"@));
        }
        lemma_field_named(o, "type"@, at, |d: JsData, p: Seq<char>| attribute_type_spec(d, p));
        lemma_field_named(o, "default"@, at, |d: JsData, p: Seq<char>| convert(d, p));
        lemma_field_named(o, "required"@, at, |d: JsData, p: Seq<char>| boolean_spec(d, p));
        lemma_field_named(o, "matches"@, at, |d: JsData, p: Seq<char>| matches_spec(d, p));
        lemma_field_named(o, "render"@, at, |d: JsData, p: Seq<char>| render_policy_spec(d, p));
        lemma_field_named(o, "errorLevel"@, at, |d: JsData, p: Seq<char>| error_level_spec(d, p));
        lemma_field_named(o, "description"@, at, |d: JsData, p: Seq<char>| string_spec(d, p));
    }
}

/// A declaration that cannot be read is named with its name once more after
/// its path.
proof fn lemma_unreadable_declaration(o: JsObject, k: int, at: Seq<char>)
    requires
        well_formed(JsData::Object(o)),
        0 <= k < o.entries@.len(),
        o.entries@[k].value is None,
    ensures
        names_part(
            unreadable(child_text(at, o.entries@[k].key@), o.entries@[k].key@),
            JsData::Object(o),
            at,
        ),
{
    let key = o.entries@[k].key@;
    let segs = seq![Seg::Key(key), Seg::Key(key)];
    lemma_reach_entry(o, k);
    assert(segs.drop_last() =~= seq![Seg::Key(key)]);
    lemma_one_step(JsData::Object(o), at, Seg::Key(key));
    assert(segs.last() == Seg::Key(key));
    assert(path_text(at, segs) == child_text(child_text(at, key), key));
    assert(part(JsData::Object(o), segs));
    reveal_strlit(": cannot be read");
    lemma_names_part(JsData::Object(o), at, segs, ": cannot be read"@);
}

proof fn lemma_attribute_entries_named(o: JsObject, entries: Seq<JsEntry>, at: Seq<char>)
    requires
        well_formed(JsData::Object(o)),
        leading_entries(entries, o),
    ensures
        err_in(attribute_entries(entries, at), JsData::Object(o), at),
    decreases entries.len(),
{
    if entries.len() > 0 {
        lemma_attribute_entries_named(o, entries.drop_last(), at);
        let k = entries.len() - 1;
        let e = entries.last();
        assert(e == o.entries@[k]);
        let p = child_text(at, e.key@);
        lemma_reach_entry(o, k);
        lemma_field_step(o, e.key@, at);
        match e.value {
            None => {
                lemma_unreadable_declaration(o, k, at);
            },
            Some(x) => {
                lemma_attribute_named(x, p);
                lemma_err_in_part(attribute_spec(x, p), JsData::Object(o), at, seq![Seg::Key(e.key@)], x);
            },
        }
    }
}

proof fn lemma_slot_entries_named(o: JsObject, entries: Seq<JsEntry>, at: Seq<char>)
    requires
        well_formed(JsData::Object(o)),
        leading_entries(entries, o),
    ensures
        err_in(slot_entries(entries, at), JsData::Object(o), at),
    decreases entries.len(),
{
    if entries.len() > 0 {
        lemma_slot_entries_named(o, entries.drop_last(), at);
        let k = entries.len() - 1;
        let e = entries.last();
        assert(e == o.entries@[k]);
        let p = child_text(at, e.key@);
        lemma_reach_entry(o, k);
        lemma_field_step(o, e.key@, at);
        match e.value {
            None => {
                lemma_unreadable_declaration(o, k, at);
            },
            Some(x) => {
                lemma_slot_named(x, p);
                lemma_err_in_part(slot_spec(x, p), JsData::Object(o), at, seq![Seg::Key(e.key@)], x);
            },
        }
    }
}

proof fn lemma_schema_named(d: JsData, at: Seq<char>, known: Seq<Seq<char>>)
    requires
        well_formed(d),
    ensures
        err_in(schema_spec(d, at, known), d, at),
{
    reveal(schema_spec);
    lemma_as_object_named(d, at);
    if let Ok(o) = as_object_spec(d, at) {
        assert(o.entries@.skip(0) =~= o.entries@);
        lemma_unknown_key_named(o, 0, schema_keys(), at);
        lemma_property_well_formed(o, "render"@, at);
        lemma_property_well_formed(o, "children"@, at);
        lemma_property_well_formed(o, "attributes"@, at);
        lemma_property_well_formed(o, "slots"@, at);
        lemma_property_well_formed(o, "selfClosing"@, at);
        lemma_property_well_formed(o, "inline"@, at);
        lemma_property_well_formed(o, "description"@, at);
        if let Ok(Some(x)) = property_spec(o, "render"@, at) {
            lemma_scalars_named(x, child_text(at, "render"@));
        }
        if let Ok(Some(x)) = property_spec(o, "children"@, at) {
            lemma_children_named(x, child_text(at, "children"@), known);
        }
        if let Ok(Some(x)) = property_spec(o, "attributes"@, at) {
            let p = child_text(at, "attributes"@);
            lemma_as_object_named(x, p);
            if let Ok(a) = as_object_spec(x, p) {
                lemma_attribute_entries_named(a, a.entries@, p);
            }
        }
        if let Ok(Some(x)) = property_spec(o, "slots"@, at) {
            let p = child_text(at, "slots"@);
            lemma_as_object_named(x, p);
            if let Ok(a) = as_object_spec(x, p) {
                lemma_slot_entries_named(a, a.entries@, p);
            }
        }
        if let Ok(Some(x)) = property_spec(o, "selfClosing"@, at) {
            lemma_scalars_named(x, child_text(at, "selfClosing"@));
        }
        if let Ok(Some(x)) = property_spec(o, "inline"@, at) {
            lemma_scalars_named(x, child_text(at, "inline"@));
        }
        if let Ok(Some(x)) = property_spec(o, "description"@, at) {
            lemma_scalars_named(x, child_text(at, "description"@));
        }
        lemma_field_named(o, "render"@, at, |d: JsData, p: Seq<char>| schema_render_spec(d, p));
        lemma_field_named(o, "children"@, at, |d: JsData, p: Seq<char>| children_spec(d, p, known));
        lemma_field_named(o, "attributes"@, at, |d: JsData, p: Seq<char>| attributes_spec(d, p));
        lemma_field_named(o, "slots"@, at, |d: JsData, p: Seq<char>| slots_spec(d, p));
        lemma_field_named(o, "selfClosing"@, at, |d: JsData, p: Seq<char>| boolean_spec(d, p));
        lemma_field_named(o, "inline"@, at, |d: JsData, p: Seq<char>| boolean_spec(d, p));
        lemma_field_named(o, "description"@, at, |d: JsData, p: Seq<char>| string_spec(d, p));
    }
}

proof fn lemma_tag_entries_named(o: JsObject, entries: Seq<JsEntry>, at: Seq<char>, known: Seq<Seq<char>>)
    requires
        well_formed(JsData::Object(o)),
        leading_entries(entries, o),
    ensures
        err_in(tag_entries(entries, at, known), JsData::Object(o), at),
    decreases entries.len(),
{
    if entries.len() > 0 {
        lemma_tag_entries_named(o, entries.drop_last(), at, known);
        let k = entries.len() - 1;
        let e = entries.last();
        assert(e == o.entries@[k]);
        let p = child_text(at, e.key@);
        lemma_reach_entry(o, k);
        lemma_field_step(o, e.key@, at);
        match e.value {
            None => {
                lemma_unreadable_declaration(o, k, at);
            },
            Some(x) => {
                lemma_schema_named(x, p, known);
                lemma_err_in_part(schema_spec(x, p, known), JsData::Object(o), at, seq![Seg::Key(e.key@)], x);
            },
        }
    }
}

proof fn lemma_node_entries_named(o: JsObject, entries: Seq<JsEntry>, at: Seq<char>, known: Seq<Seq<char>>)
    requires
        well_formed(JsData::Object(o)),
        leading_entries(entries, o),
    ensures
        err_in(node_entries(entries, at, known), JsData::Object(o), at),
    decreases entries.len(),
{
    if entries.len() > 0 {
        lemma_node_entries_named(o, entries.drop_last(), at, known);
        let k = entries.len() - 1;
        let e = entries.last();
        assert(e == o.entries@[k]);
        let p = child_text(at, e.key@);
        lemma_reach_entry(o, k);
        lemma_field_step(o, e.key@, at);
        lemma_node_type_named(known, e.key@, p);
        if let Err(m) = node_type_spec(known, e.key@, p) {
            lemma_here_part(m, JsData::Object(o), at, seq![Seg::Key(e.key@)]);
        }
        match e.value {
            None => {
                lemma_unreadable_declaration(o, k, at);
            },
            Some(x) => {
                lemma_schema_named(x, p, known);
                lemma_err_in_part(schema_spec(x, p, known), JsData::Object(o), at, seq![Seg::Key(e.key@)], x);
            },
        }
    }
}

/// Every refusal of a host's declarations names the part of them that caused
/// it: it starts with the path to that part -- a value the host passed, or a
/// property whose read threw -- then ": ". A declaration that cannot be read
/// is named with its name once more after its path, as in
/// `config.tags.box.box: cannot be read`.
pub proof fn lemma_refusals_name_their_path(declared: JsData, known: Seq<Seq<char>>)
    requires
        well_formed(declared),
    ensures
        err_in(build_spec(declared, known), declared, root_text()),
{
    reveal(tags_spec);
    reveal(nodes_spec);
    reveal(variables_spec);
    let at = root_text();
    lemma_as_object_named(declared, at);
    if let Ok(o) = as_object_spec(declared, at) {
        assert(o.entries@.skip(0) =~= o.entries@);
        lemma_unknown_key_named(o, 0, top_level_keys(), at);
        lemma_property_well_formed(o, "tags"@, at);
        lemma_property_well_formed(o, "nodes"@, at);
        lemma_property_well_formed(o, "variables"@, at);
        if let Ok(Some(x)) = property_spec(o, "tags"@, at) {
            let p = child_text(at, "tags"@);
            lemma_as_object_named(x, p);
            if let Ok(t) = as_object_spec(x, p) {
                lemma_tag_entries_named(t, t.entries@, p, known);
            }
        }
        if let Ok(Some(x)) = property_spec(o, "nodes"@, at) {
            let p = child_text(at, "nodes"@);
            lemma_as_object_named(x, p);
            if let Ok(t) = as_object_spec(x, p) {
                lemma_node_entries_named(t, t.entries@, p, known);
            }
        }
        if let Ok(Some(x)) = property_spec(o, "variables"@, at) {
            let p = child_text(at, "variables"@);
            lemma_as_object_named(x, p);
            if let Ok(t) = as_object_spec(x, p) {
                lemma_variables_named(t, t.entries@, p);
            }
        }
        lemma_field_named(o, "tags"@, at, |d: JsData, p: Seq<char>| tags_spec(d, p, known));
        lemma_field_named(o, "nodes"@, at, |d: JsData, p: Seq<char>| nodes_spec(d, p, known));
        lemma_field_named(o, "variables"@, at, |d: JsData, p: Seq<char>| variables_spec(d, p));
    }
}

// --- What cannot be honoured is refused -------------------------------------

/// A key outside the allowed ones is found.
proof fn lemma_unknown_key_found(entries: Seq<JsEntry>, allowed: Seq<Seq<char>>, at: Seq<char>, i: int)
    requires
        0 <= i < entries.len(),
        !allowed.contains(entries[i].key@),
    ensures
        unknown_key(entries, allowed, at) is Some,
    decreases i,
{
    if i > 0 && allowed.contains(entries[0].key@) {
        assert(entries.drop_first()[i - 1] == entries[i]);
        lemma_unknown_key_found(entries.drop_first(), allowed, at, i - 1);
    }
}

/// A configuration carrying a key other than `tags`, `nodes` and
/// `variables` is refused, never half accepted.
pub proof fn lemma_unrecognised_top_level_key_refused(declared: JsData, known: Seq<Seq<char>>, i: int)
    requires
        declared is Object,
        0 <= i < declared->Object_0.entries@.len(),
        !top_level_keys().contains(declared->Object_0.entries@[i].key@),
    ensures
        build_spec(declared, known) is Err,
{
    lemma_unknown_key_found(declared->Object_0.entries@, top_level_keys(), root_text(), i);
}

/// A tag or node declaration carrying a key it cannot honour -- a
/// `transform` or `validate` hook among them -- is refused, never half
/// accepted.
pub proof fn lemma_unrecognised_schema_key_refused(d: JsData, at: Seq<char>, known: Seq<Seq<char>>, i: int)
    requires
        d is Object,
        0 <= i < d->Object_0.entries@.len(),
        !schema_keys().contains(d->Object_0.entries@[i].key@),
    ensures
        schema_spec(d, at, known) is Err,
{
    reveal(schema_spec);
    lemma_unknown_key_found(d->Object_0.entries@, schema_keys(), at, i);
}

// --- Authored order ----------------------------------------------------------

/// The names of a list of declarations, in order.
pub open spec fn names_of<T>(list: Seq<(Seq<char>, T)>) -> Seq<Seq<char>> {
    list.map_values(|p: (Seq<char>, T)| p.0)
}

/// Tag declarations keep the order the host wrote them in.
pub proof fn lemma_tags_keep_authored_order(entries: Seq<JsEntry>, at: Seq<char>, known: Seq<Seq<char>>)
    ensures
        tag_entries(entries, at, known) matches Ok(list) ==> names_of(list) == keys_of(entries),
    decreases entries.len(),
{
    if entries.len() > 0 {
        lemma_tags_keep_authored_order(entries.drop_last(), at, known);
        if let Ok(list) = tag_entries(entries, at, known) {
            let prev = tag_entries(entries.drop_last(), at, known)->Ok_0;
            assert(names_of(list) =~= names_of(prev).push(entries.last().key@));
            assert(keys_of(entries) =~= keys_of(entries.drop_last()).push(entries.last().key@));
        }
    }
}

/// Node declarations keep the order the host wrote them in.
pub proof fn lemma_nodes_keep_authored_order(entries: Seq<JsEntry>, at: Seq<char>, known: Seq<Seq<char>>)
    ensures
        node_entries(entries, at, known) matches Ok(list) ==> names_of(list) == keys_of(entries),
    decreases entries.len(),
{
    if entries.len() > 0 {
        lemma_nodes_keep_authored_order(entries.drop_last(), at, known);
        if let Ok(list) = node_entries(entries, at, known) {
            let prev = node_entries(entries.drop_last(), at, known)->Ok_0;
            assert(names_of(list) =~= names_of(prev).push(entries.last().key@));
            assert(keys_of(entries) =~= keys_of(entries.drop_last()).push(entries.last().key@));
        }
    }
}

/// Attribute declarations keep the order the host wrote them in.
pub proof fn lemma_attributes_keep_authored_order(entries: Seq<JsEntry>, at: Seq<char>)
    ensures
        attribute_entries(entries, at) matches Ok(list) ==> names_of(list) == keys_of(entries),
    decreases entries.len(),
{
    if entries.len() > 0 {
        lemma_attributes_keep_authored_order(entries.drop_last(), at);
        if let Ok(list) = attribute_entries(entries, at) {
            let prev = attribute_entries(entries.drop_last(), at)->Ok_0;
            assert(names_of(list) =~= names_of(prev).push(entries.last().key@));
            assert(keys_of(entries) =~= keys_of(entries.drop_last()).push(entries.last().key@));
        }
    }
}

/// Slot declarations keep the order the host wrote them in.
pub proof fn lemma_slots_keep_authored_order(entries: Seq<JsEntry>, at: Seq<char>)
    ensures
        slot_entries(entries, at) matches Ok(list) ==> names_of(list) == keys_of(entries),
    decreases entries.len(),
{
    if entries.len() > 0 {
        lemma_slots_keep_authored_order(entries.drop_last(), at);
        if let Ok(list) = slot_entries(entries, at) {
            let prev = slot_entries(entries.drop_last(), at)->Ok_0;
            assert(names_of(list) =~= names_of(prev).push(entries.last().key@));
            assert(keys_of(entries) =~= keys_of(entries.drop_last()).push(entries.last().key@));
        }
    }
}

} // verus!
