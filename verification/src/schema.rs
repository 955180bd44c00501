//! What a host's schema declarations become: tags and nodes with their
//! render policy, allowed children, typed attributes and slots, and
//! variables. Each field holds what the host declared, `None` where it
//! declared nothing, so that the declarations merge over the built-ins.
use crate::outside::variable_entries;
use crate::text::texts;
use crate::value::{Value, ValueV};
use indexmap::IndexMap;
use vstd::prelude::*;

verus! {

/// The type an attribute value must have.
pub enum ValidationType {
    String,
    Number,
    Boolean,
    Object,
    Array,
    /// Any one of these.
    Union(Vec<ValidationType>),
}

/// What a [`ValidationType`] is, mathematically.
pub enum TypeV {
    String,
    Number,
    Boolean,
    Object,
    Array,
    Union(Seq<TypeV>),
}

/// The mathematical type of a [`ValidationType`].
pub open spec fn type_view(t: ValidationType) -> TypeV
    decreases t,
{
    match t {
        ValidationType::String => TypeV::String,
        ValidationType::Number => TypeV::Number,
        ValidationType::Boolean => TypeV::Boolean,
        ValidationType::Object => TypeV::Object,
        ValidationType::Array => TypeV::Array,
        ValidationType::Union(list) => TypeV::Union(types_view(list@)),
    }
}

/// The mathematical types of a list of types.
pub open spec fn types_view(s: Seq<ValidationType>) -> Seq<TypeV>
    decreases s,
{
    if s.len() == 0 {
        seq![]
    } else {
        types_view(s.drop_last()).push(type_view(s.last()))
    }
}

/// How severe a failed check on an attribute is.
#[derive(Clone, Copy, PartialEq, Eq, Structural, Debug)]
pub enum ErrorLevel {
    Debug,
    Info,
    Warning,
    Error,
    Critical,
}

/// How an attribute or slot renders: under its own name, not at all, or
/// under another name.
pub enum RenderPolicy {
    Named,
    Hidden,
    Renamed(String),
}

/// What a [`RenderPolicy`] is, mathematically.
pub enum RenderV {
    Named,
    Hidden,
    Renamed(Seq<char>),
}

/// The mathematical render policy.
pub open spec fn render_view(r: RenderPolicy) -> RenderV {
    match r {
        RenderPolicy::Named => RenderV::Named,
        RenderPolicy::Hidden => RenderV::Hidden,
        RenderPolicy::Renamed(name) => RenderV::Renamed(name@),
    }
}

/// An attribute declaration.
pub struct SchemaAttribute {
    pub attribute_type: Option<ValidationType>,
    pub default: Option<Value>,
    pub required: Option<bool>,
    /// The closed set of acceptable values.
    pub matches: Option<Vec<String>>,
    pub render: Option<RenderPolicy>,
    pub error_level: Option<ErrorLevel>,
    pub description: Option<String>,
}

/// A slot declaration.
pub struct SchemaSlot {
    pub render: Option<RenderPolicy>,
    pub required: Option<bool>,
}

/// A tag or node declaration.
pub struct Schema {
    /// `Some(None)` for `false`: the element is not rendered. `Some(Some(n))`
    /// renders it as `n`.
    pub render: Option<Option<String>>,
    /// The node types allowed as children, by name.
    pub children: Option<Vec<String>>,
    pub attributes: Vec<(String, SchemaAttribute)>,
    pub slots: Vec<(String, SchemaSlot)>,
    pub self_closing: Option<bool>,
    pub inline: Option<bool>,
    pub description: Option<String>,
}

/// A host's declarations, to merge over the built-ins.
pub struct Declarations {
    pub tags: Vec<(String, Schema)>,
    /// Keyed by node type name.
    pub nodes: Vec<(String, Schema)>,
    pub variables: Option<IndexMap<String, Value>>,
}

/// What an attribute declaration is, mathematically.
pub struct AttributeV {
    pub attribute_type: Option<TypeV>,
    pub default: Option<ValueV>,
    pub required: Option<bool>,
    pub matches: Option<Seq<Seq<char>>>,
    pub render: Option<RenderV>,
    pub error_level: Option<ErrorLevel>,
    pub description: Option<Seq<char>>,
}

/// What a slot declaration is, mathematically.
pub struct SlotV {
    pub render: Option<RenderV>,
    pub required: Option<bool>,
}

/// What a tag or node declaration is, mathematically.
pub struct SchemaV {
    pub render: Option<Option<Seq<char>>>,
    pub children: Option<Seq<Seq<char>>>,
    pub attributes: Seq<(Seq<char>, AttributeV)>,
    pub slots: Seq<(Seq<char>, SlotV)>,
    pub self_closing: Option<bool>,
    pub inline: Option<bool>,
    pub description: Option<Seq<char>>,
}

/// What a host's declarations are, mathematically.
pub struct DeclarationsV {
    pub tags: Seq<(Seq<char>, SchemaV)>,
    pub nodes: Seq<(Seq<char>, SchemaV)>,
    pub variables: Option<Seq<(Seq<char>, ValueV)>>,
}

/// An optional text, as text.
pub open spec fn opt_text(o: Option<String>) -> Option<Seq<char>> {
    match o {
        Some(s) => Some(s@),
        None => None,
    }
}

/// The mathematical attribute declaration.
pub open spec fn attribute_view(a: SchemaAttribute) -> AttributeV {
    AttributeV {
        attribute_type: match a.attribute_type {
            Some(t) => Some(type_view(t)),
            None => None,
        },
        default: match a.default {
            Some(v) => Some(v@),
            None => None,
        },
        required: a.required,
        matches: match a.matches {
            Some(list) => Some(texts(list@)),
            None => None,
        },
        render: match a.render {
            Some(r) => Some(render_view(r)),
            None => None,
        },
        error_level: a.error_level,
        description: opt_text(a.description),
    }
}

/// The mathematical slot declaration.
pub open spec fn slot_view(s: SchemaSlot) -> SlotV {
    SlotV {
        render: match s.render {
            Some(r) => Some(render_view(r)),
            None => None,
        },
        required: s.required,
    }
}

/// The mathematical attribute declarations, in order.
pub open spec fn attributes_view(s: Seq<(String, SchemaAttribute)>) -> Seq<(Seq<char>, AttributeV)> {
    s.map_values(|p: (String, SchemaAttribute)| (p.0@, attribute_view(p.1)))
}

/// The mathematical slot declarations, in order.
pub open spec fn slots_view(s: Seq<(String, SchemaSlot)>) -> Seq<(Seq<char>, SlotV)> {
    s.map_values(|p: (String, SchemaSlot)| (p.0@, slot_view(p.1)))
}

/// The mathematical schema.
pub open spec fn schema_view(s: Schema) -> SchemaV {
    SchemaV {
        render: match s.render {
            Some(Some(name)) => Some(Some(name@)),
            Some(None) => Some(None),
            None => None,
        },
        children: match s.children {
            Some(list) => Some(texts(list@)),
            None => None,
        },
        attributes: attributes_view(s.attributes@),
        slots: slots_view(s.slots@),
        self_closing: s.self_closing,
        inline: s.inline,
        description: opt_text(s.description),
    }
}

/// The mathematical schemas, in order.
pub open spec fn schemas_view(s: Seq<(String, Schema)>) -> Seq<(Seq<char>, SchemaV)> {
    s.map_values(|p: (String, Schema)| (p.0@, schema_view(p.1)))
}

/// The mathematical declarations.
pub open spec fn declarations_view(d: Declarations) -> DeclarationsV {
    DeclarationsV {
        tags: schemas_view(d.tags@),
        nodes: schemas_view(d.nodes@),
        variables: match d.variables {
            Some(map) => Some(variable_entries(map)),
            None => None,
        },
    }
}

} // verus!
