//! What the library takes from std and from `indexmap` without proof: each
//! item here states what the documentation of the function it calls says.
use crate::text::{text_le, texts};
use crate::value::{Value, ValueV};
use indexmap::IndexMap;
use vstd::prelude::*;

verus! {

/// `indexmap::IndexMap`, the insertion-ordered map variables are held in.
#[verifier::external_type_specification]
#[verifier::external_body]
#[verifier::reject_recursive_types(K)]
#[verifier::reject_recursive_types(V)]
#[verifier::reject_recursive_types(S)]
pub struct ExIndexMap<K, V, S>(IndexMap<K, V, S>);

/// The entries of a map of variables, in the map's order.
pub uninterp spec fn variable_entries(map: IndexMap<String, Value>) -> Seq<(Seq<char>, ValueV)>;

/// The position of the first entry under `key`.
pub open spec fn key_position(entries: Seq<(Seq<char>, ValueV)>, key: Seq<char>) -> Option<int>
    decreases entries.len(),
{
    if entries.len() == 0 {
        None
    } else if entries[0].0 == key {
        Some(0)
    } else {
        match key_position(entries.drop_first(), key) {
            Some(i) => Some(i + 1),
            None => None,
        }
    }
}

/// The entries after inserting `value` under `key`: an entry already under
/// the key keeps its key and its place and takes the new value; otherwise the
/// pair goes last.
pub open spec fn insert_entry(entries: Seq<(Seq<char>, ValueV)>, key: Seq<char>, value: ValueV) -> Seq<
    (Seq<char>, ValueV),
> {
    match key_position(entries, key) {
        Some(i) => entries.update(i, (entries[i].0, value)),
        None => entries.push((key, value)),
    }
}

/// `IndexMap::new`: a map with no entries.
#[verifier::external_body]
pub(crate) fn new_variables() -> (map: IndexMap<String, Value>)
    ensures
        variable_entries(map) == Seq::<(Seq<char>, ValueV)>::empty(),
{
    IndexMap::new()
}

/// `IndexMap::insert`: keys are equivalent when their texts are equal, an
/// existing key keeps its place in the order and takes the new value, and a
/// new key is inserted last. The value it hands back is not used.
#[verifier::external_body]
pub(crate) fn insert_variable(map: &mut IndexMap<String, Value>, key: String, value: Value)
    ensures
        variable_entries(*final(map)) == insert_entry(variable_entries(*old(map)), key@, value@),
{
    map.insert(key, value);
}

/// The text of `<str as Debug>::fmt`: the string quoted, with its special
/// characters escaped.
pub uninterp spec fn debug_text(s: Seq<char>) -> Seq<char>;

/// `format!("{:?}", s)` on a `&str`. What the escaping is, is not stated:
/// the result is named by [`debug_text`].
#[verifier::external_body]
pub(crate) fn debug_quoted(s: &str) -> (quoted: String)
    ensures
        quoted@ == debug_text(s@),
{
    format!("{:?}", s)
}

/// `<[String]>::sort_unstable`: the same strings, in the order of `str`'s
/// `Ord`, which is lexicographic by byte and so by code point.
#[verifier::external_body]
pub(crate) fn sort_texts(names: &mut Vec<String>)
    ensures
        texts(final(names)@).to_multiset() == texts(old(names)@).to_multiset(),
        vstd::relations::sorted_by(texts(final(names)@), |a: Seq<char>, b: Seq<char>| text_le(a, b)),
{
    names.sort_unstable();
}

} // verus!
