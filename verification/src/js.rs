//! JavaScript values as a host hands them over.
//!
//! A host configuration is assembled in JavaScript. The checks below read
//! only what a value is, and for a container what it holds, so a value is
//! taken as that: its kind, its scalar, its elements, or for an object its
//! own enumerable string keys in insertion order with the value each one
//! reads as, and what the names a declaration is read for read as where no
//! such key holds them.
use crate::path::{child_text, here, index_text, lemma_path_text_append, path_text, Seg};
use vstd::prelude::*;

verus! {

/// A JavaScript value. Its owner drops a deep one with [`release`], which
/// does not recurse.
pub enum JsData {
    Undefined,
    Null,
    Bool(bool),
    /// A number, as the bits of its IEEE 754 double.
    Number(u64),
    Text(String),
    Array(Vec<JsData>),
    Object(JsObject),
    Function,
    Symbol,
    BigInt,
}

/// A JavaScript object that is not an array or a function.
pub struct JsObject {
    /// Whether the object is plain: its prototype is `Object.prototype` or
    /// null. A `Date`, a `Map`, a `RegExp` or a class instance is not.
    pub plain: bool,
    /// The own enumerable string keys, in insertion order, each once as
    /// JavaScript lists them, with what reading each one gave.
    pub entries: Vec<JsEntry>,
    /// For the names a declaration is read for (see
    /// `config::field_names`) that are not among the keys above, what
    /// reading the name gave where it did not give `undefined`: a property
    /// the object inherits, or an own one that is not enumerable, as a
    /// property read finds it. A name that is in neither list reads as
    /// `undefined`.
    pub fields: Vec<JsEntry>,
}

/// One property of an object.
pub struct JsEntry {
    pub key: String,
    /// What reading the property gave, or `None` when reading it threw.
    pub value: Option<JsData>,
}

/// The first entry for `key`, as a property read finds it.
pub open spec fn lookup(entries: Seq<JsEntry>, key: Seq<char>) -> Option<JsEntry>
    decreases entries.len(),
{
    if entries.len() == 0 {
        None
    } else if entries[0].key@ == key {
        Some(entries[0])
    } else {
        lookup(entries.drop_first(), key)
    }
}

/// Whether an object is plain, from its prototype chain: it has no
/// prototype, or its prototype has none, as `Object.prototype` has not. A
/// `Date`, a `Map` or a class instance has another link in the chain.
/// Where the object has no prototype, the second answer is not asked for
/// and does not matter.
pub fn plain_object(has_prototype: bool, prototype_has_prototype: bool) -> (plain: bool)
    ensures
        plain == (!has_prototype || !prototype_has_prototype),
{
    !has_prototype || !prototype_has_prototype
}

/// What reading `key` on an object gives: its own enumerable property under
/// that key, else what the object holds for it among the declaration fields.
pub open spec fn read_field(o: JsObject, key: Seq<char>) -> Option<JsEntry> {
    match lookup(o.entries@, key) {
        Some(e) => Some(e),
        None => lookup(o.fields@, key),
    }
}

/// What one step from `d` reaches: a value, `Some(None)` for a property
/// whose read threw, or `None` where there is nothing.
pub open spec fn step(d: JsData, seg: Seg) -> Option<Option<JsData>> {
    match d {
        JsData::Object(o) => match seg {
            Seg::Key(k) => match read_field(o, k) {
                Some(e) => Some(e.value),
                None => None,
            },
            Seg::Index(_) => None,
        },
        JsData::Array(items) => match seg {
            Seg::Index(i) => if i < items@.len() {
                Some(Some(items@[i as int]))
            } else {
                None
            },
            Seg::Key(_) => None,
        },
        _ => None,
    }
}

/// What a path of steps from `d` reaches.
pub open spec fn reach(d: JsData, segs: Seq<Seg>) -> Option<Option<JsData>>
    decreases segs.len(),
{
    if segs.len() == 0 {
        Some(Some(d))
    } else {
        match reach(d, segs.drop_last()) {
            Some(Some(x)) => step(x, segs.last()),
            _ => None,
        }
    }
}

/// A part of `d`: a value it holds, or a property whose read threw, or
/// such a property's name once more after its path, which is how a
/// declaration that cannot be read is named.
pub open spec fn part(d: JsData, segs: Seq<Seg>) -> bool {
    ||| reach(d, segs) is Some
    ||| {
        &&& segs.len() >= 2
        &&& segs.last() is Key
        &&& segs.last() == segs[segs.len() - 2]
        &&& reach(d, segs.drop_last()) == Some::<Option<JsData>>(None)
    }
}

/// `e` names a part of `d`, the value at `at`: it starts with the path to
/// that part, then ": ".
pub open spec fn names_part(e: Seq<char>, d: JsData, at: Seq<char>) -> bool {
    exists|segs: Seq<Seg>|
        #![trigger part(d, segs)]
        part(d, segs) && (path_text(at, segs) + ": "@).is_prefix_of(e)
}

/// Whatever `r` refuses names a part of `d`, the value at `at`.
pub open spec fn err_in<T>(r: Result<T, Seq<char>>, d: JsData, at: Seq<char>) -> bool {
    r matches Err(e) ==> names_part(e, d, at)
}

/// Steps after steps reach what the second run reaches from where the first
/// one got.
pub proof fn lemma_reach_append(d: JsData, s1: Seq<Seg>, s2: Seq<Seg>, x: JsData)
    requires
        reach(d, s1) == Some(Some(x)),
    ensures
        reach(d, s1 + s2) == reach(x, s2),
    decreases s2.len(),
{
    if s2.len() == 0 {
        assert(s1 + s2 =~= s1);
    } else {
        assert((s1 + s2).drop_last() =~= s1 + s2.drop_last());
        assert((s1 + s2).last() == s2.last());
        lemma_reach_append(d, s1, s2.drop_last(), x);
    }
}

/// A part of a part is a part.
pub proof fn lemma_part_of_part(d: JsData, at: Seq<char>, s1: Seq<Seg>, x: JsData, e: Seq<char>)
    requires
        reach(d, s1) == Some(Some(x)),
        names_part(e, x, path_text(at, s1)),
    ensures
        names_part(e, d, at),
{
    let s2 = choose|s2: Seq<Seg>|
        #![trigger part(x, s2)]
        part(x, s2) && (path_text(path_text(at, s1), s2) + ": "@).is_prefix_of(e);
    lemma_reach_append(d, s1, s2, x);
    lemma_path_text_append(at, s1, s2);
    if reach(x, s2) is None {
        lemma_reach_append(d, s1, s2.drop_last(), x);
        assert((s1 + s2).drop_last() =~= s1 + s2.drop_last());
        assert((s1 + s2).last() == s2.last());
        assert((s1 + s2)[(s1 + s2).len() - 2] == s2[s2.len() - 2]);
    }
    assert(part(d, s1 + s2));
}

/// A refusal of a part is a refusal of the whole.
pub proof fn lemma_err_in_part<T>(r: Result<T, Seq<char>>, d: JsData, at: Seq<char>, s1: Seq<Seg>, x: JsData)
    requires
        reach(d, s1) == Some(Some(x)),
        err_in(r, x, path_text(at, s1)),
    ensures
        err_in(r, d, at),
{
    if let Err(e) = r {
        lemma_part_of_part(d, at, s1, x, e);
    }
}

/// The path to a part, then a text that starts with ": ", names that part.
pub proof fn lemma_names_part(d: JsData, at: Seq<char>, segs: Seq<Seg>, rest: Seq<char>)
    requires
        part(d, segs),
        rest.len() >= 2,
        rest[0] == ':',
        rest[1] == ' ',
    ensures
        names_part(path_text(at, segs) + rest, d, at),
{
    reveal_strlit(": ");
    let p = path_text(at, segs);
    assert((p + rest).subrange(0, p.len() + 2int) =~= p + ": "@);
}

/// One step: what it reaches, and the path it takes.
pub proof fn lemma_one_step(d: JsData, at: Seq<char>, seg: Seg)
    ensures
        reach(d, seq![seg]) == step(d, seg),
        path_text(at, seq![seg]) == match seg {
            Seg::Key(k) => child_text(at, k),
            Seg::Index(i) => index_text(at, i),
        },
{
    let segs = seq![seg];
    assert(segs.drop_last() =~= Seq::<Seg>::empty());
    assert(segs.last() == seg);
    assert(reach(d, segs.drop_last()) == Some(Some(d)));
    assert(path_text(at, segs.drop_last()) == at);
}

/// No key listed twice.
pub open spec fn unique_keys(entries: Seq<JsEntry>) -> bool {
    forall|i: int, j: int| 0 <= i < j < entries.len() ==> entries[i].key@ != entries[j].key@
}

/// A value as JavaScript can hand one over: no object lists a key twice,
/// and no array is longer than an index can count.
pub open spec fn well_formed(d: JsData) -> bool
    decreases d,
{
    match d {
        JsData::Array(items) => items@.len() <= u32::MAX && all_well_formed(items@),
        JsData::Object(o) => unique_keys(o.entries@) && entries_well_formed(o.entries@)
            && entries_well_formed(o.fields@),
        _ => true,
    }
}

/// Every value of a sequence is well formed.
pub open spec fn all_well_formed(s: Seq<JsData>) -> bool
    decreases s,
{
    if s.len() == 0 {
        true
    } else {
        all_well_formed(s.drop_last()) && well_formed(s.last())
    }
}

/// Every value that reading a property gave is well formed.
pub open spec fn entries_well_formed(s: Seq<JsEntry>) -> bool
    decreases s,
{
    if s.len() == 0 {
        true
    } else {
        entries_well_formed(s.drop_last()) && match s.last().value {
            Some(d) => well_formed(d),
            None => true,
        }
    }
}

/// Each element of a well-formed sequence is well formed.
pub proof fn lemma_element_well_formed(s: Seq<JsData>, i: int)
    requires
        all_well_formed(s),
        0 <= i < s.len(),
    ensures
        well_formed(s[i]),
    decreases s.len(),
{
    if i < s.len() - 1 {
        assert(s.drop_last()[i] == s[i]);
        lemma_element_well_formed(s.drop_last(), i);
    }
}

/// Each value read from a well-formed list of properties is well formed.
pub proof fn lemma_entry_well_formed(s: Seq<JsEntry>, i: int)
    requires
        entries_well_formed(s),
        0 <= i < s.len(),
    ensures
        s[i].value matches Some(d) ==> well_formed(d),
    decreases s.len(),
{
    if i < s.len() - 1 {
        assert(s.drop_last()[i] == s[i]);
        lemma_entry_well_formed(s.drop_last(), i);
    }
}

/// What a lookup finds is in the list, under the key looked up.
pub proof fn lemma_lookup_index(s: Seq<JsEntry>, key: Seq<char>) -> (i: int)
    requires
        lookup(s, key) is Some,
    ensures
        0 <= i < s.len(),
        s[i] == lookup(s, key)->Some_0,
    decreases s.len(),
{
    if s[0].key@ == key {
        0
    } else {
        let j = lemma_lookup_index(s.drop_first(), key);
        assert(s.drop_first()[j] == s[j + 1]);
        j + 1
    }
}

/// With no key listed twice, a lookup of an entry's key finds that entry.
pub proof fn lemma_lookup_unique(s: Seq<JsEntry>, i: int)
    requires
        unique_keys(s),
        0 <= i < s.len(),
    ensures
        lookup(s, s[i].key@) == Some(s[i]),
    decreases i,
{
    if i > 0 {
        assert(s[0].key@ != s[i].key@);
        assert(unique_keys(s.drop_first())) by {
            assert forall|a: int, b: int| 0 <= a < b < s.drop_first().len() implies s.drop_first()[a].key@
                != s.drop_first()[b].key@ by {
                assert(s.drop_first()[a] == s[a + 1]);
                assert(s.drop_first()[b] == s[b + 1]);
            }
        }
        assert(s.drop_first()[i - 1] == s[i]);
        lemma_lookup_unique(s.drop_first(), i - 1);
    }
}

/// A field of a well-formed object reads as a well-formed value.
pub proof fn lemma_field_well_formed(o: JsObject, key: Seq<char>)
    requires
        well_formed(JsData::Object(o)),
    ensures
        read_field(o, key) matches Some(e) ==> (e.value matches Some(x) ==> well_formed(x)),
{
    if lookup(o.entries@, key) is Some {
        let i = lemma_lookup_index(o.entries@, key);
        lemma_entry_well_formed(o.entries@, i);
    } else if lookup(o.fields@, key) is Some {
        let i = lemma_lookup_index(o.fields@, key);
        lemma_entry_well_formed(o.fields@, i);
    }
}

/// One step from a well-formed object to its own property `i` reaches what
/// reading that property gave.
pub proof fn lemma_reach_entry(o: JsObject, i: int)
    requires
        well_formed(JsData::Object(o)),
        0 <= i < o.entries@.len(),
    ensures
        reach(JsData::Object(o), seq![Seg::Key(o.entries@[i].key@)]) == Some(o.entries@[i].value),
        o.entries@[i].value matches Some(x) ==> well_formed(x),
{
    lemma_lookup_unique(o.entries@, i);
    lemma_entry_well_formed(o.entries@, i);
    let segs = seq![Seg::Key(o.entries@[i].key@)];
    assert(segs.drop_last() =~= Seq::<Seg>::empty());
    assert(reach(JsData::Object(o), segs.drop_last()) == Some(Some(JsData::Object(o))));
    assert(read_field(o, o.entries@[i].key@) == Some(o.entries@[i]));
    assert(step(JsData::Object(o), segs.last()) == Some(o.entries@[i].value));
}

/// A message about the value at the end of a path to a part names that part.
pub proof fn lemma_here_part(e: Seq<char>, d: JsData, at: Seq<char>, segs: Seq<Seg>)
    requires
        part(d, segs),
        here(e, path_text(at, segs)),
    ensures
        names_part(e, d, at),
{
}

/// A message about `d` itself names `d`.
pub proof fn lemma_here_whole(e: Seq<char>, d: JsData, at: Seq<char>)
    requires
        here(e, at),
    ensures
        names_part(e, d, at),
{
    assert(path_text(at, Seq::<Seg>::empty()) == at);
    lemma_here_part(e, d, at, Seq::<Seg>::empty());
}

/// A property read finds the first entry under its key, and nothing when
/// no entry has that key.
pub proof fn lemma_lookup_finds_first(entries: Seq<JsEntry>, key: Seq<char>)
    ensures
        lookup(entries, key) is None <==> forall|i: int| 0 <= i < entries.len() ==> (#[trigger] entries[i]).key@ != key,
        lookup(entries, key) matches Some(e) ==> exists|i: int|
            0 <= i < entries.len() && #[trigger] entries[i] == e && e.key@ == key && forall|j: int| 0 <= j < i ==> (#[trigger] entries[j]).key@ != key,
    decreases entries.len(),
{
    if entries.len() > 0 {
        lemma_lookup_finds_first(entries.drop_first(), key);
        assert forall|i: int| 0 < i < entries.len() implies #[trigger] entries[i] == entries.drop_first()[i - 1] by {}
        if entries[0].key@ == key {
            assert(entries[0] == lookup(entries, key)->Some_0);
        } else if let Some(e) = lookup(entries, key) {
            let i = choose|i: int|
                0 <= i < entries.drop_first().len() && #[trigger] entries.drop_first()[i] == e && e.key@ == key
                    && forall|j: int| 0 <= j < i ==> (#[trigger] entries.drop_first()[j]).key@ != key;
            assert(entries[i + 1] == e);
            assert forall|j: int| 0 <= j < i + 1 implies (#[trigger] entries[j]).key@ != key by {
                if j > 0 {
                    assert(entries[j] == entries.drop_first()[j - 1]);
                }
            }
        } else {
            assert forall|i: int| 0 <= i < entries.len() implies (#[trigger] entries[i]).key@ != key by {
                if i > 0 {
                    assert(entries[i] == entries.drop_first()[i - 1]);
                }
            }
        }
    }
}

/// Reading a field finds an own enumerable property first, and only where
/// there is none what the object holds among its declaration fields.
pub proof fn lemma_read_field_own_first(o: JsObject, key: Seq<char>)
    ensures
        lookup(o.entries@, key) is Some ==> read_field(o, key) == lookup(o.entries@, key),
        lookup(o.entries@, key) is None ==> read_field(o, key) == lookup(o.fields@, key),
{
}

/// The keys of an object, in order.
pub open spec fn keys_of(entries: Seq<JsEntry>) -> Seq<Seq<char>> {
    entries.map_values(|e: JsEntry| e.key@)
}

/// The size of a value: one for itself, plus the sizes of what it holds.
pub open spec fn size(d: JsData) -> nat
    decreases d,
{
    match d {
        JsData::Array(items) => 1 + sizes(items@),
        JsData::Object(o) => 1 + entry_sizes(o.entries@) + entry_sizes(o.fields@),
        _ => 1,
    }
}

/// The sizes of a sequence of values.
pub open spec fn sizes(items: Seq<JsData>) -> nat
    decreases items,
{
    if items.len() == 0 {
        0
    } else {
        sizes(items.drop_last()) + size(items.last())
    }
}

/// The sizes of the properties of an object.
pub open spec fn entry_sizes(entries: Seq<JsEntry>) -> nat
    decreases entries,
{
    if entries.len() == 0 {
        0
    } else {
        entry_sizes(entries.drop_last()) + match entries.last().value {
            Some(d) => size(d),
            None => 0,
        }
    }
}

/// Take a value apart one level at a time, so that dropping one of any depth
/// does not exhaust the stack.
pub fn release(d: JsData) {
    let mut stack: Vec<JsData> = Vec::new();
    stack.push(d);
    while stack.len() > 0
        decreases sizes(stack@),
    {
        let ghost before = stack@;
        let top = match stack.pop() {
            Some(top) => top,
            None => break,
        };
        proof {
            assert(before == stack@.push(top));
            assert(before.drop_last() =~= stack@);
            assert(before.last() == top);
            assert(sizes(before) == sizes(stack@) + size(top));
        }
        let ghost budget = sizes(before);
        match top {
            JsData::Array(items) => {
                let mut items = items;
                while items.len() > 0
                    invariant
                        sizes(stack@) + sizes(items@) < budget,
                    decreases items.len(),
                {
                    let ghost all = items@;
                    match items.pop() {
                        Some(item) => {
                            assert(all.drop_last() =~= items@);
                            let ghost below = stack@;
                            stack.push(item);
                            assert(stack@.drop_last() =~= below);
                        },
                        None => {},
                    }
                }
            },
            JsData::Object(object) => {
                let JsObject { plain: _, entries, fields } = object;
                let mut entries = entries;
                let mut fields = fields;
                while entries.len() > 0
                    invariant
                        sizes(stack@) + entry_sizes(entries@) + entry_sizes(fields@) < budget,
                    decreases entries.len(),
                {
                    let ghost all = entries@;
                    match entries.pop() {
                        Some(entry) => {
                            assert(all.drop_last() =~= entries@);
                            match entry.value {
                                Some(item) => {
                                    let ghost below = stack@;
                                    stack.push(item);
                                    assert(stack@.drop_last() =~= below);
                                },
                                None => {},
                            }
                        },
                        None => {},
                    }
                }
                while fields.len() > 0
                    invariant
                        sizes(stack@) + entry_sizes(fields@) < budget,
                    decreases fields.len(),
                {
                    let ghost all = fields@;
                    match fields.pop() {
                        Some(entry) => {
                            assert(all.drop_last() =~= fields@);
                            match entry.value {
                                Some(item) => {
                                    let ghost below = stack@;
                                    stack.push(item);
                                    assert(stack@.drop_last() =~= below);
                                },
                                None => {},
                            }
                        },
                        None => {},
                    }
                }
            },
            _ => {},
        }
    }
}

} // verus!
