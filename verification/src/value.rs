//! JavaScript values, inward.
//!
//! An attribute default and a variable are authored in JavaScript and become
//! Markdoc values here. The walk is iterative, over an explicit worklist: a
//! configuration can be assembled from manifests nobody here wrote, and a
//! deeply nested one must not exhaust the stack. For the same reason a
//! value is held flat, its nodes in one list, so that neither building it
//! nor dropping it recurses.
use crate::js::{
    entry_sizes, err_in, lemma_element_well_formed, lemma_err_in_part, lemma_names_part,
    lemma_one_step, lemma_reach_entry, names_part, reach, size, sizes, well_formed, JsData, JsEntry,
    JsObject,
};
use crate::outside::{insert_entry, insert_variable, new_variables, variable_entries};
use crate::path::{
    child_text, index_text, lemma_first_refusal_decides, path_text, Path, Seg,
};
use indexmap::IndexMap;
use vstd::prelude::*;

verus! {

/// One node of a [`Value`]: a scalar, or a container whose members are
/// other nodes of the same value, by index.
#[derive(Debug, PartialEq)]
pub enum Node {
    Null,
    Boolean(bool),
    /// A number, as the bits of its IEEE 754 double.
    Number(u64),
    String(String),
    Array(Vec<usize>),
    /// Keys and members in authored order.
    Hash(Vec<(String, usize)>),
}

/// A Markdoc value, held flat: its nodes, each container after the nodes
/// it holds, and which node is the whole value. A value of any depth is
/// built, handed over and taken apart without recursing.
#[derive(Debug, PartialEq)]
pub struct Value {
    pub nodes: Vec<Node>,
    pub root: usize,
}

/// What a [`Value`] is, mathematically.
pub enum ValueV {
    Null,
    Boolean(bool),
    Number(u64),
    Text(Seq<char>),
    Array(Seq<ValueV>),
    Hash(Seq<(Seq<char>, ValueV)>),
}

/// The mathematical value of node `i`. A container reaches only nodes
/// before it; a member that is not is read as null.
pub open spec fn node_view(nodes: Seq<Node>, i: int) -> ValueV
    decreases i + 1, 0int,
{
    if 0 <= i < nodes.len() {
        match nodes[i] {
            Node::Null => ValueV::Null,
            Node::Boolean(b) => ValueV::Boolean(b),
            Node::Number(n) => ValueV::Number(n),
            Node::String(s) => ValueV::Text(s@),
            Node::Array(ids) => ValueV::Array(members_view(nodes, ids@, i)),
            Node::Hash(pairs) => ValueV::Hash(pairs_view(nodes, pairs@, i)),
        }
    } else {
        ValueV::Null
    }
}

/// The mathematical values of the members of a container at `bound`.
pub open spec fn members_view(nodes: Seq<Node>, ids: Seq<usize>, bound: int) -> Seq<ValueV>
    decreases bound, ids.len(),
{
    if ids.len() == 0 {
        seq![]
    } else {
        members_view(nodes, ids.drop_last(), bound).push(
            if ids.last() < bound {
                node_view(nodes, ids.last() as int)
            } else {
                ValueV::Null
            },
        )
    }
}

/// The mathematical entries of the pairs of a hash at `bound`.
pub open spec fn pairs_view(nodes: Seq<Node>, pairs: Seq<(String, usize)>, bound: int) -> Seq<
    (Seq<char>, ValueV),
>
    decreases bound, pairs.len(),
{
    if pairs.len() == 0 {
        seq![]
    } else {
        pairs_view(nodes, pairs.drop_last(), bound).push(
            (
                pairs.last().0@,
                if pairs.last().1 < bound {
                    node_view(nodes, pairs.last().1 as int)
                } else {
                    ValueV::Null
                },
            ),
        )
    }
}

/// The mathematical value of a [`Value`].
pub open spec fn value_view(v: Value) -> ValueV {
    node_view(v.nodes@, v.root as int)
}

impl View for Value {
    type V = ValueV;

    open spec fn view(&self) -> ValueV {
        value_view(*self)
    }
}

/// The mathematical values of the nodes at the given indices.
pub open spec fn stack_view(nodes: Seq<Node>, ids: Seq<usize>) -> Seq<ValueV> {
    ids.map_values(|j: usize| node_view(nodes, j as int))
}

/// Nodes added after node `i` leave what it is unchanged.
pub proof fn lemma_node_view_stable(nodes: Seq<Node>, more: Seq<Node>, i: int)
    requires
        0 <= i < nodes.len(),
    ensures
        node_view(nodes + more, i) == node_view(nodes, i),
    decreases i + 1, 0int,
{
    let all = nodes + more;
    assert(all[i] == nodes[i]);
    match nodes[i] {
        Node::Array(ids) => {
            lemma_members_view_stable(nodes, more, ids@, i);
        },
        Node::Hash(pairs) => {
            lemma_pairs_view_stable(nodes, more, pairs@, i);
        },
        _ => {},
    }
}

/// Nodes added after a container leave its members unchanged.
proof fn lemma_members_view_stable(nodes: Seq<Node>, more: Seq<Node>, ids: Seq<usize>, bound: int)
    requires
        0 <= bound <= nodes.len(),
    ensures
        members_view(nodes + more, ids, bound) == members_view(nodes, ids, bound),
    decreases bound, ids.len(),
{
    if ids.len() > 0 {
        lemma_members_view_stable(nodes, more, ids.drop_last(), bound);
        if ids.last() < bound {
            lemma_node_view_stable(nodes, more, ids.last() as int);
        }
    }
}

/// Nodes added after a hash leave its entries unchanged.
proof fn lemma_pairs_view_stable(
    nodes: Seq<Node>,
    more: Seq<Node>,
    pairs: Seq<(String, usize)>,
    bound: int,
)
    requires
        0 <= bound <= nodes.len(),
    ensures
        pairs_view(nodes + more, pairs, bound) == pairs_view(nodes, pairs, bound),
    decreases bound, pairs.len(),
{
    if pairs.len() > 0 {
        lemma_pairs_view_stable(nodes, more, pairs.drop_last(), bound);
        if pairs.last().1 < bound {
            lemma_node_view_stable(nodes, more, pairs.last().1 as int);
        }
    }
}

/// Members that all come before their container are what they are.
proof fn lemma_members_view_below(nodes: Seq<Node>, ids: Seq<usize>, bound: int)
    requires
        forall|k: int| 0 <= k < ids.len() ==> ids[k] < bound,
    ensures
        members_view(nodes, ids, bound) == stack_view(nodes, ids),
    decreases ids.len(),
{
    if ids.len() > 0 {
        lemma_members_view_below(nodes, ids.drop_last(), bound);
        assert(stack_view(nodes, ids.drop_last()).push(node_view(nodes, ids.last() as int)) =~= stack_view(nodes, ids));
    } else {
        assert(stack_view(nodes, ids) =~= Seq::<ValueV>::empty());
    }
}

/// Pushing a node leaves the values of the stack below it unchanged.
proof fn lemma_stack_view_stable(nodes: Seq<Node>, n: Node, ids: Seq<usize>)
    requires
        forall|k: int| 0 <= k < ids.len() ==> ids[k] < nodes.len(),
    ensures
        stack_view(nodes.push(n), ids) == stack_view(nodes, ids),
{
    assert forall|k: int| 0 <= k < ids.len() implies #[trigger] stack_view(nodes.push(n), ids)[k] == stack_view(nodes, ids)[k] by {
        assert(nodes.push(n) =~= nodes + seq![n]);
        lemma_node_view_stable(nodes, seq![n], ids[k] as int);
    }
    assert(stack_view(nodes.push(n), ids) =~= stack_view(nodes, ids));
}

/// The path to an element, with the index counted as JavaScript counts it.
pub open spec fn element_path(at: Seq<char>, index: int) -> Seq<char> {
    index_text(at, if index <= u32::MAX { index as nat } else { u32::MAX as nat })
}

/// A short name for a value with no Markdoc counterpart.
pub open spec fn describe(d: JsData) -> Seq<char> {
    match d {
        JsData::Function => "function"@,
        JsData::Symbol => "symbol"@,
        JsData::BigInt => "BigInt"@,
        JsData::Object(_) => "class instance or built-in object"@,
        _ => "value of this type"@,
    }
}

/// The message for a value with no Markdoc counterpart.
pub open spec fn no_counterpart(at: Seq<char>, d: JsData) -> Seq<char> {
    at + ": a "@ + describe(d)
        + " has no Markdoc counterpart; use a string, number, boolean, null, array or plain object"@
}

/// The message for a property that cannot be read.
pub open spec fn unreadable(at: Seq<char>, key: Seq<char>) -> Seq<char> {
    child_text(at, key) + ": cannot be read"@
}

/// The last property of an object that cannot be read, as a message: the
/// properties are read last to first before any of them is converted.
pub open spec fn last_unreadable(entries: Seq<JsEntry>, at: Seq<char>) -> Option<Seq<char>>
    decreases entries.len(),
{
    if entries.len() == 0 {
        None
    } else if entries.last().value is None {
        Some(unreadable(at, entries.last().key@))
    } else {
        last_unreadable(entries.drop_last(), at)
    }
}

/// A JavaScript value as a Markdoc value, or the message for the first part
/// of it, in document order, that has no counterpart.
pub open spec fn convert(d: JsData, at: Seq<char>) -> Result<ValueV, Seq<char>>
    decreases d,
{
    match d {
        JsData::Undefined => Ok(ValueV::Null),
        JsData::Null => Ok(ValueV::Null),
        JsData::Bool(b) => Ok(ValueV::Boolean(b)),
        JsData::Number(n) => Ok(ValueV::Number(n)),
        JsData::Text(s) => Ok(ValueV::Text(s@)),
        JsData::Array(items) => match convert_items(items@, at) {
            Ok(vs) => Ok(ValueV::Array(vs)),
            Err(e) => Err(e),
        },
        JsData::Object(o) => if !o.plain {
            Err(no_counterpart(at, d))
        } else {
            match last_unreadable(o.entries@, at) {
                Some(e) => Err(e),
                None => match convert_entries(o.entries@, at) {
                    Ok(ps) => Ok(ValueV::Hash(ps)),
                    Err(e) => Err(e),
                },
            }
        },
        _ => Err(no_counterpart(at, d)),
    }
}

/// The elements of an array, converted in order.
pub open spec fn convert_items(items: Seq<JsData>, at: Seq<char>) -> Result<Seq<ValueV>, Seq<char>>
    decreases items,
{
    if items.len() == 0 {
        Ok(seq![])
    } else {
        match convert_items(items.drop_last(), at) {
            Err(e) => Err(e),
            Ok(vs) => match convert(items.last(), element_path(at, items.len() - 1)) {
                Err(e) => Err(e),
                Ok(v) => Ok(vs.push(v)),
            },
        }
    }
}

/// The properties of an object, converted in order.
pub open spec fn convert_entries(entries: Seq<JsEntry>, at: Seq<char>) -> Result<
    Seq<(Seq<char>, ValueV)>,
    Seq<char>,
>
    decreases entries,
{
    if entries.len() == 0 {
        Ok(seq![])
    } else {
        match convert_entries(entries.drop_last(), at) {
            Err(e) => Err(e),
            Ok(ps) => {
                let last = entries.last();
                match last.value {
                    None => Err(unreadable(at, last.key@)),
                    Some(d) => match convert(d, child_text(at, last.key@)) {
                        Err(e) => Err(e),
                        Ok(v) => Ok(ps.push((last.key@, v))),
                    },
                }
            },
        }
    }
}

/// One unit of work for [`value`].
pub enum Step<'a> {
    /// Convert this value.
    Read(&'a JsData, Path),
    /// Close an array over the given number of converted elements.
    Array(usize),
    /// Close an object over one value per key, in key order.
    Object(Vec<String>),
}

/// The last `count` values, and what is left before them; all of them when
/// there are fewer.
pub open spec fn split_point(len: int, count: int) -> int {
    if len >= count {
        len - count
    } else {
        0
    }
}

/// Close an array over the last `count` values.
pub open spec fn close_array(vals: Seq<ValueV>, count: int) -> Seq<ValueV> {
    let start = split_point(vals.len() as int, count);
    vals.take(start).push(ValueV::Array(vals.skip(start)))
}

/// Pair keys with values, as far as both go.
pub open spec fn zip_entries(keys: Seq<Seq<char>>, items: Seq<ValueV>) -> Seq<(Seq<char>, ValueV)> {
    Seq::new(
        if keys.len() <= items.len() {
            keys.len()
        } else {
            items.len()
        },
        |i: int| (keys[i], items[i]),
    )
}

/// Close an object over the last values, one per key.
pub open spec fn close_object(vals: Seq<ValueV>, keys: Seq<Seq<char>>) -> Seq<ValueV> {
    let start = split_point(vals.len() as int, keys.len() as int);
    vals.take(start).push(ValueV::Hash(zip_entries(keys, vals.skip(start))))
}

/// The views of a list of keys.
pub open spec fn key_views(keys: Seq<String>) -> Seq<Seq<char>> {
    keys.map_values(|k: String| k@)
}

/// What is left of a worklist to do, the top of the stack last: a step to
/// read a value converts it whole.
pub open spec fn eval<'a>(steps: Seq<Step<'a>>, vals: Seq<ValueV>) -> Result<Seq<ValueV>, Seq<char>>
    decreases steps.len(),
{
    if steps.len() == 0 {
        Ok(vals)
    } else {
        let rest = steps.drop_last();
        match steps.last() {
            Step::Read(d, p) => match convert(*d, p@) {
                Err(e) => Err(e),
                Ok(v) => eval(rest, vals.push(v)),
            },
            Step::Array(n) => eval(rest, close_array(vals, n as int)),
            Step::Object(keys) => eval(rest, close_object(vals, key_views(keys@))),
        }
    }
}

/// The work left in a worklist, which every step decreases.
pub open spec fn work<'a>(steps: Seq<Step<'a>>) -> nat
    decreases steps.len(),
{
    if steps.len() == 0 {
        0
    } else {
        work(steps.drop_last()) + match steps.last() {
            Step::Read(d, _) => 2 * size(*d),
            _ => 1,
        }
    }
}

/// `s` reads `items[k..]`, the first of them on top.
pub open spec fn reads_items<'a>(s: Seq<Step<'a>>, items: Seq<JsData>, at: Seq<char>, k: int) -> bool {
    &&& s.len() == items.len() - k
    &&& forall|j: int|
        0 <= j < s.len() ==> match #[trigger] s[j] {
            Step::Read(d, p) => *d == items[items.len() - 1 - j] && p@ == element_path(
                at,
                items.len() - 1 - j,
            ),
            _ => false,
        }
}

/// `s` reads the properties of `entries[k..]`, the first of them on top.
pub open spec fn reads_entries<'a>(s: Seq<Step<'a>>, entries: Seq<JsEntry>, at: Seq<char>, k: int) -> bool {
    &&& s.len() == entries.len() - k
    &&& forall|j: int|
        0 <= j < s.len() ==> match #[trigger] s[j] {
            Step::Read(d, p) => {
                let e = entries[entries.len() - 1 - j];
                &&& e.value == Some(*d)
                &&& p@ == child_text(at, e.key@)
            },
            _ => false,
        }
}

/// A value as a Markdoc value.
///
/// Returns the message for the first part, in document order, that has no
/// counterpart -- a function, a symbol, a `BigInt`, an object that is not
/// plain -- or the property that could not be read, naming its path.
pub fn value(root: &JsData, at: &Path) -> (result: Result<Value, String>)
    ensures
        match result {
            Ok(v) => convert(*root, at@) == Ok::<ValueV, Seq<char>>(v@),
            Err(e) => convert(*root, at@) == Err::<ValueV, Seq<char>>(e@),
        },
{
    let mut steps: Vec<Step> = Vec::new();
    steps.push(Step::Read(root, at.clone()));
    let mut nodes: Vec<Node> = Vec::new();
    let mut values: Vec<usize> = Vec::new();
    let ghost target: Result<Seq<ValueV>, Seq<char>> = match convert(*root, at@) {
        Ok(v) => Ok(seq![v]),
        Err(e) => Err(e),
    };
    proof {
        let first = steps@;
        assert(first.drop_last() =~= Seq::<Step>::empty());
        assert(stack_view(nodes@, values@) =~= Seq::<ValueV>::empty());
        match first.last() {
            Step::Read(d, p) => {
                assert(*d == *root);
                assert(p@ == at@);
            },
            _ => { assert(false); },
        }
        match convert(*root, at@) {
            Ok(v) => {
                assert(Seq::<ValueV>::empty().push(v) =~= seq![v]);
                assert(eval(first.drop_last(), seq![v]) == Ok::<Seq<ValueV>, Seq<char>>(seq![v]));
            },
            Err(e) => {},
        }
    }
    loop
        invariant_except_break
            eval(steps@, stack_view(nodes@, values@)) == target,
            forall|k: int| 0 <= k < values@.len() ==> values@[k] < nodes@.len(),
            target == match convert(*root, at@) {
                Ok(v) => Ok(seq![v]),
                Err(e) => Err::<Seq<ValueV>, Seq<char>>(e),
            },
        ensures
            steps@.len() == 0,
            eval(steps@, stack_view(nodes@, values@)) == target,
            forall|k: int| 0 <= k < values@.len() ==> values@[k] < nodes@.len(),
            target == match convert(*root, at@) {
                Ok(v) => Ok(seq![v]),
                Err(e) => Err::<Seq<ValueV>, Seq<char>>(e),
            },
        decreases work(steps@),
    {
        let ghost before = steps@;
        let ghost vals = stack_view(nodes@, values@);
        let step = match steps.pop() {
            Some(step) => step,
            None => break,
        };
        let ghost rest = steps@;
        proof {
            assert(before.drop_last() =~= rest);
            assert(step == before.last());
        }
        match step {
            Step::Read(item, path) => {
                match item {
                    JsData::Undefined => {
                        push_node(&mut nodes, &mut values, Node::Null);
                    },
                    JsData::Null => {
                        push_node(&mut nodes, &mut values, Node::Null);
                    },
                    JsData::Bool(flag) => {
                        push_node(&mut nodes, &mut values, Node::Boolean(*flag));
                    },
                    JsData::Number(bits) => {
                        push_node(&mut nodes, &mut values, Node::Number(*bits));
                    },
                    JsData::Text(text) => {
                        push_node(&mut nodes, &mut values, Node::String(text.clone()));
                    },
                    JsData::Array(items) => {
                        schedule_items(&mut steps, items, &path);
                        proof {
                            assert(vals + seq![] =~= vals);
                            assert(items@.take(0) =~= Seq::<JsData>::empty());
                            lemma_eval_items(rest, items@, path@, steps@.skip(rest.len() as int + 1), vals, seq![], 0);
                            assert(rest.push(Step::Array(items.len())) + steps@.skip(rest.len() as int + 1) =~= steps@);
                        }
                    },
                    JsData::Object(object) => {
                        if !object.plain {
                            let message = no_counterpart_message(item, &path);
                            assert(eval(before, vals) == Err::<Seq<ValueV>, Seq<char>>(message@));
                            return Err(message);
                        }
                        match schedule_entries(&mut steps, object, &path) {
                            Some(message) => {
                                assert(eval(before, vals) == Err::<Seq<ValueV>, Seq<char>>(message@));
                                return Err(message);
                            },
                            None => {},
                        }
                        proof {
                            assert(vals + entry_values(seq![]) =~= vals);
                            lemma_eval_entries(rest, object.entries@, path@, steps@.skip(rest.len() as int + 1), vals, seq![], 0, steps@[rest.len() as int]);
                            assert(rest.push(steps@[rest.len() as int]) + steps@.skip(rest.len() as int + 1) =~= steps@);
                        }
                    },
                    _ => {
                        let message = no_counterpart_message(item, &path);
                        assert(eval(before, vals) == Err::<Seq<ValueV>, Seq<char>>(message@));
                        return Err(message);
                    },
                }
            },
            Step::Array(len) => {
                let ghost below = nodes@;
                let ids = take(&mut values, len);
                let ghost kept = values@;
                push_node(&mut nodes, &mut values, Node::Array(ids));
                proof {
                    let at_end = below.len() as int;
                    lemma_members_view_below(nodes@, ids@, at_end);
                    lemma_stack_view_stable(below, nodes@[at_end], ids@);
                    assert(nodes@ == below.push(nodes@[at_end]));
                    assert(vals.take(split_point(vals.len() as int, len as int)) =~= stack_view(below, kept));
                    assert(vals.skip(split_point(vals.len() as int, len as int)) =~= stack_view(below, ids@));
                }
            },
            Step::Object(keys) => {
                let ghost below = nodes@;
                let ghost names = key_views(keys@);
                let ghost before_values = values@;
                let ids = take(&mut values, keys.len());
                let ghost kept = values@;
                let pairs = zip(keys, ids);
                let ghost members = pairs@;
                push_node(&mut nodes, &mut values, Node::Hash(pairs));
                proof {
                    let at_end = below.len() as int;
                    assert forall|k: int| 0 <= k < members.len() implies members[k].1 < at_end by {
                        assert(members[k].1 == ids@[k]);
                        assert(ids@[k] == before_values[split_point(before_values.len() as int, names.len() as int) + k]);
                    }
                    lemma_pairs_view_below(nodes@, members, at_end);
                    lemma_stack_view_stable(below, nodes@[at_end], ids@);
                    assert(nodes@ == below.push(nodes@[at_end]));
                    assert(vals.take(split_point(vals.len() as int, names.len() as int)) =~= stack_view(below, kept));
                    assert(vals.skip(split_point(vals.len() as int, names.len() as int)) =~= stack_view(below, ids@));
                    assert forall|k: int| 0 <= k < members.len() implies #[trigger] pairs_flat(nodes@, members)[k]
                        == zip_entries(names, stack_view(nodes@, ids@))[k] by {
                    }
                    assert(pairs_flat(nodes@, members) =~= zip_entries(names, stack_view(nodes@, ids@)));
                }
            },
        }
    }
    assert(eval(steps@, stack_view(nodes@, values@)) == Ok::<Seq<ValueV>, Seq<char>>(stack_view(nodes@, values@)));
    assert(values@.len() == 1);
    let root = values[0];
    assert(stack_view(nodes@, values@)[0] == node_view(nodes@, root as int));
    Ok(Value { nodes, root })
}

/// Add a converted node on top of the stack.
fn push_node(nodes: &mut Vec<Node>, values: &mut Vec<usize>, n: Node)
    requires
        forall|k: int| 0 <= k < old(values)@.len() ==> old(values)@[k] < old(nodes)@.len(),
    ensures
        final(nodes)@ == old(nodes)@.push(n),
        final(values)@ == old(values)@.push(old(nodes)@.len() as usize),
        forall|k: int| 0 <= k < final(values)@.len() ==> final(values)@[k] < final(nodes)@.len(),
        stack_view(final(nodes)@, final(values)@) == stack_view(old(nodes)@, old(values)@).push(
            node_view(final(nodes)@, old(nodes)@.len() as int),
        ),
{
    let ghost before = nodes@;
    let ghost ids = values@;
    let index = nodes.len();
    nodes.push(n);
    values.push(index);
    proof {
        lemma_stack_view_stable(before, n, ids);
        assert(stack_view(nodes@, values@) =~= stack_view(nodes@, ids).push(node_view(nodes@, index as int)));
    }
}

/// The message for a value with no counterpart.
fn no_counterpart_message(item: &JsData, path: &Path) -> (message: String)
    ensures
        message@ == no_counterpart(path@, *item),
{
    let name = match item {
        JsData::Function => "function",
        JsData::Symbol => "symbol",
        JsData::BigInt => "BigInt",
        JsData::Object(_) => "class instance or built-in object",
        _ => "value of this type",
    };
    let mut message = String::from_str(path.as_str());
    message.append(": a ");
    message.append(name);
    message.append(" has no Markdoc counterpart; use a string, number, boolean, null, array or plain object");
    message
}

/// The message for a property that cannot be read.
pub fn unreadable_message(path: &Path, key: &str) -> (message: String)
    ensures
        message@ == unreadable(path@, key@),
{
    let mut message = String::from_str(path.child(key).as_str());
    message.append(": cannot be read");
    message
}

/// An index as JavaScript counts it.
pub fn js_index(i: usize) -> (n: u32)
    ensures
        n as int == (if i <= u32::MAX {
            i as int
        } else {
            u32::MAX as int
        }),
{
    if i <= 0xFFFF_FFFF {
        i as u32
    } else {
        0xFFFF_FFFF
    }
}

/// Adding a step adds its work.
proof fn lemma_work_push<'a>(s: Seq<Step<'a>>, x: Step<'a>)
    ensures
        work(s.push(x)) == work(s) + match x {
            Step::Read(d, _) => 2 * size(*d),
            _ => 1,
        },
{
    assert(s.push(x).drop_last() =~= s);
}

/// Schedule the elements of an array: a step to close it, then one step per
/// element, the first element on top.
fn schedule_items<'a>(steps: &mut Vec<Step<'a>>, items: &'a Vec<JsData>, path: &Path)
    ensures
        final(steps)@.len() == old(steps)@.len() + 1 + items@.len(),
        final(steps)@.take(old(steps)@.len() as int) == old(steps)@,
        final(steps)@[old(steps)@.len() as int] == Step::Array(items.len()),
        reads_items(final(steps)@.skip(old(steps)@.len() as int + 1), items@, path@, 0),
        work(final(steps)@) == work(old(steps)@) + 1 + 2 * sizes(items@),
{
    let ghost base = steps@;
    proof {
        lemma_work_push(steps@, Step::Array(items.len()));
    }
    steps.push(Step::Array(items.len()));
    let mut i = items.len();
    assert(items@.take(items@.len() as int) =~= items@);
    assert(steps@.take(base.len() as int) =~= base);
    assert(steps@.skip(base.len() as int + 1) =~= Seq::<Step>::empty());
    while i > 0
        invariant
            0 <= i <= items@.len(),
            steps@.len() == base.len() + 1 + items@.len() - i,
            steps@.take(base.len() as int) == base,
            steps@[base.len() as int] == Step::Array(items.len()),
            reads_items(steps@.skip(base.len() as int + 1), items@, path@, i as int),
            work(steps@) == work(base) + 1 + 2 * (sizes(items@) - sizes(items@.take(i as int))),
            sizes(items@.take(i as int)) <= sizes(items@),
        decreases i,
    {
        i = i - 1;
        let child = path.index(js_index(i));
        let ghost old_steps = steps@;
        proof {
            lemma_work_push(steps@, Step::Read(&items[i as int], child));
            assert(items@.take(i + 1).drop_last() =~= items@.take(i as int));
            assert(items@.take(i + 1).last() == items@[i as int]);
        }
        steps.push(Step::Read(&items[i], child));
        proof {
            assert(steps@.take(base.len() as int) =~= old_steps.take(base.len() as int));
            let s = steps@.skip(base.len() as int + 1);
            let s0 = old_steps.skip(base.len() as int + 1);
            assert(s =~= s0.push(Step::Read(&items[i as int], child)));
            assert forall|j: int| 0 <= j < s.len() implies match #[trigger] s[j] {
                Step::Read(d, p) => *d == items@[items@.len() - 1 - j] && p@ == element_path(
                    path@,
                    items@.len() - 1 - j,
                ),
                _ => false,
            } by {
                if j < s0.len() {
                    assert(s[j] == s0[j]);
                }
            }
        }
    }
    assert(items@.take(0) =~= Seq::<JsData>::empty());
}

/// Schedule the properties of a plain object: a step to close it over its
/// keys, then one step per property, the first on top. The properties are
/// read last to first; the first that cannot be read is refused.
fn schedule_entries<'a>(steps: &mut Vec<Step<'a>>, object: &'a JsObject, path: &Path) -> (refused:
    Option<String>)
    ensures
        match refused {
            Some(m) => last_unreadable(object.entries@, path@) == Some(m@),
            None => {
                &&& last_unreadable(object.entries@, path@) is None
                &&& final(steps)@.len() == old(steps)@.len() + 1 + object.entries@.len()
                &&& final(steps)@.take(old(steps)@.len() as int) == old(steps)@
                &&& match final(steps)@[old(steps)@.len() as int] {
                    Step::Object(keys) => key_views(keys@) == crate::js::keys_of(object.entries@),
                    _ => false,
                }
                &&& reads_entries(final(steps)@.skip(old(steps)@.len() as int + 1), object.entries@, path@, 0)
                &&& work(final(steps)@) == work(old(steps)@) + 1 + 2 * entry_sizes(object.entries@)
            },
        },
{
    let entries = &object.entries;
    let n = entries.len();
    let mut keys: Vec<String> = Vec::new();
    for i in 0..n
        invariant
            n == entries@.len(),
            key_views(keys@) == crate::js::keys_of(entries@.take(i as int)),
    {
        let ghost old_keys = keys@;
        keys.push(entries[i].key.clone());
        assert(key_views(keys@) =~= key_views(old_keys).push(entries@[i as int].key@));
        assert(entries@.take(i + 1) =~= entries@.take(i as int).push(entries@[i as int]));
        assert(key_views(keys@) =~= crate::js::keys_of(entries@.take(i + 1)));
    }
    assert(entries@.take(n as int) =~= entries@);
    let ghost base = steps@;
    let ghost close = Step::Object(keys);
    proof {
        lemma_work_push(steps@, close);
    }
    steps.push(Step::Object(keys));
    let mut i = n;
    assert(entries@.take(n as int) =~= entries@);
    assert(steps@.take(base.len() as int) =~= base);
    assert(steps@.skip(base.len() as int + 1) =~= Seq::<Step>::empty());
    while i > 0
        invariant
            0 <= i <= entries@.len(),
            n == entries@.len(),
            entries@ == object.entries@,
            steps@.len() == base.len() + 1 + entries@.len() - i,
            steps@.take(base.len() as int) == base,
            steps@[base.len() as int] == close,
            reads_entries(steps@.skip(base.len() as int + 1), entries@, path@, i as int),
            work(steps@) == work(base) + 1 + 2 * (entry_sizes(entries@) - entry_sizes(entries@.take(i as int))),
            entry_sizes(entries@.take(i as int)) <= entry_sizes(entries@),
            last_unreadable(entries@, path@) == last_unreadable(entries@.take(i as int), path@),
        decreases i,
    {
        i = i - 1;
        let entry = &entries[i];
        proof {
            assert(entries@.take(i + 1).drop_last() =~= entries@.take(i as int));
            assert(entries@.take(i + 1).last() == entries@[i as int]);
        }
        match &entry.value {
            None => {
                assert(entry.key@ == entries@[i as int].key@);
                assert(entries@.take(i + 1).last().value is None);
                assert(last_unreadable(entries@.take(i + 1), path@) == Some(
                    unreadable(path@, entries@[i as int].key@),
                ));
                let message = unreadable_message(path, entry.key.as_str());
                assert(message@ == unreadable(path@, entries@[i as int].key@));
                assert(last_unreadable(entries@, path@) == last_unreadable(entries@.take(i + 1), path@));
                return Some(message);
            },
            Some(child) => {
                let child_path = path.child(entry.key.as_str());
                let ghost old_steps = steps@;
                proof {
                    lemma_work_push(steps@, Step::Read(child, child_path));
                }
                steps.push(Step::Read(child, child_path));
                proof {
                    assert(steps@.take(base.len() as int) =~= old_steps.take(base.len() as int));
                    let s = steps@.skip(base.len() as int + 1);
                    let s0 = old_steps.skip(base.len() as int + 1);
                    assert(s =~= s0.push(Step::Read(child, child_path)));
                    assert forall|j: int| 0 <= j < s.len() implies match #[trigger] s[j] {
                        Step::Read(d, p) => {
                            let e = entries@[entries@.len() - 1 - j];
                            &&& e.value == Some(*d)
                            &&& p@ == child_text(path@, e.key@)
                        },
                        _ => false,
                    } by {
                        if j < s0.len() {
                            assert(s[j] == s0[j]);
                        }
                    }
                }
            },
        }
    }
    assert(entries@.take(0) =~= Seq::<JsEntry>::empty());
    None
}

/// Take the last `count` values, oldest first; all of them when there are
/// fewer.
fn take(values: &mut Vec<usize>, count: usize) -> (items: Vec<usize>)
    ensures
        final(values)@ == old(values)@.take(split_point(old(values)@.len() as int, count as int)),
        items@ == old(values)@.skip(split_point(old(values)@.len() as int, count as int)),
{
    let start = if values.len() >= count {
        values.len() - count
    } else {
        0
    };
    values.split_off(start)
}

/// Pair keys with members, as far as both go.
fn zip(keys: Vec<String>, ids: Vec<usize>) -> (pairs: Vec<(String, usize)>)
    ensures
        pairs@.len() == if keys@.len() <= ids@.len() {
            keys@.len()
        } else {
            ids@.len()
        },
        forall|k: int| #![trigger pairs@[k]] 0 <= k < pairs@.len() ==> pairs@[k].0@ == keys@[k]@ && pairs@[k].1 == ids@[k],
{
    let n = if keys.len() <= ids.len() {
        keys.len()
    } else {
        ids.len()
    };
    let mut pairs: Vec<(String, usize)> = Vec::new();
    for i in 0..n
        invariant
            n <= keys@.len(),
            n <= ids@.len(),
            pairs@.len() == i,
            forall|k: int| #![trigger pairs@[k]] 0 <= k < i ==> pairs@[k].0@ == keys@[k]@ && pairs@[k].1 == ids@[k],
    {
        let key = keys[i].clone();
        let ghost before = pairs@;
        pairs.push((key, ids[i]));
        assert forall|k: int| #![trigger pairs@[k]] 0 <= k < i + 1 implies pairs@[k].0@ == keys@[k]@ && pairs@[k].1 == ids@[k] by {
            if k < i {
                assert(pairs@[k] == before[k]);
            }
        }
    }
    pairs
}

/// The entries of a hash whose members all come before it.
pub open spec fn pairs_flat(nodes: Seq<Node>, pairs: Seq<(String, usize)>) -> Seq<(Seq<char>, ValueV)> {
    pairs.map_values(|p: (String, usize)| (p.0@, node_view(nodes, p.1 as int)))
}

/// Entries whose members all come before their hash are what they are.
proof fn lemma_pairs_view_below(nodes: Seq<Node>, pairs: Seq<(String, usize)>, bound: int)
    requires
        forall|k: int| 0 <= k < pairs.len() ==> pairs[k].1 < bound,
    ensures
        pairs_view(nodes, pairs, bound) == pairs_flat(nodes, pairs),
    decreases pairs.len(),
{
    if pairs.len() > 0 {
        lemma_pairs_view_below(nodes, pairs.drop_last(), bound);
        assert(pairs_flat(nodes, pairs.drop_last()).push((pairs.last().0@, node_view(nodes, pairs.last().1 as int))) =~= pairs_flat(nodes, pairs));
    } else {
        assert(pairs_flat(nodes, pairs) =~= Seq::<(Seq<char>, ValueV)>::empty());
    }
}

/// A converted array has one value per element.
proof fn lemma_items_len(items: Seq<JsData>, at: Seq<char>)
    ensures
        convert_items(items, at) matches Ok(vs) ==> vs.len() == items.len(),
    decreases items.len(),
{
    if items.len() > 0 {
        lemma_items_len(items.drop_last(), at);
    }
}

/// Scalars convert to themselves: a boolean to the boolean of the same
/// value, a number to the same number, a string to the same text, and
/// `null` and `undefined` to null. A function, a symbol, a `BigInt` and an
/// object that is not plain are refused.
pub proof fn lemma_scalars_convert_to_themselves(d: JsData, at: Seq<char>)
    ensures
        d matches JsData::Bool(b) ==> convert(d, at) == Ok::<ValueV, Seq<char>>(ValueV::Boolean(b)),
        d matches JsData::Number(n) ==> convert(d, at) == Ok::<ValueV, Seq<char>>(ValueV::Number(n)),
        d matches JsData::Text(s) ==> convert(d, at) == Ok::<ValueV, Seq<char>>(ValueV::Text(s@)),
        (d is Null || d is Undefined) ==> convert(d, at) == Ok::<ValueV, Seq<char>>(ValueV::Null),
        (d is Function || d is Symbol || d is BigInt) ==> convert(d, at) is Err,
        d matches JsData::Object(o) && !o.plain ==> convert(d, at) is Err,
{
}

/// Converting an array keeps its length and the order of its elements:
/// element `i` of the result is element `i` converted.
pub proof fn lemma_array_keeps_order(d: JsData, at: Seq<char>)
    requires
        d is Array,
    ensures
        convert(d, at) matches Ok(ValueV::Array(vs)) ==> {
            &&& vs.len() == d->Array_0@.len()
            &&& forall|i: int|
                0 <= i < vs.len() ==> convert(d->Array_0@[i], element_path(at, i)) == Ok::<
                    ValueV,
                    Seq<char>,
                >(#[trigger] vs[i])
        },
{
    lemma_items_elements(d->Array_0@, at);
}

/// Converted elements, one by one.
proof fn lemma_items_elements(items: Seq<JsData>, at: Seq<char>)
    ensures
        convert_items(items, at) matches Ok(vs) ==> {
            &&& vs.len() == items.len()
            &&& forall|i: int|
                0 <= i < vs.len() ==> convert(items[i], element_path(at, i)) == Ok::<
                    ValueV,
                    Seq<char>,
                >(#[trigger] vs[i])
        },
    decreases items.len(),
{
    if items.len() > 0 {
        lemma_items_elements(items.drop_last(), at);
        if let Ok(vs) = convert_items(items, at) {
            let prev = convert_items(items.drop_last(), at)->Ok_0;
            assert forall|i: int| 0 <= i < vs.len() implies convert(items[i], element_path(at, i)) == Ok::<
                ValueV,
                Seq<char>,
            >(#[trigger] vs[i]) by {
                if i < vs.len() - 1 {
                    assert(vs[i] == prev[i]);
                    assert(items.drop_last()[i] == items[i]);
                }
            }
        }
    }
}

/// Converting a plain object keeps its keys in authored order: entry `i` of
/// the result is property `i` under its own key, its value converted.
pub proof fn lemma_object_keeps_key_order(d: JsData, at: Seq<char>)
    requires
        d is Object,
    ensures
        convert(d, at) matches Ok(ValueV::Hash(ps)) ==> {
            &&& ps.len() == d->Object_0.entries@.len()
            &&& forall|i: int|
                0 <= i < ps.len() ==> {
                    let e = d->Object_0.entries@[i];
                    &&& (#[trigger] ps[i]).0 == e.key@
                    &&& e.value matches Some(x) && convert(x, child_text(at, e.key@)) == Ok::<
                        ValueV,
                        Seq<char>,
                    >(ps[i].1)
                }
        },
{
    lemma_entries_elements(d->Object_0.entries@, at);
}

/// Converted properties, one by one.
#[verifier::spinoff_prover]
proof fn lemma_entries_elements(entries: Seq<JsEntry>, at: Seq<char>)
    ensures
        convert_entries(entries, at) matches Ok(ps) ==> {
            &&& ps.len() == entries.len()
            &&& forall|i: int|
                0 <= i < ps.len() ==> {
                    let e = entries[i];
                    &&& (#[trigger] ps[i]).0 == e.key@
                    &&& e.value matches Some(x) && convert(x, child_text(at, e.key@)) == Ok::<
                        ValueV,
                        Seq<char>,
                    >(ps[i].1)
                }
        },
    decreases entries.len(),
{
    if entries.len() > 0 {
        lemma_entries_elements(entries.drop_last(), at);
        if let Ok(ps) = convert_entries(entries, at) {
            let prev = convert_entries(entries.drop_last(), at)->Ok_0;
            assert forall|i: int| 0 <= i < ps.len() implies {
                let e = entries[i];
                &&& (#[trigger] ps[i]).0 == e.key@
                &&& e.value matches Some(x) && convert(x, child_text(at, e.key@)) == Ok::<
                    ValueV,
                    Seq<char>,
                >(ps[i].1)
            } by {
                if i < ps.len() - 1 {
                    assert(ps[i] == prev[i]);
                    assert(entries.drop_last()[i] == entries[i]);
                }
            }
        }
    }
}

/// Running the scheduled element steps and the closing step converts the
/// array, as a single read of it would.
proof fn lemma_eval_items<'a>(
    rest: Seq<Step<'a>>,
    items: Seq<JsData>,
    at: Seq<char>,
    s: Seq<Step<'a>>,
    vals: Seq<ValueV>,
    vs: Seq<ValueV>,
    k: int,
)
    requires
        0 <= k <= items.len() <= usize::MAX,
        reads_items(s, items, at, k),
        convert_items(items.take(k), at) == Ok::<Seq<ValueV>, Seq<char>>(vs),
    ensures
        eval(rest.push(Step::Array(items.len() as usize)) + s, vals + vs) == match convert_items(
            items,
            at,
        ) {
            Err(e) => Err(e),
            Ok(all) => eval(rest, vals.push(ValueV::Array(all))),
        },
    decreases items.len() - k,
{
    let close = Step::Array(items.len() as usize);
    let full = rest.push(close) + s;
    lemma_items_len(items.take(k), at);
    if k == items.len() {
        assert(items.take(k) =~= items);
        assert(full =~= rest.push(close));
        assert(full.drop_last() =~= rest);
        assert((vals + vs).take(vals.len() as int) =~= vals);
        assert((vals + vs).skip(vals.len() as int) =~= vs);
    } else {
        let j = s.len() - 1;
        assert(s[j] == full.last());
        assert(full.drop_last() =~= rest.push(close) + s.drop_last());
        let t = items.take(k + 1);
        assert(t.drop_last() =~= items.take(k));
        assert(t.last() == items[k]);
        match convert(items[k], element_path(at, k)) {
            Err(e) => {
                lemma_first_refusal_decides(|t: Seq<JsData>| convert_items(t, at), items, k + 1);
            },
            Ok(v) => {
                assert((vals + vs).push(v) =~= vals + vs.push(v));
                assert forall|i: int| 0 <= i < s.drop_last().len() implies match #[trigger] s.drop_last()[i] {
                    Step::Read(d, p) => *d == items[items.len() - 1 - i] && p@ == element_path(
                        at,
                        items.len() - 1 - i,
                    ),
                    _ => false,
                } by {
                    assert(s.drop_last()[i] == s[i]);
                }
                lemma_eval_items(rest, items, at, s.drop_last(), vals, vs.push(v), k + 1);
            },
        }
    }
}

/// A converted object has one entry per property, under the same key.
proof fn lemma_entries_shape(entries: Seq<JsEntry>, at: Seq<char>)
    ensures
        convert_entries(entries, at) matches Ok(ps) ==> {
            &&& ps.len() == entries.len()
            &&& forall|i: int| 0 <= i < ps.len() ==> #[trigger] ps[i].0 == entries[i].key@
        },
    decreases entries.len(),
{
    if entries.len() > 0 {
        lemma_entries_shape(entries.drop_last(), at);
    }
}

/// The values of converted entries.
pub open spec fn entry_values(ps: Seq<(Seq<char>, ValueV)>) -> Seq<ValueV> {
    ps.map_values(|p: (Seq<char>, ValueV)| p.1)
}

/// Running the scheduled property steps and the closing step converts the
/// object, as a single read of it would.
proof fn lemma_eval_entries<'a>(
    rest: Seq<Step<'a>>,
    entries: Seq<JsEntry>,
    at: Seq<char>,
    s: Seq<Step<'a>>,
    vals: Seq<ValueV>,
    ps: Seq<(Seq<char>, ValueV)>,
    k: int,
    close: Step<'a>,
)
    requires
        0 <= k <= entries.len(),
        reads_entries(s, entries, at, k),
        convert_entries(entries.take(k), at) == Ok::<Seq<(Seq<char>, ValueV)>, Seq<char>>(ps),
        match close {
            Step::Object(keys) => key_views(keys@) == crate::js::keys_of(entries),
            _ => false,
        },
    ensures
        eval(rest.push(close) + s, vals + entry_values(ps)) == match convert_entries(entries, at) {
            Err(e) => Err(e),
            Ok(all) => eval(rest, vals.push(ValueV::Hash(all))),
        },
    decreases entries.len() - k,
{
    let full = rest.push(close) + s;
    lemma_entries_shape(entries.take(k), at);
    let vs = entry_values(ps);
    if k == entries.len() {
        assert(entries.take(k) =~= entries);
        assert(full =~= rest.push(close));
        assert(full.drop_last() =~= rest);
        assert((vals + vs).take(vals.len() as int) =~= vals);
        assert((vals + vs).skip(vals.len() as int) =~= vs);
        match close {
            Step::Object(keys) => {
                assert(key_views(keys@).len() == entries.len());
                assert forall|i: int| 0 <= i < ps.len() implies #[trigger] zip_entries(
                    key_views(keys@),
                    vs,
                )[i] == ps[i] by {
                    assert(key_views(keys@)[i] == entries[i].key@);
                }
                assert(zip_entries(key_views(keys@), vs) =~= ps);
            },
            _ => {},
        }
    } else {
        let j = s.len() - 1;
        assert(s[j] == full.last());
        assert(full.drop_last() =~= rest.push(close) + s.drop_last());
        let t = entries.take(k + 1);
        assert(t.drop_last() =~= entries.take(k));
        assert(t.last() == entries[k]);
        let e = entries[k];
        let d = e.value->Some_0;
        match convert(d, child_text(at, e.key@)) {
            Err(err) => {
                lemma_first_refusal_decides(
                    |t: Seq<JsEntry>| convert_entries(t, at),
                    entries,
                    k + 1,
                );
            },
            Ok(v) => {
                assert((vals + vs).push(v) =~= vals + entry_values(ps.push((e.key@, v))));
                assert forall|i: int| 0 <= i < s.drop_last().len() implies match #[trigger] s.drop_last()[i] {
                    Step::Read(d, p) => {
                        let e = entries[entries.len() - 1 - i];
                        &&& e.value == Some(*d)
                        &&& p@ == child_text(at, e.key@)
                    },
                    _ => false,
                } by {
                    assert(s.drop_last()[i] == s[i]);
                }
                lemma_eval_entries(rest, entries, at, s.drop_last(), vals, ps.push((e.key@, v)), k + 1, close);
            },
        }
    }
}


/// The variables of a host: each property converted in order, the first that
/// cannot be read or has no counterpart refused.
pub open spec fn convert_variables(entries: Seq<JsEntry>, at: Seq<char>) -> Result<
    Seq<(Seq<char>, ValueV)>,
    Seq<char>,
>
    decreases entries.len(),
{
    if entries.len() == 0 {
        Ok(seq![])
    } else {
        match convert_variables(entries.drop_last(), at) {
            Err(e) => Err(e),
            Ok(es) => {
                let last = entries.last();
                match last.value {
                    None => Err(unreadable(at, last.key@)),
                    Some(d) => match convert(d, child_text(at, last.key@)) {
                        Err(e) => Err(e),
                        Ok(v) => Ok(insert_entry(es, last.key@, v)),
                    },
                }
            },
        }
    }
}

/// Convert a host's variables into the map the validator holds them in.
pub fn variables(object: &JsObject, at: &Path) -> (result: Result<IndexMap<String, Value>, String>)
    ensures
        match result {
            Ok(map) => convert_variables(object.entries@, at@) == Ok::<
                Seq<(Seq<char>, ValueV)>,
                Seq<char>,
            >(variable_entries(map)),
            Err(e) => convert_variables(object.entries@, at@) == Err::<
                Seq<(Seq<char>, ValueV)>,
                Seq<char>,
            >(e@),
        },
{
    let entries = &object.entries;
    let mut map = new_variables();
    let n = entries.len();
    for i in 0..n
        invariant
            n == entries@.len(),
            entries@ == object.entries@,
            convert_variables(entries@.take(i as int), at@) == Ok::<
                Seq<(Seq<char>, ValueV)>,
                Seq<char>,
            >(variable_entries(map)),
    {
        let entry = &entries[i];
        proof {
            assert(entries@.take(i + 1).drop_last() =~= entries@.take(i as int));
            assert(entries@.take(i + 1).last() == entries@[i as int]);
        }
        match &entry.value {
            None => {
                let message = unreadable_message(at, entry.key.as_str());
                proof {
                    lemma_first_refusal_decides(
                        |t: Seq<JsEntry>| convert_variables(t, at@),
                        entries@,
                        i + 1,
                    );
                }
                return Err(message);
            },
            Some(child) => {
                let converted = value(child, &at.child(entry.key.as_str()));
                match converted {
                    Err(message) => {
                        proof {
                            lemma_first_refusal_decides(
                                |t: Seq<JsEntry>| convert_variables(t, at@),
                                entries@,
                                i + 1,
                            );
                        }
                        return Err(message);
                    },
                    Ok(v) => {
                        insert_variable(&mut map, entry.key.clone(), v);
                    },
                }
            },
        }
    }
    assert(entries@.take(n as int) =~= entries@);
    Ok(map)
}

/// The message for a property that cannot be read names that property.
pub proof fn lemma_unreadable_names(d: JsData, at: Seq<char>, key: Seq<char>)
    requires
        reach(d, seq![Seg::Key(key)]) == Some::<Option<JsData>>(None),
    ensures
        names_part(unreadable(at, key), d, at),
{
    reveal_strlit(": cannot be read");
    lemma_one_step(d, at, Seg::Key(key));
    lemma_names_part(d, at, seq![Seg::Key(key)], ": cannot be read"@);
}

/// `entries` are the first properties of `o`.
pub open spec fn leading_entries(entries: Seq<JsEntry>, o: JsObject) -> bool {
    &&& entries.len() <= o.entries@.len()
    &&& forall|i: int| 0 <= i < entries.len() ==> entries[i] == o.entries@[i]
}

/// `items` are the first elements of the array `d`.
pub open spec fn leading_items(items: Seq<JsData>, d: JsData) -> bool {
    &&& d is Array
    &&& items.len() <= d->Array_0@.len()
    &&& forall|i: int| 0 <= i < items.len() ==> items[i] == d->Array_0@[i]
}

/// The message for the last unreadable property names that property.
proof fn lemma_last_unreadable_named(o: JsObject, entries: Seq<JsEntry>, at: Seq<char>)
    requires
        well_formed(JsData::Object(o)),
        leading_entries(entries, o),
    ensures
        last_unreadable(entries, at) matches Some(e) ==> names_part(e, JsData::Object(o), at),
    decreases entries.len(),
{
    if entries.len() > 0 {
        let k = entries.len() - 1;
        assert(entries.last() == o.entries@[k]);
        lemma_reach_entry(o, k);
        if entries.last().value is None {
            lemma_unreadable_names(JsData::Object(o), at, entries.last().key@);
        }
        lemma_last_unreadable_named(o, entries.drop_last(), at);
    }
}

/// Every refusal of a value names the part of it that has no counterpart
/// or cannot be read.
pub proof fn lemma_convert_named(d: JsData, at: Seq<char>)
    requires
        well_formed(d),
    ensures
        err_in(convert(d, at), d, at),
    decreases d,
{
    let rest = ": a "@ + describe(d)
        + " has no Markdoc counterpart; use a string, number, boolean, null, array or plain object"@;
    reveal_strlit(": a ");
    assert(rest[0] == ':' && rest[1] == ' ');
    assert(path_text(at, Seq::<Seg>::empty()) == at);
    lemma_names_part(d, at, Seq::<Seg>::empty(), rest);
    assert(no_counterpart(at, d) =~= at + rest);
    match d {
        JsData::Array(items) => {
            lemma_items_named(d, items@, at);
        },
        JsData::Object(o) => {
            lemma_last_unreadable_named(o, o.entries@, at);
            lemma_entries_named(o, o.entries@, at);
        },
        _ => {},
    }
}

/// Every refusal of an element names a part of its array.
proof fn lemma_items_named(d: JsData, items: Seq<JsData>, at: Seq<char>)
    requires
        well_formed(d),
        leading_items(items, d),
    ensures
        err_in(convert_items(items, at), d, at),
    decreases items,
{
    if items.len() > 0 {
        lemma_items_named(d, items.drop_last(), at);
        let v = d->Array_0@;
        let k = items.len() - 1;
        let x = items.last();
        assert(x == v[k]);
        let p = element_path(at, k);
        lemma_one_step(d, at, Seg::Index(k as nat));
        lemma_element_well_formed(v, k);
        lemma_convert_named(x, p);
        lemma_err_in_part(convert(x, p), d, at, seq![Seg::Index(k as nat)], x);
    }
}

/// Every refusal of a property names a part of its object.
proof fn lemma_entries_named(o: JsObject, entries: Seq<JsEntry>, at: Seq<char>)
    requires
        well_formed(JsData::Object(o)),
        leading_entries(entries, o),
    ensures
        err_in(convert_entries(entries, at), JsData::Object(o), at),
    decreases entries,
{
    if entries.len() > 0 {
        lemma_entries_named(o, entries.drop_last(), at);
        let k = entries.len() - 1;
        let last = entries.last();
        assert(last == o.entries@[k]);
        lemma_reach_entry(o, k);
        lemma_one_step(JsData::Object(o), at, Seg::Key(last.key@));
        match last.value {
            None => {
                lemma_unreadable_names(JsData::Object(o), at, last.key@);
            },
            Some(x) => {
                let p = child_text(at, last.key@);
                lemma_convert_named(x, p);
                lemma_err_in_part(convert(x, p), JsData::Object(o), at, seq![Seg::Key(last.key@)], x);
            },
        }
    }
}

/// Every refusal of a variable names a part of the variables.
pub proof fn lemma_variables_named(o: JsObject, entries: Seq<JsEntry>, at: Seq<char>)
    requires
        well_formed(JsData::Object(o)),
        leading_entries(entries, o),
    ensures
        err_in(convert_variables(entries, at), JsData::Object(o), at),
    decreases entries.len(),
{
    if entries.len() > 0 {
        lemma_variables_named(o, entries.drop_last(), at);
        let k = entries.len() - 1;
        let last = entries.last();
        assert(last == o.entries@[k]);
        lemma_reach_entry(o, k);
        lemma_one_step(JsData::Object(o), at, Seg::Key(last.key@));
        match last.value {
            None => {
                lemma_unreadable_names(JsData::Object(o), at, last.key@);
            },
            Some(x) => {
                let p = child_text(at, last.key@);
                lemma_convert_named(x, p);
                lemma_err_in_part(convert(x, p), JsData::Object(o), at, seq![Seg::Key(last.key@)], x);
            },
        }
    }
}

} // verus!
