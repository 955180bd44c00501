//! Validation errors, in the shape a JavaScript host expects.
//!
//! The engine reports a validation error with `type`, `lines`, an optional
//! location and a nested error carrying `id`, `level`, `message` and its own
//! optional location. Ids, levels and messages cross unchanged: external
//! tooling binds to them.
//!
//! A location edge leaves as `{ line, character, offset, byteOffset }`.
//! Everything but `byteOffset` is counted in UTF-16 code units, the unit of a
//! JavaScript string index: `line` is zero-based, `character` counts code
//! units from the start of the line, `offset` counts them from the start of
//! the document, and `byteOffset` is the engine's own UTF-8 offset. Every
//! number leaves as a 32-bit count, saturating.
use crate::utf16::{byte_len, lemma_at_agrees_on_boundaries, lemma_prefix_len_bound, offset_at, unit_len, Utf16Index};
use vstd::prelude::*;

verus! {

/// One edge of a location as the engine measures it: a zero-based line, a
/// byte column from the start of that line, and a byte offset from the start
/// of the document.
#[derive(Clone, Copy)]
pub struct Position {
    pub line: usize,
    pub column: usize,
    pub offset: usize,
}

/// A span of the document as the engine reports it.
pub struct Location {
    /// The label of the file, when the caller set one.
    pub file: Option<String>,
    pub start: Position,
    pub end: Position,
}

/// A validation error as the engine reports it.
pub struct ValidateError {
    /// The type of the node the error is about, by its upstream spelling.
    pub node_type: String,
    pub lines: Vec<usize>,
    pub location: Option<Location>,
    /// Upstream's error id, such as `tag-undefined`.
    pub id: String,
    /// Upstream's level, such as `critical`.
    pub level: String,
    pub message: String,
    /// The location the nested error carries, if any.
    pub error_location: Option<Location>,
}

/// One edge of a location as it leaves for JavaScript.
#[derive(Clone, Copy, PartialEq, Eq, Structural, Debug)]
pub struct Edge {
    pub line: u32,
    pub character: u32,
    pub offset: u32,
    pub byte_offset: u32,
}

/// A location as it leaves for JavaScript.
pub struct Span {
    pub file: Option<String>,
    pub start: Edge,
    pub end: Edge,
}

/// A validation error as it leaves for JavaScript.
pub struct Diagnostic {
    pub node_type: String,
    pub lines: Vec<u32>,
    pub location: Option<Span>,
    pub id: String,
    pub level: String,
    pub message: String,
    pub error_location: Option<Span>,
}

/// A count as a 32-bit number, saturating.
pub open spec fn sat32(value: int) -> u32 {
    if value <= u32::MAX {
        value as u32
    } else {
        u32::MAX
    }
}

/// `a - b`, or zero when `b` is larger.
pub open spec fn sat_sub(a: int, b: int) -> int {
    if a >= b {
        a - b
    } else {
        0
    }
}

/// One edge converted against the checkpoints of the document. The start of
/// the line is found as the byte offset less the byte column, and the column
/// in code units is the distance between the two converted offsets.
pub open spec fn edge_of(cps: Seq<(int, int)>, p: Position) -> Edge {
    let offset = offset_at(cps, p.offset as int);
    let line_start = offset_at(cps, sat_sub(p.offset as int, p.column as int));
    Edge {
        line: sat32(p.line as int),
        character: sat32(sat_sub(offset, line_start)),
        offset: sat32(offset),
        byte_offset: sat32(p.offset as int),
    }
}

/// The same text, or both absent.
pub open spec fn same_text(a: Option<String>, b: Option<String>) -> bool {
    match (a, b) {
        (Some(x), Some(y)) => x@ == y@,
        (None, None) => true,
        _ => false,
    }
}

/// `out` is `spot` converted against the checkpoints `cps`.
pub open spec fn span_of(cps: Seq<(int, int)>, spot: Location, out: Span) -> bool {
    &&& same_text(out.file, spot.file)
    &&& out.start == edge_of(cps, spot.start)
    &&& out.end == edge_of(cps, spot.end)
}

/// `out` is `spot` converted, or both absent.
pub open spec fn optional_span_of(cps: Seq<(int, int)>, spot: Option<Location>, out: Option<Span>) -> bool {
    match (spot, out) {
        (Some(s), Some(o)) => span_of(cps, s, o),
        (None, None) => true,
        _ => false,
    }
}

/// `out` is `item` converted against the checkpoints `cps`.
pub open spec fn diagnostic_of(cps: Seq<(int, int)>, item: ValidateError, out: Diagnostic) -> bool {
    &&& out.node_type@ == item.node_type@
    &&& out.lines@ == item.lines@.map_values(|l: usize| sat32(l as int))
    &&& optional_span_of(cps, item.location, out.location)
    &&& out.id@ == item.id@
    &&& out.level@ == item.level@
    &&& out.message@ == item.message@
    &&& optional_span_of(cps, item.error_location, out.error_location)
}

/// A count as a 32-bit number, saturating. On `wasm32` a `usize` is 32 bits,
/// so nothing the engine produces there saturates.
pub fn number(value: usize) -> (n: u32)
    ensures
        n == sat32(value as int),
{
    if value <= 0xFFFF_FFFF {
        value as u32
    } else {
        0xFFFF_FFFF
    }
}

/// Convert one edge of a location.
pub fn position(index: &Utf16Index, edge: &Position) -> (out: Edge)
    ensures
        out == edge_of(index@, *edge),
{
    let offset = index.at(edge.offset);
    let line_start = index.at(edge.offset.saturating_sub(edge.column));
    Edge {
        line: number(edge.line),
        character: number(offset.saturating_sub(line_start)),
        offset: number(offset),
        byte_offset: number(edge.offset),
    }
}

/// Convert a location, keeping the file label when the caller set one.
pub fn location(index: &Utf16Index, spot: &Location) -> (out: Span)
    ensures
        span_of(index@, *spot, out),
{
    let file = match &spot.file {
        Some(name) => Some(name.clone()),
        None => None,
    };
    Span { file, start: position(index, &spot.start), end: position(index, &spot.end) }
}

/// Convert an optional location.
fn optional_location(index: &Utf16Index, spot: &Option<Location>) -> (out: Option<Span>)
    ensures
        optional_span_of(index@, *spot, out),
{
    match spot {
        Some(s) => Some(location(index, s)),
        None => None,
    }
}

/// Convert one validation error.
pub fn error(index: &Utf16Index, item: &ValidateError) -> (out: Diagnostic)
    ensures
        diagnostic_of(index@, *item, out),
{
    let mut lines: Vec<u32> = Vec::new();
    let n = item.lines.len();
    for i in 0..n
        invariant
            n == item.lines@.len(),
            lines@ == item.lines@.take(i as int).map_values(|l: usize| sat32(l as int)),
    {
        lines.push(number(item.lines[i]));
        assert(item.lines@.take(i + 1) =~= item.lines@.take(i as int).push(item.lines@[i as int]));
        assert(lines@ =~= item.lines@.take(i + 1).map_values(|l: usize| sat32(l as int)));
    }
    assert(item.lines@.take(n as int) =~= item.lines@);
    Diagnostic {
        node_type: item.node_type.clone(),
        lines,
        location: optional_location(index, &item.location),
        id: item.id.clone(),
        level: item.level.clone(),
        message: item.message.clone(),
        error_location: optional_location(index, &item.error_location),
    }
}

/// Convert validation errors against the document they were produced from,
/// which is indexed once for the whole batch.
pub fn errors(source: &str, list: &Vec<ValidateError>) -> (out: Vec<Diagnostic>)
    ensures
        out.len() == list.len(),
        forall|i: int|
            0 <= i < list.len() ==> diagnostic_of(
                crate::utf16::checkpoints_of(source@),
                #[trigger] list@[i],
                out@[i],
            ),
{
    let index = Utf16Index::new(source);
    let mut out: Vec<Diagnostic> = Vec::new();
    let n = list.len();
    for i in 0..n
        invariant
            n == list@.len(),
            index@ == crate::utf16::checkpoints_of(source@),
            out.len() == i,
            forall|j: int| 0 <= j < i ==> diagnostic_of(index@, #[trigger] list@[j], out@[j]),
    {
        out.push(error(&index, &list[i]));
    }
    out
}

/// A validation error leaves whole: its type, id, level and message
/// unchanged, every one of its lines in order (a line past what 32 bits
/// count as the largest 32-bit count), and a location exactly where it had
/// one, under the same file label, its start the start's edge and its end
/// the end's.
pub proof fn lemma_error_leaves_whole(cps: Seq<(int, int)>, item: ValidateError, out: Diagnostic)
    requires
        diagnostic_of(cps, item, out),
    ensures
        out.node_type@ == item.node_type@,
        out.id@ == item.id@,
        out.level@ == item.level@,
        out.message@ == item.message@,
        out.lines@.len() == item.lines@.len(),
        forall|i: int| 0 <= i < item.lines@.len() ==> (item.lines@[i] <= u32::MAX ==> out.lines@[i] == item.lines@[i]) && (
            item.lines@[i] > u32::MAX ==> out.lines@[i] == u32::MAX),
        out.location is Some <==> item.location is Some,
        out.error_location is Some <==> item.error_location is Some,
        item.location matches Some(l) ==> {
            &&& same_text(out.location->Some_0.file, l.file)
            &&& out.location->Some_0.start == edge_of(cps, l.start)
            &&& out.location->Some_0.end == edge_of(cps, l.end)
        },
        item.error_location matches Some(l) ==> {
            &&& same_text(out.error_location->Some_0.file, l.file)
            &&& out.error_location->Some_0.start == edge_of(cps, l.start)
            &&& out.error_location->Some_0.end == edge_of(cps, l.end)
        },
{
    assert forall|i: int| 0 <= i < item.lines@.len() implies (item.lines@[i] <= u32::MAX ==> out.lines@[i] == item.lines@[i]) && (
        item.lines@[i] > u32::MAX ==> out.lines@[i] == u32::MAX) by {
        assert(out.lines@[i] == sat32(item.lines@[i] as int));
    }
}

/// For positions on character boundaries, `offset` is the number of UTF-16
/// code units before the edge and `character` the number between the start
/// of its line and the edge: the units a JavaScript host counts in.
pub proof fn lemma_edge_in_code_units(s: Seq<char>, line: usize, j: int, k: int)
    requires
        0 <= j <= k <= s.len(),
        byte_len(s.take(k)) <= usize::MAX,
    ensures
        ({
            let p = Position {
                line,
                column: (byte_len(s.take(k)) - byte_len(s.take(j))) as usize,
                offset: byte_len(s.take(k)) as usize,
            };
            let e = edge_of(crate::utf16::checkpoints_of(s), p);
            &&& e.offset == sat32(unit_len(s.take(k)) as int)
            &&& e.character == sat32(unit_len(s.take(k)) - unit_len(s.take(j)))
            &&& e.byte_offset == sat32(byte_len(s.take(k)) as int)
            &&& e.line == sat32(line as int)
        }),
{
    lemma_prefix_len_bound(s.take(k), j);
    assert(s.take(k).take(j) =~= s.take(j));
    lemma_at_agrees_on_boundaries(s, k);
    lemma_at_agrees_on_boundaries(s, j);
}

} // verus!
