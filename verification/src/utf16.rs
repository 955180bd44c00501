//! Byte offsets, as the code-unit offsets JavaScript counts in.
//!
//! A document is measured in UTF-8 bytes by the engine and in UTF-16 code
//! units by JavaScript and every editor built on it. The two agree while a
//! document stays in ASCII. The index below converts one into the other after
//! a single pass over the document, and allocates only for characters outside
//! ASCII.
use vstd::prelude::*;

verus! {

/// The number of bytes `c` takes in UTF-8.
pub open spec fn utf8_width(c: char) -> nat {
    let v = c as u32;
    if v <= 0x7F {
        1
    } else if v <= 0x7FF {
        2
    } else if v <= 0xFFFF {
        3
    } else {
        4
    }
}

/// The number of UTF-16 code units `c` takes: two for a surrogate pair.
pub open spec fn utf16_width(c: char) -> nat {
    if (c as u32) <= 0xFFFF {
        1
    } else {
        2
    }
}

/// The length of `s` in UTF-8 bytes.
pub open spec fn byte_len(s: Seq<char>) -> nat
    decreases s.len(),
{
    if s.len() == 0 {
        0
    } else {
        byte_len(s.drop_last()) + utf8_width(s.last())
    }
}

/// The length of `s` in UTF-16 code units, which is what JavaScript calls the
/// length of a string.
pub open spec fn unit_len(s: Seq<char>) -> nat
    decreases s.len(),
{
    if s.len() == 0 {
        0
    } else {
        unit_len(s.drop_last()) + utf16_width(s.last())
    }
}

/// The checkpoints of a document: `(byte, unit)` just after each character
/// outside ASCII, in document order.
pub open spec fn checkpoints_of(s: Seq<char>) -> Seq<(int, int)>
    decreases s.len(),
{
    if s.len() == 0 {
        seq![]
    } else {
        let before = checkpoints_of(s.drop_last());
        if utf8_width(s.last()) == 1 {
            before
        } else {
            before.push((byte_len(s) as int, unit_len(s) as int))
        }
    }
}

/// The last checkpoint at or before `byte`, when the checkpoints are in
/// increasing byte order.
pub open spec fn last_at_or_before(cps: Seq<(int, int)>, byte: int) -> Option<(int, int)>
    decreases cps.len(),
{
    if cps.len() == 0 {
        None
    } else if cps.last().0 <= byte {
        Some(cps.last())
    } else {
        last_at_or_before(cps.drop_last(), byte)
    }
}

/// The code-unit offset for a byte offset: the nearest checkpoint at or below
/// it plus the remaining distance, which is all ASCII; the byte offset itself
/// before the first checkpoint.
pub open spec fn offset_at(cps: Seq<(int, int)>, byte: int) -> int {
    match last_at_or_before(cps, byte) {
        Some(cp) => cp.1 + (byte - cp.0),
        None => byte,
    }
}

/// Checkpoints that an index can hold: strictly increasing in bytes, and never
/// more code units than bytes.
pub open spec fn well_formed(cps: Seq<(int, int)>) -> bool {
    &&& forall|i: int| 0 <= i < cps.len() ==> 0 <= #[trigger] cps[i].1 <= cps[i].0
    &&& forall|i: int, j: int| 0 <= i < j < cps.len() ==> #[trigger] cps[i].0 < #[trigger] cps[j].0
}

/// A mapping from byte offset to UTF-16 code-unit offset for one document.
pub struct Utf16Index {
    /// `(byte, unit)` immediately after each character outside ASCII.
    checkpoints: Vec<(usize, usize)>,
}

impl View for Utf16Index {
    type V = Seq<(int, int)>;

    closed spec fn view(&self) -> Seq<(int, int)> {
        self.checkpoints@.map_values(|p: (usize, usize)| (p.0 as int, p.1 as int))
    }
}

impl Utf16Index {
    #[verifier::type_invariant]
    closed spec fn inv(self) -> bool {
        &&& well_formed(self@)
        &&& forall|i: int| 0 <= i < self@.len() ==> #[trigger] self@[i].0 <= usize::MAX
    }

    /// Index a document.
    pub fn new(source: &str) -> (index: Utf16Index)
        ensures
            index@ == checkpoints_of(source@),
    {
        let total = source.as_bytes().len();
        proof {
            lemma_byte_len_is_encoded_len(source@);
        }
        let mut checkpoints: Vec<(usize, usize)> = Vec::new();
        let mut byte: usize = 0;
        let mut units: usize = 0;
        let ghost text = source@;
        for character in it: source.chars()
            invariant
                it.seq() == text,
                byte_len(text) == total,
                byte == byte_len(text.take(it.index() as int)),
                units == unit_len(text.take(it.index() as int)),
                checkpoints@.map_values(|p: (usize, usize)| (p.0 as int, p.1 as int))
                    == checkpoints_of(text.take(it.index() as int)),
        {
            let ghost i = it.index() as int;
            let ghost before = text.take(i);
            let ghost after = text.take(i + 1);
            proof {
                assert(after.drop_last() =~= before);
                assert(after.last() == character);
                lemma_prefix_len_bound(text, i + 1);
                lemma_units_le_bytes(after);
            }
            let len = utf8_len(character);
            units = units + utf16_len(character);
            if len != 1 {
                let ghost old_view = checkpoints@.map_values(
                    |p: (usize, usize)| (p.0 as int, p.1 as int),
                );
                checkpoints.push((byte + len, units));
                assert(checkpoints@.map_values(|p: (usize, usize)| (p.0 as int, p.1 as int))
                    =~= old_view.push(((byte + len) as int, units as int)));
            }
            byte = byte + len;
        }
        proof {
            assert(text.take(text.len() as int) =~= text);
            lemma_checkpoints_well_formed(text);
        }
        Utf16Index { checkpoints }
    }

    /// The checkpoints, `(byte, unit)` after each character outside ASCII.
    pub fn checkpoints(&self) -> (list: &[(usize, usize)])
        ensures
            list@.map_values(|p: (usize, usize)| (p.0 as int, p.1 as int)) == self@,
    {
        self.checkpoints.as_slice()
    }

    /// The UTF-16 offset for a byte offset.
    ///
    /// A byte offset on a character boundary gets the exact code-unit count
    /// of the text before it (see [`lemma_at_agrees_on_boundaries`]). One that
    /// is not lands on the checkpoint at or below it plus the remaining
    /// distance, and is never out of range.
    pub fn at(&self, byte: usize) -> (units: usize)
        ensures
            units == offset_at(self@, byte as int),
            units <= byte,
    {
        proof {
            use_type_invariant(self);
        }
        let ghost cps = self@;
        let n = self.checkpoints.len();
        let mut lo: usize = 0;
        let mut hi: usize = n;
        while lo < hi
            invariant
                cps == self@,
                n == cps.len(),
                well_formed(cps),
                0 <= lo <= hi <= n,
                forall|j: int| 0 <= j < lo ==> #[trigger] cps[j].0 <= byte,
                forall|j: int| hi <= j < n ==> #[trigger] cps[j].0 > byte,
            decreases hi - lo,
        {
            let mid = lo + (hi - lo) / 2;
            let (at, _) = self.checkpoints[mid];
            assert(cps[mid as int].0 == at);
            if at <= byte {
                assert forall|j: int| 0 <= j < mid + 1 implies #[trigger] cps[j].0 <= byte by {
                    if j < mid {
                        assert(cps[j].0 < cps[mid as int].0);
                    }
                }
                lo = mid + 1;
            } else {
                assert forall|j: int| mid <= j < n implies #[trigger] cps[j].0 > byte by {
                    if j > mid {
                        assert(cps[mid as int].0 < cps[j].0);
                    }
                }
                hi = mid;
            }
        }
        proof {
            lemma_partition_point(cps, byte as int, lo as int);
        }
        if lo == 0 {
            byte
        } else {
            let (at, units) = self.checkpoints[lo - 1];
            assert(cps[lo - 1] == (at as int, units as int));
            units + (byte - at)
        }
    }
}

/// The UTF-8 width of a character, by its code point.
pub fn utf8_len(c: char) -> (len: usize)
    ensures
        len == utf8_width(c),
{
    let v = c as u32;
    if v <= 0x7F {
        1
    } else if v <= 0x7FF {
        2
    } else if v <= 0xFFFF {
        3
    } else {
        4
    }
}

/// The UTF-16 width of a character, by its code point.
pub fn utf16_len(c: char) -> (len: usize)
    ensures
        len == utf16_width(c),
{
    if (c as u32) <= 0xFFFF {
        1
    } else {
        2
    }
}

/// Splitting a text splits its UTF-8 length.
pub proof fn lemma_byte_len_concat(a: Seq<char>, b: Seq<char>)
    ensures
        byte_len(a + b) == byte_len(a) + byte_len(b),
    decreases b.len(),
{
    if b.len() > 0 {
        assert((a + b).drop_last() =~= a + b.drop_last());
        lemma_byte_len_concat(a, b.drop_last());
    } else {
        assert(a + b =~= a);
    }
}

/// Splitting a text splits its UTF-16 length.
pub proof fn lemma_unit_len_concat(a: Seq<char>, b: Seq<char>)
    ensures
        unit_len(a + b) == unit_len(a) + unit_len(b),
    decreases b.len(),
{
    if b.len() > 0 {
        assert((a + b).drop_last() =~= a + b.drop_last());
        lemma_unit_len_concat(a, b.drop_last());
    } else {
        assert(a + b =~= a);
    }
}

/// `byte_len` is the length of the UTF-8 encoding that a `&str` holds.
pub proof fn lemma_byte_len_is_encoded_len(s: Seq<char>)
    ensures
        byte_len(s) == vstd::utf8::encode_utf8(s).len(),
    decreases s.len(),
{
    if s.len() > 0 {
        let first = seq![s[0]];
        let rest = s.drop_first();
        assert(s =~= first + rest);
        lemma_byte_len_concat(first, rest);
        assert(first.drop_last() =~= Seq::<char>::empty());
        assert(first.last() == s[0]);
        assert(byte_len(first.drop_last()) == 0);
        assert(byte_len(first) == utf8_width(s[0]));
        lemma_byte_len_is_encoded_len(rest);
        vstd::utf8::char_is_scalar(s[0]);
        let v = s[0] as u32;
        assert(vstd::utf8::encode_scalar(v).len() == utf8_width(s[0]));
        assert(vstd::utf8::encode_utf8(s) == vstd::utf8::encode_scalar(v) + vstd::utf8::encode_utf8(
            rest,
        ));
    }
}

/// A prefix is no longer than the whole, in bytes.
pub proof fn lemma_prefix_len_bound(s: Seq<char>, k: int)
    requires
        0 <= k <= s.len(),
    ensures
        byte_len(s.take(k)) <= byte_len(s),
        unit_len(s.take(k)) <= unit_len(s),
{
    assert(s =~= s.take(k) + s.skip(k));
    lemma_byte_len_concat(s.take(k), s.skip(k));
    lemma_unit_len_concat(s.take(k), s.skip(k));
}

/// A text never takes more code units than bytes.
pub proof fn lemma_units_le_bytes(s: Seq<char>)
    ensures
        unit_len(s) <= byte_len(s),
    decreases s.len(),
{
    if s.len() > 0 {
        lemma_units_le_bytes(s.drop_last());
    }
}

/// The checkpoints of a text are well formed and lie within it.
pub proof fn lemma_checkpoints_well_formed(s: Seq<char>)
    ensures
        well_formed(checkpoints_of(s)),
        forall|i: int|
            0 <= i < checkpoints_of(s).len() ==> #[trigger] checkpoints_of(s)[i].0 <= byte_len(s),
    decreases s.len(),
{
    if s.len() > 0 {
        let t = s.drop_last();
        lemma_checkpoints_well_formed(t);
        lemma_units_le_bytes(s);
    }
}

/// The checkpoint before a partition point is the last one at or before the
/// byte offset.
pub proof fn lemma_partition_point(cps: Seq<(int, int)>, byte: int, p: int)
    requires
        0 <= p <= cps.len(),
        forall|j: int| 0 <= j < p ==> #[trigger] cps[j].0 <= byte,
        forall|j: int| p <= j < cps.len() ==> #[trigger] cps[j].0 > byte,
    ensures
        last_at_or_before(cps, byte) == (if p == 0 {
            None
        } else {
            Some(cps[p - 1])
        }),
    decreases cps.len(),
{
    if cps.len() > p {
        let t = cps.drop_last();
        assert(cps.last() == cps[cps.len() - 1]);
        lemma_partition_point(t, byte, p);
        if p > 0 {
            assert(t[p - 1] == cps[p - 1]);
        }
    } else if p > 0 {
        assert(cps.last() == cps[p - 1]);
    }
}

/// Checkpoints past a byte offset do not change the lookup at it.
pub proof fn lemma_later_checkpoints_ignored(a: Seq<(int, int)>, e: Seq<(int, int)>, byte: int)
    requires
        forall|j: int| 0 <= j < e.len() ==> #[trigger] e[j].0 > byte,
    ensures
        last_at_or_before(a + e, byte) == last_at_or_before(a, byte),
    decreases e.len(),
{
    if e.len() > 0 {
        assert((a + e).drop_last() =~= a + e.drop_last());
        assert((a + e).last() == e[e.len() - 1]);
        lemma_later_checkpoints_ignored(a, e.drop_last(), byte);
    } else {
        assert(a + e =~= a);
    }
}

/// The checkpoints of a prefix are a prefix of the checkpoints, and the rest
/// lie past the end of the prefix.
pub proof fn lemma_checkpoints_prefix(s: Seq<char>, k: int, n: int)
    requires
        0 <= k <= n <= s.len(),
    ensures
        exists|e: Seq<(int, int)>|
            {
                &&& checkpoints_of(s.take(n)) == checkpoints_of(s.take(k)) + e
                &&& forall|j: int| 0 <= j < e.len() ==> #[trigger] e[j].0 > byte_len(s.take(k))
            },
    decreases n - k,
{
    if n == k {
        assert(checkpoints_of(s.take(n)) =~= checkpoints_of(s.take(k)) + Seq::<(int, int)>::empty());
    } else {
        lemma_checkpoints_prefix(s, k, n - 1);
        let e = choose|e: Seq<(int, int)>|
            {
                &&& checkpoints_of(s.take(n - 1)) == checkpoints_of(s.take(k)) + e
                &&& forall|j: int| 0 <= j < e.len() ==> #[trigger] e[j].0 > byte_len(s.take(k))
            };
        let t = s.take(n);
        assert(t.drop_last() =~= s.take(n - 1));
        lemma_prefix_len_bound(s.take(n - 1), k);
        assert(s.take(n - 1).take(k) =~= s.take(k));
        if utf8_width(t.last()) == 1 {
        } else {
            let e2 = e.push((byte_len(t) as int, unit_len(t) as int));
            assert(checkpoints_of(t) =~= checkpoints_of(s.take(k)) + e2);
            assert forall|j: int| 0 <= j < e2.len() implies #[trigger] e2[j].0 > byte_len(s.take(k)) by {
                if j < e.len() {
                    assert(e2[j] == e[j]);
                }
            }
        }
    }
}

/// At the end of a text, the lookup gives the text's length in code units.
pub proof fn lemma_at_end(t: Seq<char>)
    ensures
        offset_at(checkpoints_of(t), byte_len(t) as int) == unit_len(t),
    decreases t.len(),
{
    if t.len() > 0 {
        let u = t.drop_last();
        lemma_at_end(u);
        lemma_checkpoints_well_formed(u);
        let cps = checkpoints_of(u);
        // Every checkpoint of `u` lies at or before its end, so the lookup at
        // the end of `t` finds the same one as the lookup at the end of `u`.
        lemma_partition_point(cps, byte_len(u) as int, cps.len() as int);
        lemma_partition_point(cps, byte_len(t) as int, cps.len() as int);
        if utf8_width(t.last()) != 1 {
            let full = checkpoints_of(t);
            assert(full.last() == (byte_len(t) as int, unit_len(t) as int));
        }
    }
}

/// A byte offset on a character boundary maps to the number of UTF-16 code
/// units before it: what JavaScript says for the same position.
pub proof fn lemma_at_agrees_on_boundaries(s: Seq<char>, k: int)
    requires
        0 <= k <= s.len(),
    ensures
        offset_at(checkpoints_of(s), byte_len(s.take(k)) as int) == unit_len(s.take(k)),
{
    lemma_checkpoints_prefix(s, k, s.len() as int);
    assert(s.take(s.len() as int) =~= s);
    let e = choose|e: Seq<(int, int)>|
        {
            &&& checkpoints_of(s.take(s.len() as int)) == checkpoints_of(s.take(k)) + e
            &&& forall|j: int| 0 <= j < e.len() ==> #[trigger] e[j].0 > byte_len(s.take(k))
        };
    lemma_later_checkpoints_ignored(checkpoints_of(s.take(k)), e, byte_len(s.take(k)) as int);
    lemma_at_end(s.take(k));
}

/// An all-ASCII document has no checkpoints, so every lookup is the identity.
pub proof fn lemma_ascii_is_identity(s: Seq<char>, byte: int)
    requires
        forall|i: int| 0 <= i < s.len() ==> (#[trigger] s[i] as u32) <= 0x7F,
    ensures
        checkpoints_of(s) == Seq::<(int, int)>::empty(),
        offset_at(checkpoints_of(s), byte) == byte,
    decreases s.len(),
{
    if s.len() > 0 {
        let t = s.drop_last();
        assert forall|i: int| 0 <= i < t.len() implies (#[trigger] t[i] as u32) <= 0x7F by {
            assert(t[i] == s[i]);
        }
        lemma_ascii_is_identity(t, byte);
        assert(s.last() == s[s.len() - 1]);
    }
}

} // verus!
