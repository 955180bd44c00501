//! Where in the configuration something went wrong.
//!
//! A host configuration is a nested object, so every message about it starts
//! with the dotted path to the value that caused it, such as
//! `config.tags.callout.attributes.type.type`.
use vstd::prelude::*;

verus! {

/// The decimal digits of `n`, most significant first, with no leading zero.
pub open spec fn decimal(n: nat) -> Seq<char>
    decreases n,
{
    if n < 10 {
        seq![digit(n)]
    } else {
        decimal(n / 10) + seq![digit(n % 10)]
    }
}

/// The character of a decimal digit.
pub open spec fn digit(d: nat) -> char {
    seq!['0', '1', '2', '3', '4', '5', '6', '7', '8', '9'][d as int]
}

/// The text of the root path.
pub open spec fn root_text() -> Seq<char> {
    seq!['c', 'o', 'n', 'f', 'i', 'g']
}

/// The path to a named property of the value at `at`.
pub open spec fn child_text(at: Seq<char>, key: Seq<char>) -> Seq<char> {
    at + seq!['.'] + key
}

/// The path to an element of the value at `at`.
pub open spec fn index_text(at: Seq<char>, index: nat) -> Seq<char> {
    at + seq!['['] + decimal(index) + seq![']']
}

/// One step of a path: a property by name, or an element by index.
pub enum Seg {
    Key(Seq<char>),
    Index(nat),
}

/// The text of the path that takes `segs` from the value at `at`.
pub open spec fn path_text(at: Seq<char>, segs: Seq<Seg>) -> Seq<char>
    decreases segs.len(),
{
    if segs.len() == 0 {
        at
    } else {
        let p = path_text(at, segs.drop_last());
        match segs.last() {
            Seg::Key(k) => child_text(p, k),
            Seg::Index(i) => index_text(p, i),
        }
    }
}

/// Taking two runs of steps one after the other is taking them together.
pub proof fn lemma_path_text_append(at: Seq<char>, s1: Seq<Seg>, s2: Seq<Seg>)
    ensures
        path_text(at, s1 + s2) == path_text(path_text(at, s1), s2),
    decreases s2.len(),
{
    if s2.len() == 0 {
        assert(s1 + s2 =~= s1);
    } else {
        assert((s1 + s2).drop_last() =~= s1 + s2.drop_last());
        assert((s1 + s2).last() == s2.last());
        lemma_path_text_append(at, s1, s2.drop_last());
    }
}

/// A dotted path into the configuration object.
pub struct Path {
    text: String,
}

impl View for Path {
    type V = Seq<char>;

    closed spec fn view(&self) -> Seq<char> {
        self.text@
    }
}

impl Clone for Path {
    fn clone(&self) -> (copy: Self)
        ensures
            copy@ == self@,
    {
        Path { text: self.text.clone() }
    }
}

impl Path {
    /// The root of the configuration.
    pub fn root() -> (path: Path)
        ensures
            path@ == root_text(),
    {
        let text = String::from_str("config");
        proof {
            reveal_strlit("config");
        }
        assert(text@ =~= root_text());
        Path { text }
    }

    /// The path to a named property of this one.
    pub fn child(&self, key: &str) -> (path: Path)
        ensures
            path@ == child_text(self@, key@),
    {
        let mut text = self.text.clone();
        text.append(".");
        text.append(key);
        proof {
            reveal_strlit(".");
        }
        assert(text@ =~= child_text(self@, key@));
        Path { text }
    }

    /// The path to an element of this one.
    pub fn index(&self, index: u32) -> (path: Path)
        ensures
            path@ == index_text(self@, index as nat),
    {
        let mut text = self.text.clone();
        text.append("[");
        let digits = decimal_string(index);
        text.append(digits.as_str());
        text.append("]");
        proof {
            reveal_strlit("[");
            reveal_strlit("]");
        }
        assert(text@ =~= index_text(self@, index as nat));
        Path { text }
    }

    /// The path as text, as it appears in a message.
    pub fn as_str(&self) -> (text: &str)
        ensures
            text@ == self@,
    {
        self.text.as_str()
    }
}

/// `n` in decimal.
pub fn decimal_string(n: u32) -> (text: String)
    ensures
        text@ == decimal(n as nat),
    decreases n,
{
    let digits = "0123456789";
    proof {
        reveal_strlit("0123456789");
    }
    let d = (n % 10) as usize;
    let last = digits.substring_char(d, d + 1);
    assert(last@ =~= seq![digit(d as nat)]);
    if n < 10 {
        let text = String::from_str(last);
        text
    } else {
        let mut text = decimal_string(n / 10);
        text.append(last);
        text
    }
}

/// `e` is about the value at `at`: it starts with that path, then ": ".
pub open spec fn here(e: Seq<char>, at: Seq<char>) -> bool {
    (at + ": "@).is_prefix_of(e)
}

/// A path, then a text that starts with ": ", is about the value there.
pub proof fn lemma_here(at: Seq<char>, rest: Seq<char>)
    requires
        rest.len() >= 2,
        rest[0] == ':',
        rest[1] == ' ',
    ensures
        here(at + rest, at),
{
    reveal_strlit(": ");
    assert((at + rest).subrange(0, at.len() + 2int) =~= at + ": "@);
}

/// A check that goes through a list in order and stops at the first
/// refusal: once a prefix of the list is refused, the whole list is refused
/// the same way, whatever comes after.
pub proof fn lemma_first_refusal_decides<A, T>(
    check: spec_fn(Seq<A>) -> Result<T, Seq<char>>,
    s: Seq<A>,
    m: int,
)
    requires
        0 <= m <= s.len(),
        check(s.take(m)) is Err,
        forall|t: Seq<A>|
            t.len() > 0 && (#[trigger] check(t.drop_last())) is Err ==> check(t) == check(
                t.drop_last(),
            ),
    ensures
        check(s) == check(s.take(m)),
    decreases s.len(),
{
    if m == s.len() {
        assert(s.take(m) =~= s);
    } else {
        assert(s.drop_last().take(m) =~= s.take(m));
        lemma_first_refusal_decides(check, s.drop_last(), m);
    }
}

} // verus!
