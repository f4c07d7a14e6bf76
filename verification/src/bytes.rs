//! Byte strings: ASCII words, prefixes and runs of bytes.

use vstd::prelude::*;
use vstd::string::*;
use vstd::utf8::*;

verus! {

pub const SP: u8 = 0x20;

pub const CR: u8 = 0x0D;

pub const LF: u8 = 0x0A;

pub const COLON: u8 = 0x3A;

pub const SLASH: u8 = 0x2F;

pub const QUESTION: u8 = 0x3F;

pub const ASTERISK: u8 = 0x2A;

/// The bytes of an ASCII text, one for each character.
pub open spec fn ascii(text: Seq<char>) -> Seq<u8> {
    Seq::new(text.len(), |i: int| text[i] as u8)
}

/// The first index from `from` on whose byte is outside `class`, or the length of `s`.
pub open spec fn run_end(s: Seq<u8>, from: int, class: spec_fn(u8) -> bool) -> int
    decreases s.len() - from,
{
    if 0 <= from < s.len() && class(s[from]) {
        run_end(s, from + 1, class)
    } else {
        from
    }
}

/// All bytes but `b`.
pub open spec fn other_than(b: u8) -> spec_fn(u8) -> bool {
    |x: u8| x != b
}

/// The index of the first `b` in `s`, or the length of `s` if there is none.
pub open spec fn first_index(s: Seq<u8>, b: u8) -> int {
    run_end(s, 0, other_than(b))
}

/// All bytes before the end of a run are in its class, and the one at the end is not.
pub proof fn lemma_run_end(s: Seq<u8>, from: int, class: spec_fn(u8) -> bool)
    requires
        0 <= from <= s.len(),
    ensures
        from <= run_end(s, from, class) <= s.len(),
        forall|i: int| from <= i < run_end(s, from, class) ==> class(#[trigger] s[i]),
        run_end(s, from, class) < s.len() ==> !class(s[run_end(s, from, class)]),
    decreases s.len() - from,
{
    if from < s.len() && class(s[from]) {
        lemma_run_end(s, from + 1, class);
    }
}

/// A run ends at the first index whose byte is outside its class.
pub proof fn lemma_run_end_at(s: Seq<u8>, from: int, end: int, class: spec_fn(u8) -> bool)
    requires
        0 <= from <= end < s.len(),
        forall|i: int| from <= i < end ==> class(#[trigger] s[i]),
        !class(s[end]),
    ensures
        run_end(s, from, class) == end,
    decreases end - from,
{
    if from < end {
        assert(class(s[from]));
        lemma_run_end_at(s, from + 1, end, class);
    }
}

/// A run is the same in what follows the index that it begins at.
pub proof fn lemma_run_end_tail(s: Seq<u8>, k: int, from: int, class: spec_fn(u8) -> bool)
    requires
        0 <= k <= from <= s.len(),
    ensures
        run_end(s, from, class) == k + run_end(s.skip(k), from - k, class),
    decreases s.len() - from,
{
    if from < s.len() {
        assert(s.skip(k)[from - k] == s[from]);
        if class(s[from]) {
            lemma_run_end_tail(s, k, from + 1, class);
        }
    }
}

/// A run in `s` goes as far as in `s` with something behind it, but not past the end of `s`.
pub proof fn lemma_run_end_prefix(s: Seq<u8>, t: Seq<u8>, from: int, class: spec_fn(u8) -> bool)
    requires
        0 <= from <= s.len(),
    ensures
        from <= run_end(s, from, class) <= s.len(),
        run_end(s, from, class) < s.len() ==> run_end(s + t, from, class) == run_end(s, from, class),
        run_end(s, from, class) == s.len() ==> run_end(s + t, from, class) >= s.len(),
    decreases s.len() - from,
{
    lemma_run_end(s + t, from, class);
    if from < s.len() {
        assert((s + t)[from] == s[from]);
        if class(s[from]) {
            lemma_run_end_prefix(s, t, from + 1, class);
        }
    }
}

/// The bytes of an ASCII string slice are its characters.
pub proof fn lemma_ascii_bytes(text: &str)
    requires
        is_ascii_chars(text@),
    ensures
        text.spec_bytes() == ascii(text@),
{
    is_ascii_chars_encode_utf8(text@);
    assert(text.spec_bytes() =~= ascii(text@));
}

/// Whether two byte strings are the same.
pub fn same_bytes(a: &[u8], b: &[u8]) -> (r: bool)
    ensures
        r == (a@ == b@),
{
    if a.len() != b.len() {
        return false;
    }
    let mut i: usize = 0;
    while i < a.len()
        invariant
            i <= a@.len(),
            a@.len() == b@.len(),
            forall|j: int| 0 <= j < i ==> a@[j] == b@[j],
        decreases a@.len() - i,
    {
        if a[i] != b[i] {
            return false;
        }
        i = i + 1;
    }
    assert(a@ =~= b@);
    true
}

/// What follows `prefix` in `buf`, where `buf` begins with it.
pub fn strip_prefix<'a>(buf: &'a [u8], prefix: &[u8]) -> (r: Option<&'a [u8]>)
    ensures
        r is Some <==> prefix@.is_prefix_of(buf@),
        r matches Some(rest) ==> rest@ == buf@.skip(prefix@.len() as int),
{
    if prefix.len() <= buf.len() {
        let (head, rest) = buf.split_at(prefix.len());
        if same_bytes(head, prefix) {
            return Some(rest);
        }
    }
    None
}

/// Whether `b` is among the bytes of `s`.
pub fn contains(s: &[u8], b: u8) -> (r: bool)
    ensures
        r == s@.contains(b),
{
    let mut i: usize = 0;
    while i < s.len()
        invariant
            i <= s@.len(),
            forall|j: int| 0 <= j < i ==> s@[j] != b,
        decreases s@.len() - i,
    {
        if s[i] == b {
            return true;
        }
        i = i + 1;
    }
    false
}

/// What follows the first `from` bytes.
pub fn tail<'a>(s: &'a [u8], from: usize) -> (r: &'a [u8])
    requires
        from <= s@.len(),
    ensures
        r@ == s@.skip(from as int),
{
    let r: &'a [u8] = &s[from..s.len()];
    assert(r@ =~= s@.skip(from as int));
    r
}

} // verus!
