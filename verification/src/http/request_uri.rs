//! Request targets and the parts that they are made of.

use crate::bytes;
use crate::bytes::{COLON, QUESTION, SLASH};
use vstd::prelude::*;
use vstd::string::*;
use vstd::utf8::*;

verus! {

/// Whether `://` stands at index `i`.
pub open spec fn separator_at(s: Seq<u8>, i: int) -> bool {
    0 <= i && i + 3 <= s.len() && s[i] == COLON && s[i + 1] == SLASH && s[i + 2] == SLASH
}

/// The index of the first `://` from `from` on.
pub open spec fn first_separator(s: Seq<u8>, from: int) -> Option<int>
    decreases s.len() - from,
{
    if from + 3 > s.len() {
        None
    } else if separator_at(s, from) {
        Some(from)
    } else {
        first_separator(s, from + 1)
    }
}

/// All bytes but `/` and `?`.
pub open spec fn neither_slash_nor_question() -> spec_fn(u8) -> bool {
    |b: u8| b != SLASH && b != QUESTION
}

/// The part before the first `://`.
pub open spec fn scheme_of(full: Seq<u8>) -> Option<Seq<u8>> {
    match first_separator(full, 0) {
        Some(i) => Some(full.take(i)),
        None => None,
    }
}

/// The authority of a target whose path begins at `path_start`, 0 standing for no path or a path
/// that is the whole of it.
pub open spec fn authority_of(full: Seq<u8>, path_start: int) -> Option<Seq<u8>> {
    match first_separator(full, 0) {
        Some(i) => if path_start == 0 {
            let rest = full.skip(i + 3);
            Some(rest.take(bytes::first_index(rest, QUESTION)))
        } else {
            Some(full.subrange(i + 3, path_start))
        },
        None => if full.len() > 0 && full[0] == SLASH {
            None
        } else {
            Some(full.take(bytes::run_end(full, 0, neither_slash_nor_question())))
        },
    }
}

/// The path with the query behind it; without a path, the query that follows a `://`.
pub open spec fn path_and_query_of(full: Seq<u8>, path_start: int, path_end: int) -> Seq<u8> {
    if path_end != 0 {
        full.skip(path_start)
    } else {
        match first_separator(full, 0) {
            Some(i) => {
                let rest = full.skip(i + 3);
                rest.skip(bytes::first_index(rest, QUESTION))
            },
            None => Seq::empty(),
        }
    }
}

/// What follows the first `?` from the end of the path on.
pub open spec fn query_of(full: Seq<u8>, path_end: int) -> Option<Seq<u8>> {
    let rest = full.skip(path_end);
    let i = bytes::first_index(rest, QUESTION);
    if i < rest.len() {
        Some(rest.skip(i + 1))
    } else {
        None
    }
}

/// Whether an optional string slice has the bytes that are expected of it.
pub open spec fn has_bytes(s: Option<&str>, expected: Option<Seq<u8>>) -> bool {
    match (s, expected) {
        (Some(s), Some(e)) => s.spec_bytes() == e,
        (None, None) => true,
        _ => false,
    }
}

/// The first `://` is one, and there is none before it.
pub proof fn lemma_first_separator(s: Seq<u8>, from: int)
    requires
        0 <= from <= s.len(),
    ensures
        match first_separator(s, from) {
            Some(i) => from <= i && separator_at(s, i) && forall|j: int| from <= j < i ==> !separator_at(s, j),
            None => forall|j: int| from <= j ==> !separator_at(s, j),
        },
    decreases s.len() - from,
{
    if from + 3 <= s.len() && !separator_at(s, from) {
        lemma_first_separator(s, from + 1);
    }
}

/// An index of an ASCII byte, and the one after it, are character boundaries.
proof fn lemma_ascii_boundary(s: Seq<u8>, i: int)
    requires
        valid_utf8(s),
        0 <= i < s.len(),
        s[i] < 0x80,
    ensures
        is_char_boundary(s, i),
        is_char_boundary(s, i + 1),
{
    is_char_boundary_iff_is_leading_byte(s, i);
    let b = s[i];
    assert(is_leading_byte_width_1(b));
    valid_utf8_split(s, i);
    let tail = s.subrange(i, s.len() as int);
    assert(tail[0] == b);
    reveal_with_fuel(is_char_boundary, 3);
    assert(is_char_boundary(tail, 1)) by {
        is_char_boundary_start_end_of_seq(pop_first_scalar(tail));
    }
    if i + 1 < s.len() {
        is_char_boundary_iff_not_is_continuation_byte(tail, 1);
        is_char_boundary_iff_not_is_continuation_byte(s, i + 1);
        assert(tail[1] == s[i + 1]);
    } else {
        is_char_boundary_start_end_of_seq(s);
    }
}

/// Between ASCII bytes every index is a character boundary.
pub proof fn lemma_ascii_boundaries(s: Seq<u8>)
    requires
        valid_utf8(s),
        forall|i: int| 0 <= i < s.len() ==> #[trigger] s[i] < 0x80,
    ensures
        forall|i: int| 0 <= i <= s.len() ==> #[trigger] is_char_boundary(s, i),
{
    assert forall|i: int| 0 <= i <= s.len() implies #[trigger] is_char_boundary(s, i) by {
        if i < s.len() {
            lemma_ascii_boundary(s, i);
        } else {
            is_char_boundary_start_end_of_seq(s);
        }
    }
}

/// A boundary of the whole is one of what follows an earlier boundary.
proof fn lemma_boundary_of_tail(s: Seq<u8>, from: int, to: int)
    requires
        valid_utf8(s),
        is_char_boundary(s, from),
        is_char_boundary(s, to),
        0 <= from <= to <= s.len(),
    ensures
        valid_utf8(s.subrange(from, s.len() as int)),
        is_char_boundary(s.subrange(from, s.len() as int), to - from),
{
    valid_utf8_split(s, from);
    let tail = s.subrange(from, s.len() as int);
    if to < s.len() {
        is_char_boundary_iff_not_is_continuation_byte(s, to);
        is_char_boundary_iff_not_is_continuation_byte(tail, to - from);
        assert(tail[to - from] == s[to]);
    } else {
        is_char_boundary_start_end_of_seq(tail);
    }
}

/// The part of `s` from byte `from` up to byte `to`.
fn str_part(s: &str, from: usize, to: usize) -> (r: &str)
    requires
        is_char_boundary(s.spec_bytes(), from as int),
        is_char_boundary(s.spec_bytes(), to as int),
        from <= to,
    ensures
        r.spec_bytes() == s.spec_bytes().subrange(from as int, to as int),
{
    proof {
        encode_utf8_valid_utf8(s@);
        lemma_boundary_of_tail(s.spec_bytes(), from as int, to as int);
    }
    let (_, tail) = s.split_at(from);
    let (part, _) = tail.split_at(to - from);
    assert(part.spec_bytes() =~= s.spec_bytes().subrange(from as int, to as int));
    part
}

/// The part of `s` from byte `from` on.
fn str_tail(s: &str, from: usize) -> (r: &str)
    requires
        is_char_boundary(s.spec_bytes(), from as int),
    ensures
        r.spec_bytes() == s.spec_bytes().skip(from as int),
{
    let (_, tail) = s.split_at(from);
    assert(tail.spec_bytes() =~= s.spec_bytes().skip(from as int));
    tail
}

/// Where the first `://` stands.
fn find_separator(s: &[u8]) -> (r: Option<usize>)
    ensures
        match r {
            Some(i) => first_separator(s@, 0) == Some(i as int) && i + 3 <= s@.len() <= usize::MAX,
            None => first_separator(s@, 0) is None,
        },
{
    let mut i: usize = 0;
    while s.len() - i >= 3
        invariant
            i <= s@.len(),
            first_separator(s@, 0) == first_separator(s@, i as int),
        decreases s@.len() - i,
    {
        if s[i] == COLON && s[i + 1] == SLASH && s[i + 2] == SLASH {
            return Some(i);
        }
        i = i + 1;
    }
    None
}

/// Where the first `?` stands, or the length.
fn find_question(s: &[u8]) -> (r: usize)
    ensures
        r == bytes::first_index(s@, QUESTION),
        r <= s@.len(),
        r < s@.len() ==> s@[r as int] == QUESTION,
{
    let mut i: usize = 0;
    while i < s.len() && s[i] != QUESTION
        invariant
            i <= s@.len(),
            bytes::first_index(s@, QUESTION) == bytes::run_end(s@, i as int, bytes::other_than(QUESTION)),
        decreases s@.len() - i,
    {
        i = i + 1;
    }
    i
}

/// Where the first `/` or `?` stands, or the length.
fn find_slash_or_question(s: &[u8]) -> (r: usize)
    ensures
        r == bytes::run_end(s@, 0, neither_slash_nor_question()),
        r <= s@.len(),
        r < s@.len() ==> s@[r as int] < 0x80,
{
    let mut i: usize = 0;
    while i < s.len() && s[i] != SLASH && s[i] != QUESTION
        invariant
            i <= s@.len(),
            bytes::run_end(s@, 0, neither_slash_nor_question()) == bytes::run_end(
                s@,
                i as int,
                neither_slash_nor_question(),
            ),
        decreases s@.len() - i,
    {
        i = i + 1;
    }
    i
}

/// A request target, with the byte range of its path.
#[derive(Debug, Clone, PartialEq, Eq)]
pub struct RequestUri<'a> {
    full: &'a str,
    path_i_start: usize,
    path_i_end: usize,
}

/// A request target by its bytes, with the range of its path.
pub struct TargetView {
    pub bytes: Seq<u8>,
    pub path_start: int,
    pub path_end: int,
}

impl<'a> View for RequestUri<'a> {
    type V = TargetView;

    open spec fn view(&self) -> TargetView {
        TargetView { bytes: self.bytes(), path_start: self.path_start(), path_end: self.path_end() }
    }
}

impl<'a> RequestUri<'a> {
    /// The characters of the whole target.
    pub closed spec fn text(&self) -> Seq<char> {
        self.full@
    }

    /// The bytes of the whole target.
    pub open spec fn bytes(&self) -> Seq<u8> {
        encode_utf8(self.text())
    }

    pub closed spec fn path_start(&self) -> int {
        self.path_i_start as int
    }

    pub closed spec fn path_end(&self) -> int {
        self.path_i_end as int
    }

    /// Whether the range of the path lies within the target, between characters of it.
    pub open spec fn path_in_range(&self) -> bool {
        &&& is_char_boundary(self.bytes(), self.path_start())
        &&& is_char_boundary(self.bytes(), self.path_end())
        &&& self.path_start() <= self.path_end()
    }

    pub fn new(uri: &'a str, path_i_start: usize, path_i_end: usize) -> (r: Self)
        ensures
            r.text() == uri@,
            r.path_start() == path_i_start,
            r.path_end() == path_i_end,
    {
        RequestUri { full: uri, path_i_start, path_i_end }
    }

    pub fn as_str(&self) -> (r: &str)
        ensures
            r@ == self.text(),
    {
        self.full
    }

    /// The whole target as a string.
    pub fn to_string(&self) -> (r: String)
        ensures
            r@ == self.text(),
    {
        self.full.to_owned()
    }

    pub fn scheme(&self) -> (r: Option<&str>)
        ensures
            has_bytes(r, scheme_of(self.bytes())),
    {
        proof {
            encode_utf8_valid_utf8(self.text());
            is_char_boundary_start_end_of_seq(self.bytes());
            lemma_first_separator(self.bytes(), 0);
        }
        match find_separator(self.full.as_bytes()) {
            Some(i) => {
                proof {
                    lemma_ascii_boundary(self.bytes(), i as int);
                    assert(self.bytes().take(i as int) =~= self.bytes().subrange(0, i as int));
                }
                Some(str_part(self.full, 0, i))
            },
            None => None,
        }
    }

    pub fn authority(&self) -> (r: Option<&str>)
        requires
            first_separator(self.bytes(), 0) matches Some(i) ==> self.path_start() == 0 || (i + 3
                <= self.path_start() && is_char_boundary(self.bytes(), self.path_start())),
        ensures
            has_bytes(r, authority_of(self.bytes(), self.path_start())),
    {
        proof {
            encode_utf8_valid_utf8(self.text());
            is_char_boundary_start_end_of_seq(self.bytes());
            lemma_first_separator(self.bytes(), 0);
        }
        let all = self.full.as_bytes();
        match find_separator(all) {
            Some(scheme_i) => {
                let start: usize = scheme_i + 3;
                proof {
                    lemma_ascii_boundary(self.bytes(), scheme_i + 2);
                }
                if self.path_i_start == 0 {
                    let rest = str_tail(self.full, start);
                    let end: usize = find_question(rest.as_bytes());
                    proof {
                        encode_utf8_valid_utf8(rest@);
                        is_char_boundary_start_end_of_seq(rest.spec_bytes());
                        if end < rest.spec_bytes().len() {
                            lemma_ascii_boundary(rest.spec_bytes(), end as int);
                        }
                        assert(rest.spec_bytes().take(end as int) =~= rest.spec_bytes().subrange(0, end as int));
                    }
                    Some(str_part(rest, 0, end))
                } else {
                    Some(str_part(self.full, start, self.path_i_start))
                }
            },
            None => if all.len() > 0 && all[0] == SLASH {
                None
            } else {
                let end: usize = find_slash_or_question(all);
                proof {
                    if end < all@.len() {
                        lemma_ascii_boundary(self.bytes(), end as int);
                    }
                    assert(self.bytes().take(end as int) =~= self.bytes().subrange(0, end as int));
                }
                Some(str_part(self.full, 0, end))
            },
        }
    }

    pub fn path(&self) -> (r: &str)
        requires
            self.path_in_range(),
        ensures
            r.spec_bytes() == self.bytes().subrange(self.path_start(), self.path_end()),
    {
        str_part(self.full, self.path_i_start, self.path_i_end)
    }

    pub fn path_and_query(&self) -> (r: &str)
        requires
            self.path_end() != 0 ==> is_char_boundary(self.bytes(), self.path_start()),
        ensures
            r.spec_bytes() == path_and_query_of(self.bytes(), self.path_start(), self.path_end()),
    {
        proof {
            encode_utf8_valid_utf8(self.text());
            lemma_first_separator(self.bytes(), 0);
        }
        if self.path_i_end != 0 {
            return str_tail(self.full, self.path_i_start);
        }
        if let Some(scheme_i) = find_separator(self.full.as_bytes()) {
            proof {
                lemma_ascii_boundary(self.bytes(), scheme_i + 2);
            }
            let rest = str_tail(self.full, scheme_i + 3);
            let q: usize = find_question(rest.as_bytes());
            proof {
                encode_utf8_valid_utf8(rest@);
                is_char_boundary_start_end_of_seq(rest.spec_bytes());
                if q < rest.spec_bytes().len() {
                    lemma_ascii_boundary(rest.spec_bytes(), q as int);
                }
            }
            return str_tail(rest, q);
        }
        proof {
            reveal_strlit("");
            bytes::lemma_ascii_bytes("");
            assert(bytes::ascii(""@) =~= Seq::empty());
        }
        ""
    }

    pub fn query(&self) -> (r: Option<&str>)
        requires
            is_char_boundary(self.bytes(), self.path_end()),
        ensures
            has_bytes(r, query_of(self.bytes(), self.path_end())),
    {
        proof {
            encode_utf8_valid_utf8(self.text());
        }
        let rest = str_tail(self.full, self.path_i_end);
        let rest_bytes = rest.as_bytes();
        let q: usize = find_question(rest_bytes);
        if q < rest_bytes.len() {
            proof {
                encode_utf8_valid_utf8(rest@);
                lemma_ascii_boundary(rest.spec_bytes(), q as int);
            }
            Some(str_tail(rest, q + 1))
        } else {
            None
        }
    }
}

} // verus!
