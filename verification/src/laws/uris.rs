//! The parts that a request target is taken apart into.

use crate::bytes;
use crate::http::request_uri;
use crate::http::request_uri::{RequestUri, TargetView};
use vstd::prelude::*;
use vstd::string::*;
use vstd::utf8::*;

verus! {

/// The scheme is what stands before the first `://`; without a `://` there is none.
pub proof fn law_scheme(full: Seq<u8>)
    ensures
        match request_uri::scheme_of(full) {
            Some(scheme) => {
                let i = scheme.len() as int;
                &&& i + 3 <= full.len() && scheme == full.take(i)
                &&& full[i] == 0x3A && full[i + 1] == 0x2F && full[i + 2] == 0x2F
                &&& forall|j: int| 0 <= j < i ==> !(#[trigger] full[j] == 0x3A && full[j + 1] == 0x2F && full[j + 2] == 0x2F)
            },
            None => forall|j: int|
                0 <= j && j + 3 <= full.len() ==> !(#[trigger] full[j] == 0x3A && full[j + 1] == 0x2F && full[j + 2] == 0x2F),
        },
{
    request_uri::lemma_first_separator(full, 0);
    match request_uri::first_separator(full, 0) {
        Some(i) => {
            assert forall|j: int| 0 <= j < i implies !(#[trigger] full[j] == 0x3A && full[j + 1] == 0x2F && full[j + 2]
                == 0x2F) by {
                assert(!request_uri::separator_at(full, j));
            }
        },
        None => {
            assert forall|j: int| 0 <= j && j + 3 <= full.len() implies !(#[trigger] full[j] == 0x3A && full[j + 1]
                == 0x2F && full[j + 2] == 0x2F) by {
                assert(!request_uri::separator_at(full, j));
            }
        },
    }
}

/// Without a `://`, a target that begins with a slash has no scheme and no authority, whether or not
/// it has a query. Any other one has, as its authority, its longest beginning without `/` and `?`.
pub proof fn law_authority_without_scheme(full: Seq<u8>, path_start: int)
    requires
        forall|j: int|
            0 <= j && j + 3 <= full.len() ==> !(#[trigger] full[j] == 0x3A && full[j + 1] == 0x2F && full[j + 2] == 0x2F),
    ensures
        request_uri::scheme_of(full) is None,
        full.len() > 0 && full[0] == 0x2F ==> request_uri::authority_of(full, path_start) is None,
        !(full.len() > 0 && full[0] == 0x2F) ==> ({
            let authority = request_uri::authority_of(full, path_start)->Some_0;
            let n = authority.len() as int;
            &&& request_uri::authority_of(full, path_start) is Some
            &&& n <= full.len() && authority == full.take(n)
            &&& forall|i: int| 0 <= i < n ==> #[trigger] full[i] != 0x2F && full[i] != 0x3F
            &&& n < full.len() ==> full[n] == 0x2F || full[n] == 0x3F
        }),
{
    request_uri::lemma_first_separator(full, 0);
    if let Some(i) = request_uri::first_separator(full, 0) {
        assert(full[i] == 0x3A);
    }
    bytes::lemma_run_end(full, 0, request_uri::neither_slash_nor_question());
    let n = bytes::run_end(full, 0, request_uri::neither_slash_nor_question());
    assert forall|i: int| 0 <= i < n implies #[trigger] full[i] != 0x2F && full[i] != 0x3F by {
        assert(request_uri::neither_slash_nor_question()(full[i]));
    }
}

/// Behind the first `://`, at index `i`, stands the authority: up to the path where that begins
/// behind it, and else, for a path start of 0, up to the first `?` or the end.
pub proof fn law_authority_with_scheme(full: Seq<u8>, i: int, path_start: int)
    requires
        0 <= i && i + 3 <= full.len(),
        full[i] == 0x3A && full[i + 1] == 0x2F && full[i + 2] == 0x2F,
        forall|j: int| 0 <= j < i ==> !(#[trigger] full[j] == 0x3A && full[j + 1] == 0x2F && full[j + 2] == 0x2F),
        path_start == 0 || i + 3 <= path_start <= full.len(),
    ensures
        request_uri::scheme_of(full) == Some(full.take(i)),
        request_uri::authority_of(full, path_start) is Some,
        ({
            let authority = request_uri::authority_of(full, path_start)->Some_0;
            let end = i + 3 + authority.len();
            &&& end <= full.len() && authority == full.subrange(i + 3, end)
            &&& path_start != 0 ==> end == path_start
            &&& path_start == 0 ==> (forall|j: int| i + 3 <= j < end ==> #[trigger] full[j] != 0x3F) && (end < full.len()
                ==> full[end] == 0x3F)
        }),
{
    lemma_first_is(full, i);
    let rest = full.skip(i + 3);
    bytes::lemma_run_end(rest, 0, bytes::other_than(0x3F));
    let q = bytes::first_index(rest, 0x3F);
    assert(rest.take(q) =~= full.subrange(i + 3, i + 3 + q));
    assert forall|j: int| i + 3 <= j < i + 3 + q implies #[trigger] full[j] != 0x3F by {
        assert(rest[j - i - 3] == full[j]);
    }
    if q < rest.len() {
        assert(rest[q] == full[i + 3 + q]);
    }
}

proof fn lemma_first_is(full: Seq<u8>, i: int)
    requires
        0 <= i && i + 3 <= full.len(),
        full[i] == 0x3A && full[i + 1] == 0x2F && full[i + 2] == 0x2F,
        forall|j: int| 0 <= j < i ==> !(#[trigger] full[j] == 0x3A && full[j + 1] == 0x2F && full[j + 2] == 0x2F),
    ensures
        request_uri::first_separator(full, 0) == Some(i),
{
    request_uri::lemma_first_separator(full, 0);
    assert(request_uri::separator_at(full, i));
    if let Some(k) = request_uri::first_separator(full, 0) {
        if k < i {
            assert(full[k] == 0x3A);
        }
        if i < k {
            assert(!request_uri::separator_at(full, i));
        }
    }
}

/// With a path, the path and query are all from its start on. Without one, that is with a path end of
/// 0, they are nothing, or what begins at the first `?` behind the first `://`.
pub proof fn law_path_and_query_of(full: Seq<u8>, i: int, path_start: int, path_end: int)
    requires
        0 <= path_start <= full.len(),
        0 <= i && i + 3 <= full.len(),
        full[i] == 0x3A && full[i + 1] == 0x2F && full[i + 2] == 0x2F,
        forall|j: int| 0 <= j < i ==> !(#[trigger] full[j] == 0x3A && full[j + 1] == 0x2F && full[j + 2] == 0x2F),
    ensures
        path_end != 0 ==> request_uri::path_and_query_of(full, path_start, path_end) == full.subrange(
            path_start,
            full.len() as int,
        ),
        path_end == 0 ==> ({
            let part = request_uri::path_and_query_of(full, path_start, path_end);
            let q = full.len() - part.len();
            &&& i + 3 <= q && part == full.subrange(q, full.len() as int)
            &&& part.len() > 0 ==> part[0] == 0x3F
            &&& forall|j: int| i + 3 <= j < q ==> #[trigger] full[j] != 0x3F
        }),
{
    lemma_first_is(full, i);
    assert(full.skip(path_start) =~= full.subrange(path_start, full.len() as int));
    let rest = full.skip(i + 3);
    bytes::lemma_run_end(rest, 0, bytes::other_than(0x3F));
    let q = bytes::first_index(rest, 0x3F);
    assert(rest.skip(q) =~= full.subrange(i + 3 + q, full.len() as int));
    assert forall|j: int| i + 3 <= j < i + 3 + q implies #[trigger] full[j] != 0x3F by {
        assert(rest[j - i - 3] == full[j]);
    }
}

/// Without a `://`, the path and query are all from the path's start on, or nothing without a path.
pub proof fn law_path_and_query_without_scheme(full: Seq<u8>, path_start: int, path_end: int)
    requires
        0 <= path_start <= full.len(),
        forall|j: int|
            0 <= j && j + 3 <= full.len() ==> !(#[trigger] full[j] == 0x3A && full[j + 1] == 0x2F && full[j + 2] == 0x2F),
    ensures
        request_uri::path_and_query_of(full, path_start, path_end) == if path_end != 0 {
            full.subrange(path_start, full.len() as int)
        } else {
            Seq::empty()
        },
{
    request_uri::lemma_first_separator(full, 0);
    if let Some(i) = request_uri::first_separator(full, 0) {
        assert(full[i] == 0x3A);
    }
    assert(full.skip(path_start) =~= full.subrange(path_start, full.len() as int));
}

/// The query is all behind the first `?` from the end of the path on; without one there is none.
pub proof fn law_query(full: Seq<u8>, path_end: int)
    requires
        0 <= path_end <= full.len(),
    ensures
        match request_uri::query_of(full, path_end) {
            Some(query) => {
                let q = full.len() - query.len() - 1;
                &&& path_end <= q && full[q] == 0x3F && query == full.subrange(q + 1, full.len() as int)
                &&& forall|j: int| path_end <= j < q ==> #[trigger] full[j] != 0x3F
            },
            None => forall|j: int| path_end <= j < full.len() ==> #[trigger] full[j] != 0x3F,
        },
{
    let rest = full.skip(path_end);
    bytes::lemma_run_end(rest, 0, bytes::other_than(0x3F));
    let i = bytes::first_index(rest, 0x3F);
    assert forall|j: int| path_end <= j < path_end + i implies #[trigger] full[j] != 0x3F by {
        assert(rest[j - path_end] == full[j]);
    }
    if i < rest.len() {
        assert(rest[i] == full[path_end + i]);
        assert(rest.skip(i + 1) =~= full.subrange(path_end + i + 1, full.len() as int));
    }
}

/// A part that is given out has the bytes of the part that is there, and none is given out only
/// where none is there.
pub proof fn law_parts_have_their_bytes(part: Option<&str>, expected: Option<Seq<u8>>)
    requires
        request_uri::has_bytes(part, expected),
    ensures
        part is Some <==> expected is Some,
        part is Some ==> part->Some_0.spec_bytes() == expected->Some_0,
{
}

/// The bytes of a target's path are those from its start up to its end, and the range of a path is in
/// order if both lie between characters of the target, the start not behind the end.
pub proof fn law_path_range(v: TargetView, uri: RequestUri<'_>)
    requires
        0 <= v.path_start <= v.path_end <= v.bytes.len(),
    ensures
        v.path().len() == v.path_end - v.path_start,
        forall|i: int| 0 <= i < v.path().len() ==> #[trigger] v.path()[i] == v.bytes[v.path_start + i],
        uri.path_in_range() <==> is_char_boundary(uri.bytes(), uri.path_start()) && is_char_boundary(
            uri.bytes(),
            uri.path_end(),
        ) && uri.path_start() <= uri.path_end(),
{
}

} // verus!
