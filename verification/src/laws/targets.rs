//! Request targets as they are parsed.

use crate::bytes;
use crate::http::request_uri;
use crate::http::request_uri::TargetView;
use crate::laws::words;
use crate::parser::request;
use crate::parser::HttpParsingError;
use vstd::prelude::*;
use vstd::string::*;

verus! {

/// No input is an unfinished target, and `*` is one of its own whatever follows.
pub proof fn law_shortest_targets(rest: Seq<u8>)
    ensures
        request::target(Seq::empty()) == Err::<(TargetView, int), HttpParsingError>(HttpParsingError::UnexpectedEof),
        request::target(seq![0x2Au8] + rest) == Ok::<(TargetView, int), HttpParsingError>(
            (TargetView { bytes: seq![0x2Au8], path_start: 0, path_end: 1 }, 1),
        ),
{
    reveal_strlit("*");
    assert((seq![0x2Au8] + rest)[0] == 0x2A);
    assert(bytes::ascii("*"@) =~= seq![0x2Au8]);
}

/// A path that begins with a slash and is made of letters, digits and the marks
/// `-._~:/#[]@!$&'()*+,;=%` is a target: it ends with the space behind it, which is taken along.
/// Without anything behind it, it has not ended, and a byte that is of no target is malformed.
pub proof fn law_path(path: Seq<u8>, next: u8, rest: Seq<u8>)
    requires
        path.len() > 0 && path[0] == 0x2F,
        forall|i: int|
            0 <= i < path.len() ==> #[trigger] path[i] == 0x21 || 0x23 <= path[i] <= 0x3B || path[i] == 0x3D || 0x40
                <= path[i] <= 0x5B || path[i] == 0x5D || path[i] == 0x5F || 0x61 <= path[i] <= 0x7A || path[i] == 0x7E,
        !(next == 0x21 || 0x23 <= next <= 0x3B || next == 0x3D || 0x3F <= next <= 0x5B || next == 0x5D || next == 0x5F
            || 0x61 <= next <= 0x7A || next == 0x7E),
    ensures
        request::target(path) == Err::<(TargetView, int), HttpParsingError>(HttpParsingError::UnexpectedEof),
        request::target(path + seq![next] + rest) == if next == 0x20 {
            Ok::<(TargetView, int), HttpParsingError>(
                (
                    TargetView { bytes: path, path_start: 0, path_end: path.len() as int },
                    path.len() + 1int,
                ),
            )
        } else {
            Err(HttpParsingError::MalformedStatusLine)
        },
{
    let buf = path + seq![next] + rest;
    let end = path.len() as int;
    words::law_target_bytes(next);
    assert(!request::path_bytes()(next));
    assert forall|i: int| 0 <= i < end implies request::path_bytes()(#[trigger] path[i]) by {
        words::law_target_bytes(path[i]);
    }
    assert forall|i: int| 0 <= i < end implies request::path_bytes()(#[trigger] buf[i]) by {
        assert(buf[i] == path[i]);
    }
    bytes::lemma_run_end(path, 0, request::path_bytes());
    assert(buf[end] == next && buf[0] == path[0]);
    bytes::lemma_run_end_at(buf, 0, end, request::path_bytes());
    assert(buf.take(end) =~= path);
}

/// The same with a query, which begins behind the first `?` and may hold further ones.
pub proof fn law_path_and_query(path: Seq<u8>, query: Seq<u8>, next: u8, rest: Seq<u8>)
    requires
        path.len() > 0 && path[0] == 0x2F,
        forall|i: int|
            0 <= i < path.len() ==> #[trigger] path[i] == 0x21 || 0x23 <= path[i] <= 0x3B || path[i] == 0x3D || 0x40
                <= path[i] <= 0x5B || path[i] == 0x5D || path[i] == 0x5F || 0x61 <= path[i] <= 0x7A || path[i] == 0x7E,
        forall|i: int|
            0 <= i < query.len() ==> #[trigger] query[i] == 0x21 || 0x23 <= query[i] <= 0x3B || query[i] == 0x3D || 0x3F
                <= query[i] <= 0x5B || query[i] == 0x5D || query[i] == 0x5F || 0x61 <= query[i] <= 0x7A || query[i]
                == 0x7E,
        !(next == 0x21 || 0x23 <= next <= 0x3B || next == 0x3D || 0x3F <= next <= 0x5B || next == 0x5D || next == 0x5F
            || 0x61 <= next <= 0x7A || next == 0x7E),
    ensures
        request::target(path + seq![0x3Fu8] + query) == Err::<(TargetView, int), HttpParsingError>(
            HttpParsingError::UnexpectedEof,
        ),
        request::target(path + seq![0x3Fu8] + query + seq![next] + rest) == if next == 0x20 {
            Ok::<(TargetView, int), HttpParsingError>(
                (
                    TargetView { bytes: path + seq![0x3Fu8] + query, path_start: 0, path_end: path.len() as int },
                    path.len() + query.len() + 2int,
                ),
            )
        } else {
            Err(HttpParsingError::MalformedStatusLine)
        },
{
    let full = path + seq![0x3Fu8] + query;
    let buf = full + seq![next] + rest;
    lemma_path_then_query(path, query, full);
    assert forall|i: int| 0 <= i < full.len() implies buf[i] == #[trigger] full[i] by {}
    assert(buf =~= path + seq![0x3Fu8] + (query + seq![next] + rest));
    lemma_path_end(path, query + seq![next] + rest, buf);
    let start = path.len() + 1int;
    let end = full.len() as int;
    words::law_target_bytes(next);
    assert forall|i: int| start <= i < end implies request::uri_bytes()(#[trigger] buf[i]) by {
        assert(buf[i] == full[i]);
        assert(full[i] == query[i - start]);
        words::law_target_bytes(query[i - start]);
    }
    assert(buf[end] == next);
    bytes::lemma_run_end_at(buf, start, end, request::uri_bytes());
    assert(buf.take(end) =~= full);
    assert(buf[0] == path[0]);
}

/// The run of path bytes ends at the first `?`.
proof fn lemma_path_end(path: Seq<u8>, behind: Seq<u8>, buf: Seq<u8>)
    requires
        buf == path + seq![0x3Fu8] + behind,
        forall|i: int|
            0 <= i < path.len() ==> #[trigger] path[i] == 0x21 || 0x23 <= path[i] <= 0x3B || path[i] == 0x3D || 0x40
                <= path[i] <= 0x5B || path[i] == 0x5D || path[i] == 0x5F || 0x61 <= path[i] <= 0x7A || path[i] == 0x7E,
    ensures
        bytes::run_end(buf, 0, request::path_bytes()) == path.len(),
        buf[path.len() as int] == 0x3F,
{
    assert forall|i: int| 0 <= i < path.len() implies request::path_bytes()(#[trigger] buf[i]) by {
        assert(buf[i] == path[i]);
        words::law_target_bytes(path[i]);
    }
    words::law_target_bytes(0x3F);
    bytes::lemma_run_end_at(buf, 0, path.len() as int, request::path_bytes());
}

proof fn lemma_path_then_query(path: Seq<u8>, query: Seq<u8>, full: Seq<u8>)
    requires
        full == path + seq![0x3Fu8] + query,
        path.len() > 0 && path[0] == 0x2F,
        forall|i: int|
            0 <= i < path.len() ==> #[trigger] path[i] == 0x21 || 0x23 <= path[i] <= 0x3B || path[i] == 0x3D || 0x40
                <= path[i] <= 0x5B || path[i] == 0x5D || path[i] == 0x5F || 0x61 <= path[i] <= 0x7A || path[i] == 0x7E,
        forall|i: int|
            0 <= i < query.len() ==> #[trigger] query[i] == 0x21 || 0x23 <= query[i] <= 0x3B || query[i] == 0x3D || 0x3F
                <= query[i] <= 0x5B || query[i] == 0x5D || query[i] == 0x5F || 0x61 <= query[i] <= 0x7A || query[i]
                == 0x7E,
    ensures
        request::target(full) == Err::<(TargetView, int), HttpParsingError>(HttpParsingError::UnexpectedEof),
{
    lemma_path_end(path, query, full);
    let start = path.len() + 1int;
    bytes::lemma_run_end(full, start, request::uri_bytes());
    let end = bytes::run_end(full, start, request::uri_bytes());
    if end < full.len() {
        assert(full[end] == query[end - start]);
        words::law_target_bytes(query[end - start]);
    }
    assert(full[0] == path[0]);
}

/// What stands before a path, an authority or a scheme, `://` and an authority, only moves the path:
/// the target is parsed as the path alone is, the range of its path behind what stands before it.
/// The slashes before the path are those of a `://`, and the one that it begins with is not.
pub proof fn law_before_path(before: Seq<u8>, path: Seq<u8>, s: Seq<u8>)
    requires
        s == before + path,
        before.len() > 0 && before[0] != 0x2F && before[0] != 0x2A,
        path.len() > 0 && path[0] == 0x2F,
        forall|i: int| 0 <= i < before.len() ==> request::is_uri_byte(#[trigger] before[i]),
        forall|i: int|
            0 <= i < before.len() && #[trigger] before[i] == 0x2F ==> (1 <= i && i + 1 < s.len() && s[i - 1] == 0x3A
                && s[i + 1] == 0x2F) || (2 <= i && s[i - 2] == 0x3A && s[i - 1] == 0x2F),
        !(path.len() > 1 && before.last() == 0x3A && path[1] == 0x2F),
        !(before.len() > 1 && before[before.len() - 2] == 0x3A && before.last() == 0x2F),
    ensures
        request::target(s) == match request::target(path) {
            Ok((v, n)) => Ok::<(TargetView, int), HttpParsingError>(
                (
                    TargetView {
                        bytes: before + v.bytes,
                        path_start: before.len() + v.path_start,
                        path_end: before.len() + v.path_end,
                    },
                    before.len() + n,
                ),
            ),
            Err(e) => Err(e),
        },
{
    let k = before.len() as int;
    assert forall|i: int| 0 <= i < k implies request::is_uri_byte(#[trigger] s[i]) && (s[i] == 0x2F
        ==> request::in_separator(s, i)) by {
        assert(s[i] == before[i]);
    }
    assert(s[k] == path[0]);
    assert(s[k - 1] == before.last());
    assert(!request::in_separator(s, k)) by {
        if path.len() > 1 {
            assert(s[k + 1] == path[1]);
        }
        if k > 1 {
            assert(s[k - 2] == before[k - 2]);
        }
    }
    crate::parser::format::lemma_authority_end_at(s, 0, k);
    assert(s[0] == before[0]);
    lemma_moved_path(before, path, s);
}

/// The run of path bytes and the query behind it move with the path.
proof fn lemma_moved_path(before: Seq<u8>, path: Seq<u8>, s: Seq<u8>)
    requires
        s == before + path,
    ensures
        request::target_with_path(s, before.len() as int) == match request::target_with_path(path, 0) {
            Ok((v, n)) => Ok::<(TargetView, int), HttpParsingError>(
                (
                    TargetView {
                        bytes: before + v.bytes,
                        path_start: before.len() + v.path_start,
                        path_end: before.len() + v.path_end,
                    },
                    before.len() + n,
                ),
            ),
            Err(e) => Err(e),
        },
{
    let k = before.len() as int;
    assert(s.skip(k) =~= path);
    bytes::lemma_run_end_tail(s, k, k, request::path_bytes());
    bytes::lemma_run_end(path, 0, request::path_bytes());
    let path_end = bytes::run_end(path, 0, request::path_bytes());
    if path_end < path.len() {
        assert(s[k + path_end] == path[path_end]);
        bytes::lemma_run_end_tail(s, k, k + path_end + 1, request::uri_bytes());
        bytes::lemma_run_end(path, path_end + 1, request::uri_bytes());
        let end = request::target_end(path, path_end);
        if end < path.len() {
            assert(s[k + end] == path[end]);
            assert(s.take(k + end) =~= before + path.take(end));
        }
    }
}

/// A target without a path, its every slash that of a `://`, ends with the space behind it. Without
/// anything behind it, it is malformed, and so is a byte that is of no target.
pub proof fn law_target_without_path(full: Seq<u8>, next: u8, rest: Seq<u8>)
    requires
        full.len() > 0 ==> full[0] != 0x2F && full[0] != 0x2A,
        forall|i: int| 0 <= i < full.len() ==> request::is_uri_byte(#[trigger] full[i]),
        forall|i: int|
            0 <= i < full.len() && #[trigger] full[i] == 0x2F ==> (1 <= i && i + 1 < full.len() && full[i - 1] == 0x3A
                && full[i + 1] == 0x2F) || (2 <= i && full[i - 2] == 0x3A && full[i - 1] == 0x2F),
        !request::is_uri_byte(next),
    ensures
        full.len() > 0 ==> request::target(full) == Err::<(TargetView, int), HttpParsingError>(
            HttpParsingError::MalformedStatusLine,
        ),
        request::target(full + seq![next] + rest) == if next == 0x20 {
            Ok::<(TargetView, int), HttpParsingError>(
                (TargetView { bytes: full, path_start: 0, path_end: 0 }, full.len() + 1int),
            )
        } else {
            Err(HttpParsingError::MalformedStatusLine)
        },
{
    let buf = full + seq![next] + rest;
    let end = full.len() as int;
    request::lemma_uri_bytes();
    assert forall|i: int| 0 <= i < end implies request::is_uri_byte(#[trigger] buf[i]) && (buf[i] == 0x2F
        ==> request::in_separator(buf, i)) by {
        assert(buf[i] == full[i]);
        if full[i] == 0x2F {
            if 1 <= i && i + 1 < full.len() && full[i - 1] == 0x3A && full[i + 1] == 0x2F {
                assert(request_uri::separator_at(buf, i - 1));
            } else {
                assert(request_uri::separator_at(buf, i - 2));
            }
        }
    }
    assert(buf[end] == next);
    assert(end > 0 ==> buf[0] == full[0]);
    crate::parser::format::lemma_authority_end_at(buf, 0, end);
    assert(buf.take(end) =~= full);
    assert forall|i: int| 0 <= i < end implies request::is_uri_byte(#[trigger] full[i]) && (full[i] == 0x2F
        ==> request::in_separator(full, i)) by {
        if full[i] == 0x2F {
            if 1 <= i && i + 1 < full.len() && full[i - 1] == 0x3A && full[i + 1] == 0x2F {
                assert(request_uri::separator_at(full, i - 1));
            } else {
                assert(request_uri::separator_at(full, i - 2));
            }
        }
    }
    lemma_authority_to_the_end(full, 0);
}

proof fn lemma_authority_to_the_end(full: Seq<u8>, from: int)
    requires
        0 <= from <= full.len(),
        forall|i: int|
            from <= i < full.len() ==> request::is_uri_byte(#[trigger] full[i]) && (full[i] == 0x2F
                ==> request::in_separator(full, i)),
    ensures
        request::authority_end(full, from) == full.len(),
    decreases full.len() - from,
{
    if from < full.len() {
        assert(request::is_uri_byte(full[from]));
        lemma_authority_to_the_end(full, from + 1);
    }
}

} // verus!
