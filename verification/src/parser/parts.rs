//! The parts that a parsed request target is made of.

use crate::bytes;
use crate::bytes::{ASTERISK, COLON, QUESTION, SLASH};
use crate::http::request_uri;
use crate::http::request_uri::TargetView;
use crate::parser::request;
use vstd::prelude::*;
use vstd::string::*;

verus! {

impl TargetView {
    /// The bytes of the path.
    pub open spec fn path(self) -> Seq<u8> {
        self.bytes.subrange(self.path_start, self.path_end)
    }

    /// The query behind a path with the mark before it, or nothing.
    pub open spec fn marked_query(self) -> Seq<u8> {
        match request_uri::query_of(self.bytes, self.path_end) {
            Some(query) => seq![QUESTION] + query,
            None => Seq::empty(),
        }
    }

    pub open spec fn path_and_query(self) -> Seq<u8> {
        request_uri::path_and_query_of(self.bytes, self.path_start, self.path_end)
    }
}

proof fn lemma_marked_query(v: TargetView)
    requires
        0 <= v.path_end <= v.bytes.len(),
        v.path_end < v.bytes.len() ==> v.bytes[v.path_end] == QUESTION,
    ensures
        v.marked_query() == v.bytes.skip(v.path_end),
{
    let rest = v.bytes.skip(v.path_end);
    if v.path_end < v.bytes.len() {
        assert(rest[0] == QUESTION);
        assert(bytes::first_index(rest, QUESTION) == 0);
        assert(seq![QUESTION] + rest.skip(1) =~= rest);
    } else {
        assert(rest =~= Seq::empty());
    }
}

/// A target that is parsed stands at the start of the input. It is made of target bytes, and the
/// range of its path lies within it. Where it has a path, that begins with a slash or is `*`, holds
/// no `?`, and what stands before it, the path and the query with its mark make up the whole.
pub proof fn law_target_parts(buf: Seq<u8>)
    requires
        request::target(buf) is Ok,
    ensures
        ({
            let v = request::target(buf)->Ok_0.0;
            &&& v.bytes.is_prefix_of(buf)
            &&& forall|i: int| 0 <= i < v.bytes.len() ==> request::is_uri_byte(#[trigger] v.bytes[i])
            &&& 0 <= v.path_start <= v.path_end <= v.bytes.len()
            &&& v.path_end != 0 ==> {
                &&& v.path_start < v.path_end
                &&& v.path()[0] == SLASH || v.path() == seq![ASTERISK]
                &&& forall|i: int| 0 <= i < v.path().len() ==> #[trigger] v.path()[i] != QUESTION
                &&& v.path_and_query() == v.path() + v.marked_query()
                &&& v.bytes == v.bytes.take(v.path_start) + v.path() + v.marked_query()
            }
        }),
{
    let v = request::target(buf)->Ok_0.0;
    request::lemma_uri_bytes();
    if buf[0] == ASTERISK {
        reveal_strlit("*");
        assert(v.bytes =~= seq![ASTERISK]);
        assert(v.path() =~= seq![ASTERISK]);
        assert(v.bytes =~= buf.take(1));
        lemma_marked_query(v);
        assert(v.path_and_query() =~= v.path() + v.marked_query());
        assert(v.bytes =~= v.bytes.take(v.path_start) + v.path() + v.marked_query());
    } else if buf[0] == SLASH {
        lemma_parts_with_path(buf, 0);
    } else {
        lemma_authority_bytes(buf, 0);
        let end = request::authority_end(buf, 0);
        if buf[end] == SLASH {
            lemma_parts_with_path(buf, end);
        }
    }
}

proof fn lemma_authority_bytes(buf: Seq<u8>, from: int)
    requires
        0 <= from <= buf.len(),
    ensures
        from <= request::authority_end(buf, from) <= buf.len(),
        forall|i: int| from <= i < request::authority_end(buf, from) ==> request::is_uri_byte(#[trigger] buf[i]),
    decreases buf.len() - from,
{
    if from < buf.len() {
        lemma_authority_bytes(buf, from + 1);
    }
}

proof fn lemma_parts_with_path(buf: Seq<u8>, path_start: int)
    requires
        0 <= path_start < buf.len(),
        buf[path_start] == SLASH,
        forall|i: int| 0 <= i < path_start ==> request::is_uri_byte(#[trigger] buf[i]),
        request::target_with_path(buf, path_start) is Ok,
    ensures
        ({
            let v = request::target_with_path(buf, path_start)->Ok_0.0;
            &&& v.path_start == path_start
            &&& v.bytes.is_prefix_of(buf)
            &&& forall|i: int| 0 <= i < v.bytes.len() ==> request::is_uri_byte(#[trigger] v.bytes[i])
            &&& path_start < v.path_end <= v.bytes.len()
            &&& v.path()[0] == SLASH
            &&& forall|i: int| 0 <= i < v.path().len() ==> #[trigger] v.path()[i] != QUESTION
            &&& v.path_and_query() == v.path() + v.marked_query()
            &&& v.bytes == v.bytes.take(v.path_start) + v.path() + v.marked_query()
        }),
{
    let v = request::target_with_path(buf, path_start)->Ok_0.0;
    request::lemma_uri_bytes();
    bytes::lemma_run_end(buf, path_start, request::path_bytes());
    let path_end = bytes::run_end(buf, path_start, request::path_bytes());
    if path_end < buf.len() && buf[path_end] == QUESTION {
        bytes::lemma_run_end(buf, path_end + 1, request::uri_bytes());
    }
    assert forall|i: int| 0 <= i < v.bytes.len() implies request::is_uri_byte(#[trigger] v.bytes[i]) by {
        if path_start <= i < path_end {
            assert(request::path_bytes()(buf[i]));
        } else if path_end < i {
            assert(request::uri_bytes()(buf[i]));
        }
    }
    assert forall|i: int| 0 <= i < v.path().len() implies #[trigger] v.path()[i] != QUESTION by {
        assert(request::path_bytes()(buf[path_start + i]));
    }
    lemma_marked_query(v);
    assert(v.path_and_query() =~= v.path() + v.marked_query());
    assert(v.bytes =~= v.bytes.take(v.path_start) + v.path() + v.marked_query());
}

/// A parsed target with a `://` before its path, or with one and no path, is its scheme, the `://`,
/// its authority and its path and query, one after the other.
pub proof fn law_absolute_target_parts(buf: Seq<u8>, i: int)
    requires
        request::target(buf) is Ok,
        request_uri::first_separator(request::target(buf)->Ok_0.0.bytes, 0) == Some(i),
        request::target(buf)->Ok_0.0.path_end == 0 || i < request::target(buf)->Ok_0.0.path_start,
    ensures
        ({
            let v = request::target(buf)->Ok_0.0;
            &&& v.path_start == 0 || i + 3 <= v.path_start
            &&& request_uri::scheme_of(v.bytes) is Some
            &&& request_uri::authority_of(v.bytes, v.path_start) is Some
            &&& v.bytes == request_uri::scheme_of(v.bytes)->Some_0 + seq![COLON, SLASH, SLASH]
                + request_uri::authority_of(v.bytes, v.path_start)->Some_0 + v.path_and_query()
        }),
{
    let v = request::target(buf)->Ok_0.0;
    law_target_parts(buf);
    request_uri::lemma_first_separator(v.bytes, 0);
    if v.path_end == 0 {
        let rest = v.bytes.skip(i + 3);
        bytes::lemma_run_end(rest, 0, bytes::other_than(QUESTION));
        let q = bytes::first_index(rest, QUESTION);
        assert(rest =~= rest.take(q) + rest.skip(q));
        assert(v.bytes =~= v.bytes.take(i) + seq![COLON, SLASH, SLASH] + rest.take(q) + rest.skip(q));
    } else {
        let start = v.path_start;
        assert(i + 3 <= start) by {
            lemma_path_start_outside_separator(buf, 0);
            assert(request::authority_end(buf, 0) == start);
            if start == i + 1 || start == i + 2 {
                assert(request_uri::separator_at(buf, i));
                assert(request::in_separator(buf, start));
                assert(false);
            }
        }
        assert(v.bytes =~= v.bytes.take(i) + seq![COLON, SLASH, SLASH] + v.bytes.subrange(i + 3, start)
            + v.bytes.skip(start));
    }
}

proof fn lemma_path_start_outside_separator(buf: Seq<u8>, from: int)
    requires
        0 <= from <= buf.len(),
    ensures
        ({
            let end = request::authority_end(buf, from);
            end < buf.len() && buf[end] == SLASH && request::is_uri_byte(SLASH) ==> !request::in_separator(buf, end)
        }),
    decreases buf.len() - from,
{
    if from < buf.len() {
        lemma_path_start_outside_separator(buf, from + 1);
    }
}

} // verus!
