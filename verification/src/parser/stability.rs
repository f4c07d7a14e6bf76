//! What the bytes behind a head, or the lack of them, have to do with how it is parsed.

use crate::bytes;
use crate::bytes::{ASTERISK, CR, LF, SLASH, SP};
use crate::http::headers::FieldView;
use crate::http::method::MethodView;
use crate::http::request_uri;
use crate::http::request_uri::TargetView;
use crate::parser;
use crate::parser::request;
use crate::parser::request::RequestView;
use crate::parser::response;
use crate::parser::response::ResponseView;
use crate::parser::HttpParsingError;
use vstd::prelude::*;
use vstd::string::*;

verus! {

/// What follows, or makes up, the first `n` bytes of a whole.
pub proof fn lemma_skip(p: Seq<u8>, s: Seq<u8>, n: int)
    requires
        0 <= n <= p.len(),
    ensures
        (p + s).skip(n) == p.skip(n) + s,
        (p + s).take(n) == p.take(n),
{
    assert((p + s).skip(n) =~= p.skip(n) + s);
    assert((p + s).take(n) =~= p.take(n));
}

/// A method is parsed alike whatever follows the space behind it.
pub proof fn lemma_method(p: Seq<u8>, s: Seq<u8>)
    ensures
        request::method(p) != Err::<(MethodView, int), HttpParsingError>(HttpParsingError::UnexpectedEof)
            ==> request::method(p + s) == request::method(p),
        request::method(p + s) matches Ok((m, n)) ==> n <= p.len() ==> request::method(p) == request::method(
            p + s,
        ),
        request::method(p) matches Ok((m, n)) ==> 0 < n <= p.len(),
{
    bytes::lemma_run_end_prefix(p, s, 0, bytes::other_than(SP));
    let sp = bytes::first_index(p, SP);
    if sp < p.len() {
        lemma_skip(p, s, sp);
    }
}

/// A version is parsed or refused alike whatever follows.
pub proof fn lemma_version(p: Seq<u8>, s: Seq<u8>)
    ensures
        parser::version(p) != Err::<(u8, int), HttpParsingError>(HttpParsingError::UnexpectedEof)
            ==> parser::version(p + s) == parser::version(p),
        parser::version(p + s) matches Ok((v, n)) ==> n <= p.len() ==> parser::version(p) == parser::version(
            p + s,
        ),
        parser::version(p) matches Ok((v, n)) ==> n == 8 && 8 <= p.len(),
{
    reveal_strlit("HTTP/1.");
    let name = bytes::ascii("HTTP/1."@);
    assert(name.len() == 7);
    if name.is_prefix_of(p) {
        assert(name.is_prefix_of(p + s));
        assert(p.len() > 7 ==> (p + s)[7] == p[7]);
        assert(p.len() == 7 ==> p.is_prefix_of(name)) by {
            assert(p.len() == 7 ==> p =~= name);
        }
    } else {
        if name.is_prefix_of(p + s) && p.len() >= 7 {
            assert forall|i: int| 0 <= i < 7 implies p[i] == name[i] by {
                assert((p + s)[i] == name[i]);
            }
            assert(name =~= p.subrange(0, 7));
            assert(false);
        }
        if !p.is_prefix_of(name) {
            if (p + s).is_prefix_of(name) {
                assert forall|i: int| 0 <= i < p.len() implies p[i] == name[i] by {
                    assert((p + s)[i] == name[i]);
                }
                assert(p =~= name.subrange(0, p.len() as int));
                assert(false);
            }
            if name.is_prefix_of(p + s) {
                assert forall|i: int| 0 <= i < p.len() implies p[i] == name[i] by {
                    assert((p + s)[i] == name[i]);
                }
                assert(p =~= name.subrange(0, p.len() as int));
                assert(false);
            }
        }
    }
}

/// Header fields are parsed or refused alike whatever follows.
pub proof fn lemma_header_fields(p: Seq<u8>, s: Seq<u8>)
    ensures
        parser::header_fields(p) != Err::<(Seq<FieldView>, int), HttpParsingError>(
            HttpParsingError::UnexpectedEof,
        ) ==> parser::header_fields(p + s) == parser::header_fields(p),
        parser::header_fields(p + s) matches Ok((f, n)) ==> n <= p.len() ==> parser::header_fields(p)
            == parser::header_fields(p + s),
        parser::header_fields(p) matches Ok((f, n)) ==> 0 < n <= p.len(),
        parser::header_fields(p + s) matches Ok((f, n)) ==> 0 < n,
    decreases p.len(),
{
    bytes::lemma_run_end_prefix(p, s, 0, bytes::other_than(LF));
    lemma_header_fields_positive(p + s);
    let nl = bytes::first_index(p, LF);
    if nl < p.len() {
        lemma_skip(p, s, nl + 1);
        lemma_header_fields(p.skip(nl + 1), s);
        if nl > 0 {
            lemma_skip(p, s, nl - 1);
        }
    } else {
        lemma_header_fields_bound(p + s);
    }
}

proof fn lemma_header_fields_positive(b: Seq<u8>)
    ensures
        parser::header_fields(b) matches Ok((f, n)) ==> 0 < n,
    decreases b.len(),
{
    let nl = bytes::first_index(b, LF);
    bytes::lemma_run_end(b, 0, bytes::other_than(LF));
    if nl < b.len() {
        lemma_header_fields_positive(b.skip(nl + 1));
    }
}

/// The header fields take at least the first line.
proof fn lemma_header_fields_bound(b: Seq<u8>)
    ensures
        parser::header_fields(b) matches Ok((f, n)) ==> bytes::first_index(b, LF) < n,
{
    bytes::lemma_run_end(b, 0, bytes::other_than(LF));
    let nl = bytes::first_index(b, LF);
    if nl < b.len() {
        lemma_header_fields_positive(b.skip(nl + 1));
    }
}

/// Whether the input breaks off in the authority of a target, or in the scheme before it: such a
/// target is taken for malformed, whatever may follow.
pub open spec fn target_cut_short(buf: Seq<u8>) -> bool {
    buf.len() > 0 && buf[0] != ASTERISK && buf[0] != SLASH && request::authority_end(buf, 0) == buf.len()
}

/// Whether the input breaks off in the authority of a request's target.
pub open spec fn request_cut_short(buf: Seq<u8>) -> bool {
    request::method(buf) matches Ok((m, n)) && target_cut_short(buf.skip(n))
}

proof fn lemma_authority_end_from(b: Seq<u8>, from: int)
    requires
        0 <= from <= b.len(),
    ensures
        from <= request::authority_end(b, from) <= b.len(),
    decreases b.len() - from,
{
    if from < b.len() {
        lemma_authority_end_from(b, from + 1);
    }
}

proof fn lemma_authority_end(p: Seq<u8>, s: Seq<u8>, from: int)
    requires
        0 <= from <= p.len(),
    ensures
        ({
            let e1 = request::authority_end(p, from);
            let e2 = request::authority_end(p + s, from);
            &&& from <= e1 <= p.len()
            &&& e1 < p.len() && (p[e1] != SLASH || e1 + 1 < p.len()) ==> e2 == e1
            &&& e2 < p.len() ==> e1 == e2
            &&& e1 < p.len() ==> !request::is_uri_byte(p[e1]) || p[e1] == SLASH
        }),
    decreases p.len() - from,
{
    lemma_authority_end_from(p + s, from);
    if from < p.len() {
        assert((p + s)[from] == p[from]);
        if from + 1 < p.len() {
            assert((p + s)[from + 1] == p[from + 1]);
        }
        if request::is_uri_byte(p[from]) && (p[from] == SLASH ==> request::in_separator(p, from)) {
            assert(request_uri::separator_at(p, from - 1) ==> request_uri::separator_at(p + s, from - 1));
            assert(request_uri::separator_at(p, from - 2) ==> request_uri::separator_at(p + s, from - 2));
            lemma_authority_end(p, s, from + 1);
        } else if request::is_uri_byte(p[from]) && request::in_separator(p + s, from) {
            lemma_authority_end_from(p + s, from + 1);
        }
    }
}

proof fn lemma_target_with_path(p: Seq<u8>, s: Seq<u8>, path_start: int)
    requires
        0 <= path_start < p.len(),
        p[path_start] == SLASH,
    ensures
        request::target_with_path(p, path_start) != Err::<(TargetView, int), HttpParsingError>(
            HttpParsingError::UnexpectedEof,
        ) ==> request::target_with_path(p + s, path_start) == request::target_with_path(p, path_start)
            && path_start + 1 < p.len(),
        request::target_with_path(p + s, path_start) matches Ok((v, n)) ==> n <= p.len()
            ==> request::target_with_path(p, path_start) == request::target_with_path(p + s, path_start),
        request::target_with_path(p, path_start) matches Ok((v, n)) ==> path_start + 1 < n <= p.len(),
{
    request::lemma_uri_bytes();
    bytes::lemma_run_end_prefix(p, s, path_start, request::path_bytes());
    assert((p + s)[path_start] == p[path_start]);
    let path_end = bytes::run_end(p, path_start, request::path_bytes());
    assert(path_start < path_end) by {
        bytes::lemma_run_end(p, path_start, request::path_bytes());
    }
    if path_end < p.len() {
        assert((p + s)[path_end] == p[path_end]);
        bytes::lemma_run_end_prefix(p, s, path_end + 1, request::uri_bytes());
        let end = request::target_end(p, path_end);
        if end < p.len() {
            assert((p + s)[end] == p[end]);
            lemma_skip(p, s, end);
        }
    } else {
        bytes::lemma_run_end(p + s, path_start, request::path_bytes());
        let longer_end = bytes::run_end(p + s, path_start, request::path_bytes());
        if longer_end < (p + s).len() {
            bytes::lemma_run_end(p + s, longer_end + 1, request::uri_bytes());
        }
    }
}

/// A target that is parsed is parsed alike whatever follows, and so is one that is malformed, unless
/// the input broke off in its authority.
pub proof fn lemma_target(p: Seq<u8>, s: Seq<u8>)
    ensures
        request::target(p) is Ok ==> request::target(p + s) == request::target(p),
        request::target(p) is Err && request::target(p) != Err::<(TargetView, int), HttpParsingError>(
            HttpParsingError::UnexpectedEof,
        ) && !target_cut_short(p) ==> request::target(p + s) == request::target(p),
        request::target(p + s) matches Ok((v, n)) ==> n <= p.len() ==> request::target(p) == request::target(
            p + s,
        ),
        request::target(p) matches Ok((v, n)) ==> 0 < n <= p.len(),
        request::target(p + s) matches Ok((v, n)) ==> 0 < n,
{
    lemma_target_positive(p + s);
    if p.len() > 0 {
        assert((p + s)[0] == p[0]);
        if p[0] == SLASH {
            lemma_target_with_path(p, s, 0);
        } else if p[0] != ASTERISK {
            request::lemma_uri_bytes();
            lemma_authority_end(p, s, 0);
            let e1 = request::authority_end(p, 0);
            let e2 = request::authority_end(p + s, 0);
            if e1 < p.len() {
                assert((p + s)[e1] == p[e1]);
                lemma_skip(p, s, e1);
                if p[e1] == SLASH {
                    lemma_target_with_path(p, s, e1);
                }
            }
            lemma_authority_end(p + s, Seq::empty(), 0);
            if e2 < p.len() {
                assert((p + s)[e2] == p[e2]);
            }
            if e2 < (p + s).len() && (p + s)[e2] == SLASH {
                lemma_target_with_path(p + s, Seq::empty(), e2);
            }
        }
    }
}

proof fn lemma_target_positive(b: Seq<u8>)
    ensures
        request::target(b) matches Ok((v, n)) ==> 0 < n,
{
    if b.len() > 0 && b[0] == SLASH {
        lemma_target_with_path(b, Seq::empty(), 0);
    } else if b.len() > 0 {
        lemma_authority_end(b, Seq::empty(), 0);
        let e = request::authority_end(b, 0);
        if e < b.len() && b[e] == SLASH {
            lemma_target_with_path(b, Seq::empty(), e);
        }
    }
}

/// A status is parsed alike whatever follows.
pub proof fn lemma_response_status(p: Seq<u8>, s: Seq<u8>)
    ensures
        response::response_status(p) is Ok ==> response::response_status(p + s) == response::response_status(p),
        response::response_status(p + s) matches Ok((v, n)) ==> n <= p.len() ==> response::response_status(p)
            == response::response_status(p + s),
        response::response_status(p) matches Ok((v, n)) ==> 0 < n <= p.len(),
        response::response_status(p + s) matches Ok((v, n)) ==> 0 < n,
{
    if p.len() >= 4 {
        assert((p + s).take(4) =~= p.take(4));
        assert(forall|i: int| 0 <= i < 4 ==> (p + s)[i] == #[trigger] p[i]);
        bytes::lemma_run_end_prefix(p, s, 4, response::reason_bytes());
        bytes::lemma_run_end(p + s, 4, response::reason_bytes());
        let end = bytes::run_end(p, 4, response::reason_bytes());
        if end < p.len() {
            assert((p + s)[end] == p[end]);
            assert(end + 1 < p.len() ==> (p + s)[end + 1] == p[end + 1]);
            assert((p + s).subrange(4, end) =~= p.subrange(4, end));
        }
    } else if (p + s).len() >= 4 {
        bytes::lemma_run_end(p + s, 4, response::reason_bytes());
    }
}

/// A request head that parses is parsed alike whatever follows it, and it ends inside the input.
pub proof fn law_request_extends(head: Seq<u8>, more: Seq<u8>)
    requires
        request::request(head) is Ok,
    ensures
        request::request(head + more) == request::request(head),
        0 < request::request(head)->Ok_0.buf_offset <= head.len(),
{
    lemma_method(head, more);
    let n1 = request::method(head)->Ok_0.1;
    lemma_skip(head, more, n1);
    lemma_target(head.skip(n1), more);
    let n2 = request::target(head.skip(n1))->Ok_0.1;
    lemma_skip(head, more, n1 + n2);
    assert(head.skip(n1 + n2) =~= head.skip(n1).skip(n2));
    lemma_version(head.skip(n1 + n2), more);
    let n = n1 + n2 + 10;
    lemma_skip(head, more, n);
    lemma_header_fields(head.skip(n), more);
}

/// A request head is parsed from its own bytes alone: those up to `buf_offset`.
pub proof fn law_request_needs_only_its_head(buf: Seq<u8>)
    requires
        request::request(buf) is Ok,
    ensures
        request::request(buf.take(request::request(buf)->Ok_0.buf_offset)) == request::request(buf),
{
    law_request_extends(buf, Seq::empty());
    let end = request::request(buf)->Ok_0.buf_offset;
    let (head, more) = (buf.take(end), buf.skip(end));
    assert(head + more =~= buf);
    let n1 = request::method(buf)->Ok_0.1;
    lemma_method(buf, Seq::empty());
    lemma_target(buf.skip(n1), Seq::empty());
    let n2 = request::target(buf.skip(n1))->Ok_0.1;
    assert(buf.skip(n1 + n2) =~= buf.skip(n1).skip(n2));
    lemma_version(buf.skip(n1 + n2), Seq::empty());
    let n = n1 + n2 + 10;
    lemma_header_fields(buf.skip(n), Seq::empty());
    assert(forall|b: Seq<u8>| #![trigger b + Seq::empty()] b + Seq::<u8>::empty() =~= b);
    lemma_method(head, more);
    lemma_skip(head, more, n1);
    lemma_target(head.skip(n1), more);
    lemma_skip(head, more, n1 + n2);
    lemma_version(head.skip(n1 + n2), more);
    lemma_skip(head, more, n);
    lemma_header_fields(head.skip(n), more);
}

/// A request that is refused for what has come of it is refused alike whatever follows, unless the
/// input broke off in the authority of its target.
pub proof fn law_request_refusal_is_final(buf: Seq<u8>, more: Seq<u8>)
    requires
        request::request(buf) is Err,
        request::request(buf) != Err::<RequestView, HttpParsingError>(HttpParsingError::UnexpectedEof),
        !request_cut_short(buf),
    ensures
        request::request(buf + more) == request::request(buf),
{
    lemma_method(buf, more);
    if let Ok((_, n1)) = request::method(buf) {
        lemma_skip(buf, more, n1);
        lemma_target(buf.skip(n1), more);
        if let Ok((_, n2)) = request::target(buf.skip(n1)) {
            lemma_skip(buf, more, n1 + n2);
            assert(buf.skip(n1 + n2) =~= buf.skip(n1).skip(n2));
            lemma_version(buf.skip(n1 + n2), more);
            if parser::version(buf.skip(n1 + n2)) is Ok {
                let n = n1 + n2 + 10;
                lemma_skip(buf, more, n);
                lemma_header_fields(buf.skip(n), more);
            }
        }
    }
}

/// A request that breaks off in the authority of its target is taken for malformed.
pub proof fn law_cut_short_is_malformed(buf: Seq<u8>)
    requires
        request_cut_short(buf),
    ensures
        request::request(buf) == Err::<RequestView, HttpParsingError>(HttpParsingError::MalformedStatusLine),
{
}

/// No part of a request head, short of the whole of it, is parsed as a request.
pub proof fn law_request_prefix_is_no_request(buf: Seq<u8>, k: int)
    requires
        request::request(buf) is Ok,
        0 <= k < request::request(buf)->Ok_0.buf_offset,
    ensures
        request::request(buf.take(k)) is Err,
        request::request(buf.take(k)) == Err::<RequestView, HttpParsingError>(HttpParsingError::UnexpectedEof)
            || request_cut_short(buf.take(k)),
{
    law_request_extends(buf, Seq::empty());
    let (p, s) = (buf.take(k), buf.skip(k));
    assert(p + s =~= buf);
    if request::request(p) is Ok {
        law_request_extends(p, s);
    } else if request::request(p) != Err::<RequestView, HttpParsingError>(HttpParsingError::UnexpectedEof)
        && !request_cut_short(p) {
        law_request_refusal_is_final(p, s);
    }
}

/// A response head that parses is parsed alike whatever follows it, and it ends inside the input.
pub proof fn law_response_extends(head: Seq<u8>, more: Seq<u8>)
    requires
        response::response(head) is Ok,
    ensures
        response::response(head + more) == response::response(head),
        0 < response::response(head)->Ok_0.buf_offset <= head.len(),
{
    lemma_version(head, more);
    lemma_skip(head, more, 9);
    lemma_response_status(head.skip(9), more);
    let n2 = response::response_status(head.skip(9))->Ok_0.1;
    lemma_skip(head, more, 9 + n2);
    assert(head.skip(9 + n2) =~= head.skip(9).skip(n2));
    lemma_header_fields(head.skip(9 + n2), more);
}

/// A response head is parsed from its own bytes alone: those up to `buf_offset`.
pub proof fn law_response_needs_only_its_head(buf: Seq<u8>)
    requires
        response::response(buf) is Ok,
    ensures
        response::response(buf.take(response::response(buf)->Ok_0.buf_offset)) == response::response(buf),
{
    law_response_extends(buf, Seq::empty());
    let end = response::response(buf)->Ok_0.buf_offset;
    let (head, more) = (buf.take(end), buf.skip(end));
    assert(head + more =~= buf);
    assert(forall|b: Seq<u8>| #![trigger b + Seq::empty()] b + Seq::<u8>::empty() =~= b);
    lemma_version(buf, Seq::empty());
    lemma_response_status(buf.skip(9), Seq::empty());
    let n2 = response::response_status(buf.skip(9))->Ok_0.1;
    assert(buf.skip(9 + n2) =~= buf.skip(9).skip(n2));
    lemma_header_fields(buf.skip(9 + n2), Seq::empty());
    lemma_version(head, more);
    lemma_skip(head, more, 9);
    lemma_response_status(head.skip(9), more);
    lemma_skip(head, more, 9 + n2);
    lemma_header_fields(head.skip(9 + n2), more);
}

/// A response with an unsupported version or a malformed header field is refused alike whatever
/// follows.
pub proof fn law_response_refusal_is_final(buf: Seq<u8>, more: Seq<u8>)
    requires
        response::response(buf) == Err::<ResponseView, HttpParsingError>(
            HttpParsingError::UnsupportedHttpVersion,
        ) || response::response(buf) == Err::<ResponseView, HttpParsingError>(HttpParsingError::MalformedHeader),
    ensures
        response::response(buf + more) == response::response(buf),
{
    lemma_version(buf, more);
    if parser::version(buf) is Ok {
        lemma_skip(buf, more, 9);
        lemma_response_status(buf.skip(9), more);
        let n2 = response::response_status(buf.skip(9))->Ok_0.1;
        lemma_skip(buf, more, 9 + n2);
        assert(buf.skip(9 + n2) =~= buf.skip(9).skip(n2));
        lemma_header_fields(buf.skip(9 + n2), more);
    }
}

/// A part of a response head, short of the whole of it, is unfinished or has a malformed status line.
pub proof fn law_response_prefix_is_no_response(buf: Seq<u8>, k: int)
    requires
        response::response(buf) is Ok,
        0 <= k < response::response(buf)->Ok_0.buf_offset,
    ensures
        response::response(buf.take(k)) == Err::<ResponseView, HttpParsingError>(HttpParsingError::UnexpectedEof)
            || response::response(buf.take(k)) == Err::<ResponseView, HttpParsingError>(
            HttpParsingError::MalformedStatusLine,
        ),
{
    law_response_extends(buf, Seq::empty());
    let (p, s) = (buf.take(k), buf.skip(k));
    assert(p + s =~= buf);
    if response::response(p) is Ok {
        law_response_extends(p, s);
    } else if response::response(p) == Err::<ResponseView, HttpParsingError>(
        HttpParsingError::UnsupportedHttpVersion,
    ) || response::response(p) == Err::<ResponseView, HttpParsingError>(HttpParsingError::MalformedHeader) {
        law_response_refusal_is_final(p, s);
    } else {
        lemma_header_fields_error(p.skip(9 + response::response_status(p.skip(9))->Ok_0.1));
    }
}

proof fn lemma_header_fields_error(b: Seq<u8>)
    ensures
        parser::header_fields(b) matches Err(e) ==> e == HttpParsingError::UnexpectedEof || e
            == HttpParsingError::MalformedHeader,
    decreases b.len(),
{
    bytes::lemma_run_end(b, 0, bytes::other_than(LF));
    let nl = bytes::first_index(b, LF);
    if nl < b.len() {
        lemma_header_fields_error(b.skip(nl + 1));
    }
}

/// Header fields end in CRLF.
proof fn lemma_header_fields_end(b: Seq<u8>)
    ensures
        parser::header_fields(b) matches Ok((f, n)) ==> 2 <= n <= b.len() && b[n - 2] == CR && b[n - 1] == LF,
    decreases b.len(),
{
    bytes::lemma_run_end(b, 0, bytes::other_than(LF));
    let nl = bytes::first_index(b, LF);
    if nl < b.len() {
        let rest = b.skip(nl + 1);
        lemma_header_fields_end(rest);
        if let Ok((_, n)) = parser::header_fields(rest) {
            assert(rest[n - 2] == b[nl + 1 + n - 2]);
            assert(rest[n - 1] == b[nl + 1 + n - 1]);
        }
    }
}

/// A request head ends in CRLF.
pub proof fn law_request_ends_in_crlf(buf: Seq<u8>)
    requires
        request::request(buf) is Ok,
    ensures
        ({
            let end = request::request(buf)->Ok_0.buf_offset;
            2 <= end <= buf.len() && buf[end - 2] == CR && buf[end - 1] == LF
        }),
{
    let n1 = request::method(buf)->Ok_0.1;
    lemma_method(buf, Seq::empty());
    lemma_target(buf.skip(n1), Seq::empty());
    let n2 = request::target(buf.skip(n1))->Ok_0.1;
    assert(buf.skip(n1 + n2) =~= buf.skip(n1).skip(n2));
    lemma_version(buf.skip(n1 + n2), Seq::empty());
    let n = n1 + n2 + 10;
    lemma_header_fields_end(buf.skip(n));
}

/// A response head ends in CRLF.
pub proof fn law_response_ends_in_crlf(buf: Seq<u8>)
    requires
        response::response(buf) is Ok,
    ensures
        ({
            let end = response::response(buf)->Ok_0.buf_offset;
            2 <= end <= buf.len() && buf[end - 2] == CR && buf[end - 1] == LF
        }),
{
    lemma_version(buf, Seq::empty());
    lemma_response_status(buf.skip(9), Seq::empty());
    let n2 = response::response_status(buf.skip(9))->Ok_0.1;
    lemma_header_fields_end(buf.skip(9 + n2));
}

} // verus!
