//! Request heads.

use crate::bytes;
use crate::bytes::{ASTERISK, COLON, QUESTION, SLASH, SP};
use crate::http::headers::{FieldView, Headers};
use crate::http::method::{Method, MethodView};
use crate::http::request_uri;
use crate::http::request_uri::{RequestUri, TargetView};
use crate::parser;
use crate::parser::parts;
use crate::parser::HttpParsingError;
use vstd::prelude::*;
use vstd::string::*;
use vstd::utf8::*;

verus! {

/// The bytes that a request target is made of.
pub open spec fn is_uri_byte(b: u8) -> bool {
    parser::is_alphabetic(b) || parser::is_digit(b) || bytes::ascii("-._~:/?#[]@!$&'()*+,;=%"@).contains(b)
}

pub(crate) fn is_valid_uri_byte(b: u8) -> (r: bool)
    ensures
        r == is_uri_byte(b),
{
    let marks: &[u8] = "-._~:/?#[]@!$&'()*+,;=%".as_bytes();
    proof {
        reveal_strlit("-._~:/?#[]@!$&'()*+,;=%");
        bytes::lemma_ascii_bytes("-._~:/?#[]@!$&'()*+,;=%");
    }
    parser::is_alphanumeric(b) || bytes::contains(marks, b)
}

/// Target bytes are ASCII and no spaces, and the marks that structure a target are among them.
pub proof fn lemma_uri_bytes()
    ensures
        forall|b: u8| #[trigger] is_uri_byte(b) ==> b < 0x80 && b != SP,
        is_uri_byte(COLON),
        is_uri_byte(SLASH),
        is_uri_byte(QUESTION),
        is_uri_byte(ASTERISK),
{
    reveal_strlit("-._~:/?#[]@!$&'()*+,;=%");
    let marks = bytes::ascii("-._~:/?#[]@!$&'()*+,;=%"@);
    assert(marks[4] == COLON);
    assert(marks[5] == SLASH);
    assert(marks[6] == QUESTION);
    assert(marks[17] == ASTERISK);
}

pub open spec fn uri_bytes() -> spec_fn(u8) -> bool {
    |b: u8| is_uri_byte(b)
}

/// The bytes of a path: those of a target but `?`.
pub open spec fn path_bytes() -> spec_fn(u8) -> bool {
    |b: u8| is_uri_byte(b) && b != QUESTION
}

/// The length of the run of target bytes that `s` begins with.
fn match_uri(s: &[u8]) -> (r: usize)
    ensures
        r == bytes::run_end(s@, 0, uri_bytes()),
        r <= s@.len(),
{
    let mut i: usize = 0;
    while i < s.len() && is_valid_uri_byte(s[i])
        invariant
            i <= s@.len(),
            bytes::run_end(s@, 0, uri_bytes()) == bytes::run_end(s@, i as int, uri_bytes()),
        decreases s@.len() - i,
    {
        i = i + 1;
    }
    i
}

/// The length of the run of path bytes that `s` begins with.
fn match_path(s: &[u8]) -> (r: usize)
    ensures
        r == bytes::run_end(s@, 0, path_bytes()),
        r <= s@.len(),
{
    let mut i: usize = 0;
    while i < s.len() && s[i] != QUESTION && is_valid_uri_byte(s[i])
        invariant
            i <= s@.len(),
            bytes::run_end(s@, 0, path_bytes()) == bytes::run_end(s@, i as int, path_bytes()),
        decreases s@.len() - i,
    {
        i = i + 1;
    }
    i
}

/// The method that a token names: one of the known ones, or else one of letters only.
pub open spec fn method_of(token: Seq<u8>) -> Result<MethodView, HttpParsingError> {
    if token == bytes::ascii("GET"@) {
        Ok(MethodView::Get)
    } else if token == bytes::ascii("POST"@) {
        Ok(MethodView::Post)
    } else if token == bytes::ascii("HEAD"@) {
        Ok(MethodView::Head)
    } else if token == bytes::ascii("PUT"@) {
        Ok(MethodView::Put)
    } else if token == bytes::ascii("PATCH"@) {
        Ok(MethodView::Patch)
    } else if token == bytes::ascii("DELETE"@) {
        Ok(MethodView::Delete)
    } else if token == bytes::ascii("OPTIONS"@) {
        Ok(MethodView::Options)
    } else if token == bytes::ascii("TRACE"@) {
        Ok(MethodView::Trace)
    } else if forall|i: int| 0 <= i < token.len() ==> parser::is_alphabetic(#[trigger] token[i]) {
        Ok(MethodView::Custom(token))
    } else {
        Err(HttpParsingError::MalformedStatusLine)
    }
}

/// The method at the start of `buf`, up to the first space, and the number of bytes that it takes
/// with that space.
pub open spec fn method(buf: Seq<u8>) -> Result<(MethodView, int), HttpParsingError> {
    let sp = bytes::first_index(buf, SP);
    if sp < buf.len() {
        match method_of(buf.take(sp)) {
            Ok(m) => Ok((m, sp + 1)),
            Err(e) => Err(e),
        }
    } else {
        Err(HttpParsingError::UnexpectedEof)
    }
}

fn all_alphabetic(token: &[u8]) -> (r: bool)
    ensures
        r == (forall|i: int| 0 <= i < token@.len() ==> parser::is_alphabetic(#[trigger] token@[i])),
{
    let mut i: usize = 0;
    while i < token.len()
        invariant
            i <= token@.len(),
            forall|j: int| 0 <= j < i ==> parser::is_alphabetic(#[trigger] token@[j]),
        decreases token@.len() - i,
    {
        let b: u8 = token[i];
        if !(('A' as u8 <= b && b <= 'Z' as u8) || ('a' as u8 <= b && b <= 'z' as u8)) {
            return false;
        }
        i = i + 1;
    }
    true
}

/// The method that a token names.
fn classify_method(token: &[u8]) -> (r: Result<Method, HttpParsingError>)
    ensures
        match (r, method_of(token@)) {
            (Ok(m), Ok(v)) => m@ == v,
            (Err(e), Err(f)) => e == f,
            _ => false,
        },
{
    proof {
        reveal_strlit("GET");
        reveal_strlit("POST");
        reveal_strlit("HEAD");
        reveal_strlit("PUT");
        reveal_strlit("PATCH");
        reveal_strlit("DELETE");
        reveal_strlit("OPTIONS");
        reveal_strlit("TRACE");
        bytes::lemma_ascii_bytes("GET");
        bytes::lemma_ascii_bytes("POST");
        bytes::lemma_ascii_bytes("HEAD");
        bytes::lemma_ascii_bytes("PUT");
        bytes::lemma_ascii_bytes("PATCH");
        bytes::lemma_ascii_bytes("DELETE");
        bytes::lemma_ascii_bytes("OPTIONS");
        bytes::lemma_ascii_bytes("TRACE");
    }
    if bytes::same_bytes(token, "GET".as_bytes()) {
        return Ok(Method::Get);
    }
    if bytes::same_bytes(token, "POST".as_bytes()) {
        return Ok(Method::Post);
    }
    if bytes::same_bytes(token, "HEAD".as_bytes()) {
        return Ok(Method::Head);
    }
    if bytes::same_bytes(token, "PUT".as_bytes()) {
        return Ok(Method::Put);
    }
    if bytes::same_bytes(token, "PATCH".as_bytes()) {
        return Ok(Method::Patch);
    }
    if bytes::same_bytes(token, "DELETE".as_bytes()) {
        return Ok(Method::Delete);
    }
    if bytes::same_bytes(token, "OPTIONS".as_bytes()) {
        return Ok(Method::Options);
    }
    if bytes::same_bytes(token, "TRACE".as_bytes()) {
        return Ok(Method::Trace);
    }
    if !all_alphabetic(token) {
        return Err(HttpParsingError::MalformedStatusLine);
    }
    Ok(Method::Custom(parser::ascii_str(token).to_owned()))
}

/// The method at the start of `buf`, and what follows the space behind it.
fn parse_method(buf: &[u8]) -> (r: Result<(Method, &[u8]), HttpParsingError>)
    ensures
        match (r, method(buf@)) {
            (Ok((m, rest)), Ok((v, n))) => m@ == v && 0 < n <= buf@.len() && rest@ == buf@.skip(n),
            (Err(e), Err(f)) => e == f,
            _ => false,
        },
{
    let mut i: usize = 0;
    while i < buf.len()
        invariant
            i <= buf@.len(),
            bytes::first_index(buf@, SP) == bytes::run_end(buf@, i as int, bytes::other_than(SP)),
        decreases buf@.len() - i,
    {
        if buf[i] == SP {
            let token: &[u8] = &buf[0..i];
            assert(token@ =~= buf@.take(i as int));
            return match classify_method(token) {
                Ok(m) => Ok((m, bytes::tail(buf, i + 1))),
                Err(e) => Err(e),
            };
        }
        i = i + 1;
    }
    Err(HttpParsingError::UnexpectedEof)
}

/// Whether the slash at index `i` belongs to a `://`.
pub open spec fn in_separator(buf: Seq<u8>, i: int) -> bool {
    request_uri::separator_at(buf, i - 1) || request_uri::separator_at(buf, i - 2)
}

/// The first index from `from` on whose byte is no target byte or a slash outside of a `://`, or
/// the length of `buf`.
pub open spec fn authority_end(buf: Seq<u8>, from: int) -> int
    decreases buf.len() - from,
{
    if 0 <= from < buf.len() && is_uri_byte(buf[from]) && (buf[from] == SLASH ==> in_separator(buf, from)) {
        authority_end(buf, from + 1)
    } else {
        from
    }
}

/// The end of a target whose path ends at `path_end`: behind the query, if one follows.
pub open spec fn target_end(buf: Seq<u8>, path_end: int) -> int {
    if path_end < buf.len() && buf[path_end] == QUESTION {
        bytes::run_end(buf, path_end + 1, uri_bytes())
    } else {
        path_end
    }
}

/// The target at the start of `buf` whose path begins at `path_start`, and the number of bytes that
/// it takes with the space behind it.
pub open spec fn target_with_path(buf: Seq<u8>, path_start: int) -> Result<(TargetView, int), HttpParsingError> {
    let path_end = bytes::run_end(buf, path_start, path_bytes());
    let end = target_end(buf, path_end);
    if end >= buf.len() {
        Err(HttpParsingError::UnexpectedEof)
    } else if buf[end] != SP {
        Err(HttpParsingError::MalformedStatusLine)
    } else {
        Ok((TargetView { bytes: buf.take(end), path_start, path_end }, end + 1))
    }
}

/// The request target at the start of `buf`, and the number of bytes that it takes with the space
/// behind it; the target `*` is taken alone, the space behind it left.
pub open spec fn target(buf: Seq<u8>) -> Result<(TargetView, int), HttpParsingError> {
    if buf.len() == 0 {
        Err(HttpParsingError::UnexpectedEof)
    } else if buf[0] == ASTERISK {
        Ok((TargetView { bytes: bytes::ascii("*"@), path_start: 0, path_end: 1 }, 1))
    } else if buf[0] == SLASH {
        target_with_path(buf, 0)
    } else {
        let end = authority_end(buf, 0);
        if end < buf.len() && buf[end] == SLASH {
            target_with_path(buf, end)
        } else if end < buf.len() && buf[end] == SP {
            Ok((TargetView { bytes: buf.take(end), path_start: 0, path_end: 0 }, end + 1))
        } else {
            Err(HttpParsingError::MalformedStatusLine)
        }
    }
}

/// Where the authority, with the scheme before it, ends.
fn find_authority_end(buf: &[u8]) -> (r: usize)
    ensures
        r == authority_end(buf@, 0),
        r <= buf@.len(),
        forall|j: int| 0 <= j < r ==> is_uri_byte(#[trigger] buf@[j]),
{
    proof {
        lemma_uri_bytes();
    }
    let mut i: usize = 0;
    while i < buf.len()
        invariant
            i <= buf@.len(),
            authority_end(buf@, 0) == authority_end(buf@, i as int),
            !in_separator(buf@, i as int),
            forall|j: int| 0 <= j < i ==> is_uri_byte(#[trigger] buf@[j]),
            is_uri_byte(COLON),
            is_uri_byte(SLASH),
        decreases buf@.len() - i,
    {
        let b: u8 = buf[i];
        if b == COLON && buf.len() - i > 2 && buf[i + 1] == SLASH && buf[i + 2] == SLASH {
            proof {
                reveal_with_fuel(authority_end, 4);
                assert(request_uri::separator_at(buf@, i as int));
                assert(in_separator(buf@, i + 1));
                assert(in_separator(buf@, i + 2));
            }
            i = i + 3;
        } else if b == SLASH || !is_valid_uri_byte(b) {
            return i;
        } else {
            i = i + 1;
        }
    }
    i
}

/// The target at the start of `buf`, whose path begins at `path_start`.
fn parse_uri_with_path<'b>(buf: &'b [u8], path_start: usize) -> (r: Result<(RequestUri<'b>, &'b [u8]), HttpParsingError>)
    requires
        path_start <= buf@.len(),
        forall|j: int| 0 <= j < path_start ==> is_uri_byte(#[trigger] buf@[j]),
    ensures
        uri_agrees(r, buf@, target_with_path(buf@, path_start as int)),
{
    proof {
        lemma_uri_bytes();
        bytes::lemma_run_end(buf@, path_start as int, path_bytes());
        bytes::lemma_run_end_tail(buf@, path_start as int, path_start as int, path_bytes());
    }
    let path_len: usize = match_path(bytes::tail(buf, path_start));
    assert(path_start + path_len <= buf.len());
    let path_end: usize = path_start + path_len;
    let mut end: usize = path_end;
    if path_end < buf.len() && buf[path_end] == QUESTION {
        proof {
            bytes::lemma_run_end(buf@, path_end + 1, uri_bytes());
            bytes::lemma_run_end_tail(buf@, path_end + 1, path_end + 1, uri_bytes());
        }
        end = path_end + 1 + match_uri(bytes::tail(buf, path_end + 1));
    }
    if end >= buf.len() {
        return Err(HttpParsingError::UnexpectedEof);
    }
    if buf[end] != SP {
        return Err(HttpParsingError::MalformedStatusLine);
    }
    let text: &'b [u8] = &buf[0..end];
    assert(text@ =~= buf@.take(end as int));
    assert forall|j: int| 0 <= j < text@.len() implies #[trigger] text@[j] < 0x80 by {
        assert(is_uri_byte(buf@[j]));
    }
    Ok((RequestUri::new(parser::ascii_str(text), path_start, path_end), bytes::tail(buf, end + 1)))
}

/// Whether a parsed target is the one that is expected on `buf`.
pub open spec fn uri_agrees(
    r: Result<(RequestUri, &[u8]), HttpParsingError>,
    buf: Seq<u8>,
    expected: Result<(TargetView, int), HttpParsingError>,
) -> bool {
    match (r, expected) {
        (Ok((uri, rest)), Ok((v, n))) => uri@ == v && 0 < n <= buf.len() && rest@ == buf.skip(n),
        (Err(e), Err(f)) => e == f,
        _ => false,
    }
}

/// The request target at the start of `buf`, and what follows it.
fn parse_uri<'b>(buf: &'b [u8]) -> (r: Result<(RequestUri<'b>, &'b [u8]), HttpParsingError>)
    ensures
        uri_agrees(r, buf@, target(buf@)),
{
    if buf.len() == 0 {
        return Err(HttpParsingError::UnexpectedEof);
    }
    if buf[0] == ASTERISK {
        proof {
            reveal_strlit("*");
            bytes::lemma_ascii_bytes("*");
        }
        return Ok((RequestUri::new("*", 0, 1), bytes::tail(buf, 1)));
    }
    if buf[0] == SLASH {
        return parse_uri_with_path(buf, 0);
    }
    proof {
        lemma_uri_bytes();
    }
    let end: usize = find_authority_end(buf);
    if end >= buf.len() {
        return Err(HttpParsingError::MalformedStatusLine);
    }
    if buf[end] == SLASH {
        return parse_uri_with_path(buf, end);
    }
    if buf[end] != SP {
        return Err(HttpParsingError::MalformedStatusLine);
    }
    let text: &'b [u8] = &buf[0..end];
    assert(text@ =~= buf@.take(end as int));
    assert forall|j: int| 0 <= j < text@.len() implies #[trigger] text@[j] < 0x80 by {
        assert(is_uri_byte(buf@[j]));
    }
    Ok((RequestUri::new(parser::ascii_str(text), 0, 0), bytes::tail(buf, end + 1)))
}

/// A request head.
#[derive(Debug)]
pub struct Request<'b> {
    pub method: Method,
    pub uri: RequestUri<'b>,
    pub http_version: u8,
    pub headers: Headers<'b>,
    pub buf_offset: usize,
}

/// A request head by its bytes.
pub struct RequestView {
    pub method: MethodView,
    pub uri: TargetView,
    pub http_version: u8,
    pub headers: Seq<FieldView>,
    pub buf_offset: int,
}

impl<'b> View for Request<'b> {
    type V = RequestView;

    open spec fn view(&self) -> RequestView {
        RequestView {
            method: self.method@,
            uri: self.uri@,
            http_version: self.http_version,
            headers: self.headers@,
            buf_offset: self.buf_offset as int,
        }
    }
}

/// The request head at the start of `buf`: a method, a target, a version, two bytes that are passed
/// over, and the header fields.
pub open spec fn request(buf: Seq<u8>) -> Result<RequestView, HttpParsingError> {
    match method(buf) {
        Err(e) => Err(e),
        Ok((m, n1)) => match target(buf.skip(n1)) {
            Err(e) => Err(e),
            Ok((uri, n2)) => match parser::version(buf.skip(n1 + n2)) {
                Err(e) => Err(e),
                Ok((http_version, n3)) => {
                    let n = n1 + n2 + n3 + 2;
                    if n > buf.len() {
                        Err(HttpParsingError::UnexpectedEof)
                    } else {
                        match parser::header_fields(buf.skip(n)) {
                            Err(e) => Err(e),
                            Ok((headers, n4)) => Ok(
                                RequestView { method: m, uri, http_version, headers, buf_offset: n + n4 },
                            ),
                        }
                    }
                },
            },
        },
    }
}

impl<'b> Request<'b> {
    /// The request head at the start of `buf`; `buf_offset` is where it ends.
    pub fn parse(buf: &'b [u8]) -> (r: Result<Request<'b>, HttpParsingError>)
        ensures
            match (r, request(buf@)) {
                (Ok(req), Ok(v)) => req@ == v && req.buf_offset <= buf@.len() && req.uri.path_in_range(),
                (Err(e), Err(f)) => e == f,
                _ => false,
            },
    {
        let start: usize = buf.len();
        let (method, rest) = match parse_method(buf) {
            Ok(p) => p,
            Err(e) => return Err(e),
        };
        let ghost n1 = buf@.len() - rest@.len();
        let (uri, rest) = match parse_uri(rest) {
            Ok(p) => p,
            Err(e) => return Err(e),
        };
        let ghost n2 = buf@.len() - n1 - rest@.len();
        assert(rest@ =~= buf@.skip(n1 + n2));
        let (http_version, rest) = match parser::parse_version(rest) {
            Ok(p) => p,
            Err(e) => return Err(e),
        };
        let ghost n3 = buf@.len() - n1 - n2 - rest@.len();
        assert(rest@ =~= buf@.skip(n1 + n2 + n3));
        if rest.len() < 2 {
            return Err(HttpParsingError::UnexpectedEof);
        }
        let rest = bytes::tail(rest, 2);
        assert(rest@ =~= buf@.skip(n1 + n2 + n3 + 2));
        let (headers, rest) = match parser::parse_headers(rest) {
            Ok(p) => p,
            Err(e) => return Err(e),
        };
        proof {
            parts::law_target_parts(buf@.skip(n1));
            lemma_uri_bytes();
            encode_utf8_valid_utf8(uri.text());
            request_uri::lemma_ascii_boundaries(uri.bytes());
        }
        Ok(Request { method, uri, http_version, headers, buf_offset: start - rest.len() })
    }
}

} // verus!
