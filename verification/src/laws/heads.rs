//! Message heads as they are put together from their parts.

use crate::bytes;
use crate::http::headers::FieldView;
use crate::http::method::MethodView;
use crate::http::request_uri::{RequestUri, TargetView};
use crate::http::status::Status;
use crate::parser;
use crate::parser::request;
use crate::parser::request::{Request, RequestView};
use crate::parser::response;
use crate::parser::response::{Response, ResponseView, StatusView};
use crate::parser::stability;
use crate::parser::HttpParsingError;
use vstd::prelude::*;
use vstd::string::*;
use vstd::utf8::*;

verus! {

/// What is wrong with the method is wrong with the request.
pub proof fn law_request_begins_with_method(buf: Seq<u8>, e: HttpParsingError)
    requires
        request::method(buf) == Err::<(MethodView, int), HttpParsingError>(e),
    ensures
        request::request(buf) == Err::<RequestView, HttpParsingError>(e),
{
}

/// Behind a method stands the target: what is wrong with it is wrong with the request.
pub proof fn law_request_goes_on_with_target(a: Seq<u8>, m: MethodView, b: Seq<u8>, e: HttpParsingError)
    requires
        request::method(a) == Ok::<(MethodView, int), HttpParsingError>((m, a.len() as int)),
        request::target(b) == Err::<(TargetView, int), HttpParsingError>(e),
    ensures
        request::request(a + b) == Err::<RequestView, HttpParsingError>(e),
{
    stability::lemma_method(a, b);
    assert((a + b).skip(a.len() as int) =~= b);
}

/// Behind a method and a target stands the version: what is wrong with it is wrong with the request.
pub proof fn law_request_goes_on_with_version(
    a: Seq<u8>,
    m: MethodView,
    b: Seq<u8>,
    t: TargetView,
    c: Seq<u8>,
    e: HttpParsingError,
)
    requires
        request::method(a) == Ok::<(MethodView, int), HttpParsingError>((m, a.len() as int)),
        request::target(b) == Ok::<(TargetView, int), HttpParsingError>((t, b.len() as int)),
        parser::version(c) == Err::<(u8, int), HttpParsingError>(e),
    ensures
        request::request(a + b + c) == Err::<RequestView, HttpParsingError>(e),
{
    lemma_line(a, m, b, t, c);
}

proof fn lemma_line(a: Seq<u8>, m: MethodView, b: Seq<u8>, t: TargetView, c: Seq<u8>)
    requires
        request::method(a) == Ok::<(MethodView, int), HttpParsingError>((m, a.len() as int)),
        request::target(b) == Ok::<(TargetView, int), HttpParsingError>((t, b.len() as int)),
    ensures
        request::method(a + b + c) == request::method(a),
        request::target((a + b + c).skip(a.len() as int)) == request::target(b),
        (a + b + c).skip((a.len() + b.len()) as int) == c,
{
    assert(a + b + c =~= a + (b + c));
    stability::lemma_method(a, b + c);
    assert((a + b + c).skip(a.len() as int) =~= b + c);
    stability::lemma_target(b, c);
    assert((a + b + c).skip((a.len() + b.len()) as int) =~= c);
}

/// A method, a target and a version are followed by two bytes, whatever they are, without which the
/// request has not ended.
pub proof fn law_request_line_has_an_end(
    a: Seq<u8>,
    m: MethodView,
    b: Seq<u8>,
    t: TargetView,
    c: Seq<u8>,
    minor: u8,
    end: Seq<u8>,
)
    requires
        request::method(a) == Ok::<(MethodView, int), HttpParsingError>((m, a.len() as int)),
        request::target(b) == Ok::<(TargetView, int), HttpParsingError>((t, b.len() as int)),
        parser::version(c) == Ok::<(u8, int), HttpParsingError>((minor, c.len() as int)),
        end.len() < 2,
    ensures
        request::request(a + b + c + end) == Err::<RequestView, HttpParsingError>(HttpParsingError::UnexpectedEof),
{
    assert(a + b + c + end =~= a + b + (c + end));
    lemma_line(a, m, b, t, c + end);
    stability::lemma_version(c, end);
}

/// A request is a method, a target, a version, two bytes and header fields, one after the other, and
/// holds what each of them was parsed for. It ends with its fields, and what is wrong with them is
/// wrong with the request.
pub proof fn law_request_is_its_parts(
    a: Seq<u8>,
    m: MethodView,
    b: Seq<u8>,
    t: TargetView,
    c: Seq<u8>,
    minor: u8,
    end: Seq<u8>,
    d: Seq<u8>,
)
    requires
        request::method(a) == Ok::<(MethodView, int), HttpParsingError>((m, a.len() as int)),
        request::target(b) == Ok::<(TargetView, int), HttpParsingError>((t, b.len() as int)),
        parser::version(c) == Ok::<(u8, int), HttpParsingError>((minor, c.len() as int)),
        end.len() == 2,
    ensures
        request::request(a + b + c + end + d) == match parser::header_fields(d) {
            Err(e) => Err::<RequestView, HttpParsingError>(e),
            Ok((fields, n)) => Ok(
                RequestView {
                    method: m,
                    uri: t,
                    http_version: minor,
                    headers: fields,
                    buf_offset: a.len() + b.len() + c.len() + 2 + n,
                },
            ),
        },
{
    let buf = a + b + c + end + d;
    assert(buf =~= a + b + (c + (end + d)));
    lemma_line(a, m, b, t, c + (end + d));
    stability::lemma_version(c, end + d);
    assert(buf.skip((a.len() + b.len() + c.len() + 2) as int) =~= d);
}

/// Three digits, a space, a reason phrase of tabs and of bytes from 0x20 through 0x7E, and CRLF are
/// the status with that number and that phrase.
pub proof fn law_status(h: u8, t: u8, o: u8, reason: Seq<u8>, rest: Seq<u8>)
    requires
        h <= 9 && t <= 9 && o <= 9,
        forall|i: int| 0 <= i < reason.len() ==> #[trigger] reason[i] == 0x09 || 0x20 <= reason[i] <= 0x7E,
    ensures
        response::response_status(
            seq![(0x30 + h) as u8, (0x30 + t) as u8, (0x30 + o) as u8, 0x20u8] + reason + seq![0x0Du8, 0x0A] + rest,
        ) == Ok::<(StatusView, int), HttpParsingError>(
            (StatusView { code: 100 * h + 10 * t + o, reason }, reason.len() + 6int),
        ),
{
    let head = seq![(0x30 + h) as u8, (0x30 + t) as u8, (0x30 + o) as u8, 0x20u8];
    let buf = head + reason + seq![0x0Du8, 0x0A] + rest;
    assert(buf[0] == head[0] && buf[1] == head[1] && buf[2] == head[2] && buf[3] == head[3]);
    let end = 4 + reason.len() as int;
    assert forall|i: int| 4 <= i < end implies response::reason_bytes()(#[trigger] buf[i]) by {
        assert(buf[i] == reason[i - 4]);
    }
    assert(buf[end] == 0x0D && buf[end + 1] == 0x0A);
    bytes::lemma_run_end_at(buf, 4, end, response::reason_bytes());
    assert(buf.subrange(4, end) =~= reason);
}

/// What is parsed as a status is one of that form, and anything else is malformed.
pub proof fn law_only_such_a_status(buf: Seq<u8>)
    ensures
        match response::response_status(buf) {
            Ok((status, n)) => {
                &&& n == status.reason.len() + 6 && n <= buf.len()
                &&& 0x30 <= buf[0] <= 0x39 && 0x30 <= buf[1] <= 0x39 && 0x30 <= buf[2] <= 0x39
                &&& status.code == 100 * (buf[0] - 0x30) + 10 * (buf[1] - 0x30) + (buf[2] - 0x30)
                &&& buf[3] == 0x20
                &&& status.reason == buf.subrange(4, n - 2)
                &&& forall|i: int|
                    0 <= i < status.reason.len() ==> #[trigger] status.reason[i] == 0x09 || 0x20 <= status.reason[i]
                        <= 0x7E
                &&& buf[n - 2] == 0x0D && buf[n - 1] == 0x0A
            },
            Err(e) => e == HttpParsingError::MalformedStatusLine,
        },
{
    if buf.len() >= 4 {
        bytes::lemma_run_end(buf, 4, response::reason_bytes());
    }
    if let Ok((status, n)) = response::response_status(buf) {
        assert forall|i: int| 0 <= i < status.reason.len() implies #[trigger] status.reason[i] == 0x09 || 0x20
            <= status.reason[i] <= 0x7E by {
            assert(status.reason[i] == buf[4 + i]);
            assert(response::reason_bytes()(buf[4 + i]));
        }
    }
}

/// What is wrong with the version is wrong with the response.
pub proof fn law_response_begins_with_version(buf: Seq<u8>, e: HttpParsingError)
    requires
        parser::version(buf) == Err::<(u8, int), HttpParsingError>(e),
    ensures
        response::response(buf) == Err::<ResponseView, HttpParsingError>(e),
{
}

/// Behind a version and one byte, whatever it is, stands the status: what is wrong with it is wrong
/// with the response, and so is the lack of them.
pub proof fn law_response_goes_on_with_status(a: Seq<u8>, minor: u8, sp: u8, b: Seq<u8>, e: HttpParsingError)
    requires
        parser::version(a) == Ok::<(u8, int), HttpParsingError>((minor, a.len() as int)),
    ensures
        response::response(a) == Err::<ResponseView, HttpParsingError>(HttpParsingError::MalformedStatusLine),
        response::response_status(b) == Err::<(StatusView, int), HttpParsingError>(e) ==> response::response(
            a + seq![sp] + b,
        ) == Err::<ResponseView, HttpParsingError>(e),
{
    let buf = a + seq![sp] + b;
    assert(buf =~= a + (seq![sp] + b));
    stability::lemma_version(a, seq![sp] + b);
    assert(buf.skip(a.len() + 1int) =~= b);
}

/// A response is a version, one byte, a status and header fields, one after the other, and holds what
/// each of them was parsed for. It ends with its fields, and what is wrong with them is wrong with
/// the response.
pub proof fn law_response_is_its_parts(a: Seq<u8>, minor: u8, sp: u8, b: Seq<u8>, status: StatusView, d: Seq<u8>)
    requires
        parser::version(a) == Ok::<(u8, int), HttpParsingError>((minor, a.len() as int)),
        response::response_status(b) == Ok::<(StatusView, int), HttpParsingError>((status, b.len() as int)),
    ensures
        response::response(a + seq![sp] + b + d) == match parser::header_fields(d) {
            Err(e) => Err::<ResponseView, HttpParsingError>(e),
            Ok((fields, n)) => Ok(
                ResponseView {
                    http_version: minor,
                    status,
                    headers: fields,
                    buf_offset: a.len() + 1 + b.len() + n,
                },
            ),
        },
{
    let buf = a + seq![sp] + b + d;
    assert(buf =~= a + (seq![sp] + b + d));
    stability::lemma_version(a, seq![sp] + b + d);
    assert(buf.skip(a.len() + 1int) =~= b + d);
    stability::lemma_response_status(b, d);
    assert(buf.skip((a.len() + 1 + b.len()) as int) =~= d);
}

/// Heads stand for what their fields hold: the method, the bytes of the target with the range of its
/// path, the version, the header fields and the end; the code of a status and the bytes of its
/// reason.
pub proof fn law_heads_by_their_fields(req: Request<'_>, uri: RequestUri<'_>, res: Response<'_>, status: Status<'_>)
    ensures
        req@.method == req.method@,
        req@.uri == req.uri@,
        req@.http_version == req.http_version,
        req@.headers == req.headers@,
        req@.buf_offset == req.buf_offset,
        uri@.bytes == encode_utf8(uri.text()),
        uri.bytes() == encode_utf8(uri.text()),
        uri@.path_start == uri.path_start(),
        uri@.path_end == uri.path_end(),
        res@.http_version == res.http_version,
        res@.status == res.status@,
        res@.headers == res.headers@,
        res@.buf_offset == res.buf_offset,
        status@.code == status.code,
        status@.reason == status.reason.spec_bytes(),
{
}

} // verus!
