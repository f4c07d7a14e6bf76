//! Response heads.

use crate::bytes;
use crate::bytes::{CR, LF, SP};
use crate::http::headers::{FieldView, Headers};
use crate::http::status::Status;
use crate::parser;
use crate::parser::HttpParsingError;
use vstd::prelude::*;
use vstd::string::*;

verus! {

/// The number that three digits at the start of `buf` stand for.
pub open spec fn status_code(buf: Seq<u8>) -> Option<int> {
    if buf.len() >= 3 && parser::is_digit(buf[0]) && parser::is_digit(buf[1]) && parser::is_digit(buf[2]) {
        Some(100 * (buf[0] - '0' as u8) + 10 * (buf[1] - '0' as u8) + (buf[2] - '0' as u8))
    } else {
        None
    }
}

/// The bytes of a reason phrase: tab, space and the visible ones of ASCII.
pub open spec fn reason_bytes() -> spec_fn(u8) -> bool {
    |b: u8| b == 0x09 || 0x20 <= b <= 0x7E
}

/// A status by its code and the bytes of its reason phrase.
pub struct StatusView {
    pub code: int,
    pub reason: Seq<u8>,
}

impl<'a> View for Status<'a> {
    type V = StatusView;

    open spec fn view(&self) -> StatusView {
        StatusView { code: self.code as int, reason: self.reason.spec_bytes() }
    }
}

/// The status at the start of `buf`: a code, a space, and a reason phrase that CRLF ends; and the
/// number of bytes that it takes with that CRLF.
pub open spec fn response_status(buf: Seq<u8>) -> Result<(StatusView, int), HttpParsingError> {
    let end = bytes::run_end(buf, 4, reason_bytes());
    match status_code(buf) {
        Some(code) if buf.len() >= 4 && buf[3] == SP && end + 1 < buf.len() && buf[end] == CR && buf[end + 1]
            == LF => Ok((StatusView { code, reason: buf.subrange(4, end) }, end + 2)),
        _ => Err(HttpParsingError::MalformedStatusLine),
    }
}

fn parse_response_status_code(buf: &[u8]) -> (r: Result<u16, HttpParsingError>)
    ensures
        match (r, status_code(buf@)) {
            (Ok(code), Some(v)) => code == v,
            (Err(e), None) => e == HttpParsingError::MalformedStatusLine,
            _ => false,
        },
{
    if buf.len() < 3 {
        return Err(HttpParsingError::MalformedStatusLine);
    }
    let zero: u8 = '0' as u8;
    let nine: u8 = '9' as u8;
    let (hundreds, tens, ones) = (buf[0], buf[1], buf[2]);
    if hundreds < zero || hundreds > nine || tens < zero || tens > nine || ones < zero || ones > nine {
        return Err(HttpParsingError::MalformedStatusLine);
    }
    Ok((hundreds - zero) as u16 * 100 + (tens - zero) as u16 * 10 + (ones - zero) as u16)
}

fn parse_response_status<'b>(buf: &'b [u8]) -> (r: Result<(Status<'b>, &'b [u8]), HttpParsingError>)
    ensures
        match (r, response_status(buf@)) {
            (Ok((status, rest)), Ok((v, n))) => status@ == v && 0 < n <= buf@.len() && rest@ == buf@.skip(n),
            (Err(e), Err(f)) => e == f,
            _ => false,
        },
{
    let code: u16 = match parse_response_status_code(buf) {
        Ok(code) => code,
        Err(e) => return Err(e),
    };
    if buf.len() < 4 || buf[3] != SP {
        return Err(HttpParsingError::MalformedStatusLine);
    }
    proof {
        bytes::lemma_run_end(buf@, 4, reason_bytes());
    }
    let mut i: usize = 4;
    while i < buf.len() && (buf[i] == 0x09 || (0x20 <= buf[i] && buf[i] <= 0x7E))
        invariant
            4 <= i <= buf@.len(),
            bytes::run_end(buf@, 4, reason_bytes()) == bytes::run_end(buf@, i as int, reason_bytes()),
        decreases buf@.len() - i,
    {
        i = i + 1;
    }
    assert(i == bytes::run_end(buf@, 4, reason_bytes()));
    if buf.len() - i < 2 || buf[i] != CR || buf[i + 1] != LF {
        return Err(HttpParsingError::MalformedStatusLine);
    }
    let reason: &'b [u8] = &buf[4..i];
    assert forall|j: int| 0 <= j < reason@.len() implies #[trigger] reason@[j] < 0x80 by {
        assert(reason_bytes()(buf@[4 + j]));
    }
    Ok((Status::borrowed(code, parser::ascii_str(reason)), bytes::tail(buf, i + 2)))
}

/// A response head.
#[derive(Debug)]
pub struct Response<'b> {
    pub http_version: u8,
    pub status: Status<'b>,
    pub headers: Headers<'b>,
    pub buf_offset: usize,
}

/// A response head by its bytes.
pub struct ResponseView {
    pub http_version: u8,
    pub status: StatusView,
    pub headers: Seq<FieldView>,
    pub buf_offset: int,
}

impl<'b> View for Response<'b> {
    type V = ResponseView;

    open spec fn view(&self) -> ResponseView {
        ResponseView {
            http_version: self.http_version,
            status: self.status@,
            headers: self.headers@,
            buf_offset: self.buf_offset as int,
        }
    }
}

/// The response head at the start of `buf`: a version, a byte that is passed over, a status and the
/// header fields.
pub open spec fn response(buf: Seq<u8>) -> Result<ResponseView, HttpParsingError> {
    match parser::version(buf) {
        Err(e) => Err(e),
        Ok((http_version, n1)) => {
            if n1 + 1 > buf.len() {
                Err(HttpParsingError::MalformedStatusLine)
            } else {
                match response_status(buf.skip(n1 + 1)) {
                    Err(e) => Err(e),
                    Ok((status, n2)) => match parser::header_fields(buf.skip(n1 + 1 + n2)) {
                        Err(e) => Err(e),
                        Ok((headers, n3)) => Ok(
                            ResponseView { http_version, status, headers, buf_offset: n1 + 1 + n2 + n3 },
                        ),
                    },
                }
            }
        },
    }
}

impl<'b> Response<'b> {
    /// The response head at the start of `buf`; `buf_offset` is where it ends.
    pub fn parse(buf: &'b [u8]) -> (r: Result<Response<'b>, HttpParsingError>)
        ensures
            match (r, response(buf@)) {
                (Ok(res), Ok(v)) => res@ == v && res.buf_offset <= buf@.len(),
                (Err(e), Err(f)) => e == f,
                _ => false,
            },
    {
        let start: usize = buf.len();
        let (http_version, rest) = match parser::parse_version(buf) {
            Ok(p) => p,
            Err(e) => return Err(e),
        };
        let ghost n1 = buf@.len() - rest@.len();
        if rest.len() < 1 {
            return Err(HttpParsingError::MalformedStatusLine);
        }
        let rest = bytes::tail(rest, 1);
        assert(rest@ =~= buf@.skip(n1 + 1));
        let (status, rest) = match parse_response_status(rest) {
            Ok(p) => p,
            Err(e) => return Err(e),
        };
        let ghost n2 = buf@.len() - n1 - 1 - rest@.len();
        assert(rest@ =~= buf@.skip(n1 + 1 + n2));
        let (headers, rest) = match parser::parse_headers(rest) {
            Ok(p) => p,
            Err(e) => return Err(e),
        };
        Ok(Response { http_version, status, headers, buf_offset: start - rest.len() })
    }
}

} // verus!
