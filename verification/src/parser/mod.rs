//! Parsing of message heads.

use crate::bytes;
use crate::bytes::{COLON, CR, LF};
use crate::http::headers::{FieldView, Headers};
use vstd::prelude::*;
use vstd::string::*;
use vstd::utf8::*;

pub mod format;
pub mod parts;
pub mod request;
pub mod response;
pub mod stability;

verus! {

/// The error that reading from a stream comes back with; nothing is read out of it.
#[verifier::external_type_specification]
#[verifier::external_body]
pub struct ExIoError(std::io::Error);

/// Why a message head was not parsed.
#[derive(Debug)]
#[non_exhaustive]
pub enum HttpParsingError {
    UnsupportedHttpVersion,
    MalformedStatusLine,
    MalformedHeader,
    UnexpectedEof,
    IOError(std::io::Error),
}

impl PartialEq for HttpParsingError {
    fn eq(&self, other: &Self) -> (r: bool) {
        match (self, other) {
            (HttpParsingError::UnsupportedHttpVersion, HttpParsingError::UnsupportedHttpVersion) => true,
            (HttpParsingError::MalformedStatusLine, HttpParsingError::MalformedStatusLine) => true,
            (HttpParsingError::MalformedHeader, HttpParsingError::MalformedHeader) => true,
            (HttpParsingError::UnexpectedEof, HttpParsingError::UnexpectedEof) => true,
            (HttpParsingError::IOError(_), HttpParsingError::IOError(_)) => true,
            _ => false,
        }
    }
}

impl vstd::std_specs::cmp::PartialEqSpecImpl for HttpParsingError {
    open spec fn obeys_eq_spec() -> bool {
        true
    }

    /// Two errors are equal if they are of one kind; what an I/O error holds does not count.
    open spec fn eq_spec(&self, other: &Self) -> bool {
        match self {
            HttpParsingError::UnsupportedHttpVersion => other is UnsupportedHttpVersion,
            HttpParsingError::MalformedStatusLine => other is MalformedStatusLine,
            HttpParsingError::MalformedHeader => other is MalformedHeader,
            HttpParsingError::UnexpectedEof => other is UnexpectedEof,
            HttpParsingError::IOError(_) => other is IOError,
        }
    }
}

impl From<std::io::Error> for HttpParsingError {
    fn from(e: std::io::Error) -> (r: Self) {
        HttpParsingError::IOError(e)
    }
}

impl vstd::std_specs::convert::FromSpecImpl<std::io::Error> for HttpParsingError {
    open spec fn obeys_from_spec() -> bool {
        true
    }

    open spec fn from_spec(e: std::io::Error) -> Self {
        HttpParsingError::IOError(e)
    }
}

impl HttpParsingError {
    /// The error in words.
    pub fn to_string(&self) -> (r: String)
        ensures
            match self {
                HttpParsingError::MalformedStatusLine => r@ == "malformed status line"@,
                HttpParsingError::UnsupportedHttpVersion => r@ == "invalid http version"@,
                HttpParsingError::MalformedHeader => r@ == "malformed header"@,
                HttpParsingError::UnexpectedEof => r@ == "unexpected eof"@,
                HttpParsingError::IOError(e) => exists|text: String|
                    #![trigger text@]
                    to_string_from_display_ensures(e, text) && r@ == "io error: "@ + text@,
            },
    {
        match self {
            HttpParsingError::MalformedStatusLine => "malformed status line".to_owned(),
            HttpParsingError::UnsupportedHttpVersion => "invalid http version".to_owned(),
            HttpParsingError::MalformedHeader => "malformed header".to_owned(),
            HttpParsingError::UnexpectedEof => "unexpected eof".to_owned(),
            HttpParsingError::IOError(e) => {
                let text = e.to_string();
                let mut r: String = "io error: ".to_owned();
                r.append(text.as_str());
                r
            },
        }
    }
}

/// The outside error of a failed UTF-8 check; nothing is read out of it.
#[verifier::external_type_specification]
#[verifier::external_body]
pub struct ExUtf8Error(core::str::Utf8Error);

/// Trusted: `memchr::memchr` gives the index of the first `needle` in `haystack`, and `None` where
/// there is none.
pub assume_specification[ memchr::memchr ](needle: u8, haystack: &[u8]) -> (r: Option<usize>)
    ensures
        match r {
            Some(i) => i < haystack@.len() && i == bytes::first_index(haystack@, needle),
            None => bytes::first_index(haystack@, needle) == haystack@.len(),
        },
;

/// Trusted: `core::str::from_utf8` gives a string slice of the same bytes, if and only if they are
/// valid UTF-8.
pub assume_specification[ core::str::from_utf8 ](v: &[u8]) -> (r: Result<&str, core::str::Utf8Error>)
    ensures
        r is Ok <==> valid_utf8(v@),
        r matches Ok(s) ==> s.spec_bytes() == v@,
;

/// Whether all bytes are ASCII.
pub open spec fn is_ascii_bytes(s: Seq<u8>) -> bool {
    forall|i: int| 0 <= i < s.len() ==> #[trigger] s[i] < 0x80
}

proof fn lemma_ascii_is_utf8(s: Seq<u8>)
    requires
        is_ascii_bytes(s),
    ensures
        valid_utf8(s),
{
    assert(partial_valid_utf8(s, 0)) by {
        assert(s.subrange(0, 0) =~= Seq::empty());
    }
    partial_valid_utf8_extend_ascii_block(s, 0, s.len() as int);
    assert(s.subrange(0, s.len() as int) =~= s);
}

/// ASCII bytes as a string slice.
pub(crate) fn ascii_str(s: &[u8]) -> (r: &str)
    requires
        is_ascii_bytes(s@),
    ensures
        r.spec_bytes() == s@,
{
    proof {
        lemma_ascii_is_utf8(s@);
    }
    match core::str::from_utf8(s) {
        Ok(r) => r,
        Err(_) => "",
    }
}

pub open spec fn is_alphabetic(b: u8) -> bool {
    ('A' as u8 <= b <= 'Z' as u8) || ('a' as u8 <= b <= 'z' as u8)
}

pub open spec fn is_digit(b: u8) -> bool {
    '0' as u8 <= b <= '9' as u8
}

pub(crate) fn is_alphanumeric(b: u8) -> (r: bool)
    ensures
        r == (is_alphabetic(b) || is_digit(b)),
{
    ('A' as u8 <= b && b <= 'Z' as u8) || ('a' as u8 <= b && b <= 'z' as u8) || ('0' as u8 <= b && b
        <= '9' as u8)
}

/// The bytes that a header field's name is made of.
pub open spec fn is_header_field_byte(b: u8) -> bool {
    is_alphabetic(b) || is_digit(b) || bytes::ascii("!#$%&'*+-.^_`|~"@).contains(b)
}

fn is_valid_header_field_byte(b: u8) -> (r: bool)
    ensures
        r == is_header_field_byte(b),
{
    let marks: &[u8] = "!#$%&'*+-.^_`|~".as_bytes();
    proof {
        reveal_strlit("!#$%&'*+-.^_`|~");
        bytes::lemma_ascii_bytes("!#$%&'*+-.^_`|~");
    }
    is_alphanumeric(b) || bytes::contains(marks, b)
}

/// The whitespace of ASCII: space, tab, line feed, form feed and carriage return.
pub open spec fn whitespace() -> spec_fn(u8) -> bool {
    |b: u8| b == 0x20 || b == 0x09 || b == 0x0A || b == 0x0C || b == 0x0D
}

/// What is left of `s` without the whitespace that it begins with.
pub open spec fn trim_start(s: Seq<u8>) -> Seq<u8> {
    s.skip(bytes::run_end(s, 0, whitespace()))
}

fn trim_ascii_start(s: &[u8]) -> (r: &[u8])
    ensures
        r@ == trim_start(s@),
{
    let mut i: usize = 0;
    while i < s.len() && (s[i] == 0x20 || s[i] == 0x09 || s[i] == 0x0A || s[i] == 0x0C || s[i] == 0x0D)
        invariant
            i <= s@.len(),
            bytes::run_end(s@, 0, whitespace()) == bytes::run_end(s@, i as int, whitespace()),
        decreases s@.len() - i,
    {
        i = i + 1;
    }
    bytes::tail(s, i)
}

/// The field that a header line holds: a name of header field bytes up to the first colon, and the
/// value behind it without leading whitespace.
pub open spec fn header_line(line: Seq<u8>) -> Result<FieldView, HttpParsingError> {
    let colon = bytes::first_index(line, COLON);
    if colon < line.len() && (forall|i: int| 0 <= i < colon ==> is_header_field_byte(#[trigger] line[i])) {
        Ok((line.take(colon), trim_start(line.skip(colon + 1))))
    } else {
        Err(HttpParsingError::MalformedHeader)
    }
}

/// `r` with the fields `fields` put before its own, and `n` bytes more consumed.
pub open spec fn after_fields(
    fields: Seq<FieldView>,
    n: int,
    r: Result<(Seq<FieldView>, int), HttpParsingError>,
) -> Result<(Seq<FieldView>, int), HttpParsingError> {
    match r {
        Ok((more, m)) => Ok((fields + more, n + m)),
        Err(e) => Err(e),
    }
}

/// The header fields at the start of `buf`, up to and with the empty line that ends them, and the
/// number of bytes that they take. A line that ends in a line feed alone is passed over.
pub open spec fn header_fields(buf: Seq<u8>) -> Result<(Seq<FieldView>, int), HttpParsingError>
    decreases buf.len(),
{
    let nl = bytes::first_index(buf, LF);
    if buf.len() >= 2 && buf[0] == CR && buf[1] == LF {
        Ok((Seq::empty(), 2))
    } else if !(0 <= nl < buf.len()) {
        Err(HttpParsingError::UnexpectedEof)
    } else if nl == 0 || buf[nl - 1] != CR {
        after_fields(Seq::empty(), nl + 1, header_fields(buf.skip(nl + 1)))
    } else {
        match header_line(buf.take(nl - 1)) {
            Ok(field) => after_fields(seq![field], nl + 1, header_fields(buf.skip(nl + 1))),
            Err(e) => Err(e),
        }
    }
}

/// Whether a parser's result is the one that is expected of it on `buf`, the rest of the input
/// beginning after the number of bytes expected to be consumed.
pub open spec fn agrees<T>(
    r: Result<(T, &[u8]), HttpParsingError>,
    buf: Seq<u8>,
    expected: Result<(T, int), HttpParsingError>,
) -> bool {
    match (r, expected) {
        (Ok((v, rest)), Ok((w, n))) => v == w && 0 <= n <= buf.len() && rest@ == buf.skip(n),
        (Err(e), Err(f)) => e == f,
        _ => false,
    }
}

fn parse_header_line(line: &[u8]) -> (r: Result<(&str, &[u8]), HttpParsingError>)
    ensures
        match (r, header_line(line@)) {
            (Ok((name, value)), Ok(field)) => (name.spec_bytes(), value@) == field,
            (Err(e), Err(f)) => e == f,
            _ => false,
        },
{
    proof {
        bytes::lemma_run_end(line@, 0, bytes::other_than(COLON));
        reveal_strlit("!#$%&'*+-.^_`|~");
    }
    let colon: usize = match memchr::memchr(COLON, line) {
        Some(i) => i,
        None => return Err(HttpParsingError::MalformedHeader),
    };
    let mut i: usize = 0;
    while i < colon
        invariant
            i <= colon < line@.len(),
            colon == bytes::first_index(line@, COLON),
            forall|j: int| 0 <= j < i ==> is_header_field_byte(#[trigger] line@[j]),
        decreases colon - i,
    {
        if !is_valid_header_field_byte(line[i]) {
            return Err(HttpParsingError::MalformedHeader);
        }
        i = i + 1;
    }
    assert(colon < line.len());
    let name_bytes: &[u8] = &line[0..colon];
    assert(name_bytes@ =~= line@.take(colon as int));
    assert(is_ascii_bytes(name_bytes@));
    let name = ascii_str(name_bytes);
    let value = trim_ascii_start(bytes::tail(line, colon + 1));
    Ok((name, value))
}

/// What the first line of the header fields is: the empty line that ends them, or one that holds a
/// field or is passed over; with what follows it.
enum HeaderStep<'b> {
    End(&'b [u8]),
    Line(Option<(&'b str, &'b [u8])>, &'b [u8]),
}

/// The fields, one or none, that a line holds.
spec fn line_fields(field: Option<(&str, &[u8])>) -> Seq<FieldView> {
    match field {
        Some((name, value)) => seq![(name.spec_bytes(), value@)],
        None => Seq::empty(),
    }
}

fn header_step<'b>(buf: &'b [u8]) -> (r: Result<HeaderStep<'b>, HttpParsingError>)
    ensures
        match r {
            Ok(HeaderStep::End(rest)) => buf@.len() >= 2 && rest@ == buf@.skip(2) && header_fields(buf@)
                == Ok::<(Seq<FieldView>, int), HttpParsingError>((Seq::empty(), 2)),
            Ok(HeaderStep::Line(field, next)) => next@.len() < buf@.len() && next@ == buf@.skip(
                buf@.len() - next@.len(),
            ) && header_fields(buf@) == after_fields(
                line_fields(field),
                buf@.len() - next@.len(),
                header_fields(next@),
            ),
            Err(e) => header_fields(buf@) == Err::<(Seq<FieldView>, int), HttpParsingError>(e),
        },
{
    proof {
        bytes::lemma_run_end(buf@, 0, bytes::other_than(LF));
    }
    if buf.len() >= 2 && buf[0] == CR && buf[1] == LF {
        return Ok(HeaderStep::End(bytes::tail(buf, 2)));
    }
    let nl: usize = match memchr::memchr(LF, buf) {
        Some(p) => p,
        None => return Err(HttpParsingError::UnexpectedEof),
    };
    assert(nl < buf.len());
    let next: &'b [u8] = bytes::tail(buf, nl + 1);
    if nl == 0 || buf[nl - 1] != CR {
        return Ok(HeaderStep::Line(None, next));
    }
    let line: &'b [u8] = &buf[0..nl - 1];
    assert(line@ =~= buf@.take(nl - 1));
    match parse_header_line(line) {
        Ok((name, value)) => Ok(HeaderStep::Line(Some((name, value)), next)),
        Err(e) => Err(e),
    }
}

/// The header fields at the start of `buf`, and what follows them.
pub(crate) fn parse_headers<'b>(buf: &'b [u8]) -> (r: Result<(Headers<'b>, &'b [u8]), HttpParsingError>)
    ensures
        match (r, header_fields(buf@)) {
            (Ok((headers, rest)), Ok((fields, n))) => headers@ == fields && 0 <= n <= buf@.len() && rest@
                == buf@.skip(n),
            (Err(e), Err(f)) => e == f,
            _ => false,
        },
{
    let mut headers: Headers<'b> = Headers::new();
    let mut rest: &'b [u8] = buf;
    let ghost mut done: int = 0;
    proof {
        assert(buf@.skip(0) =~= buf@);
        lemma_after_nothing(header_fields(buf@));
    }
    loop
        invariant
            0 <= done <= buf@.len(),
            rest@ == buf@.skip(done),
            header_fields(buf@) == after_fields(headers@, done, header_fields(rest@)),
        decreases rest@.len(),
    {
        match header_step(rest) {
            Err(e) => return Err(e),
            Ok(HeaderStep::End(after)) => {
                assert(headers@ + Seq::empty() =~= headers@);
                assert(after@ =~= buf@.skip(done + 2));
                return Ok((headers, after));
            },
            Ok(HeaderStep::Line(field, next)) => {
                let ghost before = headers@;
                if let Some((name, value)) = field {
                    headers.add(name, value);
                }
                proof {
                    let n = rest@.len() - next@.len();
                    lemma_after_fields(before, done, line_fields(field), n, header_fields(next@));
                    assert(before + line_fields(field) =~= headers@);
                    assert(next@ =~= buf@.skip(done + n));
                    done = done + n;
                }
                rest = next;
            },
        }
    }
}

proof fn lemma_after_nothing(r: Result<(Seq<FieldView>, int), HttpParsingError>)
    ensures
        after_fields(Seq::empty(), 0, r) == r,
{
    if let Ok((fields, _)) = r {
        assert(Seq::<FieldView>::empty() + fields =~= fields);
    }
}

proof fn lemma_after_fields(
    a: Seq<FieldView>,
    n: int,
    b: Seq<FieldView>,
    m: int,
    r: Result<(Seq<FieldView>, int), HttpParsingError>,
)
    ensures
        after_fields(a, n, after_fields(b, m, r)) == after_fields(a + b, n + m, r),
{
    if let Ok((fields, _)) = r {
        assert(a + (b + fields) =~= (a + b) + fields);
    }
}

/// The minor version of `HTTP/1.0` or `HTTP/1.1` at the start of `buf`, and the number of bytes
/// that it takes.
pub open spec fn version(buf: Seq<u8>) -> Result<(u8, int), HttpParsingError> {
    let name = bytes::ascii("HTTP/1."@);
    if name.is_prefix_of(buf) {
        if buf.len() == 7 {
            Err(HttpParsingError::UnexpectedEof)
        } else if buf[7] == '1' as u8 {
            Ok((1, 8))
        } else if buf[7] == '0' as u8 {
            Ok((0, 8))
        } else {
            Err(HttpParsingError::UnsupportedHttpVersion)
        }
    } else if buf.is_prefix_of(name) {
        Err(HttpParsingError::UnexpectedEof)
    } else {
        Err(HttpParsingError::UnsupportedHttpVersion)
    }
}

pub(crate) fn parse_version(buf: &[u8]) -> (r: Result<(u8, &[u8]), HttpParsingError>)
    ensures
        agrees(r, buf@, version(buf@)),
{
    let name: &[u8] = "HTTP/1.".as_bytes();
    proof {
        reveal_strlit("HTTP/1.");
        bytes::lemma_ascii_bytes("HTTP/1.");
    }
    if let Some(rest) = bytes::strip_prefix(buf, name) {
        if rest.len() == 0 {
            return Err(HttpParsingError::UnexpectedEof);
        }
        let minor: u8 = rest[0];
        let rest: &[u8] = bytes::tail(rest, 1);
        assert(rest@ =~= buf@.skip(8));
        return if minor == '1' as u8 {
            Ok((1, rest))
        } else if minor == '0' as u8 {
            Ok((0, rest))
        } else {
            Err(HttpParsingError::UnsupportedHttpVersion)
        };
    }
    if bytes::strip_prefix(name, buf).is_some() {
        return Err(HttpParsingError::UnexpectedEof);
    }
    Err(HttpParsingError::UnsupportedHttpVersion)
}

} // verus!
