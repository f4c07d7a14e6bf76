//! Message heads in their written form, and that they are parsed for what they were written from.

use crate::bytes;
use crate::bytes::{ASTERISK, COLON, CR, LF, QUESTION, SLASH, SP};
use crate::http::headers::FieldView;
use crate::http::method::MethodView;
use crate::http::request_uri;
use crate::http::request_uri::TargetView;
use crate::parser;
use crate::parser::request;
use crate::parser::request::RequestView;
use crate::parser::response;
use crate::parser::response::{ResponseView, StatusView};
use crate::parser::stability;
use crate::parser::HttpParsingError;
use vstd::prelude::*;
use vstd::string::*;

verus! {

/// Whether a field can be written: its name is made of header field bytes, and its value holds no
/// line feed and begins with no whitespace.
pub open spec fn writable_field(field: FieldView) -> bool {
    &&& forall|i: int| 0 <= i < field.0.len() ==> parser::is_header_field_byte(#[trigger] field.0[i])
    &&& forall|i: int| 0 <= i < field.1.len() ==> #[trigger] field.1[i] != LF
    &&& field.1.len() > 0 ==> !parser::whitespace()(field.1[0])
}

/// The line of a field.
pub open spec fn field_line(field: FieldView) -> Seq<u8> {
    field.0 + seq![COLON, SP] + field.1 + seq![CR, LF]
}

/// The lines of the fields and the empty line that ends them.
pub open spec fn field_lines(fields: Seq<FieldView>) -> Seq<u8>
    decreases fields.len(),
{
    if fields.len() == 0 {
        seq![CR, LF]
    } else {
        field_line(fields[0]) + field_lines(fields.drop_first())
    }
}

/// `HTTP/1.0` or `HTTP/1.1`.
pub open spec fn version_name(minor: u8) -> Seq<u8> {
    bytes::ascii("HTTP/1."@) + seq![
        if minor == 0 {
            '0' as u8
        } else {
            '1' as u8
        },
    ]
}

/// A request head as it is written.
pub open spec fn request_head(token: Seq<u8>, target: Seq<u8>, minor: u8, fields: Seq<FieldView>) -> Seq<u8> {
    token + seq![SP] + target + seq![SP] + version_name(minor) + seq![CR, LF] + field_lines(fields)
}

/// The three digits of a status code.
pub open spec fn code_digits(code: int) -> Seq<u8> {
    seq![
        ('0' as u8 + code / 100) as u8,
        ('0' as u8 + code / 10 % 10) as u8,
        ('0' as u8 + code % 10) as u8,
    ]
}

/// A response head as it is written.
pub open spec fn response_head(minor: u8, status: StatusView, fields: Seq<FieldView>) -> Seq<u8> {
    version_name(minor) + seq![SP] + code_digits(status.code) + seq![SP] + status.reason + seq![CR, LF]
        + field_lines(fields)
}

proof fn lemma_header_field_bytes()
    ensures
        forall|b: u8| #[trigger] parser::is_header_field_byte(b) ==> b != COLON && b != CR && b != LF,
{
    reveal_strlit("!#$%&'*+-.^_`|~");
}

proof fn lemma_field_line(field: FieldView)
    requires
        writable_field(field),
    ensures
        parser::header_line(field.0 + seq![COLON, SP] + field.1) == Ok::<FieldView, HttpParsingError>(field),
{
    lemma_header_field_bytes();
    let (name, value) = field;
    let line = name + seq![COLON, SP] + value;
    let colon = name.len() as int;
    assert forall|i: int| 0 <= i < colon implies bytes::other_than(COLON)(#[trigger] line[i]) by {
        assert(line[i] == name[i]);
    }
    bytes::lemma_run_end_at(line, 0, colon, bytes::other_than(COLON));
    assert(line.take(colon) =~= name);
    let behind = line.skip(colon + 1);
    assert(behind =~= seq![SP] + value);
    if value.len() > 0 {
        assert(behind[1] == value[0]);
        bytes::lemma_run_end_at(behind, 0, 1, parser::whitespace());
    } else {
        bytes::lemma_run_end(behind, 0, parser::whitespace());
    }
    assert(parser::trim_start(behind) =~= value);
    assert forall|i: int| 0 <= i < colon implies parser::is_header_field_byte(#[trigger] line[i]) by {
        assert(line[i] == name[i]);
    }
}

proof fn lemma_field_lines(fields: Seq<FieldView>)
    requires
        forall|i: int| 0 <= i < fields.len() ==> writable_field(#[trigger] fields[i]),
    ensures
        parser::header_fields(field_lines(fields)) == Ok::<(Seq<FieldView>, int), HttpParsingError>(
            (fields, field_lines(fields).len() as int),
        ),
    decreases fields.len(),
{
    let buf = field_lines(fields);
    if fields.len() == 0 {
        assert(fields =~= Seq::empty());
    } else {
        let field = fields[0];
        let rest = fields.drop_first();
        lemma_field_lines(rest);
        lemma_field_line(field);
        lemma_header_field_bytes();
        let (name, value) = field;
        let line = name + seq![COLON, SP] + value;
        let nl: int = line.len() + 1int;
        assert(buf =~= line + seq![CR, LF] + field_lines(rest));
        assert forall|i: int| 0 <= i < nl implies bytes::other_than(LF)(#[trigger] buf[i]) by {
            if i < name.len() {
                assert(buf[i] == name[i]);
            } else if i < name.len() + 2 {
                assert(buf[i] == seq![COLON, SP][i - name.len()]);
            } else if i < line.len() {
                assert(buf[i] == value[i - name.len() - 2]);
            }
        }
        bytes::lemma_run_end_at(buf, 0, nl, bytes::other_than(LF));
        assert(buf[0] != CR) by {
            if name.len() > 0 {
                assert(buf[0] == name[0]);
                assert(parser::is_header_field_byte(name[0]));
            }
        }
        assert(buf.take(nl - 1) =~= line);
        assert(buf.skip(nl + 1) =~= field_lines(rest));
        assert(seq![field] + rest =~= fields);
    }
}

/// A request head that is written from a method token, a target that parses, a version and fields
/// that can be written is parsed for them, whatever follows it.
pub proof fn law_written_request_is_parsed(
    token: Seq<u8>,
    method: MethodView,
    uri: TargetView,
    minor: u8,
    fields: Seq<FieldView>,
    body: Seq<u8>,
)
    requires
        !token.contains(SP),
        request::method_of(token) == Ok::<MethodView, HttpParsingError>(method),
        request::target(uri.bytes + seq![SP]) == Ok::<(TargetView, int), HttpParsingError>(
            (uri, uri.bytes.len() + 1int),
        ),
        minor == 0 || minor == 1,
        forall|i: int| 0 <= i < fields.len() ==> writable_field(#[trigger] fields[i]),
    ensures
        request::request(request_head(token, uri.bytes, minor, fields) + body) == Ok::<
            RequestView,
            HttpParsingError,
        >(
            RequestView {
                method,
                uri,
                http_version: minor,
                headers: fields,
                buf_offset: request_head(token, uri.bytes, minor, fields).len() as int,
            },
        ),
{
    let buf = request_head(token, uri.bytes, minor, fields);
    let target = uri.bytes;
    let tail = seq![CR, LF] + field_lines(fields);
    lemma_request_head(token, target, minor, fields);
    lemma_written_method(token, target + seq![SP] + version_name(minor) + tail);
    stability::lemma_target(target + seq![SP], version_name(minor) + tail);
    lemma_version_name(minor, tail);
    lemma_field_lines(fields);
    stability::law_request_extends(buf, body);
}

/// What follows each part of a request head.
proof fn lemma_request_head(token: Seq<u8>, target: Seq<u8>, minor: u8, fields: Seq<FieldView>)
    ensures
        ({
            let buf = request_head(token, target, minor, fields);
            let tail = seq![CR, LF] + field_lines(fields);
            let (n1, n2) = (token.len() + 1, target.len() + 1);
            &&& buf == token + seq![SP] + (target + seq![SP] + version_name(minor) + tail)
            &&& buf.skip(n1 as int) == (target + seq![SP]) + (version_name(minor) + tail)
            &&& buf.skip(n1 + n2 as int) == version_name(minor) + tail
            &&& version_name(minor).len() == 8
            &&& buf.skip(n1 + n2 + 8 + 2 as int) == field_lines(fields)
            &&& buf.len() == n1 + n2 + 10 + field_lines(fields).len()
        }),
{
    reveal_strlit("HTTP/1.");
    let buf = request_head(token, target, minor, fields);
    let version = version_name(minor);
    let lines = field_lines(fields);
    let tail = seq![CR, LF] + lines;
    let (n1, n2) = (token.len() + 1, target.len() + 1);
    assert(version.len() == 8);
    assert(buf =~= token + seq![SP] + (target + seq![SP] + version + tail));
    assert(buf.skip(n1 as int) =~= (target + seq![SP]) + (version + tail));
    assert(buf.skip(n1 + n2 as int) =~= version + tail);
    assert(buf.skip(n1 + n2 + 8 + 2 as int) =~= lines);
}

proof fn lemma_written_method(token: Seq<u8>, rest: Seq<u8>)
    requires
        !token.contains(SP),
        request::method_of(token) is Ok,
    ensures
        request::method(token + seq![SP] + rest) == Ok::<(MethodView, int), HttpParsingError>(
            (request::method_of(token)->Ok_0, token.len() + 1int),
        ),
{
    let buf = token + seq![SP] + rest;
    let sp = token.len() as int;
    assert forall|i: int| 0 <= i < sp implies bytes::other_than(SP)(#[trigger] buf[i]) by {
        assert(buf[i] == token[i]);
    }
    bytes::lemma_run_end_at(buf, 0, sp, bytes::other_than(SP));
    assert(buf.take(sp) =~= token);
}

/// Whether a path can be written: it begins with a slash and is made of path bytes.
pub open spec fn writable_path(path: Seq<u8>) -> bool {
    &&& path.len() > 0
    &&& path[0] == SLASH
    &&& forall|i: int| 0 <= i < path.len() ==> request::path_bytes()(#[trigger] path[i])
}

/// Whether a query can be written: it is made of target bytes.
pub open spec fn writable_query(query: Option<Seq<u8>>) -> bool {
    query matches Some(q) ==> forall|i: int| 0 <= i < q.len() ==> request::uri_bytes()(#[trigger] q[i])
}

/// A query with the mark before it, or nothing.
pub open spec fn written_query(query: Option<Seq<u8>>) -> Seq<u8> {
    match query {
        Some(q) => seq![QUESTION] + q,
        None => Seq::empty(),
    }
}

proof fn lemma_path_and_query(before: Seq<u8>, path: Seq<u8>, query: Option<Seq<u8>>)
    requires
        writable_path(path),
        writable_query(query),
    ensures
        ({
            let full = before + path + written_query(query);
            let start = before.len() as int;
            request::target_with_path(full + seq![SP], start) == Ok::<(TargetView, int), HttpParsingError>(
                (
                    TargetView { bytes: full, path_start: start, path_end: start + path.len() },
                    full.len() + 1int,
                ),
            )
        }),
{
    request::lemma_uri_bytes();
    let full = before + path + written_query(query);
    let buf = full + seq![SP];
    let start = before.len() as int;
    let path_end = start + path.len();
    assert(!request::is_uri_byte(SP));
    assert forall|i: int| start <= i < path_end implies request::path_bytes()(#[trigger] buf[i]) by {
        assert(buf[i] == path[i - start]);
    }
    match query {
        Some(q) => {
            assert(written_query(query)[0] == QUESTION);
            assert(buf[path_end] == QUESTION);
            bytes::lemma_run_end_at(buf, start, path_end, request::path_bytes());
            assert forall|i: int| path_end + 1 <= i < full.len() implies request::uri_bytes()(
                #[trigger] buf[i],
            ) by {
                assert(buf[i] == written_query(query)[i - path_end]);
                assert(buf[i] == q[i - path_end - 1]);
            }
            bytes::lemma_run_end_at(buf, path_end + 1, full.len() as int, request::uri_bytes());
        },
        None => {
            assert(buf[path_end] == SP);
            bytes::lemma_run_end_at(buf, start, path_end, request::path_bytes());
        },
    }
    assert(buf.take(full.len() as int) =~= full);
}

/// A path, with a query or without one, is parsed as the target that it is.
pub proof fn law_written_path_is_parsed(path: Seq<u8>, query: Option<Seq<u8>>)
    requires
        writable_path(path),
        writable_query(query),
    ensures
        request::target(path + written_query(query) + seq![SP]) == Ok::<(TargetView, int), HttpParsingError>(
            (
                TargetView {
                    bytes: path + written_query(query),
                    path_start: 0,
                    path_end: path.len() as int,
                },
                path.len() + written_query(query).len() + 1int,
            ),
        ),
{
    lemma_path_and_query(Seq::empty(), path, query);
    assert(Seq::<u8>::empty() + path + written_query(query) =~= path + written_query(query));
}

/// Where an authority, with the scheme before it, ends.
pub proof fn lemma_authority_end_at(buf: Seq<u8>, from: int, end: int)
    requires
        0 <= from <= end < buf.len(),
        forall|i: int|
            from <= i < end ==> request::is_uri_byte(#[trigger] buf[i]) && (buf[i] == SLASH
                ==> request::in_separator(buf, i)),
        request::is_uri_byte(buf[end]) ==> buf[end] == SLASH && !request::in_separator(buf, end),
    ensures
        request::authority_end(buf, from) == end,
    decreases end - from,
{
    if from < end {
        assert(request::is_uri_byte(buf[from]));
        lemma_authority_end_at(buf, from + 1, end);
    }
}

/// Where the path begins behind a scheme, `://` and an authority.
proof fn lemma_written_authority_end(scheme: Seq<u8>, authority: Seq<u8>, path: Seq<u8>, tail: Seq<u8>)
    requires
        forall|i: int| 0 <= i < scheme.len() ==> request::is_uri_byte(#[trigger] scheme[i]) && scheme[i] != SLASH,
        forall|i: int|
            0 <= i < authority.len() ==> request::is_uri_byte(#[trigger] authority[i]) && authority[i] != SLASH,
        path.len() > 0,
        path[0] == SLASH,
        tail.len() > 0,
        tail[0] != SLASH,
        !(authority.len() > 0 && authority.last() == COLON && path.len() > 1 && path[1] == SLASH),
    ensures
        ({
            let before = scheme + seq![COLON, SLASH, SLASH] + authority;
            request::authority_end(before + path + tail, 0) == before.len()
        }),
{
    request::lemma_uri_bytes();
    let mark = seq![COLON, SLASH, SLASH];
    let before = scheme + mark + authority;
    let buf = before + path + tail;
    let (a, b, end) = (scheme.len() as int, scheme.len() + 3, before.len() as int);
    assert(buf[a] == mark[0] && buf[a + 1] == mark[1] && buf[a + 2] == mark[2]);
    assert(request_uri::separator_at(buf, a));
    assert forall|i: int| 0 <= i < end implies request::is_uri_byte(#[trigger] buf[i]) && (buf[i] == SLASH
        ==> request::in_separator(buf, i)) by {
        if i < a {
            assert(buf[i] == scheme[i]);
        } else if i >= b {
            assert(buf[i] == authority[i - b]);
        } else {
            assert(i == a || i == a + 1 || i == a + 2);
        }
    }
    assert(buf[end] == path[0]);
    assert(!request::in_separator(buf, end)) by {
        if authority.len() > 0 {
            assert(buf[end - 1] == authority[authority.len() - 1]);
            assert(authority[authority.len() - 1] != SLASH);
            if path.len() > 1 {
                assert(buf[end + 1] == path[1]);
            } else {
                assert(buf[end + 1] == tail[0]);
            }
        }
    }
    lemma_authority_end_at(buf, 0, end);
}

/// A scheme, `://`, an authority and a path, with a query or without one, are parsed as the target
/// that they make up. The scheme and the authority may be empty. Only a scheme that begins with an
/// asterisk, which is a target of its own, and an authority whose last colon makes another `://`
/// with the path are left out.
pub proof fn law_written_absolute_target_is_parsed(
    scheme: Seq<u8>,
    authority: Seq<u8>,
    path: Seq<u8>,
    query: Option<Seq<u8>>,
)
    requires
        scheme.len() > 0 ==> scheme[0] != ASTERISK,
        forall|i: int| 0 <= i < scheme.len() ==> request::is_uri_byte(#[trigger] scheme[i]) && scheme[i] != SLASH,
        !(authority.len() > 0 && authority.last() == COLON && path.len() > 1 && path[1] == SLASH),
        forall|i: int|
            0 <= i < authority.len() ==> request::is_uri_byte(#[trigger] authority[i]) && authority[i] != SLASH,
        writable_path(path),
        writable_query(query),
    ensures
        ({
            let before = scheme + seq![COLON, SLASH, SLASH] + authority;
            let full = before + path + written_query(query);
            request::target(full + seq![SP]) == Ok::<(TargetView, int), HttpParsingError>(
                (
                    TargetView {
                        bytes: full,
                        path_start: before.len() as int,
                        path_end: before.len() + path.len() as int,
                    },
                    full.len() + 1int,
                ),
            )
        }),
{
    request::lemma_uri_bytes();
    let before = scheme + seq![COLON, SLASH, SLASH] + authority;
    let full = before + path + written_query(query);
    let buf = full + seq![SP];
    let tail = written_query(query) + seq![SP];
    assert(tail[0] != SLASH) by {
        if query is Some {
            assert(tail[0] == written_query(query)[0]);
        } else {
            assert(tail[0] == SP);
        }
    }
    assert(buf =~= before + path + tail);
    lemma_written_authority_end(scheme, authority, path, tail);
    assert(buf[0] != ASTERISK && buf[0] != SLASH) by {
        if scheme.len() > 0 {
            assert(buf[0] == scheme[0]);
            assert(request::is_uri_byte(scheme[0]));
        } else {
            assert(buf[0] == seq![COLON, SLASH, SLASH][0]);
        }
    }
    assert(buf[before.len() as int] == path[0]);
    lemma_path_and_query(before, path, query);
}

/// A target without a path, that is an authority with or without a scheme before it and a query
/// behind it, is parsed as the target that it is: its every slash belongs to a `://`.
pub proof fn law_written_target_without_path_is_parsed(full: Seq<u8>)
    requires
        full.len() > 0 && full[0] != SLASH && full[0] != ASTERISK,
        forall|i: int|
            0 <= i < full.len() ==> request::is_uri_byte(#[trigger] full[i]) && (full[i] == SLASH
                ==> request::in_separator(full, i)),
    ensures
        request::target(full + seq![SP]) == Ok::<(TargetView, int), HttpParsingError>(
            (TargetView { bytes: full, path_start: 0, path_end: 0 }, full.len() + 1int),
        ),
{
    request::lemma_uri_bytes();
    let buf = full + seq![SP];
    let end = full.len() as int;
    assert(buf[0] == full[0]);
    assert(buf[end] == SP);
    assert forall|i: int| 0 <= i < end implies request::is_uri_byte(#[trigger] buf[i]) && (buf[i] == SLASH
        ==> request::in_separator(buf, i)) by {
        assert(buf[i] == full[i]);
        assert(request_uri::separator_at(full, i - 1) ==> request_uri::separator_at(buf, i - 1));
        assert(request_uri::separator_at(full, i - 2) ==> request_uri::separator_at(buf, i - 2));
    }
    lemma_authority_end_at(buf, 0, end);
    assert(buf.take(end) =~= full);
}

proof fn lemma_version_name(minor: u8, rest: Seq<u8>)
    requires
        minor == 0 || minor == 1,
    ensures
        version_name(minor).len() == 8,
        parser::version(version_name(minor) + rest) == Ok::<(u8, int), HttpParsingError>((minor, 8)),
{
    reveal_strlit("HTTP/1.");
    let name = bytes::ascii("HTTP/1."@);
    let buf = version_name(minor) + rest;
    assert(name =~= buf.take(7));
    assert(buf[7] == version_name(minor)[7]);
}

/// A response head that is written from a version, a status and fields that can be written is parsed
/// for them, whatever follows it.
pub proof fn law_written_response_is_parsed(minor: u8, status: StatusView, fields: Seq<FieldView>, body: Seq<u8>)
    requires
        minor == 0 || minor == 1,
        0 <= status.code <= 999,
        forall|i: int| 0 <= i < status.reason.len() ==> response::reason_bytes()(#[trigger] status.reason[i]),
        forall|i: int| 0 <= i < fields.len() ==> writable_field(#[trigger] fields[i]),
    ensures
        response::response(response_head(minor, status, fields) + body) == Ok::<ResponseView, HttpParsingError>(
            ResponseView {
                http_version: minor,
                status,
                headers: fields,
                buf_offset: response_head(minor, status, fields).len() as int,
            },
        ),
{
    let buf = response_head(minor, status, fields);
    let version = version_name(minor);
    let lines = field_lines(fields);
    let digits = code_digits(status.code);
    let line = seq![SP] + digits + seq![SP] + status.reason + seq![CR, LF] + lines;
    lemma_version_name(minor, line);
    assert(buf =~= version + line);
    let rest = buf.skip(9);
    assert(rest =~= digits + seq![SP] + status.reason + seq![CR, LF] + lines);
    assert(rest[0] == digits[0] && rest[1] == digits[1] && rest[2] == digits[2]);
    assert(response::status_code(rest) == Some(status.code));
    let end: int = 4int + status.reason.len();
    assert forall|i: int| 4 <= i < end implies response::reason_bytes()(#[trigger] rest[i]) by {
        assert(rest[i] == status.reason[i - 4]);
    }
    bytes::lemma_run_end_at(rest, 4, end, response::reason_bytes());
    assert(rest.subrange(4, end) =~= status.reason);
    assert(buf.skip(9 + end + 2) =~= lines);
    lemma_field_lines(fields);
    stability::law_response_extends(buf, body);
}

} // verus!
