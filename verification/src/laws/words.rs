//! Classes of bytes, methods and versions.

use crate::bytes;
use crate::http::method::{Method, MethodView};
use crate::parser;
use crate::parser::request;
use crate::parser::response;
use crate::parser::HttpParsingError;
use vstd::prelude::*;
use vstd::std_specs::cmp::PartialEqSpec;
use vstd::std_specs::convert::FromSpec;
use vstd::string::*;
use vstd::utf8::*;

verus! {

/// The bytes of a target, by number, and those of a path, which are the same but for `?`.
pub proof fn law_target_bytes(b: u8)
    ensures
        request::is_uri_byte(b) <==> (b == 0x21 || 0x23 <= b <= 0x3B || b == 0x3D || 0x3F <= b <= 0x5B || b == 0x5D || b
            == 0x5F || 0x61 <= b <= 0x7A || b == 0x7E),
        request::uri_bytes()(b) <==> (b == 0x21 || 0x23 <= b <= 0x3B || b == 0x3D || 0x3F <= b <= 0x5B || b == 0x5D || b
            == 0x5F || 0x61 <= b <= 0x7A || b == 0x7E),
        request::path_bytes()(b) <==> (b == 0x21 || 0x23 <= b <= 0x3B || b == 0x3D || 0x40 <= b <= 0x5B || b == 0x5D || b
            == 0x5F || 0x61 <= b <= 0x7A || b == 0x7E),
{
    reveal_strlit("-._~:/?#[]@!$&'()*+,;=%");
    let marks = bytes::ascii("-._~:/?#[]@!$&'()*+,;=%"@);
    assert(marks =~= seq![
        0x2Du8, 0x2E, 0x5F, 0x7E, 0x3A, 0x2F, 0x3F, 0x23, 0x5B, 0x5D, 0x40, 0x21, 0x24, 0x26, 0x27, 0x28, 0x29, 0x2A,
        0x2B, 0x2C, 0x3B, 0x3D, 0x25,
    ]);
    assert(marks[0] == 0x2D && marks[1] == 0x2E && marks[2] == 0x5F && marks[3] == 0x7E && marks[4] == 0x3A && marks[5]
        == 0x2F && marks[6] == 0x3F && marks[7] == 0x23 && marks[8] == 0x5B && marks[9] == 0x5D && marks[10] == 0x40
        && marks[11] == 0x21 && marks[12] == 0x24 && marks[13] == 0x26 && marks[14] == 0x27 && marks[15] == 0x28
        && marks[16] == 0x29 && marks[17] == 0x2A && marks[18] == 0x2B && marks[19] == 0x2C && marks[20] == 0x3B
        && marks[21] == 0x3D && marks[22] == 0x25);
}

/// The bytes of a header field's name, by number.
pub proof fn law_header_field_bytes(b: u8)
    ensures
        parser::is_header_field_byte(b) <==> (b == 0x21 || 0x23 <= b <= 0x27 || b == 0x2A || b == 0x2B || b == 0x2D || b
            == 0x2E || 0x30 <= b <= 0x39 || 0x41 <= b <= 0x5A || 0x5E <= b <= 0x7A || b == 0x7C || b == 0x7E),
{
    reveal_strlit("!#$%&'*+-.^_`|~");
    let marks = bytes::ascii("!#$%&'*+-.^_`|~"@);
    assert(marks[0] == 0x21 && marks[1] == 0x23 && marks[2] == 0x24 && marks[3] == 0x25 && marks[4] == 0x26 && marks[5]
        == 0x27 && marks[6] == 0x2A && marks[7] == 0x2B && marks[8] == 0x2D && marks[9] == 0x2E && marks[10] == 0x5E
        && marks[11] == 0x5F && marks[12] == 0x60 && marks[13] == 0x7C && marks[14] == 0x7E);
}

/// Letters, digits, whitespace and the bytes of a reason phrase, by number.
pub proof fn law_other_classes(b: u8)
    ensures
        parser::is_alphabetic(b) <==> (0x41 <= b <= 0x5A || 0x61 <= b <= 0x7A),
        parser::is_digit(b) <==> 0x30 <= b <= 0x39,
        parser::whitespace()(b) <==> (b == 0x09 || b == 0x0A || b == 0x0C || b == 0x0D || b == 0x20),
        response::reason_bytes()(b) <==> (b == 0x09 || 0x20 <= b <= 0x7E),
{
}

/// Bytes are ASCII if each of them is below 0x80.
pub proof fn law_ascii(s: Seq<u8>)
    ensures
        parser::is_ascii_bytes(s) <==> forall|i: int| 0 <= i < s.len() ==> 0 <= #[trigger] s[i] <= 0x7F,
{
}

/// The first index of a byte holds it, and no index before it does; the length stands for none.
pub proof fn law_first_index(s: Seq<u8>, b: u8)
    ensures
        ({
            let i = bytes::first_index(s, b);
            &&& 0 <= i <= s.len()
            &&& i < s.len() ==> s[i] == b
            &&& forall|j: int| 0 <= j < i ==> #[trigger] s[j] != b
        }),
{
    bytes::lemma_run_end(s, 0, bytes::other_than(b));
}

/// Eight words name the known methods. Any other run of letters is a custom method of that name, and
/// what holds something else than letters is malformed.
pub proof fn law_method_of(token: Seq<u8>)
    ensures
        request::method_of(token) == Ok::<MethodView, HttpParsingError>(MethodView::Get) <==> token == seq![
            0x47u8, 0x45, 0x54,
        ],
        request::method_of(token) == Ok::<MethodView, HttpParsingError>(MethodView::Post) <==> token == seq![
            0x50u8, 0x4F, 0x53, 0x54,
        ],
        request::method_of(token) == Ok::<MethodView, HttpParsingError>(MethodView::Head) <==> token == seq![
            0x48u8, 0x45, 0x41, 0x44,
        ],
        request::method_of(token) == Ok::<MethodView, HttpParsingError>(MethodView::Put) <==> token == seq![
            0x50u8, 0x55, 0x54,
        ],
        request::method_of(token) == Ok::<MethodView, HttpParsingError>(MethodView::Patch) <==> token == seq![
            0x50u8, 0x41, 0x54, 0x43, 0x48,
        ],
        request::method_of(token) == Ok::<MethodView, HttpParsingError>(MethodView::Delete) <==> token == seq![
            0x44u8, 0x45, 0x4C, 0x45, 0x54, 0x45,
        ],
        request::method_of(token) == Ok::<MethodView, HttpParsingError>(MethodView::Options) <==> token == seq![
            0x4Fu8, 0x50, 0x54, 0x49, 0x4F, 0x4E, 0x53,
        ],
        request::method_of(token) == Ok::<MethodView, HttpParsingError>(MethodView::Trace) <==> token == seq![
            0x54u8, 0x52, 0x41, 0x43, 0x45,
        ],
        request::method_of(token) matches Ok(MethodView::Custom(name)) ==> name == token,
        request::method_of(token) is Ok <==> forall|i: int|
            0 <= i < token.len() ==> 0x41 <= #[trigger] token[i] <= 0x5A || 0x61 <= token[i] <= 0x7A,
        request::method_of(token) matches Err(e) ==> e == HttpParsingError::MalformedStatusLine,
{
    reveal_strlit("GET");
    reveal_strlit("POST");
    reveal_strlit("HEAD");
    reveal_strlit("PUT");
    reveal_strlit("PATCH");
    reveal_strlit("DELETE");
    reveal_strlit("OPTIONS");
    reveal_strlit("TRACE");
    assert(bytes::ascii("GET"@) =~= seq![0x47u8, 0x45, 0x54]);
    assert(bytes::ascii("POST"@) =~= seq![0x50u8, 0x4F, 0x53, 0x54]);
    assert(bytes::ascii("HEAD"@) =~= seq![0x48u8, 0x45, 0x41, 0x44]);
    assert(bytes::ascii("PUT"@) =~= seq![0x50u8, 0x55, 0x54]);
    assert(bytes::ascii("PATCH"@) =~= seq![0x50u8, 0x41, 0x54, 0x43, 0x48]);
    assert(bytes::ascii("DELETE"@) =~= seq![0x44u8, 0x45, 0x4C, 0x45, 0x54, 0x45]);
    assert(bytes::ascii("OPTIONS"@) =~= seq![0x4Fu8, 0x50, 0x54, 0x49, 0x4F, 0x4E, 0x53]);
    assert(bytes::ascii("TRACE"@) =~= seq![0x54u8, 0x52, 0x41, 0x43, 0x45]);
    assert(seq![0x50u8, 0x4F, 0x53, 0x54][1] == 0x4F);
    assert(seq![0x48u8, 0x45, 0x41, 0x44][0] == 0x48);
    assert(seq![0x47u8, 0x45, 0x54][0] == 0x47);
    assert(seq![0x50u8, 0x55, 0x54][0] == 0x50);
    assert(seq![0x50u8, 0x41, 0x54, 0x43, 0x48][0] == 0x50);
    assert(seq![0x54u8, 0x52, 0x41, 0x43, 0x45][0] == 0x54);
}

/// A method ends at the first space, which it takes with it; without a space it has not ended.
pub proof fn law_method(token: Seq<u8>, rest: Seq<u8>)
    requires
        forall|i: int| 0 <= i < token.len() ==> #[trigger] token[i] != 0x20,
    ensures
        request::method(token + seq![0x20u8] + rest) == match request::method_of(token) {
            Ok(m) => Ok::<(MethodView, int), HttpParsingError>((m, token.len() + 1int)),
            Err(e) => Err(e),
        },
        request::method(token) == Err::<(MethodView, int), HttpParsingError>(HttpParsingError::UnexpectedEof),
{
    let buf = token + seq![0x20u8] + rest;
    let sp = token.len() as int;
    assert forall|i: int| 0 <= i < sp implies bytes::other_than(0x20)(#[trigger] buf[i]) by {
        assert(buf[i] == token[i]);
    }
    bytes::lemma_run_end_at(buf, 0, sp, bytes::other_than(0x20));
    assert(buf.take(sp) =~= token);
    bytes::lemma_run_end(token, 0, bytes::other_than(0x20));
}

/// A method by its variant is the method of that variant, a custom one by the bytes of its name.
pub proof fn law_method_view(m: Method)
    ensures
        m is Get <==> m@ is Get,
        m is Post <==> m@ is Post,
        m is Head <==> m@ is Head,
        m is Put <==> m@ is Put,
        m is Patch <==> m@ is Patch,
        m is Delete <==> m@ is Delete,
        m is Options <==> m@ is Options,
        m is Trace <==> m@ is Trace,
        m is Custom <==> m@ is Custom,
        m matches Method::Custom(name) ==> m@->Custom_0 == encode_utf8(name@),
{
}

/// `HTTP/1.1` and `HTTP/1.0` are supported, by their eight bytes; a part of what they begin with is
/// unfinished, and anything else is not supported.
pub proof fn law_version(buf: Seq<u8>)
    ensures
        ({
            let name = seq![0x48u8, 0x54, 0x54, 0x50, 0x2F, 0x31, 0x2E];
            &&& parser::version(buf) == Ok::<(u8, int), HttpParsingError>((1, 8)) <==> buf.len() >= 8 && buf.take(7)
                == name && buf[7] == 0x31
            &&& parser::version(buf) == Ok::<(u8, int), HttpParsingError>((0, 8)) <==> buf.len() >= 8 && buf.take(7)
                == name && buf[7] == 0x30
            &&& parser::version(buf) matches Ok((minor, n)) ==> (minor == 0 || minor == 1) && n == 8
            &&& parser::version(buf) == Err::<(u8, int), HttpParsingError>(HttpParsingError::UnexpectedEof)
                <==> buf.len() <= 7 && buf == name.take(buf.len() as int)
            &&& parser::version(buf) matches Err(e) ==> e == HttpParsingError::UnexpectedEof || e
                == HttpParsingError::UnsupportedHttpVersion
        }),
{
    reveal_strlit("HTTP/1.");
    let name = seq![0x48u8, 0x54, 0x54, 0x50, 0x2F, 0x31, 0x2E];
    assert(bytes::ascii("HTTP/1."@) =~= name);
    if name.is_prefix_of(buf) {
        assert(buf.take(7) =~= name);
        if buf.len() == 7 {
            assert(buf =~= name.take(7));
        }
    } else {
        if buf.len() >= 7 && buf.take(7) == name {
            assert(name =~= buf.subrange(0, 7));
        }
        if buf.is_prefix_of(name) {
            assert(buf =~= name.take(buf.len() as int));
        } else if buf.len() <= 7 && buf == name.take(buf.len() as int) {
            assert(buf =~= name.subrange(0, buf.len() as int));
        }
    }
}

/// Errors are equal exactly if they are of one kind, and an I/O error becomes the error that holds it.
pub proof fn law_errors(a: HttpParsingError, b: HttpParsingError, e: std::io::Error)
    ensures
        <HttpParsingError as PartialEqSpec>::obeys_eq_spec(),
        a.eq_spec(&b) <==> {
            ||| a is UnsupportedHttpVersion && b is UnsupportedHttpVersion
            ||| a is MalformedStatusLine && b is MalformedStatusLine
            ||| a is MalformedHeader && b is MalformedHeader
            ||| a is UnexpectedEof && b is UnexpectedEof
            ||| a is IOError && b is IOError
        },
        <HttpParsingError as FromSpec<std::io::Error>>::obeys_from_spec(),
        <HttpParsingError as FromSpec<std::io::Error>>::from_spec(e) == HttpParsingError::IOError(e),
{
}

} // verus!
