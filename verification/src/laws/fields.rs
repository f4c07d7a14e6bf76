//! Header lines and the fields that they hold.

use crate::bytes;
use crate::http::headers::FieldView;
use crate::parser;
use crate::parser::HttpParsingError;
use vstd::prelude::*;

verus! {

/// A line that begins with a name and a colon is a field of that name. Its value is what follows the
/// colon without the whitespace `pad` before it.
pub proof fn law_header_line(name: Seq<u8>, pad: Seq<u8>, value: Seq<u8>)
    requires
        forall|i: int| 0 <= i < name.len() ==> parser::is_header_field_byte(#[trigger] name[i]),
        forall|i: int|
            0 <= i < pad.len() ==> #[trigger] pad[i] == 0x09 || pad[i] == 0x0A || pad[i] == 0x0C || pad[i] == 0x0D
                || pad[i] == 0x20,
        value.len() > 0 ==> value[0] != 0x09 && value[0] != 0x0A && value[0] != 0x0C && value[0] != 0x0D && value[0]
            != 0x20,
    ensures
        parser::header_line(name + seq![0x3Au8] + pad + value) == Ok::<FieldView, HttpParsingError>((name, value)),
{
    let line = name + seq![0x3Au8] + pad + value;
    let colon = name.len() as int;
    assert forall|i: int| 0 <= i < colon implies bytes::other_than(0x3A)(#[trigger] line[i])
        && parser::is_header_field_byte(line[i]) by {
        assert(line[i] == name[i]);
        crate::laws::words::law_header_field_bytes(name[i]);
    }
    bytes::lemma_run_end_at(line, 0, colon, bytes::other_than(0x3A));
    assert(line.take(colon) =~= name);
    let behind = line.skip(colon + 1);
    assert(behind =~= pad + value);
    assert forall|i: int| 0 <= i < pad.len() implies parser::whitespace()(#[trigger] behind[i]) by {
        assert(behind[i] == pad[i]);
    }
    if value.len() > 0 {
        assert(behind[pad.len() as int] == value[0]);
        bytes::lemma_run_end_at(behind, 0, pad.len() as int, parser::whitespace());
    } else {
        bytes::lemma_run_end(behind, 0, parser::whitespace());
    }
    assert(parser::trim_start(behind) =~= value);
}

/// A line is a field only if it holds a colon and has nothing but bytes of a name before the first
/// one; else it is malformed.
pub proof fn law_malformed_header_line(line: Seq<u8>)
    ensures
        parser::header_line(line) is Ok <==> exists|colon: int|
            0 <= colon < line.len() && #[trigger] line[colon] == 0x3A && forall|i: int|
                0 <= i < colon ==> parser::is_header_field_byte(#[trigger] line[i]),
        parser::header_line(line) matches Err(e) ==> e == HttpParsingError::MalformedHeader,
{
    bytes::lemma_run_end(line, 0, bytes::other_than(0x3A));
    let first = bytes::first_index(line, 0x3A);
    if parser::header_line(line) is Ok {
        assert(line[first] == 0x3A);
    }
    if exists|colon: int|
        0 <= colon < line.len() && #[trigger] line[colon] == 0x3A && forall|i: int|
            0 <= i < colon ==> parser::is_header_field_byte(#[trigger] line[i]) {
        let colon = choose|colon: int|
            0 <= colon < line.len() && #[trigger] line[colon] == 0x3A && forall|i: int|
                0 <= i < colon ==> parser::is_header_field_byte(#[trigger] line[i]);
        assert(first <= colon);
    }
}

/// The empty line ends the fields.
pub proof fn law_empty_line_ends_fields(rest: Seq<u8>)
    ensures
        parser::header_fields(seq![0x0Du8, 0x0A] + rest) == Ok::<(Seq<FieldView>, int), HttpParsingError>(
            (Seq::empty(), 2),
        ),
{
    let buf = seq![0x0Du8, 0x0A] + rest;
    assert(buf[0] == 0x0D && buf[1] == 0x0A);
}

proof fn lemma_line_end(line: Seq<u8>, end: Seq<u8>, rest: Seq<u8>)
    requires
        forall|i: int| 0 <= i < line.len() ==> #[trigger] line[i] != 0x0A,
        end == seq![0x0Au8] || end == seq![0x0Du8, 0x0A],
    ensures
        bytes::first_index(line + end + rest, 0x0A) == line.len() + end.len() - 1,
        (line + end + rest).skip((line.len() + end.len()) as int) == rest,
        (line + end + rest).take(line.len() as int) == line,
{
    let buf = line + end + rest;
    let nl = line.len() + end.len() - 1;
    assert forall|i: int| 0 <= i < nl implies bytes::other_than(0x0A)(#[trigger] buf[i]) by {
        if i < line.len() {
            assert(buf[i] == line[i]);
        } else {
            assert(buf[i] == end[i - line.len()]);
        }
    }
    assert(buf[nl] == end[end.len() - 1]);
    bytes::lemma_run_end_at(buf, 0, nl, bytes::other_than(0x0A));
    assert(buf.skip((line.len() + end.len()) as int) =~= rest);
    assert(buf.take(line.len() as int) =~= line);
}

/// A line that CRLF ends and that is not empty is a field before those that follow, or it is
/// malformed, and so is the whole.
pub proof fn law_field_before_fields(line: Seq<u8>, rest: Seq<u8>)
    requires
        line.len() > 0,
        forall|i: int| 0 <= i < line.len() ==> #[trigger] line[i] != 0x0A,
    ensures
        parser::header_fields(line + seq![0x0Du8, 0x0A] + rest) == match (
            parser::header_line(line),
            parser::header_fields(rest),
        ) {
            (Err(e), _) => Err::<(Seq<FieldView>, int), HttpParsingError>(e),
            (Ok(_), Err(e)) => Err(e),
            (Ok(field), Ok((fields, n))) => Ok((seq![field] + fields, line.len() + 2 + n)),
        },
{
    let end = seq![0x0Du8, 0x0A];
    let buf = line + end + rest;
    lemma_line_end(line, end, rest);
    assert(buf[0] == line[0]);
    assert(buf[1] != 0x0A || buf[0] != 0x0D) by {
        if line.len() > 1 {
            assert(buf[1] == line[1]);
        } else {
            assert(buf[1] == end[0]);
        }
    }
    assert(buf[line.len() as int] == end[0]);
}

/// A line that a line feed alone ends is passed over.
pub proof fn law_line_without_cr_is_passed_over(line: Seq<u8>, rest: Seq<u8>)
    requires
        line.len() > 0 ==> line.last() != 0x0D,
        forall|i: int| 0 <= i < line.len() ==> #[trigger] line[i] != 0x0A,
    ensures
        parser::header_fields(line + seq![0x0Au8] + rest) == match parser::header_fields(rest) {
            Err(e) => Err::<(Seq<FieldView>, int), HttpParsingError>(e),
            Ok((fields, n)) => Ok((fields, line.len() + 1 + n)),
        },
{
    let end = seq![0x0Au8];
    let buf = line + end + rest;
    lemma_line_end(line, end, rest);
    if line.len() > 0 {
        assert(buf[line.len() - 1] == line.last());
        assert(line.len() == 1 ==> buf[0] == line[0]);
        assert(line.len() > 1 ==> buf[1] == line[1]);
    } else {
        assert(buf[0] == end[0]);
    }
    if let Ok((fields, n)) = parser::header_fields(rest) {
        assert(Seq::<FieldView>::empty() + fields =~= fields);
    }
}

/// Without a line feed, fields have not ended.
pub proof fn law_unfinished_line(line: Seq<u8>)
    requires
        forall|i: int| 0 <= i < line.len() ==> #[trigger] line[i] != 0x0A,
    ensures
        parser::header_fields(line) == Err::<(Seq<FieldView>, int), HttpParsingError>(HttpParsingError::UnexpectedEof),
{
    bytes::lemma_run_end(line, 0, bytes::other_than(0x0A));
}

} // verus!
