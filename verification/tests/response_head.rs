use khttp::parser::response::Response;
use khttp::parser::HttpParsingError;

fn response_error(buf: &[u8]) -> HttpParsingError {
    Response::parse(buf).unwrap_err()
}

#[test]
fn ok_response() {
    let buf = b"HTTP/1.1 200 OK\r\nContent-Length: 4\r\n\r\nbody";
    let res = Response::parse(buf).unwrap();
    assert_eq!(res.http_version, 1);
    assert_eq!(res.status.code, 200);
    assert_eq!(res.status.reason, "OK");
    assert_eq!(res.headers.field(0), Some(("Content-Length", &b"4"[..])));
    assert_eq!(&buf[res.buf_offset..], b"body");
}

#[test]
fn reason_phrases() {
    let res = Response::parse(b"HTTP/1.0 404 Not\tFound ~\r\n\r\n").unwrap();
    assert_eq!(res.http_version, 0);
    assert_eq!(res.status.code, 404);
    assert_eq!(res.status.reason, "Not\tFound ~");
    let res = Response::parse(b"HTTP/1.1 007 \r\n\r\n").unwrap();
    assert_eq!(res.status.code, 7);
    assert_eq!(res.status.reason, "");
}

#[test]
fn malformed_status_lines() {
    for buf in [
        &b"HTTP/1.1"[..],
        b"HTTP/1.1 20",
        b"HTTP/1.1 2x0 OK\r\n\r\n",
        b"HTTP/1.1 200OK\r\n\r\n",
        b"HTTP/1.1 200\r\n\r\n",
        b"HTTP/1.1 200 O\xe9\r\n\r\n",
        b"HTTP/1.1 200 OK\n\r\n",
        b"HTTP/1.1 200 OK\r",
        b"HTTP/1.1 200 O\rK\r\n\r\n",
    ] {
        assert_eq!(response_error(buf), HttpParsingError::MalformedStatusLine);
    }
}

#[test]
fn other_response_errors() {
    assert_eq!(response_error(b"HTTP/2 200 OK\r\n\r\n"), HttpParsingError::UnsupportedHttpVersion);
    assert_eq!(response_error(b"HTT"), HttpParsingError::UnexpectedEof);
    assert_eq!(response_error(b"HTTP/1."), HttpParsingError::UnexpectedEof);
    assert_eq!(response_error(b"HTTP/1.1 200 OK\r\nA: b\r\n"), HttpParsingError::UnexpectedEof);
    assert_eq!(response_error(b"HTTP/1.1 200 OK\r\nA b\r\n\r\n"), HttpParsingError::MalformedHeader);
}

#[test]
fn response_head_is_parsed_alike_whatever_follows() {
    let head = b"HTTP/1.1 204 No Content\r\nA: b\r\n\r\n";
    for more in [&b""[..], b"\r\n", b"HTTP/1.1 200 OK\r\n\r\n"] {
        let mut buf = head.to_vec();
        buf.extend_from_slice(more);
        let res = Response::parse(&buf).unwrap();
        assert_eq!(res.buf_offset, head.len());
        assert_eq!(res.status.reason, "No Content");
    }
}

#[test]
fn part_of_a_response_head_is_no_response() {
    let head = b"HTTP/1.1 204 No Content\r\nA: b\r\n\r\n";
    let status_line = 25;
    for k in 0..head.len() {
        let expected = if k < 8 || k >= status_line {
            HttpParsingError::UnexpectedEof
        } else {
            HttpParsingError::MalformedStatusLine
        };
        assert_eq!(response_error(&head[..k]), expected);
    }
    let res = Response::parse(head).unwrap();
    assert_eq!(&head[res.buf_offset - 2..], b"\r\n");
}
