use khttp::http::method::Method;
use khttp::parser::request::Request;
use khttp::parser::HttpParsingError;

fn error_of(buf: &[u8]) -> HttpParsingError {
    Request::parse(buf).unwrap_err()
}

#[test]
fn get_request() {
    let buf = b"GET /hello?name=x HTTP/1.1\r\nHost: localhost\r\nAccept:   */*\r\n\r\nbody";
    let req = Request::parse(buf).unwrap();
    assert_eq!(req.method, Method::Get);
    assert_eq!(req.uri.as_str(), "/hello?name=x");
    assert_eq!(req.uri.path(), "/hello");
    assert_eq!(req.uri.query(), Some("name=x"));
    assert_eq!(req.uri.path_and_query(), "/hello?name=x");
    assert_eq!(req.http_version, 1);
    assert_eq!(req.headers.len(), 2);
    assert_eq!(req.headers.field(0), Some(("Host", &b"localhost"[..])));
    assert_eq!(req.headers.field(1), Some(("Accept", &b"*/*"[..])));
    assert_eq!(req.headers.field(2), None);
    assert_eq!(&buf[req.buf_offset..], b"body");
}

#[test]
fn known_methods() {
    let known = [
        ("GET", Method::Get),
        ("POST", Method::Post),
        ("HEAD", Method::Head),
        ("PUT", Method::Put),
        ("PATCH", Method::Patch),
        ("DELETE", Method::Delete),
        ("OPTIONS", Method::Options),
        ("TRACE", Method::Trace),
    ];
    for (token, method) in known {
        let text = format!("{token} / HTTP/1.0\r\n\r\n");
        let req = Request::parse(text.as_bytes()).unwrap();
        assert_eq!(req.method, method);
        assert_eq!(req.http_version, 0);
        assert_eq!(req.buf_offset, text.len());
    }
}

#[test]
fn custom_method() {
    let req = Request::parse(b"Purge / HTTP/1.1\r\n\r\n").unwrap();
    assert_eq!(req.method, Method::Custom("Purge".to_string()));
    let req = Request::parse(b"get / HTTP/1.1\r\n\r\n").unwrap();
    assert_eq!(req.method, Method::Custom("get".to_string()));
}

#[test]
fn method_with_a_digit_is_malformed() {
    assert_eq!(error_of(b"G3T / HTTP/1.1\r\n\r\n"), HttpParsingError::MalformedStatusLine);
}

#[test]
fn absolute_target() {
    let req = Request::parse(b"GET http://example.com:80/a/b?c=d HTTP/1.1\r\n\r\n").unwrap();
    assert_eq!(req.uri.scheme(), Some("http"));
    assert_eq!(req.uri.authority(), Some("example.com:80"));
    assert_eq!(req.uri.path(), "/a/b");
    assert_eq!(req.uri.query(), Some("c=d"));
    assert_eq!(req.uri.path_and_query(), "/a/b?c=d");
}

#[test]
fn absolute_targets_with_empty_parts() {
    for (text, scheme, authority) in
        [("http:///b", "http", ""), ("://a/b", "", "a"), ("h://a:/b", "h", "a:"), (":///b", "", "")]
    {
        let head = format!("GET {text} HTTP/1.1\r\n\r\n");
        let req = Request::parse(head.as_bytes()).unwrap();
        assert_eq!(req.uri.scheme(), Some(scheme));
        assert_eq!(req.uri.authority(), Some(authority));
        assert_eq!(req.uri.path(), "/b");
    }
}

#[test]
fn absolute_target_without_a_path() {
    let req = Request::parse(b"GET http://example.com?c=d HTTP/1.1\r\n\r\n").unwrap();
    assert_eq!(req.uri.scheme(), Some("http"));
    assert_eq!(req.uri.authority(), Some("example.com"));
    assert_eq!(req.uri.path(), "");
    assert_eq!(req.uri.path_and_query(), "?c=d");
    assert_eq!(req.uri.query(), Some("c=d"));
}

#[test]
fn authority_target() {
    let req = Request::parse(b"CONNECT example.com:443 HTTP/1.1\r\n\r\n").unwrap();
    assert_eq!(req.method, Method::Custom("CONNECT".to_string()));
    assert_eq!(req.uri.scheme(), None);
    assert_eq!(req.uri.authority(), Some("example.com:443"));
    assert_eq!(req.uri.path(), "");
    assert_eq!(req.uri.path_and_query(), "");
    assert_eq!(req.uri.query(), None);
}

#[test]
fn asterisk_target() {
    let req = Request::parse(b"OPTIONS *HTTP/1.1\r\n\r\n").unwrap();
    assert_eq!(req.uri.as_str(), "*");
    assert_eq!(req.uri.path(), "*");
    assert_eq!(error_of(b"OPTIONS * HTTP/1.1\r\n\r\n"), HttpParsingError::UnsupportedHttpVersion);
}

#[test]
fn malformed_targets() {
    assert_eq!(error_of(b"GET /a\"b HTTP/1.1\r\n\r\n"), HttpParsingError::MalformedStatusLine);
    assert_eq!(error_of(b"GET /a?b\"c HTTP/1.1\r\n\r\n"), HttpParsingError::MalformedStatusLine);
    assert_eq!(error_of(b"GET exa\x80mple/ HTTP/1.1\r\n\r\n"), HttpParsingError::MalformedStatusLine);
    assert_eq!(error_of(b"GET example\r\n\r\n"), HttpParsingError::MalformedStatusLine);
}

#[test]
fn target_that_breaks_off_in_its_authority() {
    assert_eq!(error_of(b"GET http://exam"), HttpParsingError::MalformedStatusLine);
    assert_eq!(error_of(b"GET http://example.com/pa"), HttpParsingError::UnexpectedEof);
}

#[test]
fn unsupported_versions() {
    assert_eq!(error_of(b"GET / HTTP/2.0\r\n\r\n"), HttpParsingError::UnsupportedHttpVersion);
    assert_eq!(error_of(b"GET / HTTP/1.2\r\n\r\n"), HttpParsingError::UnsupportedHttpVersion);
    assert_eq!(error_of(b"GET / http/1.1\r\n\r\n"), HttpParsingError::UnsupportedHttpVersion);
}

#[test]
fn malformed_headers() {
    assert_eq!(error_of(b"GET / HTTP/1.1\r\nno colon\r\n\r\n"), HttpParsingError::MalformedHeader);
    assert_eq!(error_of(b"GET / HTTP/1.1\r\na b: c\r\n\r\n"), HttpParsingError::MalformedHeader);
    assert_eq!(error_of(b"GET / HTTP/1.1\r\na\xffb: c\r\n\r\n"), HttpParsingError::MalformedHeader);
}

#[test]
fn line_without_carriage_return_is_passed_over() {
    let req = Request::parse(b"GET / HTTP/1.1\r\na: 1\nb: 2\r\n\r\n").unwrap();
    assert_eq!(req.headers.len(), 1);
    assert_eq!(req.headers.field(0), Some(("b", &b"2"[..])));
}

#[test]
fn header_values_keep_what_follows() {
    let req = Request::parse(b"GET / HTTP/1.1\r\na:\t b:c \xff \r\nempty:\r\n\r\n").unwrap();
    assert_eq!(req.headers.field(0), Some(("a", &b"b:c \xff "[..])));
    assert_eq!(req.headers.field(1), Some(("empty", &b""[..])));
}

#[test]
fn head_is_parsed_alike_whatever_follows() {
    let head = b"POST /a HTTP/1.1\r\nk: v\r\n\r\n";
    for more in [&b""[..], b"x", b"GET / HTTP/1.1\r\n\r\n", b"\r\n", b"\xff\x00"] {
        let mut buf = head.to_vec();
        buf.extend_from_slice(more);
        let req = Request::parse(&buf).unwrap();
        assert_eq!(req.buf_offset, head.len());
        assert_eq!(req.method, Method::Post);
        assert_eq!(req.headers.field(0), Some(("k", &b"v"[..])));
    }
}

#[test]
fn part_of_a_head_is_unfinished() {
    let head = b"DELETE /a?b=c HTTP/1.1\r\nk: v\r\nl: w\r\n\r\n";
    for k in 0..head.len() {
        assert_eq!(error_of(&head[..k]), HttpParsingError::UnexpectedEof);
    }
    assert!(Request::parse(head).is_ok());
}

#[test]
fn targets_without_a_path() {
    for text in ["a", "example.com:443", "http://h", "http://", "h?q=1", "a://b://c?d", "::"] {
        let head = format!("GET {text} HTTP/1.1\r\n\r\n");
        let req = Request::parse(head.as_bytes()).unwrap();
        assert_eq!(req.uri.as_str(), text);
        assert_eq!(req.uri.path(), "");
        assert_eq!(req.buf_offset, head.len());
    }
}

#[test]
fn request_head_ends_in_crlf() {
    let buf = b"GET / HTTP/1.1\r\na: b\nc: d\r\n\r\nx\r\n";
    let req = Request::parse(buf).unwrap();
    assert_eq!(&buf[req.buf_offset - 2..], b"\r\nx\r\n");
}

#[test]
fn refusal_is_final() {
    let refused = b"GET / HTTP/3";
    for more in [&b""[..], b".0\r\n\r\n", b" HTTP/1.1\r\n\r\n"] {
        let mut buf = refused.to_vec();
        buf.extend_from_slice(more);
        assert_eq!(error_of(&buf), HttpParsingError::UnsupportedHttpVersion);
    }
}

#[test]
fn errors_in_words() {
    assert_eq!(HttpParsingError::MalformedStatusLine.to_string(), "malformed status line");
    assert_eq!(HttpParsingError::UnsupportedHttpVersion.to_string(), "invalid http version");
    assert_eq!(HttpParsingError::MalformedHeader.to_string(), "malformed header");
    assert_eq!(HttpParsingError::UnexpectedEof.to_string(), "unexpected eof");
    let e = HttpParsingError::from(std::io::Error::other("gone"));
    assert_eq!(e.to_string(), "io error: gone");
}

#[test]
fn errors_are_equal_by_kind() {
    let a = HttpParsingError::from(std::io::Error::other("a"));
    let b = HttpParsingError::IOError(std::io::Error::other("b"));
    assert_eq!(a, b);
    assert_ne!(a, HttpParsingError::UnexpectedEof);
    assert_ne!(HttpParsingError::MalformedHeader, HttpParsingError::MalformedStatusLine);
}
