use khttp::http::request_uri::RequestUri;

#[test]
fn origin_form() {
    let uri = RequestUri::new("/path/to?x=1?y", 0, 8);
    assert_eq!(uri.as_str(), "/path/to?x=1?y");
    assert_eq!(uri.to_string(), "/path/to?x=1?y");
    assert_eq!(uri.scheme(), None);
    assert_eq!(uri.authority(), None);
    assert_eq!(uri.path(), "/path/to");
    assert_eq!(uri.path_and_query(), "/path/to?x=1?y");
    assert_eq!(uri.query(), Some("x=1?y"));
}

#[test]
fn absolute_form() {
    let uri = RequestUri::new("https://example.com:8080/p?q", 24, 26);
    assert_eq!(uri.scheme(), Some("https"));
    assert_eq!(uri.authority(), Some("example.com:8080"));
    assert_eq!(uri.path(), "/p");
    assert_eq!(uri.path_and_query(), "/p?q");
    assert_eq!(uri.query(), Some("q"));
}

#[test]
fn absolute_form_without_path_or_query() {
    let uri = RequestUri::new("https://example.com", 0, 0);
    assert_eq!(uri.authority(), Some("example.com"));
    assert_eq!(uri.path(), "");
    assert_eq!(uri.path_and_query(), "");
    assert_eq!(uri.query(), None);
}

#[test]
fn authority_form() {
    let uri = RequestUri::new("example.com:443", 0, 0);
    assert_eq!(uri.scheme(), None);
    assert_eq!(uri.authority(), Some("example.com:443"));
    let uri = RequestUri::new("example.com?x", 0, 0);
    assert_eq!(uri.authority(), Some("example.com"));
    assert_eq!(uri.query(), Some("x"));
    assert_eq!(uri.path_and_query(), "");
}

#[test]
fn separator_in_a_query_counts_as_one() {
    let uri = RequestUri::new("/go?to=http://other", 0, 3);
    assert_eq!(uri.scheme(), Some("/go?to=http"));
    assert_eq!(uri.authority(), Some("other"));
    assert_eq!(uri.path(), "/go");
}

#[test]
fn text_that_is_not_ascii() {
    let uri = RequestUri::new("ä://ö/ü?ß", 7, 10);
    assert_eq!(uri.scheme(), Some("ä"));
    assert_eq!(uri.authority(), Some("ö"));
    assert_eq!(uri.path(), "/ü");
    assert_eq!(uri.query(), Some("ß"));
}

#[test]
fn targets_are_equal_by_text_and_range() {
    assert_eq!(RequestUri::new("/a", 0, 2), RequestUri::new("/a", 0, 2));
    assert_ne!(RequestUri::new("/a", 0, 2), RequestUri::new("/a", 0, 1));
    assert_ne!(RequestUri::new("/a", 0, 2), RequestUri::new("/b", 0, 2));
    assert_eq!(RequestUri::new("/a", 0, 2).clone().path(), "/a");
}
