use rust_http::grammar::{match_header_line, match_request_line, process_regex, Grammar};

fn request(line: &[u8]) -> Option<(Vec<u8>, Vec<u8>)> {
    match_request_line(line).map(|c| (c.first, c.second))
}

fn header(line: &[u8]) -> Option<(Vec<u8>, Vec<u8>)> {
    match_header_line(line).map(|c| (c.first, c.second))
}

fn pair(a: &[u8], b: &[u8]) -> Option<(Vec<u8>, Vec<u8>)> {
    Some((a.to_vec(), b.to_vec()))
}

#[test]
fn request_line_captures_method_and_target() {
    assert_eq!(request(b"GET /foo?x=1 HTTP/1.1\r\n"), pair(b"GET", b"/foo?x=1"));
    assert_eq!(request(b"POST /submit HTTP/1.1\r\n"), pair(b"POST", b"/submit"));
    assert_eq!(request(b"A / HTTP/1.1\r\n"), pair(b"A", b"/"));
}

#[test]
fn request_line_gaps_may_hold_any_white_space() {
    assert_eq!(request(b"GET \t /a   \t HTTP/1.1\r\n"), pair(b"GET", b"/a"));
    assert_eq!(request(b"GET\x0b/a\x0cHTTP/1.1\r\n"), pair(b"GET", b"/a"));
    assert_eq!(request(b"GET\r\n/a\r\nHTTP/1.1\r\n"), pair(b"GET", b"/a"));
}

#[test]
fn request_line_target_is_the_shortest_possible() {
    assert_eq!(request(b"GET /a b  HTTP/1.1\r\n"), pair(b"GET", b"/a b"));
    assert_eq!(
        request(b"GET /a HTTP/1.1 HTTP/1.1\r\n"),
        pair(b"GET", b"/a HTTP/1.1")
    );
    assert_eq!(request(b"GET /a\rb HTTP/1.1\r\n"), pair(b"GET", b"/a\rb"));
}

#[test]
fn request_line_without_marker_does_not_match() {
    assert_eq!(request(b"GET /foo\r\n"), None);
    assert_eq!(request(b"GET /foo HTTP/1.0\r\n"), None);
    assert_eq!(request(b"GET /foo HTTP/1x1\r\n"), None);
    assert_eq!(request(b"GET /foo HTTP/1.1"), None);
    assert_eq!(request(b"GET /foo HTTP/1.1\n"), None);
    assert_eq!(request(b"GET /foo HTTP/1.1\r\n\n"), None);
}

#[test]
fn request_line_with_bad_parts_does_not_match() {
    assert_eq!(request(b""), None);
    assert_eq!(request(b"\r\n"), None);
    assert_eq!(request(b"HTTP/1.1\r\n"), None);
    assert_eq!(request(b"get /foo HTTP/1.1\r\n"), None);
    assert_eq!(request(b"GeT /foo HTTP/1.1\r\n"), None);
    assert_eq!(request(b" GET /foo HTTP/1.1\r\n"), None);
    assert_eq!(request(b"GET foo HTTP/1.1\r\n"), None);
    assert_eq!(request(b"GET/foo HTTP/1.1\r\n"), None);
    assert_eq!(request(b"GET /fooHTTP/1.1\r\n"), None);
    assert_eq!(request(b"GET  HTTP/1.1\r\n"), None);
    assert_eq!(request(b"GET /a\nb HTTP/1.1\r\n"), None);
}

#[test]
fn header_line_captures_name_and_value() {
    assert_eq!(
        header(b"Content-Type: text/plain\r\n"),
        pair(b"Content-Type", b"text/plain")
    );
    assert_eq!(header(b"Host:\tlocalhost:8080\r\n"), pair(b"Host", b"localhost:8080"));
    assert_eq!(header(b"X: \r\n"), pair(b"X", b""));
    assert_eq!(header(b": v\r\n"), pair(b"", b"v"));
}

#[test]
fn header_line_name_is_the_shortest_possible() {
    assert_eq!(header(b"a: b: c\r\n"), pair(b"a", b"b: c"));
    assert_eq!(header(b"a:b: c\r\n"), pair(b"a:b", b"c"));
    assert_eq!(header(b"a:: c\r\n"), pair(b"a:", b"c"));
}

#[test]
fn header_line_white_space_is_the_longest_possible() {
    assert_eq!(header(b"a:   \t b \r\n"), pair(b"a", b"b "));
    assert_eq!(header(b"a: \r\r\n"), pair(b"a", b""));
    assert_eq!(header(b"a: \n b\r\n"), pair(b"a", b"b"));
    assert_eq!(header(b"a: x: \n y\r\n"), pair(b"a: x", b"y"));
}

#[test]
fn header_line_that_does_not_match() {
    assert_eq!(header(b""), None);
    assert_eq!(header(b"\r\n"), None);
    assert_eq!(header(b"no colon here\r\n"), None);
    assert_eq!(header(b"Name:value\r\n"), None);
    assert_eq!(header(b"Name:\r\n"), None);
    assert_eq!(header(b"Name: value"), None);
    assert_eq!(header(b"Name: value\n"), None);
    assert_eq!(header(b"Name: value\r\n\n"), None);
    assert_eq!(header(b"Na\nme: value\r\n"), None);
    assert_eq!(header(b"Name: va\nlue\r\n"), None);
}

#[test]
fn process_regex_applies_the_given_grammar() {
    let line = b"GET /foo?x=1 HTTP/1.1\r\n";
    let c = process_regex(line, Grammar::RequestLine).unwrap();
    assert_eq!((c.first, c.second), (b"GET".to_vec(), b"/foo?x=1".to_vec()));
    assert!(process_regex(line, Grammar::Header).is_none());

    let line = b"Accept: */*\r\n";
    let c = process_regex(line, Grammar::Header).unwrap();
    assert_eq!((c.first, c.second), (b"Accept".to_vec(), b"*/*".to_vec()));
    assert!(process_regex(line, Grammar::RequestLine).is_none());
}

#[test]
fn captures_are_copies_not_the_line() {
    let line = b"PUT /x HTTP/1.1\r\n";
    let c = match_request_line(line).unwrap();
    assert_ne!(c.first, line.to_vec());
    assert_ne!(c.second, line.to_vec());
}
