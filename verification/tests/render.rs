use rust_http::environment::Environment;
use rust_http::render::{push_decimal, render_body, render_response};

fn decimal(n: usize) -> Vec<u8> {
    let mut out = Vec::new();
    push_decimal(&mut out, n);
    out
}

#[test]
fn decimal_digits() {
    assert_eq!(decimal(0), b"0".to_vec());
    assert_eq!(decimal(7), b"7".to_vec());
    assert_eq!(decimal(10), b"10".to_vec());
    assert_eq!(decimal(99), b"99".to_vec());
    assert_eq!(decimal(100), b"100".to_vec());
    assert_eq!(decimal(1234567890), b"1234567890".to_vec());
    assert_eq!(decimal(usize::MAX), format!("{}", usize::MAX).into_bytes());
}

#[test]
fn push_decimal_appends() {
    let mut out = b"n=".to_vec();
    push_decimal(&mut out, 42);
    assert_eq!(out, b"n=42".to_vec());
}

#[test]
fn body_of_empty_environment_is_empty() {
    let env = Environment::new();
    assert_eq!(render_body(&env), b"".to_vec());
}

#[test]
fn body_lists_entries_in_order() {
    let mut env = Environment::new();
    env.insert(b"REQUEST_METHOD".to_vec(), b"GET".to_vec());
    env.insert(b"SCRIPT_NAME".to_vec(), b"".to_vec());
    env.insert(b"PATH_INFO".to_vec(), b"/foo".to_vec());
    assert_eq!(
        render_body(&env),
        b"REQUEST_METHOD : GET\nSCRIPT_NAME : \nPATH_INFO : /foo\n".to_vec()
    );
}

#[test]
fn response_of_empty_environment() {
    let env = Environment::new();
    assert_eq!(
        render_response(&env),
        b"HTTP/1.1 200 OK\r\nServer: rust-http/0.1\r\nContent-Type: text/plain\r\nContent-Length: 0\r\n\r\n"
            .to_vec()
    );
}

#[test]
fn response_has_exact_text() {
    let mut env = Environment::new();
    env.insert(b"REQUEST_METHOD".to_vec(), b"GET".to_vec());
    env.insert(b"SCRIPT_NAME".to_vec(), b"".to_vec());
    env.insert(b"PATH_INFO".to_vec(), b"/foo".to_vec());
    env.insert(b"QUERY_STRING".to_vec(), b"x=1".to_vec());
    let expected = b"HTTP/1.1 200 OK\r\nServer: rust-http/0.1\r\nContent-Type: text/plain\r\nContent-Length: 72\r\n\r\nREQUEST_METHOD : GET\nSCRIPT_NAME : \nPATH_INFO : /foo\nQUERY_STRING : x=1\n";
    assert_eq!(render_response(&env), expected.to_vec());
}

#[test]
fn content_length_is_the_length_of_the_body() {
    let mut env = Environment::new();
    for i in 0..40usize {
        env.insert(format!("KEY_{}", i).into_bytes(), vec![b'v'; i * 7]);
        let body = render_body(&env);
        let response = render_response(&env);
        assert!(response.ends_with(&body));
        let head = &response[..response.len() - body.len()];
        let head = String::from_utf8(head.to_vec()).unwrap();
        assert!(head.starts_with("HTTP/1.1 200 OK\r\n"));
        assert!(head.ends_with("\r\n\r\n"));
        let field = head
            .split("\r\n")
            .find(|l| l.starts_with("Content-Length: "))
            .unwrap();
        let n: usize = field["Content-Length: ".len()..].parse().unwrap();
        assert_eq!(n, body.len());
    }
}

#[test]
fn content_length_counts_bytes() {
    let mut env = Environment::new();
    env.insert(b"K".to_vec(), "h\u{e9}llo".as_bytes().to_vec());
    let body = render_body(&env);
    assert_eq!(body.len(), 11);
    let response = render_response(&env);
    let text = String::from_utf8(response).unwrap();
    assert!(text.contains("\r\nContent-Length: 11\r\n\r\n"));
}
