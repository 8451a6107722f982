use rust_http::cycle::{serve, Cycle, Step};

const HEAD: &str = "HTTP/1.1 200 OK\r\nServer: rust-http/0.1\r\nContent-Type: text/plain\r\n";

fn response(body: &str) -> Vec<u8> {
    format!("{}Content-Length: {}\r\n\r\n{}", HEAD, body.len(), body).into_bytes()
}

fn lines(input: &[&[u8]]) -> Vec<Vec<u8>> {
    input.iter().map(|l| l.to_vec()).collect()
}

fn feed_all(input: &[&[u8]]) -> Vec<Vec<u8>> {
    let mut out = Vec::new();
    let mut cycle = Cycle::new();
    for line in input {
        match cycle.feed(line) {
            Step::Continue(next) => cycle = next,
            Step::Respond(bytes) => {
                out.push(bytes);
                cycle = Cycle::new();
            }
            Step::Abort => cycle = Cycle::new(),
        }
    }
    out
}

#[test]
fn request_with_query_is_answered() {
    let out = serve(&lines(&[b"GET /foo?x=1 HTTP/1.1\r\n", b"\r\n"]));
    let body = "REQUEST_METHOD : GET\nSCRIPT_NAME : \nPATH_INFO : /foo\nQUERY_STRING : x=1\n";
    assert_eq!(out, response(body));
    assert!(out.starts_with(b"HTTP/1.1 200 OK\r\n"));
}

#[test]
fn request_with_header_is_answered() {
    let out = serve(&lines(&[
        b"POST /submit HTTP/1.1\r\n",
        b"Content-Type: text/plain\r\n",
        b"\r\n",
    ]));
    let body = "REQUEST_METHOD : POST\nSCRIPT_NAME : \nPATH_INFO : /submit\nQUERY_STRING : \nHTTP_CONTENT_TYPE : text/plain\n";
    assert_eq!(out, response(body));
}

#[test]
fn two_requests_get_two_isolated_responses() {
    let out = serve(&lines(&[
        b"POST /submit HTTP/1.1\r\n",
        b"Content-Type: text/plain\r\n",
        b"X-First: 1\r\n",
        b"\r\n",
        b"GET /foo?x=1 HTTP/1.1\r\n",
        b"\r\n",
    ]));
    let first = "REQUEST_METHOD : POST\nSCRIPT_NAME : \nPATH_INFO : /submit\nQUERY_STRING : \nHTTP_CONTENT_TYPE : text/plain\nHTTP_X_FIRST : 1\n";
    let second = "REQUEST_METHOD : GET\nSCRIPT_NAME : \nPATH_INFO : /foo\nQUERY_STRING : x=1\n";
    let mut expected = response(first);
    expected.extend_from_slice(&response(second));
    assert_eq!(out, expected);
    let text = String::from_utf8(out).unwrap();
    assert_eq!(text.matches("HTTP/1.1 200 OK\r\n").count(), 2);
    assert_eq!(text.matches("HTTP_CONTENT_TYPE").count(), 1);
    assert_eq!(text.matches("HTTP_X_FIRST").count(), 1);
}

#[test]
fn malformed_request_line_aborts_the_cycle() {
    let out = serve(&lines(&[b"GET /foo\r\n"]));
    assert_eq!(out, b"".to_vec());

    let out = serve(&lines(&[
        b"GET /foo\r\n",
        b"Host: x\r\n",
        b"\r\n",
        b"GET /ok HTTP/1.1\r\n",
        b"\r\n",
    ]));
    let body = "REQUEST_METHOD : GET\nSCRIPT_NAME : \nPATH_INFO : /ok\nQUERY_STRING : \n";
    assert_eq!(out, response(body));
}

#[test]
fn empty_input_gives_no_response() {
    assert_eq!(serve(&Vec::new()), b"".to_vec());
}

#[test]
fn head_cut_short_gives_no_response() {
    assert_eq!(serve(&lines(&[b"GET / HTTP/1.1\r\n"])), b"".to_vec());
    assert_eq!(
        serve(&lines(&[b"GET / HTTP/1.1\r\n", b"Host: x\r\n"])),
        b"".to_vec()
    );
    let out = serve(&lines(&[
        b"GET /a HTTP/1.1\r\n",
        b"\r\n",
        b"GET /b HTTP/1.1\r\n",
        b"Host: x\r\n",
    ]));
    let body = "REQUEST_METHOD : GET\nSCRIPT_NAME : \nPATH_INFO : /a\nQUERY_STRING : \n";
    assert_eq!(out, response(body));
}

#[test]
fn blank_line_ends_the_head_after_any_number_of_headers() {
    for n in 0..6usize {
        let mut input: Vec<Vec<u8>> = vec![b"GET / HTTP/1.1\r\n".to_vec()];
        let mut body = String::from(
            "REQUEST_METHOD : GET\nSCRIPT_NAME : \nPATH_INFO : /\nQUERY_STRING : \n",
        );
        for i in 0..n {
            input.push(format!("H{}: v{}\r\n", i, i).into_bytes());
            body.push_str(&format!("HTTP_H{} : v{}\n", i, i));
        }
        input.push(b"\r\n".to_vec());
        input.push(b"GET /next HTTP/1.1\r\n".to_vec());
        input.push(b"\r\n".to_vec());
        let mut expected = response(&body);
        expected.extend_from_slice(&response(
            "REQUEST_METHOD : GET\nSCRIPT_NAME : \nPATH_INFO : /next\nQUERY_STRING : \n",
        ));
        assert_eq!(serve(&input), expected);
    }
}

#[test]
fn feed_says_what_to_do_next() {
    let cycle = Cycle::new();
    let cycle = match cycle.feed(b"GET /foo?x=1 HTTP/1.1\r\n") {
        Step::Continue(next) => next,
        other => panic!("unexpected step {:?}", other),
    };
    let cycle = match cycle.feed(b"Host: example.org\r\n") {
        Step::Continue(next) => next,
        other => panic!("unexpected step {:?}", other),
    };
    let cycle = match cycle.feed(b"not a header\r\n") {
        Step::Continue(next) => next,
        other => panic!("unexpected step {:?}", other),
    };
    match cycle.feed(b"\r\n") {
        Step::Respond(bytes) => assert_eq!(
            bytes,
            response(
                "REQUEST_METHOD : GET\nSCRIPT_NAME : \nPATH_INFO : /foo\nQUERY_STRING : x=1\nHTTP_HOST : example.org\n"
            )
        ),
        other => panic!("unexpected step {:?}", other),
    }
}

#[test]
fn feed_aborts_on_malformed_request_line() {
    assert!(matches!(Cycle::new().feed(b"GET /foo\r\n"), Step::Abort));
    assert!(matches!(Cycle::new().feed(b"\r\n"), Step::Abort));
    assert!(matches!(Cycle::new().feed(b""), Step::Abort));
}

#[test]
fn serve_agrees_with_feeding_line_by_line() {
    let input: Vec<&[u8]> = vec![
        b"junk\r\n",
        b"GET /a?b HTTP/1.1\r\n",
        b"A: 1\r\n",
        b"a: 2\r\n",
        b"\r\n",
        b"\r\n",
        b"PUT /c HTTP/1.1\r\n",
        b"\r\n",
        b"DELETE /d HTTP/1.1\r\n",
    ];
    let stepwise: Vec<u8> = feed_all(&input).concat();
    assert_eq!(serve(&lines(&input)), stepwise);
    assert_eq!(feed_all(&input).len(), 2);
}
