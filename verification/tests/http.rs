//! HTTP/1.1 messages.

use onced::http::{
    is_response_settled, is_settled, parse_request, parse_response, write_request, write_response,
    HttpError, Request, Response,
};

#[test]
fn parses_a_get_with_no_body() {
    let raw = b"GET /health HTTP/1.1\r\nHost: example\r\n\r\n";
    let request = parse_request(&raw[..]).unwrap().expect("a request");
    assert_eq!(request.method, "GET");
    assert_eq!(request.target, "/health");
    assert!(request.body.is_empty());
}

#[test]
fn parses_a_post_body_and_looks_up_headers_case_insensitively() {
    let raw = b"POST /charge HTTP/1.1\r\nIdempotency-Key: abc123\r\nContent-Length: 5\r\n\r\nhello";
    let request = parse_request(&raw[..]).unwrap().expect("a request");
    assert_eq!(request.method, "POST");
    assert_eq!(request.target, "/charge");
    assert_eq!(request.body, b"hello");
    assert_eq!(request.header("idempotency-key"), Some("abc123"));
    assert_eq!(request.header("IDEMPOTENCY-KEY"), Some("abc123"));
    assert_eq!(request.header("missing"), None);
}

#[test]
fn a_clean_eof_yields_no_request() {
    let raw = b"";
    assert!(parse_request(&raw[..]).unwrap().is_none());
}

#[test]
fn writes_a_response_with_status_line_and_content_length() {
    let response = Response {
        status: 201,
        headers: vec![("X-Test".to_string(), "1".to_string())],
        body: b"created".to_vec(),
    };
    let mut out = Vec::new();
    write_response(&mut out, &response);

    let text = String::from_utf8(out).unwrap();
    assert!(
        text.starts_with("HTTP/1.1 201 Created\r\n"),
        "got: {text:?}"
    );
    assert!(text.contains("Content-Length: 7\r\n"), "got: {text:?}");
    assert!(text.contains("X-Test: 1\r\n"), "got: {text:?}");
    assert!(text.ends_with("\r\n\r\ncreated"), "got: {text:?}");
}

#[test]
fn write_request_then_parse_request_round_trips() {
    let request = Request {
        method: "POST".into(),
        target: "/charge".into(),
        headers: vec![
            ("Idempotency-Key".into(), "k1".into()),
            ("Host".into(), "backend".into()),
        ],
        body: b"amount=100".to_vec(),
    };
    let mut buf = Vec::new();
    write_request(&mut buf, &request);

    let parsed = parse_request(&buf).unwrap().expect("a request");
    assert_eq!(parsed.method, "POST");
    assert_eq!(parsed.target, "/charge");
    assert_eq!(parsed.body, b"amount=100");
    assert_eq!(parsed.header("idempotency-key"), Some("k1"));
}

#[test]
fn parse_response_reads_status_headers_and_body() {
    let raw = b"HTTP/1.1 201 Created\r\nContent-Length: 7\r\nX-Test: 1\r\n\r\ncharged";
    let response = parse_response(&raw[..]).unwrap();
    assert_eq!(response.status, 201);
    assert_eq!(response.body, b"charged");
    assert_eq!(
        response
            .headers
            .iter()
            .find(|(k, _)| k.eq_ignore_ascii_case("x-test"))
            .map(|(_, v)| v.as_str()),
        Some("1")
    );
}

#[test]
fn parse_response_reads_body_to_eof_without_content_length() {
    let raw = b"HTTP/1.1 200 OK\r\nConnection: close\r\n\r\nstreamed-body";
    let response = parse_response(&raw[..]).unwrap();
    assert_eq!(response.status, 200);
    assert_eq!(response.body, b"streamed-body");
}

#[test]
fn write_response_then_parse_response_round_trips() {
    let response = Response {
        status: 200,
        headers: vec![("X-A".into(), "b".into())],
        body: b"hi".to_vec(),
    };
    let mut buf = Vec::new();
    write_response(&mut buf, &response);

    let parsed = parse_response(&buf).unwrap();
    assert_eq!(parsed.status, 200);
    assert_eq!(parsed.body, b"hi");
}

/// Each way in which a request can be malformed.
#[test]
fn malformed_requests_are_refused() {
    assert_eq!(
        parse_request(b"\xff /x HTTP/1.1\r\n\r\n").err(),
        Some(HttpError::NotUtf8)
    );
    assert_eq!(
        parse_request(b"GET\r\n\r\n").err(),
        Some(HttpError::MalformedRequestLine)
    );
    assert_eq!(
        parse_request(b"GET / HTTP/1.1\r\nno colon here\r\n\r\n").err(),
        Some(HttpError::MalformedHeader)
    );
    assert_eq!(
        parse_request(b"POST / HTTP/1.1\r\nContent-Length: 9\r\n\r\nshort").err(),
        Some(HttpError::UnexpectedEof)
    );
}

/// Each way in which a response can be malformed.
#[test]
fn malformed_responses_are_refused() {
    assert_eq!(parse_response(b"").err(), Some(HttpError::EmptyResponse));
    assert_eq!(
        parse_response(b"HTTP/1.1\r\n\r\n").err(),
        Some(HttpError::BadStatusLine)
    );
    assert_eq!(
        parse_response(b"HTTP/1.1 abc\r\n\r\n").err(),
        Some(HttpError::BadStatusLine)
    );
    assert_eq!(
        parse_response(b"HTTP/1.1 200 OK\r\nbroken\r\n\r\n").err(),
        Some(HttpError::MalformedHeader)
    );
    assert_eq!(
        parse_response(b"HTTP/1.1 200 OK\r\nContent-Length: 3\r\n\r\nab").err(),
        Some(HttpError::UnexpectedEof)
    );
}

/// A connection is read until its request is settled, and what follows does not
/// matter any more.
#[test]
fn a_request_is_settled_once_it_is_whole() {
    let raw = b"POST /c HTTP/1.1\r\nContent-Length: 3\r\n\r\nabcTRAILING";
    let whole = raw.len() - "TRAILING".len();
    for n in 0..whole {
        assert!(!is_settled(&raw[..n]), "settled after {n} bytes");
    }
    for n in whole..=raw.len() {
        assert!(is_settled(&raw[..n]));
        let request = parse_request(&raw[..n]).unwrap().unwrap();
        assert_eq!(request.body, b"abc");
    }
}

/// White space around header values is not part of them.
#[test]
fn header_values_are_trimmed() {
    let raw = b"GET / HTTP/1.1\r\nX-A: \t padded \t\r\nX-B:\r\n\r\n";
    let request = parse_request(&raw[..]).unwrap().unwrap();
    assert_eq!(request.header("x-a"), Some("padded"));
    assert_eq!(request.header("x-b"), Some(""));
}

/// A backend's response is read until it is whole; one without a length goes on
/// until the backend closes.
#[test]
fn a_response_is_settled_once_its_announced_body_is_there() {
    let raw = b"HTTP/1.1 200 OK\r\nContent-Length: 2\r\n\r\nokMORE";
    let whole = raw.len() - "MORE".len();
    for n in 0..whole {
        assert!(!is_response_settled(&raw[..n]), "settled after {n} bytes");
    }
    for n in whole..=raw.len() {
        assert!(is_response_settled(&raw[..n]));
        assert_eq!(parse_response(&raw[..n]).unwrap().body, b"ok");
    }
    assert!(!is_response_settled(b"HTTP/1.1 200 OK\r\n\r\nendless"));
    assert!(is_response_settled(b"HTTP/1.1 huh\r\n"));
}
