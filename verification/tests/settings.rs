//! Settings, the pooled proxy's decisions, and the benchmark workload.

use onced::bench;
use onced::config::{fingerprint_key, hex_nibble, number_or, parse_hex32, shard_count, wal_path};
use onced::hash::sha256;
use onced::http::Request;
use onced::proxy::{
    backend_base, body_too_large, incoming_request, malformed_answer, plan_forward, text_headers,
    text_response, upstream_response, MAX_BODY,
};

#[test]
fn hexadecimal_keys_are_decoded() {
    let text = "000102030405060708090a0b0c0d0e0f101112131415161718191a1b1c1d1eff";
    let mut want = [0u8; 32];
    for (i, b) in want.iter_mut().enumerate() {
        *b = i as u8;
    }
    want[31] = 0xff;
    assert_eq!(parse_hex32(text), Some(want));
    // White space around the digits is ignored.
    assert_eq!(parse_hex32(&format!("  {text}\n")), Some(want));
    // Anything but 64 lowercase digits is not a key.
    assert_eq!(parse_hex32(&text[..62]), None);
    assert_eq!(parse_hex32(&format!("{text}00")), None);
    assert_eq!(parse_hex32(&text.to_uppercase()), None);
    assert_eq!(parse_hex32(&text.replace('f', "g")), None);
    assert_eq!(hex_nibble(b'0'), Some(0));
    assert_eq!(hex_nibble(b'9'), Some(9));
    assert_eq!(hex_nibble(b'a'), Some(10));
    assert_eq!(hex_nibble(b'f'), Some(15));
    assert_eq!(hex_nibble(b'g'), None);
    assert_eq!(hex_nibble(b'/'), None);
}

#[test]
fn the_fingerprint_key_falls_back_to_the_prefix() {
    let derived = sha256(b"onced");
    let absent = fingerprint_key(None, "onced");
    assert_eq!(absent.key, derived);
    assert!(!absent.malformed);
    let bad = fingerprint_key(Some("nonsense"), "onced");
    assert_eq!(bad.key, derived);
    assert!(bad.malformed);
    let good = fingerprint_key(Some(&"ab".repeat(32)), "onced");
    assert_eq!(good.key, [0xab; 32]);
    assert!(!good.malformed);
}

#[test]
fn counts_are_read_with_fallbacks() {
    assert_eq!(shard_count(Some("6"), Some(2)), 6);
    assert_eq!(shard_count(Some("+6"), Some(2)), 6);
    assert_eq!(shard_count(Some("0"), Some(2)), 2);
    assert_eq!(shard_count(Some("many"), Some(2)), 2);
    assert_eq!(shard_count(None, Some(2)), 2);
    assert_eq!(shard_count(None, None), 1);
    assert_eq!(number_or(Some("18446744073709551615"), 9), u64::MAX);
    assert_eq!(number_or(Some("18446744073709551616"), 9), 9);
    assert_eq!(number_or(Some(""), 9), 9);
    assert_eq!(number_or(None, 9), 9);
    assert_eq!(wal_path("onced", 12), "onced.12.wal");
}

#[test]
fn a_bare_backend_becomes_a_url() {
    assert_eq!(backend_base("127.0.0.1:9000"), "http://127.0.0.1:9000");
    assert_eq!(backend_base("http://h:1"), "http://h:1");
    assert_eq!(backend_base("https://api.internal"), "https://api.internal");
    assert_eq!(backend_base("http:/x"), "http://http:/x");
    assert_eq!(backend_base(""), "http://");
    assert_eq!(MAX_BODY, 16 * 1024 * 1024);
}

fn request(method: &str, body: &[u8]) -> Request {
    Request {
        method: method.to_string(),
        target: "/charge?x=1".to_string(),
        headers: vec![
            ("Host".to_string(), "front".to_string()),
            ("X-A".to_string(), "1".to_string()),
            ("CONTENT-LENGTH".to_string(), "3".to_string()),
            ("connection".to_string(), "close".to_string()),
            ("Idempotency-Key".to_string(), "k".to_string()),
        ],
        body: body.to_vec(),
    }
}

/// The client that calls the backend owns its host and framing; all else is passed
/// on.
#[test]
fn a_forward_passes_on_all_but_host_and_framing() {
    let call = plan_forward("http://b:1", &request("POST", b"abc")).ok().unwrap();
    assert_eq!(call.method, "POST");
    assert_eq!(call.url, "http://b:1/charge?x=1");
    assert_eq!(
        call.headers,
        vec![
            ("X-A".to_string(), "1".to_string()),
            ("Idempotency-Key".to_string(), "k".to_string()),
        ]
    );
    assert_eq!(call.body, Some(b"abc".to_vec()));
    let call = plan_forward("http://b:1", &request("m-search", b"")).ok().unwrap();
    assert_eq!(call.method, "m-search");
    assert_eq!(call.body, None);
}

/// Every byte is accepted in a method exactly when it may stand in one.
#[test]
fn only_tokens_are_methods() {
    let allowed = "!#$%&'*+-.^_`|~0123456789ABCDEFGHIJKLMNOPQRSTUVWXYZabcdefghijklmnopqrstuvwxyz";
    for b in 0u8..128 {
        let method = format!("X{}", b as char);
        let planned = plan_forward("http://b", &request(&method, b""));
        assert_eq!(planned.is_ok(), allowed.contains(b as char), "byte {b}");
    }
    for method in ["", "GE T", "GET\u{e9}"] {
        let error = plan_forward("http://b", &request(method, b"")).err().unwrap();
        assert_eq!(error.message, "invalid HTTP method");
    }
    let long = "M".repeat(200);
    assert_eq!(
        plan_forward("http://b", &request(&long, b"")).ok().unwrap().method,
        long
    );
}

/// Header values that are not visible text are dropped, the others are kept as they
/// are.
#[test]
fn unreadable_header_values_are_dropped() {
    let raw = vec![
        ("a".to_string(), b"plain text".to_vec()),
        ("b".to_string(), vec![0xff, 0xfe]),
        ("c".to_string(), b"tab\there".to_vec()),
        ("d".to_string(), b"line\nfeed".to_vec()),
        ("e".to_string(), vec![127]),
        ("f".to_string(), Vec::new()),
    ];
    assert_eq!(
        text_headers(&raw),
        vec![
            ("a".to_string(), "plain text".to_string()),
            ("c".to_string(), "tab\there".to_string()),
            ("f".to_string(), String::new()),
        ]
    );
    let response = upstream_response(204, &raw, b"body".to_vec());
    assert_eq!(response.status, 204);
    assert_eq!(response.headers.len(), 3);
    assert_eq!(response.body, b"body");
    let request = incoming_request("GET".to_string(), None, &raw, Vec::new());
    assert_eq!(request.target, "/");
    assert_eq!(request.headers.len(), 3);
    let request = incoming_request("GET".to_string(), Some("/p?q".to_string()), &raw, Vec::new());
    assert_eq!(request.target, "/p?q");
    let refusal = text_response(413, "request body too large");
    assert_eq!(refusal.status, 413);
    assert_eq!(refusal.body, b"request body too large");
    assert_eq!(body_too_large().status, 413);
    assert_eq!(body_too_large().body, b"request body too large");
    assert_eq!(malformed_answer().status, 502);
    assert!(malformed_answer().headers.is_empty());
    assert_eq!(malformed_answer().body, b"malformed upstream response");
}

#[test]
fn the_benchmark_workload_is_numbered() {
    assert_eq!(bench::key(42).0, "k-42");
    assert_eq!(bench::fingerprint(3).0[0], 3);
    assert_eq!(bench::outcome().status, 200);
    assert_eq!(bench::outcome().body, b"ok");
}
