//! The gateway and the router in front of a backend.

use onced::abuse::{Action, RuleSet};
use onced::engine::Engine;
use onced::gateway::{
    fingerprint, BeginPhase, Gateway, NoopUpstream, Upstream, UpstreamError,
};
use onced::http::{Request, Response};
use onced::metrics::Metrics;
use onced::router::{before_the_backend, Router};
use onced::store::MemoryStore;
use onced::wal::WalStore;
use std::cell::RefCell;
use std::sync::atomic::{AtomicU32, Ordering};
use std::sync::Arc;

/// An `Upstream` that counts how many times the backend is actually called.
struct CountingUpstream {
    calls: Arc<AtomicU32>,
    status: u16,
    body: Vec<u8>,
}

impl Upstream for CountingUpstream {
    fn forward(&self, _request: &Request) -> Result<Response, UpstreamError> {
        self.calls.fetch_add(1, Ordering::SeqCst);
        Ok(Response {
            status: self.status,
            headers: Vec::new(),
            body: self.body.clone(),
        })
    }
}

fn post(key: Option<&str>, body: &[u8]) -> Request {
    post_from(key, "10.0.0.1", body)
}

fn post_from(key: Option<&str>, ip: &str, body: &[u8]) -> Request {
    let mut headers = vec![("X-Forwarded-For".to_string(), ip.to_string())];
    if let Some(key) = key {
        headers.push(("Idempotency-Key".to_string(), key.to_string()));
    }
    Request {
        method: "POST".into(),
        target: "/charge".into(),
        headers,
        body: body.to_vec(),
    }
}

fn header<'a>(response: &'a Response, name: &str) -> Option<&'a str> {
    response
        .headers
        .iter()
        .find(|(k, _)| k.eq_ignore_ascii_case(name))
        .map(|(_, v)| v.as_str())
}

fn gateway(calls: Arc<AtomicU32>) -> Gateway<MemoryStore, CountingUpstream> {
    Gateway::new(
        Engine::new(MemoryStore::new(), 30_000),
        RuleSet::new(),
        CountingUpstream {
            calls,
            status: 201,
            body: b"charged".to_vec(),
        },
    )
}

/// THE headline end-to-end guarantee: retrying with the same key hits the backend
/// exactly once; the second response is the replayed first one.
#[test]
fn retried_request_hits_the_backend_exactly_once() {
    let calls = Arc::new(AtomicU32::new(0));
    let mut gw = gateway(calls.clone());

    let first = gw.handle(&post(Some("k1"), b"amount=100"), 1_000);
    let second = gw.handle(&post(Some("k1"), b"amount=100"), 1_050);

    assert_eq!(
        calls.load(Ordering::SeqCst),
        1,
        "backend must be called once"
    );
    assert_eq!(first.body, b"charged");
    assert_eq!(second.body, b"charged");
    assert_eq!(second.status, 201);
    assert_eq!(header(&first, "Onced-Status"), Some("created"));
    assert_eq!(header(&second, "Onced-Status"), Some("replayed"));
}

#[test]
fn different_keys_each_reach_the_backend() {
    let calls = Arc::new(AtomicU32::new(0));
    let mut gw = gateway(calls.clone());
    gw.handle(&post(Some("k1"), b"x"), 1_000);
    gw.handle(&post(Some("k2"), b"x"), 1_000);
    assert_eq!(calls.load(Ordering::SeqCst), 2);
}

#[test]
fn same_key_different_body_is_rejected_without_calling_backend() {
    let calls = Arc::new(AtomicU32::new(0));
    let mut gw = gateway(calls.clone());
    gw.handle(&post(Some("k1"), b"amount=100"), 1_000);
    let resp = gw.handle(&post(Some("k1"), b"amount=999"), 1_010);
    assert_eq!(resp.status, 422);
    assert_eq!(
        calls.load(Ordering::SeqCst),
        1,
        "a mismatched retry must not reach the backend"
    );
}

#[test]
fn requests_without_a_key_are_forwarded_each_time() {
    let calls = Arc::new(AtomicU32::new(0));
    let mut gw = gateway(calls.clone());
    gw.handle(&post(None, b"x"), 1_000);
    gw.handle(&post(None, b"x"), 1_000);
    assert_eq!(calls.load(Ordering::SeqCst), 2);
}

fn get(path: &str) -> Request {
    Request {
        method: "GET".into(),
        target: path.into(),
        headers: vec![("X-Forwarded-For".to_string(), "10.0.0.1".to_string())],
        body: Vec::new(),
    }
}

/// `/healthz` answers 200 without a key, without a quota, and without ever
/// touching the backend: a load balancer must be able to poll it freely.
#[test]
fn healthz_is_served_locally_without_touching_the_backend() {
    let calls = Arc::new(AtomicU32::new(0));
    let mut gw = Gateway::new(
        Engine::new(MemoryStore::new(), 30_000),
        // A rule that would deny everything if health checks were subject to it.
        RuleSet::new().rule("strict", 1000, 1, Action::Block),
        CountingUpstream {
            calls: calls.clone(),
            status: 201,
            body: b"x".to_vec(),
        },
    );

    for _ in 0..10 {
        let resp = gw.handle(&get("/healthz"), 0);
        assert_eq!(resp.status, 200);
        assert_eq!(resp.body, b"ok");
    }
    assert_eq!(
        calls.load(Ordering::SeqCst),
        0,
        "health checks must not proxy"
    );
    assert_eq!(
        gw.metrics().requests_total,
        0,
        "health checks are not proxied requests"
    );
}

/// `/metrics` reflects what actually happened: one create, one replay.
#[test]
fn metrics_count_created_and_replayed_outcomes() {
    let calls = Arc::new(AtomicU32::new(0));
    let mut gw = gateway(calls);

    gw.handle(&post(Some("k1"), b"x"), 1_000); // created
    gw.handle(&post(Some("k1"), b"x"), 1_010); // replayed
    gw.handle(&post(None, b"x"), 1_020); // passthrough

    let m = gw.metrics();
    assert_eq!(m.requests_total, 3);
    assert_eq!(m.created, 1);
    assert_eq!(m.replayed, 1);
    assert_eq!(m.passthrough, 1);

    let body = String::from_utf8(gw.handle(&get("/metrics"), 1_030).body).unwrap();
    assert!(body.contains("onced_requests_total 3"));
    assert!(body.contains("onced_outcomes_total{outcome=\"created\"} 1"));
    assert!(body.contains("onced_outcomes_total{outcome=\"replayed\"} 1"));
}

/// The two-phase path (used to drop the lock during the forward) keeps
/// exactly-once: while one attempt is mid-forward, a concurrent same-key request is
/// told to wait (409) rather than forwarded again; after completion, retries
/// replay.
#[test]
fn begin_and_complete_phases_serialise_same_key() {
    let calls = Arc::new(AtomicU32::new(0));
    let mut gw = gateway(calls);
    let req = post(Some("k1"), b"x");

    // Phase 1: first attempt must forward.
    let ticket = match gw.begin_phase(&req, 1_000) {
        BeginPhase::Forward(t) => t,
        BeginPhase::Done(_) => panic!("first attempt should forward"),
    };

    // Concurrent same-key request while the first is in flight: 409, no forward.
    match gw.begin_phase(&req, 1_001) {
        BeginPhase::Done(resp) => assert_eq!(resp.status, 409),
        BeginPhase::Forward(_) => panic!("in-flight key must not forward twice"),
    }

    // Phase 3: finish the first attempt with the backend's response.
    let backend = Response {
        status: 201,
        headers: Vec::new(),
        body: b"charged".to_vec(),
    };
    let resp = gw.complete_phase(ticket, Ok(backend), 1_002);
    assert_eq!(header(&resp, "Onced-Status"), Some("created"));

    // A later retry now replays the committed outcome.
    match gw.begin_phase(&req, 1_002) {
        BeginPhase::Done(resp) => assert_eq!(header(&resp, "Onced-Status"), Some("replayed")),
        BeginPhase::Forward(_) => panic!("completed key must replay, not forward"),
    }
}

/// The worker that lost its lease to a takeover does not get to commit: the retry
/// that took over does, and its outcome is what is replayed.
#[test]
fn stale_fence_after_lease_takeover_commits_only_the_survivors_outcome() {
    let mut gw = gateway(Arc::new(AtomicU32::new(0)));
    let req = post(Some("k1"), b"x");
    let slow = match gw.begin_phase(&req, 0) {
        BeginPhase::Forward(t) => t,
        BeginPhase::Done(_) => panic!("first attempt should forward"),
    };
    let survivor = match gw.begin_phase(&req, 30_000) {
        BeginPhase::Forward(t) => t,
        BeginPhase::Done(_) => panic!("an expired lease is taken over"),
    };
    let answer = |body: &[u8]| Response {
        status: 201,
        headers: Vec::new(),
        body: body.to_vec(),
    };
    gw.complete_phase(survivor, Ok(answer(b"survivor")), 30_001);
    gw.complete_phase(slow, Ok(answer(b"slow")), 30_002);
    match gw.begin_phase(&req, 30_003) {
        BeginPhase::Done(resp) => assert_eq!(resp.body, b"survivor"),
        BeginPhase::Forward(_) => panic!("completed key must replay"),
    }
}

/// A commit that comes too late is refused: nothing is cached and nothing is
/// counted as created.
#[test]
fn a_late_commit_is_not_counted() {
    let mut gw = gateway(Arc::new(AtomicU32::new(0)));
    let req = post(Some("k1"), b"x");
    let ticket = |phase: BeginPhase| match phase {
        BeginPhase::Forward(t) => t,
        BeginPhase::Done(r) => panic!("expected Forward, got {}", r.status),
    };
    let response = |status: u16, body: &[u8]| Response {
        status,
        headers: Vec::new(),
        body: body.to_vec(),
    };
    let stalled = ticket(gw.begin_phase(&req, 1_000));
    let taken = ticket(gw.begin_phase(&req, 31_000));
    gw.complete_phase(taken, Ok(response(201, b"fresh")), 31_000);
    assert_eq!(gw.metrics().created, 1);
    gw.complete_phase(stalled, Ok(response(500, b"stale")), 31_001);
    assert_eq!(gw.metrics().created, 1);
    match gw.begin_phase(&req, 31_002) {
        BeginPhase::Done(r) => {
            assert_eq!((r.status, &r.body[..]), (201, &b"fresh"[..]));
            assert_eq!(header(&r, "Onced-Status"), Some("replayed"));
        }
        BeginPhase::Forward(_) => panic!("expected a replay"),
    }
}

/// A backend that sets two cookies.
struct CookieUpstream;

impl Upstream for CookieUpstream {
    fn forward(&self, _request: &Request) -> Result<Response, UpstreamError> {
        Ok(Response {
            status: 200,
            headers: vec![
                ("Set-Cookie".to_string(), "a=1".to_string()),
                ("Content-Type".to_string(), "text/plain".to_string()),
                ("Set-Cookie".to_string(), "b=2".to_string()),
            ],
            body: b"x".to_vec(),
        })
    }
}

/// A replay has every header of the first answer, repeated ones included, in order.
#[test]
fn a_replay_keeps_every_header_in_order() {
    let mut gw = Gateway::new(
        Engine::new(MemoryStore::new(), 30_000),
        RuleSet::new(),
        CookieUpstream,
    );
    let req = post(Some("k1"), b"x");
    let first = gw.handle(&req, 1_000);
    let retry = gw.handle(&req, 1_001);
    assert_eq!((retry.status, &retry.body[..]), (200, &b"x"[..]));
    assert_eq!(first.headers.last().unwrap().1, "created");
    assert_eq!(
        retry.headers,
        vec![
            ("Set-Cookie".to_string(), "a=1".to_string()),
            ("Content-Type".to_string(), "text/plain".to_string()),
            ("Set-Cookie".to_string(), "b=2".to_string()),
            ("Onced-Status".to_string(), "replayed".to_string()),
        ]
    );
    assert_eq!(retry.headers[..3], first.headers[..3]);
}

/// A backend that fails every third call.
struct FlakyUpstream {
    calls: Arc<AtomicU32>,
}

impl Upstream for FlakyUpstream {
    fn forward(&self, _request: &Request) -> Result<Response, UpstreamError> {
        let n = self.calls.fetch_add(1, Ordering::SeqCst);
        if n % 3 == 2 {
            return Err(UpstreamError {
                message: "down".to_string(),
            });
        }
        Ok(Response {
            status: 200,
            headers: Vec::new(),
            body: b"x".to_vec(),
        })
    }
}

/// Whatever a gateway has handled, its counters add up.
#[test]
fn the_counters_add_up() {
    let calls = Arc::new(AtomicU32::new(0));
    let mut gw = Gateway::new(
        Engine::with_ttl(MemoryStore::new(), 20, 200),
        RuleSet::new().rule("burst", 100, 8, Action::Throttle),
        FlakyUpstream {
            calls: calls.clone(),
        },
    );
    let (mut state, mut now, mut proxied) = (9u64, 0u64, 0u64);
    for _ in 0..2_000 {
        state = state.wrapping_mul(6364136223846793005).wrapping_add(1);
        let pick = state >> 40;
        now += pick % 20;
        let key = format!("k{}", pick % 7);
        let body: &[u8] = if pick % 11 == 0 { b"other" } else { b"x" };
        match pick % 5 {
            0 => gw.handle(&get("/healthz"), now),
            1 => gw.handle(&post(None, body), now),
            _ => gw.handle(&post(Some(&key), body), now),
        };
        proxied += u64::from(pick % 5 != 0);
        let m = gw.metrics();
        assert_eq!(
            m.requests_total,
            m.created + m.replayed + m.in_progress + m.mismatch + m.upstream_error + m.passthrough
        );
        assert_eq!(m.requests_total + m.denied, proxied);
        assert_eq!(
            u64::from(calls.load(Ordering::SeqCst)),
            m.created + m.upstream_error + m.passthrough
        );
    }
    let m = gw.metrics();
    for counter in [
        m.created,
        m.replayed,
        m.in_progress,
        m.mismatch,
        m.upstream_error,
        m.passthrough,
        m.denied,
    ] {
        assert!(counter > 0);
    }
}

/// A backend failure is answered with 502 and commits nothing.
#[test]
fn a_failed_forward_is_answered_502_and_can_be_retried() {
    let mut gw = gateway(Arc::new(AtomicU32::new(0)));
    let req = post(Some("k1"), b"x");
    let ticket = match gw.begin_phase(&req, 0) {
        BeginPhase::Forward(t) => t,
        BeginPhase::Done(_) => panic!("first attempt should forward"),
    };
    let error = UpstreamError {
        message: "connection refused".to_string(),
    };
    let resp = gw.complete_phase(ticket, Err(error), 1);
    assert_eq!(resp.status, 502);
    assert_eq!(header(&resp, "Onced-Status"), Some("upstream-error"));
    assert_eq!(gw.metrics().upstream_error, 1);
    assert!(matches!(
        gw.begin_phase(&req, 30_000),
        BeginPhase::Forward(_)
    ));
}

#[test]
fn an_abuse_rule_blocks_with_429_before_the_backend() {
    let calls = Arc::new(AtomicU32::new(0));
    let mut gw = Gateway::new(
        Engine::new(MemoryStore::new(), 30_000),
        RuleSet::new().rule("strict", 1000, 2, Action::Block),
        CountingUpstream {
            calls: calls.clone(),
            status: 201,
            body: b"ok".to_vec(),
        },
    );

    assert_eq!(gw.handle(&post(Some("a"), b"x"), 0).status, 201);
    assert_eq!(gw.handle(&post(Some("b"), b"x"), 0).status, 201);
    let blocked = gw.handle(&post(Some("c"), b"x"), 0);
    assert_eq!(blocked.status, 429);
    assert_eq!(header(&blocked, "Onced-Action"), Some("block"));
    assert_eq!(
        calls.load(Ordering::SeqCst),
        2,
        "the blocked request must not reach the backend"
    );
}

/// The backend that forwards nothing says so.
#[test]
fn the_noop_upstream_never_forwards() {
    assert!(NoopUpstream.forward(&get("/")).is_err());
}

/// A keyed fingerprint is an HMAC over method, target and body; without a key it
/// still tells requests apart. Headers are not part of it.
#[test]
fn fingerprints_cover_method_target_and_body() {
    let a = post(Some("k"), b"amount=1");
    let mut other_target = post(Some("k"), b"amount=1");
    other_target.target = "/refund".to_string();
    let mut other_method = post(Some("k"), b"amount=1");
    other_method.method = "PUT".to_string();
    for secret in [None, Some([7u8; 32])] {
        assert_eq!(
            fingerprint(&a, &secret),
            fingerprint(&post_from(None, "10.9.9.9", b"amount=1"), &secret)
        );
        assert_ne!(
            fingerprint(&a, &secret),
            fingerprint(&post(Some("k"), b"amount=2"), &secret)
        );
        assert_ne!(fingerprint(&a, &secret), fingerprint(&other_target, &secret));
        assert_ne!(fingerprint(&a, &secret), fingerprint(&other_method, &secret));
    }
    let mut message = 4u64.to_le_bytes().to_vec();
    message.extend_from_slice(b"POST");
    message.extend_from_slice(&7u64.to_le_bytes());
    message.extend_from_slice(b"/charge");
    message.extend_from_slice(b"amount=1");
    assert_eq!(
        fingerprint(&a, &Some([7u8; 32])).0,
        onced::hash::hmac_sha256(&[7u8; 32], &message)
    );
}

/// Counters of several shards add up, and stop at the largest number there is.
#[test]
fn counters_add_up_and_saturate() {
    let mut m = Metrics::default();
    m.created = 2;
    m.replayed = u64::MAX;
    let mut other = Metrics::default();
    other.created = 3;
    other.replayed = 1;
    m.merge(&other);
    assert_eq!(m.created, 5);
    assert_eq!(m.replayed, u64::MAX);
    assert!(m.render().contains("onced_outcomes_total{outcome=\"created\"} 5"));
    assert_eq!(m.render().as_bytes(), &m.render_bytes()[..]);
}

/// Build an `n`-shard router whose shards all forward to one shared call counter.
fn router(
    n: usize,
    calls: Arc<AtomicU32>,
    abuse: Vec<RuleSet>,
) -> Router<MemoryStore, CountingUpstream> {
    let upstream = |calls: &Arc<AtomicU32>| CountingUpstream {
        calls: Arc::clone(calls),
        status: 201,
        body: b"charged".to_vec(),
    };
    let shards = (0..n)
        .map(|_| {
            Gateway::new(
                Engine::new(MemoryStore::new(), 30_000),
                RuleSet::new(), // shards never run abuse; the router owns it
                upstream(&calls),
            )
        })
        .collect();
    Router::new(shards, abuse, upstream(&calls))
}

/// Exactly-once survives sharding: a retried key always lands on the same shard, so
/// the backend is hit once and the retry replays, across many keys spread over
/// several shards.
#[test]
fn exactly_once_holds_across_shards() {
    let calls = Arc::new(AtomicU32::new(0));
    let mut r = router(8, Arc::clone(&calls), vec![RuleSet::new()]);

    // 50 distinct keys, each sent twice. Backend must be hit exactly 50 times.
    for i in 0..50 {
        let key = format!("k{i}");
        let first = r.handle(&post_from(Some(&key), "10.0.0.1", b"x"), 1_000);
        let second = r.handle(&post_from(Some(&key), "10.0.0.1", b"x"), 1_010);
        assert_eq!(header(&first, "Onced-Status"), Some("created"));
        assert_eq!(header(&second, "Onced-Status"), Some("replayed"));
    }
    assert_eq!(
        calls.load(Ordering::SeqCst),
        50,
        "each key must reach the backend exactly once despite sharding"
    );
}

/// Abuse limits stay global even though idempotency is sharded by key: one IP
/// hammering many *different* keys (which scatter across shards) is still blocked
/// once its global quota is exceeded.
#[test]
fn abuse_limit_is_global_across_shards() {
    let calls = Arc::new(AtomicU32::new(0));
    // One abuse shard, limit 3 per window, block over it.
    let mut r = router(
        8,
        Arc::clone(&calls),
        vec![RuleSet::new().rule("strict", 1_000, 3, Action::Block)],
    );

    // Same IP, 5 different keys (so they hit different idempotency shards).
    let mut statuses = Vec::new();
    for i in 0..5 {
        let key = format!("k{i}");
        statuses.push(r.handle(&post_from(Some(&key), "10.0.0.7", b"x"), 0).status);
    }
    // First 3 allowed (201), the rest blocked (429), so the limit is global, not
    // per shard.
    assert_eq!(statuses, vec![201, 201, 201, 429, 429]);
    assert_eq!(
        calls.load(Ordering::SeqCst),
        3,
        "blocked requests must not reach the backend"
    );
}

/// `/metrics` aggregates across all shards and includes router-level denials.
#[test]
fn metrics_aggregate_across_shards() {
    let calls = Arc::new(AtomicU32::new(0));
    let mut r = router(
        4,
        Arc::clone(&calls),
        vec![RuleSet::new().rule("strict", 1_000, 2, Action::Block)],
    );

    // 2 allowed creates on distinct keys/shards, then 1 denied.
    r.handle(&post_from(Some("a"), "10.0.0.8", b"x"), 0);
    r.handle(&post_from(Some("b"), "10.0.0.8", b"x"), 0);
    r.handle(&post_from(Some("c"), "10.0.0.8", b"x"), 0); // denied

    let metrics_get = Request {
        method: "GET".into(),
        target: "/metrics".into(),
        headers: Vec::new(),
        body: Vec::new(),
    };
    let body = String::from_utf8(r.handle(&metrics_get, 0).body).unwrap();
    assert!(body.contains("onced_requests_total 2"), "body: {body}");
    assert!(body.contains("onced_outcomes_total{outcome=\"created\"} 2"));
    assert!(body.contains("onced_outcomes_total{outcome=\"denied\"} 1"));
}

/// A key is routed by nothing but itself; keyless requests go round.
#[test]
fn a_key_always_goes_to_the_same_shard() {
    let mut r = router(5, Arc::new(AtomicU32::new(0)), vec![RuleSet::new()]);
    for i in 0..20 {
        let key = format!("key-{i}");
        let shard = r.shard_for_key(&key);
        assert!(shard < 5);
        r.handle(&post_from(Some(&key), "10.0.0.1", b"x"), 0);
        r.handle(&post_from(None, "10.0.0.1", b"x"), 0);
        assert_eq!(r.shard_for_key(&key), shard);
    }
    assert_eq!(r.abuse_for_identity("10.0.0.1"), 0);
}

/// With the last fence minted, a key that is stored is still answered, and so is a
/// request without one: only a new attempt needs a fence.
#[test]
fn a_replay_needs_no_fence() {
    let calls = Arc::new(AtomicU32::new(0));
    let store = WalStore::open_with(&[], u64::MAX - 2, true).unwrap();
    let upstream = CountingUpstream {
        calls: calls.clone(),
        status: 201,
        body: b"charged".to_vec(),
    };
    let mut gw = Gateway::new(Engine::new(store, 30_000), RuleSet::new(), upstream);

    let first = post(Some("k1"), b"x");
    assert!(gw.may_begin(&first, 1_000));
    assert_eq!(gw.handle(&first, 1_000).status, 201);

    assert!(gw.may_begin(&first, 1_010));
    assert!(gw.may_begin(&post(None, b"x"), 1_010));
    assert!(gw.may_begin(&post(Some("k1"), b"y"), 1_010));
    assert!(!gw.may_begin(&post(Some("k2"), b"x"), 1_010));

    let again = gw.handle(&first, 1_010);
    assert_eq!(header(&again, "Onced-Status"), Some("replayed"));
    assert_eq!(calls.load(Ordering::SeqCst), 1);
}

/// The stages before the backend call run in their order, and none after the one
/// that settles the request.
#[test]
fn the_stages_run_in_order_until_one_settles() {
    let answer = |status: u16| Response {
        status,
        headers: Vec::new(),
        body: Vec::new(),
    };
    let mut gw = gateway(Arc::new(AtomicU32::new(0)));
    for (operational, deny, status, ran) in [
        (Some(200), Some(429), Some(200), vec!["operational"]),
        (None, Some(429), Some(429), vec!["operational", "deny"]),
        (None, None, None, vec!["operational", "deny", "begin"]),
    ] {
        let trace = RefCell::new(Vec::new());
        let ticket = match gw.begin_phase(&post(None, b"x"), 0) {
            BeginPhase::Forward(ticket) => ticket,
            BeginPhase::Done(_) => panic!("a request without a key is forwarded"),
        };
        let settled = before_the_backend(
            || {
                trace.borrow_mut().push("operational");
                operational.map(answer)
            },
            || {
                trace.borrow_mut().push("deny");
                deny.map(answer)
            },
            || {
                trace.borrow_mut().push("begin");
                Ok((3, ticket))
            },
        );
        assert_eq!(trace.into_inner(), ran);
        match settled {
            Ok((shard, _)) => {
                assert_eq!(shard, 3);
                assert_eq!(status, None);
            }
            Err(response) => assert_eq!(Some(response.status), status),
        }
    }
}
