//! The gateway handler: where the idempotency engine and the abuse rules meet HTTP
//! traffic.
//!
//! For each request the handler runs the abuse rules over the caller's identity
//! (the `X-Forwarded-For` header) and answers `429` if one trips; then, if an
//! `Idempotency-Key` header is present, it runs the request through the engine,
//! replaying the stored response on a retry and calling the backend (the
//! [`Upstream`]) only to run a key; otherwise it forwards straight through.

use crate::abuse;
use crate::abuse::{Action, RuleSet, Verdict};
use crate::bytes;
use crate::bytes::{put_raw, put_u64};
use crate::client_laws;
use crate::engine;
use crate::engine::{Answer, Begin, Engine, RunToken};
use crate::hash;
use crate::hash::{hmac_sha256, to_array32};
use crate::hashing;
use crate::hashing::{feed_text, feed_u64};
use crate::headers;
use crate::headers::Headers;
use crate::http::message;
use crate::http::message::{Request, RequestView, Response, ResponseView};
use crate::lex;
use crate::lex::find_byte;
use crate::line::Line;
use crate::metrics;
use crate::metrics::Metrics;
use crate::store::Store;
use crate::text::{copy_bytes, copy_text, same_bytes};
use crate::{CachedOutcome, IdempotencyKey, OutcomeView, RequestFingerprint};
use std::collections::hash_map::DefaultHasher;
use std::hash::Hasher;
use vstd::prelude::*;
use vstd::slice::slice_subrange;
use vstd::std_specs::hash::DefaultHasherAdditionalSpecFns;
use vstd::utf8::*;

verus! {

/// Why a backend call failed.
#[derive(Debug, PartialEq, Eq)]
pub struct UpstreamError {
    pub message: String,
}

/// The backend the gateway protects.
pub trait Upstream {
    /// Forward `request` to the backend and return its response.
    fn forward(&self, request: &Request) -> (r: Result<Response, UpstreamError>);
}

/// An [`Upstream`] that never forwards, for drivers that supply the backend call
/// out of band.
pub struct NoopUpstream;

impl Upstream for NoopUpstream {
    fn forward(&self, _request: &Request) -> (r: Result<Response, UpstreamError>)
        ensures
            r is Err,
            r->Err_0.message@
                == "NoopUpstream::forward called; use an async driver that forwards out of band"@,
    {
        Err(
            UpstreamError {
                message: copy_text(
                    "NoopUpstream::forward called; use an async driver that forwards out of band",
                ),
            },
        )
    }
}

// ---------------------------------------------------------------------------
// Requests
// ---------------------------------------------------------------------------

/// The path of a request target: all before the query string.
pub open spec fn path_of(request: RequestView) -> Seq<u8> {
    let target = encode_utf8(request.target);
    target.take(lex::first_index(target, 63u8))
}

/// The request is for one of the operational endpoints.
pub open spec fn is_operational(request: RequestView) -> bool {
    path_of(request) == encode_utf8("/healthz"@) || path_of(request) == encode_utf8("/metrics"@)
}

/// The identity that abuse is counted over.
pub open spec fn identity_of(request: RequestView) -> Seq<char> {
    match message::header_value(request.headers, "x-forwarded-for"@) {
        Some(identity) => identity,
        None => "anonymous"@,
    }
}

/// The idempotency key that a request bears.
pub open spec fn key_of(request: RequestView) -> Option<Seq<char>> {
    message::header_value(request.headers, "idempotency-key"@)
}

/// One of the four salted hash passes over a request's meaningful content.
pub open spec fn salted_hash(request: RequestView, salt: u64) -> u64 {
    DefaultHasher::spec_finish(
        seq![bytes::le_u64(salt)] + hashing::text_input(request.method) + hashing::text_input(
            request.target,
        ) + seq![bytes::le_u64(request.body.len() as u64), request.body],
    )
}

/// The message that a keyed fingerprint authenticates: method and target with
/// their lengths in front, then the body.
pub open spec fn fingerprint_message(request: RequestView) -> Seq<u8> {
    let method = encode_utf8(request.method);
    let target = encode_utf8(request.target);
    bytes::le_u64(method.len() as u64) + method + bytes::le_u64(target.len() as u64) + target
        + request.body
}

/// The fingerprint of a request's meaningful content (method, target, body): an
/// HMAC under `secret`, or, without one, four salted hash passes.
pub open spec fn fingerprint_of(request: RequestView, secret: Option<Seq<u8>>) -> Seq<u8> {
    match secret {
        Some(secret) => hash::hmac_sha256_tag(secret, fingerprint_message(request)),
        None => bytes::le_u64(salted_hash(request, 0)) + bytes::le_u64(salted_hash(request, 1))
            + bytes::le_u64(salted_hash(request, 2)) + bytes::le_u64(salted_hash(request, 3)),
    }
}

/// Whether the path of a request is `path`.
pub fn has_path(request: &Request, path: &str) -> (r: bool)
    ensures
        r == (path_of(request@) == encode_utf8(path@)),
{
    let target: &[u8] = request.target.as_str().as_bytes();
    let n: usize = find_byte(target, 63);
    let own = slice_subrange(target, 0, n);
    assert(own@ =~= path_of(request@));
    same_bytes(own, path.as_bytes())
}

/// The identity that abuse is counted over: the `X-Forwarded-For` header.
pub fn identity(request: &Request) -> (r: &str)
    ensures
        r@ == identity_of(request@),
        client_laws::comes_from(request@, r@),
{
    proof {
        client_laws::the_client_is_the_first_such_header(request@);
        assert(client_laws::comes_from(request@, identity_of(request@)));
    }
    match request.header("x-forwarded-for") {
        Some(identity) => identity,
        None => "anonymous",
    }
}

fn salted_pass(request: &Request, salt: u64) -> (h: u64)
    ensures
        h == salted_hash(request@, salt),
{
    let mut hasher = DefaultHasher::new();
    feed_u64(&mut hasher, salt);
    feed_text(&mut hasher, request.method.as_str());
    feed_text(&mut hasher, request.target.as_str());
    feed_u64(&mut hasher, request.body.len() as u64);
    hasher.write(request.body.as_slice());
    assert(hasher@ =~= seq![bytes::le_u64(salt)] + hashing::text_input(request@.method)
        + hashing::text_input(request@.target) + seq![
        bytes::le_u64(request@.body.len() as u64),
        request@.body,
    ]);
    hasher.finish()
}

/// The fingerprint of a request's meaningful content, so that a key reused with a
/// different request is detected as a mismatch.
pub fn fingerprint(request: &Request, secret: &Option<[u8; 32]>) -> (r: RequestFingerprint)
    ensures
        r@ == fingerprint_of(
            request@,
            match *secret {
                Some(secret) => Some(secret@),
                None => None,
            },
        ),
{
    match secret {
        Some(secret) => {
            let method: &[u8] = request.method.as_str().as_bytes();
            let target: &[u8] = request.target.as_str().as_bytes();
            let mut msg: Vec<u8> = Vec::new();
            put_u64(&mut msg, method.len() as u64);
            put_raw(&mut msg, method);
            put_u64(&mut msg, target.len() as u64);
            put_raw(&mut msg, target);
            put_raw(&mut msg, request.body.as_slice());
            assert(msg@ =~= fingerprint_message(request@));
            RequestFingerprint(hmac_sha256(secret, msg.as_slice()))
        },
        None => {
            let mut raw: Vec<u8> = Vec::with_capacity(32);
            put_u64(&mut raw, salted_pass(request, 0));
            put_u64(&mut raw, salted_pass(request, 1));
            put_u64(&mut raw, salted_pass(request, 2));
            put_u64(&mut raw, salted_pass(request, 3));
            assert(raw@ =~= fingerprint_of(request@, None));
            assert(raw@.take(32) =~= raw@);
            RequestFingerprint(to_array32(raw.as_slice()))
        },
    }
}

// ---------------------------------------------------------------------------
// Responses
// ---------------------------------------------------------------------------

/// The outcome that is cached of a response: all of it, every header in its place.
pub open spec fn outcome_of(response: ResponseView) -> OutcomeView {
    OutcomeView {
        status: response.status,
        headers: response.headers,
        body: response.body,
    }
}

/// The response that replays a cached outcome.
pub open spec fn replay_of(outcome: OutcomeView) -> ResponseView {
    ResponseView { status: outcome.status, headers: outcome.headers, body: outcome.body }
}

/// A response with the header that says how it was produced.
pub open spec fn tagged(response: ResponseView, status: Seq<char>) -> ResponseView {
    ResponseView { headers: response.headers.push(("Onced-Status"@, status)), ..response }
}

/// An empty response that only says how it came about.
pub open spec fn bare(code: u16, status: Seq<char>) -> ResponseView {
    ResponseView { status: code, headers: seq![("Onced-Status"@, status)], body: Seq::empty() }
}

/// The liveness response served at `/healthz`.
pub open spec fn health_view() -> ResponseView {
    ResponseView {
        status: 200,
        headers: seq![("Onced-Status"@, "healthy"@)],
        body: encode_utf8("ok"@),
    }
}

/// The response served at `/metrics`.
pub open spec fn metrics_view(m: Metrics) -> ResponseView {
    ResponseView {
        status: 200,
        headers: seq![("Content-Type"@, "text/plain; version=0.0.4"@)],
        body: encode_utf8(metrics::metrics_text(m)),
    }
}

/// What an action is called on the wire.
pub open spec fn action_name(action: Action) -> Seq<char> {
    match action {
        Action::Challenge => "challenge"@,
        Action::Throttle => "throttle"@,
        Action::Block => "block"@,
    }
}

/// The response for a request denied by an abuse rule.
pub open spec fn denial_view(rule: Seq<char>, action: Action) -> ResponseView {
    ResponseView {
        status: 429,
        headers: seq![
            ("Onced-Status"@, "denied"@),
            ("Onced-Rule"@, rule),
            ("Onced-Action"@, action_name(action)),
        ],
        body: Seq::empty(),
    }
}

/// The response for a backend failure.
pub open spec fn failure_view() -> ResponseView {
    bare(502, "upstream-error"@)
}

/// Appends a header.
fn add_header(fields: &mut Vec<(String, String)>, name: &str, value: &str)
    ensures
        headers::field_views(final(fields)@) == headers::field_views(old(fields)@).push(
            (name@, value@),
        ),
{
    let ghost before = headers::field_views(fields@);
    fields.push((copy_text(name), copy_text(value)));
    assert(headers::field_views(fields@) =~= before.push((name@, value@)));
}

/// One header.
fn one_header(name: &str, value: &str) -> (fields: Vec<(String, String)>)
    ensures
        headers::field_views(fields@) == seq![(name@, value@)],
{
    let mut fields: Vec<(String, String)> = Vec::new();
    add_header(&mut fields, name, value);
    assert(headers::field_views(fields@) =~= seq![(name@, value@)]);
    fields
}

/// The `200 ok` liveness response served at `/healthz`.
pub fn health_ok() -> (r: Response)
    ensures
        r@ == health_view(),
{
    Response {
        status: 200,
        headers: one_header("Onced-Status", "healthy"),
        body: copy_bytes("ok".as_bytes()),
    }
}

/// The Prometheus-format response served at `/metrics`.
pub fn metrics_response(m: &Metrics) -> (r: Response)
    ensures
        r@ == metrics_view(*m),
{
    Response {
        status: 200,
        headers: one_header("Content-Type", "text/plain; version=0.0.4"),
        body: m.render_bytes(),
    }
}

fn to_outcome(response: &Response) -> (r: CachedOutcome)
    ensures
        r@ == outcome_of(response@),
{
    let ghost all = headers::field_views(response.headers@);
    let mut kept = Headers::new();
    let mut i: usize = 0;
    while i < response.headers.len()
        invariant
            i <= response.headers@.len(),
            all == headers::field_views(response.headers@),
            kept@ == all.take(i as int),
        decreases response.headers@.len() - i,
    {
        kept.push(response.headers[i].0.clone(), response.headers[i].1.clone());
        assert(all.take(i + 1) =~= all.take(i as int).push(all[i as int]));
        i = i + 1;
    }
    assert(all.take(i as int) =~= all);
    CachedOutcome {
        status: response.status,
        headers: kept,
        body: copy_bytes(response.body.as_slice()),
    }
}

fn from_outcome(outcome: CachedOutcome) -> (r: Response)
    ensures
        r@ == replay_of(outcome@),
{
    let ghost all = outcome.headers@;
    let mut fields: Vec<(String, String)> = Vec::new();
    let mut i: usize = 0;
    while i < outcome.headers.len()
        invariant
            i <= outcome.headers@.len(),
            all == outcome.headers@,
            headers::field_views(fields@) == all.take(i as int),
        decreases outcome.headers@.len() - i,
    {
        let ghost copied = headers::field_views(fields@);
        let (name, value) = outcome.headers.at(i);
        fields.push((copy_text(name), copy_text(value)));
        assert(headers::field_views(fields@) =~= copied.push(all[i as int]));
        i = i + 1;
        assert(headers::field_views(fields@) =~= all.take(i as int));
    }
    assert(all.take(i as int) =~= all);
    Response { status: outcome.status, headers: fields, body: outcome.body }
}

/// Attach the `Onced-Status` header describing how the response was produced.
fn tag(response: Response, status: &str) -> (r: Response)
    ensures
        r@ == tagged(response@, status@),
{
    let mut fields = response.headers;
    add_header(&mut fields, "Onced-Status", status);
    Response { status: response.status, headers: fields, body: response.body }
}

fn tagged_status(code: u16, status: &str) -> (r: Response)
    ensures
        r@ == bare(code, status@),
{
    let r = Response {
        status: code,
        headers: one_header("Onced-Status", status),
        body: Vec::new(),
    };
    assert(r@.body =~= Seq::<u8>::empty());
    r
}

/// The `429` response for a request denied by an abuse rule.
pub fn too_many_requests(rule: &str, action: Action) -> (r: Response)
    ensures
        r@ == denial_view(rule@, action),
{
    let name: &str = match action {
        Action::Challenge => "challenge",
        Action::Throttle => "throttle",
        Action::Block => "block",
    };
    let mut fields: Vec<(String, String)> = one_header("Onced-Status", "denied");
    add_header(&mut fields, "Onced-Rule", rule);
    add_header(&mut fields, "Onced-Action", name);
    let r = Response { status: 429, headers: fields, body: Vec::new() };
    assert(r@.headers =~= denial_view(rule@, action).headers);
    assert(r@.body =~= Seq::<u8>::empty());
    r
}

fn bad_gateway() -> (r: Response)
    ensures
        r@ == failure_view(),
{
    tagged_status(502, "upstream-error")
}

// ---------------------------------------------------------------------------
// The gateway
// ---------------------------------------------------------------------------

/// The Onced gateway: an idempotency engine, abuse rules, and a backend.
pub struct Gateway<S: Store, U: Upstream> {
    engine: Engine<S>,
    rules: RuleSet,
    line: Line<U>,
    metrics: Metrics,
    fingerprint_key: Option<[u8; 32]>,
}

/// The outcome of [`Gateway::begin_phase`]: either a final response, or an
/// instruction to forward to the backend and then call
/// [`Gateway::complete_phase`].
pub enum BeginPhase {
    /// The response is already determined (replay, 409, 422); do not forward.
    Done(Response),
    /// Forward the request to the backend, then hand this ticket to
    /// [`complete_phase`](Gateway::complete_phase).
    Forward(ForwardTicket),
}

/// Opaque handoff between [`Gateway::begin_phase`] and
/// [`Gateway::complete_phase`]. Carries the run token for an idempotent request
/// (or nothing, for a keyless passthrough).
pub struct ForwardTicket {
    token: Option<RunToken>,
}

impl ForwardTicket {
    /// The key and fence that the ticket commits under, if it is for a key.
    pub closed spec fn claim(&self) -> Option<(Seq<char>, u64)> {
        match self.token {
            Some(token) => Some((token.key(), token.fence())),
            None => None,
        }
    }
}

impl<S: Store, U: Upstream> Gateway<S, U> {
    /// The engine and the rules are well-formed.
    pub open spec fn wf(&self) -> bool {
        self.engine().wf() && self.rules().wf()
    }

    pub closed spec fn engine(&self) -> Engine<S> {
        self.engine
    }

    pub closed spec fn rules(&self) -> RuleSet {
        self.rules
    }

    pub closed spec fn backend(&self) -> U {
        self.line.backend()
    }

    /// The requests that the backend was asked, in order.
    pub closed spec fn asked(&self) -> Seq<RequestView> {
        self.line.asked()
    }

    pub closed spec fn counters(&self) -> Metrics {
        self.metrics
    }

    /// The secret that fingerprints are keyed with.
    pub closed spec fn secret(&self) -> Option<Seq<u8>> {
        match self.fingerprint_key {
            Some(key) => Some(key@),
            None => None,
        }
    }

    /// What the engine owes a request that bears `key`.
    pub open spec fn due(&self, request: RequestView, key: Seq<char>, now_ms: u64) -> Answer {
        engine::answer(
            self.engine().records(),
            key,
            fingerprint_of(request, self.secret()),
            now_ms,
            self.engine().ttl_ms(),
        )
    }

    /// Only the backend can settle the request: it bears no key, or it is to start its
    /// key.
    pub open spec fn must_forward(&self, request: RequestView, now_ms: u64) -> bool {
        match key_of(request) {
            None => true,
            Some(key) => self.due(request, key, now_ms) is Start,
        }
    }

    /// The request is for the backend: it is for no operational endpoint, it passes
    /// the abuse rules, and only the backend can settle it.
    pub open spec fn needs_the_backend(&self, request: RequestView, now_ms: u64) -> bool {
        &&& !is_operational(request)
        &&& abuse::first_tripped(self.rules().rules(), identity_of(request), now_ms) is None
        &&& self.must_forward(request, now_ms)
    }

    /// Where a request would start a key, a fence can still be minted for it.
    pub open spec fn can_begin(&self, request: RequestView, now_ms: u64) -> bool {
        key_of(request) matches Some(key) ==> self.due(request, key, now_ms) is Start
            ==> self.engine().next_fence() < u64::MAX
    }

    /// Backend, rules and secret are as in `other`.
    pub open spec fn same_parts(&self, other: &Self) -> bool {
        &&& self.backend() == other.backend()
        &&& self.rules() == other.rules()
        &&& self.secret() == other.secret()
    }

    /// `self` is `before` after the begin phase of a request.
    pub open spec fn follows_begin(
        &self,
        before: &Self,
        request: RequestView,
        now_ms: u64,
    ) -> bool {
        let counted = Metrics {
            requests_total: metrics::bumped(before.counters().requests_total),
            ..before.counters()
        };
        &&& self.same_parts(before)
        &&& self.asked() == before.asked()
        &&& match key_of(request) {
            None => self.engine() == before.engine() && self.counters() == counted,
            Some(key) => {
                &&& self.engine().follows_begin(
                    &before.engine(),
                    key,
                    fingerprint_of(request, before.secret()),
                    now_ms,
                )
                &&& self.counters() == match before.due(request, key, now_ms) {
                    Answer::Start => counted,
                    Answer::Replay(_) => Metrics {
                        replayed: metrics::bumped(counted.replayed),
                        ..counted
                    },
                    Answer::InProgress => Metrics {
                        in_progress: metrics::bumped(counted.in_progress),
                        ..counted
                    },
                    Answer::Mismatch => Metrics {
                        mismatch: metrics::bumped(counted.mismatch),
                        ..counted
                    },
                }
            },
        }
    }

    /// What the begin phase of a request answers.
    pub open spec fn is_begin_answer(
        &self,
        request: RequestView,
        now_ms: u64,
        phase: BeginPhase,
    ) -> bool {
        match key_of(request) {
            None => phase matches BeginPhase::Forward(ticket) && ticket.claim() is None,
            Some(key) => match self.due(request, key, now_ms) {
                Answer::Start => phase matches BeginPhase::Forward(ticket) && ticket.claim()
                    == Some((key, self.engine().next_fence())),
                Answer::Replay(outcome) => phase matches BeginPhase::Done(response) && response@
                    == tagged(replay_of(outcome), "replayed"@),
                Answer::InProgress => phase matches BeginPhase::Done(response) && response@ == bare(
                    409,
                    "in-progress"@,
                ),
                Answer::Mismatch => phase matches BeginPhase::Done(response) && response@ == bare(
                    422,
                    "mismatch"@,
                ),
            },
        }
    }

    /// `self` is `before` after the complete phase of the ticket with `claim`.
    pub open spec fn follows_complete(
        &self,
        before: &Self,
        claim: Option<(Seq<char>, u64)>,
        forwarded: Result<Response, UpstreamError>,
        now_ms: u64,
    ) -> bool {
        &&& self.same_parts(before)
        &&& match (claim, forwarded) {
            (Some((key, fence)), Ok(response)) => {
                &&& self.engine().follows_complete(
                    &before.engine(),
                    key,
                    fence,
                    outcome_of(response@),
                    now_ms,
                )
                &&& self.counters() == if engine::refusal(
                    before.engine().records(),
                    key,
                    fence,
                ) is None {
                    Metrics {
                        created: metrics::bumped(before.counters().created),
                        ..before.counters()
                    }
                } else {
                    before.counters()
                }
            },
            (None, Ok(response)) => {
                &&& self.engine() == before.engine()
                &&& self.counters() == (Metrics {
                    passthrough: metrics::bumped(before.counters().passthrough),
                    ..before.counters()
                })
            },
            (_, Err(_)) => {
                &&& self.engine() == before.engine()
                &&& self.counters() == (Metrics {
                    upstream_error: metrics::bumped(before.counters().upstream_error),
                    ..before.counters()
                })
            },
        }
    }

    /// `self` is `before` after the idempotency stage of a request, which gave
    /// `response`: either the begin phase settled it, or the backend was asked,
    /// with that very request, and the complete phase took its answer.
    pub open spec fn follows_request(
        &self,
        before: &Self,
        request: &Request,
        now_ms: u64,
        response: ResponseView,
    ) -> bool {
        exists|mid: Self, phase: BeginPhase|
            #![trigger mid.follows_begin(before, request@, now_ms), before.is_begin_answer(request@, now_ms, phase)]
            mid.follows_begin(before, request@, now_ms) && before.is_begin_answer(
                request@,
                now_ms,
                phase,
            ) && match phase {
                BeginPhase::Done(done) => *self == mid && response == done@,
                BeginPhase::Forward(ticket) => self.follows_forward(
                    &mid,
                    request,
                    now_ms,
                    ticket.claim(),
                    response,
                ),
            }
    }

    /// `self` is `mid` after the backend was asked, once, and its answer was taken.
    pub open spec fn follows_forward(
        &self,
        mid: &Self,
        request: &Request,
        now_ms: u64,
        claim: Option<(Seq<char>, u64)>,
        response: ResponseView,
    ) -> bool {
        exists|forwarded: Result<Response, UpstreamError>|
            #![trigger self.follows_complete(mid, claim, forwarded, now_ms)]
            call_ensures(U::forward, (&mid.backend(), request), forwarded)
                && self.follows_complete(mid, claim, forwarded, now_ms) && response
                == completed_view(claim, forwarded) && self.asked() == mid.asked().push(request@)
    }

    /// `self` is `before` after `request` was handled end to end, which gave
    /// `response`: the operational endpoints are answered on the spot, a request that
    /// trips a rule is denied, and any other goes on to the idempotency stage.
    pub open spec fn follows_handle(
        &self,
        before: &Self,
        request: &Request,
        now_ms: u64,
        response: ResponseView,
    ) -> bool {
        if path_of(request@) == encode_utf8("/healthz"@) {
            response == health_view() && *self == *before
        } else if path_of(request@) == encode_utf8("/metrics"@) {
            response == metrics_view(before.counters()) && *self == *before
        } else {
            match abuse::first_tripped(before.rules().rules(), identity_of(request@), now_ms) {
                Some((rule, action)) => {
                    &&& response == denial_view(rule, action)
                    &&& self.engine() == before.engine()
                    &&& self.backend() == before.backend()
                    &&& self.asked() == before.asked()
                    &&& self.secret() == before.secret()
                    &&& self.rules().follows_hit(&before.rules(), identity_of(request@), now_ms)
                    &&& self.counters() == (Metrics {
                        denied: metrics::bumped(before.counters().denied),
                        ..before.counters()
                    })
                },
                None => exists|checked: Self|
                    #![trigger self.follows_request(&checked, request, now_ms, response)]
                    checked.follows_check(before, request@, now_ms) && self.follows_request(
                        &checked,
                        request,
                        now_ms,
                        response,
                    ),
            }
        }
    }

    /// Build a gateway from an engine, a rule set, and a backend.
    pub fn new(engine: Engine<S>, rules: RuleSet, upstream: U) -> (r: Self)
        ensures
            r.engine() == engine,
            r.rules() == rules,
            r.backend() == upstream,
            r.asked() == Seq::<RequestView>::empty(),
            r.counters() == metrics::no_metrics(),
            r.secret() is None,
    {
        Gateway {
            engine,
            rules,
            line: Line::new(upstream),
            metrics: Metrics::default(),
            fingerprint_key: None,
        }
    }

    /// Key the request fingerprints with `key`. All shards, and all peers of a
    /// cluster, share one key.
    pub fn with_fingerprint_key(self, key: [u8; 32]) -> (r: Self)
        ensures
            r.engine() == self.engine(),
            r.rules() == self.rules(),
            r.backend() == self.backend(),
            r.asked() == self.asked(),
            r.counters() == self.counters(),
            r.secret() == Some(key@),
    {
        Gateway {
            engine: self.engine,
            rules: self.rules,
            line: self.line,
            metrics: self.metrics,
            fingerprint_key: Some(key),
        }
    }

    /// A snapshot of the operational counters.
    pub fn metrics(&self) -> (m: &Metrics)
        ensures
            *m == self.counters(),
    {
        &self.metrics
    }

    /// Whether there is a fence left for the request, where it needs one.
    pub fn may_begin(&self, request: &Request, now_ms: u64) -> (r: bool)
        requires
            self.wf(),
        ensures
            r == self.can_begin(request@, now_ms),
    {
        if self.engine.can_mint() {
            return true;
        }
        match request.header("idempotency-key") {
            None => true,
            Some(key) => {
                let print = fingerprint(request, &self.fingerprint_key);
                !self.engine.would_start(&IdempotencyKey(copy_text(key)), &print, now_ms)
            },
        }
    }

    /// Reclaim expired keys and compact the store. Run off the request path (a
    /// background sweep), not per request.
    pub fn prune_expired(&mut self, now_ms: u64)
        requires
            old(self).wf(),
        ensures
            final(self).wf(),
            final(self).same_parts(old(self)),
            final(self).asked() == old(self).asked(),
            final(self).counters() == old(self).counters(),
            final(self).engine().follows_prune(&old(self).engine(), now_ms),
    {
        self.engine.prune_expired(now_ms);
    }

    /// Handle one request end to end (operational endpoints, abuse, then
    /// idempotency) and produce the response to send back to the client.
    pub fn handle(&mut self, request: &Request, now_ms: u64) -> (r: Response)
        requires
            old(self).wf(),
            old(self).can_begin(request@, now_ms),
        ensures
            final(self).wf(),
            final(self).follows_handle(old(self), request, now_ms, r@),
            final(self).asked() == if old(self).needs_the_backend(request@, now_ms) {
                old(self).asked().push(request@)
            } else {
                old(self).asked()
            },
    {
        if has_path(request, "/healthz") {
            return health_ok();
        }
        if has_path(request, "/metrics") {
            return metrics_response(&self.metrics);
        }
        let who = identity(request);
        match self.rules.evaluate(who, now_ms) {
            Verdict::Deny { rule, action } => {
                self.metrics.denied = self.metrics.denied.saturating_add(1);
                return too_many_requests(rule.as_str(), action);
            },
            Verdict::Allow => {},
        }
        assert(self.follows_check(old(self), request@, now_ms));
        self.handle_after_abuse(request, now_ms)
    }

    /// `self` is `before` after a request passed the abuse rules.
    pub open spec fn follows_check(
        &self,
        before: &Self,
        request: RequestView,
        now_ms: u64,
    ) -> bool {
        &&& self.engine() == before.engine()
        &&& self.backend() == before.backend()
        &&& self.asked() == before.asked()
        &&& self.secret() == before.secret()
        &&& self.counters() == before.counters()
        &&& self.rules().follows_hit(&before.rules(), identity_of(request), now_ms)
    }

    /// The idempotency and passthrough stage, run after the abuse check has
    /// already passed: the begin phase, the backend call where it is needed, and
    /// the complete phase.
    pub fn handle_after_abuse(&mut self, request: &Request, now_ms: u64) -> (r: Response)
        requires
            old(self).wf(),
            old(self).can_begin(request@, now_ms),
        ensures
            final(self).wf(),
            final(self).follows_request(old(self), request, now_ms, r@),
            final(self).asked() == if old(self).must_forward(request@, now_ms) {
                old(self).asked().push(request@)
            } else {
                old(self).asked()
            },
    {
        let phase = self.begin_phase(request, now_ms);
        let ghost mid = *self;
        assert(mid.follows_begin(old(self), request@, now_ms));
        assert(old(self).is_begin_answer(request@, now_ms, phase));
        match phase {
            BeginPhase::Done(response) => response,
            BeginPhase::Forward(ticket) => {
                let ghost claim = ticket.claim();
                let forwarded = self.line.ask(request);
                let ghost told = *self;
                assert(call_ensures(U::forward, (&mid.backend(), request), forwarded));
                let response = self.complete_phase(ticket, forwarded, now_ms);
                assert(told.engine() == mid.engine() && told.same_parts(&mid));
                assert(self.follows_complete(&mid, claim, forwarded, now_ms));
                assert(self.follows_forward(&mid, request, now_ms, claim, response@));
                response
            },
        }
    }

    /// Phase 1 of a request: decide what to do. Either the answer is already known
    /// (a replay, a 409 in-progress, or a 422 mismatch), or the backend must be
    /// called and the ticket handed back to [`complete_phase`].
    ///
    /// Splitting begin from complete lets a caller release the shard during the
    /// slow backend call: a concurrent retry of the same key sees the attempt in
    /// progress and is told to wait.
    ///
    /// [`complete_phase`]: Gateway::complete_phase
    pub fn begin_phase(&mut self, request: &Request, now_ms: u64) -> (phase: BeginPhase)
        requires
            old(self).wf(),
            old(self).can_begin(request@, now_ms),
        ensures
            final(self).wf(),
            final(self).follows_begin(old(self), request@, now_ms),
            old(self).is_begin_answer(request@, now_ms, phase),
            client_laws::bears_none(request@) ==> phase is Forward && phase->Forward_0.claim() is None,
            forall|key: Seq<char>| #[trigger]
                client_laws::bears(request@, key) && phase is Forward ==> phase->Forward_0.claim()
                    == Some((key, old(self).engine().next_fence())),
    {
        proof {
            client_laws::the_key_is_the_first_such_header(request@);
        }
        self.metrics.requests_total = self.metrics.requests_total.saturating_add(1);
        let key = match request.header("idempotency-key") {
            None => {
                return BeginPhase::Forward(ForwardTicket { token: None });
            },
            Some(key) => IdempotencyKey(copy_text(key)),
        };
        let print = fingerprint(request, &self.fingerprint_key);
        match self.engine.begin(key, print, now_ms) {
            Begin::Run(token) => BeginPhase::Forward(ForwardTicket { token: Some(token) }),
            Begin::Replay(outcome) => {
                self.metrics.replayed = self.metrics.replayed.saturating_add(1);
                BeginPhase::Done(tag(from_outcome(outcome), "replayed"))
            },
            Begin::InProgress => {
                self.metrics.in_progress = self.metrics.in_progress.saturating_add(1);
                BeginPhase::Done(tagged_status(409, "in-progress"))
            },
            Begin::Mismatch => {
                self.metrics.mismatch = self.metrics.mismatch.saturating_add(1);
                BeginPhase::Done(tagged_status(422, "mismatch"))
            },
        }
    }

    /// Phase 3 of a request: given the backend's response (or its failure),
    /// finalize. Commits the cached outcome for an idempotent request, or passes a
    /// keyless response straight through.
    ///
    /// A commit that comes too late, after a retry took the key over, is refused
    /// by the engine: nothing is cached, and nothing is counted.
    pub fn complete_phase(
        &mut self,
        ticket: ForwardTicket,
        forwarded: Result<Response, UpstreamError>,
        now_ms: u64,
    ) -> (r: Response)
        requires
            old(self).wf(),
        ensures
            final(self).wf(),
            final(self).follows_complete(old(self), ticket.claim(), forwarded, now_ms),
            final(self).asked() == old(self).asked(),
            r@ == completed_view(ticket.claim(), forwarded),
            ticket.claim() is None ==> client_laws::is_passed_through(forwarded, r@),
            ticket.claim() is Some ==> client_laws::is_first_answer(forwarded, r@),
    {
        proof {
            if forwarded is Ok {
                assert(forwarded->Ok_0@.headers =~= client_laws::headers_of(forwarded->Ok_0));
            }
        }
        match forwarded {
            Err(_) => {
                self.metrics.upstream_error = self.metrics.upstream_error.saturating_add(1);
                bad_gateway()
            },
            Ok(response) => match ticket.token {
                Some(token) => {
                    let outcome = to_outcome(&response);
                    if self.engine.complete(token, outcome, now_ms).is_ok() {
                        self.metrics.created = self.metrics.created.saturating_add(1);
                    }
                    tag(response, "created")
                },
                None => {
                    self.metrics.passthrough = self.metrics.passthrough.saturating_add(1);
                    response
                },
            },
        }
    }
}

/// The response of the complete phase.
pub open spec fn completed_view(
    claim: Option<(Seq<char>, u64)>,
    forwarded: Result<Response, UpstreamError>,
) -> ResponseView {
    match (claim, forwarded) {
        (Some(_), Ok(response)) => tagged(response@, "created"@),
        (None, Ok(response)) => response@,
        (_, Err(_)) => failure_view(),
    }
}

} // verus!
