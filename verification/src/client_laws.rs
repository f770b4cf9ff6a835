//! What a client of the gateway can rely on, in terms of what it sends and what it
//! gets back: the headers as they stand in a request, the parts of a response, and
//! how often the backend is asked.

use crate::abuse;
use crate::abuse::{Action, Counters, SlidingWindowLimiter};
use crate::abuse_laws;
use crate::bytes;
use crate::engine;
use crate::gateway;
use crate::gateway::{BeginPhase, Gateway, Upstream, UpstreamError};
use crate::gateway_laws;
use crate::gateway_laws::Handled;
use crate::hash;
use crate::hash_laws;
use crate::hashing;
use crate::headers::Field;
use crate::http::field_laws;
use crate::http::message::{Request, RequestView, Response, ResponseView};
use crate::lex;
use crate::metrics;
use crate::metrics::Metrics;
use crate::store::Store;
use crate::text;
use crate::{OutcomeView, StateView};
use std::collections::hash_map::DefaultHasher;
use vstd::prelude::*;
use vstd::std_specs::hash::DefaultHasherAdditionalSpecFns;
use vstd::utf8::*;

verus! {

// ---------------------------------------------------------------------------
// What a request says
// ---------------------------------------------------------------------------

/// The request has an `Idempotency-Key` header, and `key` is the value of the first.
pub open spec fn bears(request: RequestView, key: Seq<char>) -> bool {
    exists|i: int| #[trigger]
        field_laws::is_first_called(request.headers, "idempotency-key"@, i)
            && request.headers[i].1 == key
}

/// The request has no `Idempotency-Key` header.
pub open spec fn bears_none(request: RequestView) -> bool {
    field_laws::none_is_called(request.headers, "idempotency-key"@)
}

/// The request comes from `who`: the value of its first `X-Forwarded-For` header, or
/// `anonymous` where it has none.
pub open spec fn comes_from(request: RequestView, who: Seq<char>) -> bool {
    ||| exists|i: int| #[trigger]
        field_laws::is_first_called(request.headers, "x-forwarded-for"@, i)
            && request.headers[i].1 == who
    ||| field_laws::none_is_called(request.headers, "x-forwarded-for"@) && who == "anonymous"@
}

/// The target of the request is `path`, with or without a query behind it.
pub open spec fn asks_for(request: RequestView, path: Seq<char>) -> bool {
    let target = request.target;
    &&& path.len() <= target.len()
    &&& forall|i: int| 0 <= i < path.len() ==> #[trigger] target[i] == path[i]
    &&& target.len() == path.len() || target[path.len() as int] == '?'
}

/// The request is for the API behind the gateway, not for the gateway itself.
pub open spec fn is_for_the_api(request: RequestView) -> bool {
    !asks_for(request, "/healthz"@) && !asks_for(request, "/metrics"@)
}

/// A request bears the key that its first `Idempotency-Key` header holds, however long
/// that is and whatever it is made of, and none exactly where it has no such header.
pub proof fn the_key_is_the_first_such_header(request: RequestView)
    ensures
        forall|key: Seq<char>|
            (gateway::key_of(request) == Some(key)) == #[trigger] bears(request, key),
        gateway::key_of(request) is None <==> bears_none(request),
{
    reveal_strlit("idempotency-key");
    field_laws::the_first_header_so_called_is_found(request.headers, "idempotency-key"@);
    assert forall|key: Seq<char>| (gateway::key_of(request) == Some(key)) == #[trigger] bears(
        request,
        key,
    ) by {
        if gateway::key_of(request) == Some(key) {
            let i = choose|i: int| #[trigger]
                field_laws::is_first_called(request.headers, "idempotency-key"@, i);
            assert(request.headers[i].1 == key);
        }
    }
}

/// Abuse is counted over the client that the first `X-Forwarded-For` header names, and
/// over `anonymous` exactly where there is no such header.
pub proof fn the_client_is_the_first_such_header(request: RequestView)
    ensures
        forall|who: Seq<char>|
            (gateway::identity_of(request) == who) == #[trigger] comes_from(request, who),
{
    reveal_strlit("x-forwarded-for");
    let name = "x-forwarded-for"@;
    field_laws::the_first_header_so_called_is_found(request.headers, name);
    assert forall|who: Seq<char>| (gateway::identity_of(request) == who) == #[trigger] comes_from(
        request,
        who,
    ) by {
        if field_laws::none_is_called(request.headers, name) {
            assert forall|i: int| !#[trigger] field_laws::is_first_called(
                request.headers,
                name,
                i,
            ) by {
                if 0 <= i < request.headers.len() {
                    assert(!field_laws::is_called(request.headers[i].0, name));
                }
            }
        } else {
            let i = choose|i: int| #[trigger]
                field_laws::is_first_called(request.headers, name, i);
            assert(gateway::identity_of(request) == request.headers[i].1);
        }
    }
}

/// A path of ASCII characters without a question mark is what a request is for exactly
/// where its target is that path, with or without a query.
proof fn a_path_is_all_before_the_query(request: RequestView, path: Seq<char>)
    requires
        is_ascii_chars(path),
        forall|i: int| 0 <= i < path.len() ==> #[trigger] path[i] != '?',
    ensures
        (gateway::path_of(request) == encode_utf8(path)) == asks_for(request, path),
{
    let target = request.target;
    let b = encode_utf8(target);
    let p = encode_utf8(path);
    let n = lex::first_index(b, 63u8);
    lex::first_index_is_first(b, 63u8);
    is_ascii_chars_encode_utf8(path);
    if asks_for(request, path) {
        let rest = target.skip(path.len() as int);
        assert(target =~= path + rest);
        lex::encoding_of_sum(path, rest);
        assert forall|i: int| 0 <= i < p.len() implies #[trigger] b[i] != 63u8 by {
            assert(path[i] as u8 == p[i] && path[i] != '?');
            assert('\0' <= path[i] <= '\u{7f}');
        }
        if rest.len() > 0 {
            assert(rest[0] == '?');
            let one = seq!['?'];
            assert(rest =~= one + rest.drop_first());
            lex::encoding_of_sum(one, rest.drop_first());
            is_ascii_chars_encode_utf8(one);
            assert(one[0] as u8 == encode_utf8(one)[0]);
            assert(b[p.len() as int] == 63u8);
        } else {
            assert(encode_utf8(rest) =~= Seq::<u8>::empty());
        }
        lex::first_index_at(b, 63u8, p.len() as int);
        assert(gateway::path_of(request) =~= p);
    }
    if gateway::path_of(request) == p {
        assert(n == p.len());
        encode_utf8_valid_utf8(target);
        encode_utf8_decode_utf8(target);
        encode_utf8_decode_utf8(path);
        lex::cut_at_ascii(b, n);
        let rest = decode_utf8(b.skip(n));
        assert(target == path + rest);
        if n < b.len() {
            lex::cut_after_ascii(b, n);
            let tail = b.skip(n + 1);
            let one = seq!['?'];
            is_ascii_chars_encode_utf8(one);
            assert(one[0] as u8 == encode_utf8(one)[0]);
            decode_utf8_encode_utf8(tail);
            decode_utf8_encode_utf8(b.skip(n));
            lex::encoding_of_sum(one, decode_utf8(tail));
            assert(b.skip(n) =~= encode_utf8(one) + tail);
            text::encoding_is_injective(rest, one + decode_utf8(tail));
            assert(rest[0] == '?');
            assert(target[path.len() as int] == '?');
        } else {
            assert(b.skip(n) =~= Seq::<u8>::empty());
            assert(rest =~= Seq::<char>::empty());
        }
    }
}

/// The two operational endpoints are told by the path of the target, all of it, and
/// nothing else is taken for one.
pub proof fn the_endpoints_are_told_by_their_path(request: RequestView)
    ensures
        (gateway::path_of(request) == encode_utf8("/healthz"@)) == asks_for(
            request,
            "/healthz"@,
        ),
        (gateway::path_of(request) == encode_utf8("/metrics"@)) == asks_for(
            request,
            "/metrics"@,
        ),
        gateway::is_operational(request) == !is_for_the_api(request),
{
    reveal_strlit("/healthz");
    reveal_strlit("/metrics");
    a_path_is_all_before_the_query(request, "/healthz"@);
    a_path_is_all_before_the_query(request, "/metrics"@);
}

// ---------------------------------------------------------------------------
// Fingerprints
// ---------------------------------------------------------------------------

/// Two requests ask for the same thing: method, target and body are the same.
pub open spec fn same_content(a: RequestView, b: RequestView) -> bool {
    a.method == b.method && a.target == b.target && a.body == b.body
}

/// The parts of a request are small enough for a machine to hold.
pub open spec fn is_sized(r: RequestView) -> bool {
    &&& encode_utf8(r.method).len() <= u64::MAX
    &&& encode_utf8(r.target).len() <= u64::MAX
    &&& r.body.len() <= u64::MAX
}

/// `x` holds all of the request's method, target and body, each of the first two
/// behind eight bytes of its own.
pub open spec fn holds_all_of(x: Seq<u8>, r: RequestView) -> bool {
    let m = encode_utf8(r.method);
    let t = encode_utf8(r.target);
    &&& x.len() == 16 + m.len() + t.len() + r.body.len()
    &&& x.subrange(8, 8 + m.len() as int) == m
    &&& x.subrange(16 + m.len() as int, 16 + m.len() as int + t.len() as int) == t
    &&& x.skip(16 + m.len() as int + t.len() as int) == r.body
}

/// Two different messages with one tag under `secret`.
pub open spec fn tag_confuses(secret: Seq<u8>, x: Seq<u8>, y: Seq<u8>) -> bool {
    x != y && hash::hmac_sha256_tag(secret, x) == hash::hmac_sha256_tag(secret, y)
}

/// `input` is the number of a pass, and then all of the request's method, target and
/// body.
pub open spec fn feeds_all_of(input: Seq<Seq<u8>>, pass: u64, r: RequestView) -> bool {
    &&& input.len() == 7
    &&& input[0] == seq![pass as u8, 0u8, 0u8, 0u8, 0u8, 0u8, 0u8, 0u8]
    &&& input[1] == encode_utf8(r.method)
    &&& input[2] == seq![0xffu8]
    &&& input[3] == encode_utf8(r.target)
    &&& input[4] == seq![0xffu8]
    &&& input[5].len() == 8
    &&& input[6] == r.body
}

/// The hasher confuses the two requests in the given pass.
pub open spec fn pass_confuses(pass: u64, a: RequestView, b: RequestView) -> bool {
    exists|x: Seq<Seq<u8>>, y: Seq<Seq<u8>>|
        feeds_all_of(x, pass, a) && feeds_all_of(y, pass, b) && #[trigger]
            hash_laws::hasher_confuses(x, y)
}

/// Something that only a broken hash allows: the two requests have one fingerprint
/// though what is hashed of them, which is all of their content, differs.
pub open spec fn are_confused(a: RequestView, b: RequestView, secret: Option<Seq<u8>>) -> bool {
    match secret {
        Some(secret) => exists|x: Seq<u8>, y: Seq<u8>|
            holds_all_of(x, a) && holds_all_of(y, b) && #[trigger] tag_confuses(secret, x, y),
        None => pass_confuses(0, a, b) && pass_confuses(1, a, b) && pass_confuses(2, a, b)
            && pass_confuses(3, a, b),
    }
}

proof fn a_message_holds_all(r: RequestView)
    ensures
        holds_all_of(gateway::fingerprint_message(r), r),
{
    let m = encode_utf8(r.method);
    let t = encode_utf8(r.target);
    let x = gateway::fingerprint_message(r);
    assert(x.subrange(8, 8 + m.len() as int) =~= m);
    assert(x.subrange(16 + m.len() as int, 16 + m.len() as int + t.len() as int) =~= t);
    assert(x.skip(16 + m.len() as int + t.len() as int) =~= r.body);
}

proof fn a_pass_tells_the_content(pass: u64, a: RequestView, b: RequestView)
    requires
        pass < 4,
        gateway::salted_hash(a, pass) == gateway::salted_hash(b, pass),
        !same_content(a, b),
    ensures
        pass_confuses(pass, a, b),
{
    let ff = seq![0xffu8];
    let salt = bytes::le_u64(pass);
    let x = seq![
        salt,
        encode_utf8(a.method),
        ff,
        encode_utf8(a.target),
        ff,
        bytes::le_u64(a.body.len() as u64),
        a.body,
    ];
    let y = seq![
        salt,
        encode_utf8(b.method),
        ff,
        encode_utf8(b.target),
        ff,
        bytes::le_u64(b.body.len() as u64),
        b.body,
    ];
    hash_laws::little_endian_bytes_are_digits(pass);
    assert(salt =~= seq![pass as u8, 0u8, 0u8, 0u8, 0u8, 0u8, 0u8, 0u8]);
    assert(feeds_all_of(x, pass, a) && feeds_all_of(y, pass, b));
    assert(seq![salt] + hashing::text_input(a.method) + hashing::text_input(a.target) + seq![
        bytes::le_u64(a.body.len() as u64),
        a.body,
    ] =~= x);
    assert(seq![salt] + hashing::text_input(b.method) + hashing::text_input(b.target) + seq![
        bytes::le_u64(b.body.len() as u64),
        b.body,
    ] =~= y);
    assert(DefaultHasher::spec_finish(x) == DefaultHasher::spec_finish(y));
    if x == y {
        assert(x[1] == y[1] && x[3] == y[3] && x[6] == y[6]);
        text::encoding_is_injective(a.method, b.method);
        text::encoding_is_injective(a.target, b.target);
    }
    assert(hash_laws::hasher_confuses(x, y));
}

/// Four numbers in a row, each in eight bytes, are told by the bytes.
proof fn four_numbers_are_told_by_their_bytes(
    a0: u64,
    a1: u64,
    a2: u64,
    a3: u64,
    b0: u64,
    b1: u64,
    b2: u64,
    b3: u64,
)
    requires
        bytes::le_u64(a0) + bytes::le_u64(a1) + bytes::le_u64(a2) + bytes::le_u64(a3)
            == bytes::le_u64(b0) + bytes::le_u64(b1) + bytes::le_u64(b2) + bytes::le_u64(b3),
    ensures
        a0 == b0 && a1 == b1 && a2 == b2 && a3 == b3,
{
    let (x0, x1, x2, x3) = (
        bytes::le_u64(a0),
        bytes::le_u64(a1),
        bytes::le_u64(a2),
        bytes::le_u64(a3),
    );
    let (y0, y1, y2, y3) = (
        bytes::le_u64(b0),
        bytes::le_u64(b1),
        bytes::le_u64(b2),
        bytes::le_u64(b3),
    );
    a_sum_is_told_apart(x0 + x1 + x2, x3, y0 + y1 + y2, y3, 24);
    a_sum_is_told_apart(x0 + x1, x2, y0 + y1, y2, 16);
    a_sum_is_told_apart(x0, x1, y0, y1, 8);
    hash_laws::little_endian_bytes_are_unambiguous(a0, b0);
    hash_laws::little_endian_bytes_are_unambiguous(a1, b1);
    hash_laws::little_endian_bytes_are_unambiguous(a2, b2);
    hash_laws::little_endian_bytes_are_unambiguous(a3, b3);
}

proof fn a_sum_is_told_apart(a: Seq<u8>, b: Seq<u8>, c: Seq<u8>, d: Seq<u8>, n: int)
    requires
        a.len() == n,
        c.len() == n,
        a + b == c + d,
    ensures
        a == c,
        b == d,
{
    assert((a + b).take(n) =~= a);
    assert((c + d).take(n) =~= c);
    assert((a + b).skip(n) =~= b);
    assert((c + d).skip(n) =~= d);
}

/// A fingerprint stands for the content of a request, all of it: two requests that
/// ask for the same thing have the same fingerprint, whatever else they hold, and two
/// that have the same one ask for the same thing, unless the hash confuses them.
pub proof fn a_fingerprint_stands_for_the_content(
    a: RequestView,
    b: RequestView,
    secret: Option<Seq<u8>>,
)
    requires
        is_sized(a),
        is_sized(b),
    ensures
        same_content(a, b) ==> gateway::fingerprint_of(a, secret) == gateway::fingerprint_of(
            b,
            secret,
        ),
        gateway::fingerprint_of(a, secret) == gateway::fingerprint_of(b, secret) ==> same_content(
            a,
            b,
        ) || are_confused(a, b, secret),
{
    if gateway::fingerprint_of(a, secret) == gateway::fingerprint_of(b, secret) && !same_content(
        a,
        b,
    ) {
        match secret {
            Some(s) => {
                let x = gateway::fingerprint_message(a);
                let y = gateway::fingerprint_message(b);
                a_message_holds_all(a);
                a_message_holds_all(b);
                if x == y {
                    gateway_laws::fingerprint_messages_are_unambiguous(a, b);
                }
                assert(tag_confuses(s, x, y));
            },
            None => {
                four_numbers_are_told_by_their_bytes(
                    gateway::salted_hash(a, 0),
                    gateway::salted_hash(a, 1),
                    gateway::salted_hash(a, 2),
                    gateway::salted_hash(a, 3),
                    gateway::salted_hash(b, 0),
                    gateway::salted_hash(b, 1),
                    gateway::salted_hash(b, 2),
                    gateway::salted_hash(b, 3),
                );
                a_pass_tells_the_content(0, a, b);
                a_pass_tells_the_content(1, a, b);
                a_pass_tells_the_content(2, a, b);
                a_pass_tells_the_content(3, a, b);
            },
        }
    }
}

/// A keyed fingerprint is an HMAC, so that two requests are confused only where
/// SHA-256 sends two different messages to one digest.
pub proof fn confused_requests_break_the_digest(
    a: RequestView,
    b: RequestView,
    secret: Seq<u8>,
)
    requires
        are_confused(a, b, Some(secret)),
    ensures
        exists|x: Seq<u8>, y: Seq<u8>| #[trigger] hash_laws::digest_confuses(x, y),
{
    let (x, y) = choose|x: Seq<u8>, y: Seq<u8>|
        holds_all_of(x, a) && holds_all_of(y, b) && #[trigger] tag_confuses(secret, x, y);
    hash_laws::a_message_is_authenticated_whole(secret, x, y);
}

// ---------------------------------------------------------------------------
// What a request is answered
// ---------------------------------------------------------------------------

/// A response in all its parts.
pub open spec fn is_response(
    r: ResponseView,
    status: u16,
    headers: Seq<Field>,
    body: Seq<u8>,
) -> bool {
    r.status == status && r.headers == headers && r.body == body
}

/// The headers of a response as the backend gave them.
pub open spec fn headers_of(answer: Response) -> Seq<Field> {
    Seq::new(
        answer.headers@.len(),
        |i: int| (answer.headers@[i].0@, answer.headers@[i].1@),
    )
}

/// The only thing in the response is a header that says how it came about.
pub open spec fn is_bare(r: ResponseView, status: u16, how: Seq<char>) -> bool {
    is_response(r, status, seq![("Onced-Status"@, how)], Seq::empty())
}

/// Every rule lets a request of `who` through at `now_ms`.
pub open spec fn is_let_through<S: Store, U: Upstream>(
    g: &Gateway<S, U>,
    who: Seq<char>,
    now_ms: u64,
) -> bool {
    forall|i: int|
        0 <= i < g.rules().rules().len() ==> (
        #[trigger] g.rules().rules()[i]).limiter().decision(who, now_ms) is Allow
}

/// `after` is `before` with one more request asked of the backend.
pub open spec fn asked_once_more<S: Store, U: Upstream>(
    before: &Gateway<S, U>,
    after: &Gateway<S, U>,
    request: &Request,
) -> bool {
    after.asked() == before.asked().push(request@)
}

/// Secret, backend, lease and time-to-live are the same.
pub open spec fn same_settings<S: Store, U: Upstream>(
    before: &Gateway<S, U>,
    after: &Gateway<S, U>,
) -> bool {
    &&& after.secret() == before.secret()
    &&& after.backend() == before.backend()
    &&& after.engine().lease_ms() == before.engine().lease_ms()
    &&& after.engine().ttl_ms() == before.engine().ttl_ms()
}

/// The response shows the counters as text, each under its own name.
pub open spec fn shows_counters(r: ResponseView, m: Metrics) -> bool {
    &&& r.status == 200
    &&& r.headers == seq![("Content-Type"@, "text/plain; version=0.0.4"@)]
    &&& exists|text: Seq<char>| #[trigger] encode_utf8(text) == r.body && metrics::shows(text, m)
}

/// The ways in which a request can end.
pub enum Ending {
    Created,
    Replayed,
    InProgress,
    Mismatch,
    Denied,
    UpstreamError,
    Passthrough,
}

/// `b` is one more than `a` where `grows`, and as much otherwise; it stops at the largest
/// count there is.
pub open spec fn counts_up(a: u64, b: u64, grows: bool) -> bool {
    if grows && a < u64::MAX {
        b == a + 1
    } else {
        b == a
    }
}

/// `after` is `before` with one more request that ended this way. One that was denied
/// does not count among the requests.
pub open spec fn is_counted(before: Metrics, after: Metrics, ending: Ending) -> bool {
    &&& counts_up(before.requests_total, after.requests_total, !(ending is Denied))
    &&& counts_up(before.created, after.created, ending is Created)
    &&& counts_up(before.replayed, after.replayed, ending is Replayed)
    &&& counts_up(before.in_progress, after.in_progress, ending is InProgress)
    &&& counts_up(before.mismatch, after.mismatch, ending is Mismatch)
    &&& counts_up(before.denied, after.denied, ending is Denied)
    &&& counts_up(before.upstream_error, after.upstream_error, ending is UpstreamError)
    &&& counts_up(before.passthrough, after.passthrough, ending is Passthrough)
}

/// Liveness and counters are answered on the spot: nothing changes, and the backend is
/// not asked.
pub proof fn an_endpoint_is_answered_on_the_spot<S: Store, U: Upstream>(
    before: &Gateway<S, U>,
    after: &Gateway<S, U>,
    request: &Request,
    now_ms: u64,
    response: ResponseView,
)
    requires
        after.follows_handle(before, request, now_ms, response),
    ensures
        asks_for(request@, "/healthz"@) ==> *after == *before && is_response(
            response,
            200,
            seq![("Onced-Status"@, "healthy"@)],
            encode_utf8("ok"@),
        ),
        asks_for(request@, "/metrics"@) ==> *after == *before && shows_counters(
            response,
            before.counters(),
        ),
{
    metrics::the_text_shows_every_counter(before.counters());
    the_endpoints_are_told_by_their_path(request@);
    reveal_strlit("/healthz");
    reveal_strlit("/metrics");
    if asks_for(request@, "/healthz"@) && asks_for(request@, "/metrics"@) {
        assert(request@.target[1] == "/healthz"@[1]);
        assert(request@.target[1] == "/metrics"@[1]);
    }
}

/// A request that every rule lets through goes on to the idempotency stage, and counts
/// against its client.
proof fn a_request_that_is_let_through_goes_on<S: Store, U: Upstream>(
    before: &Gateway<S, U>,
    after: &Gateway<S, U>,
    request: &Request,
    now_ms: u64,
    response: ResponseView,
    who: Seq<char>,
) -> (checked: Gateway<S, U>)
    requires
        after.follows_handle(before, request, now_ms, response),
        is_for_the_api(request@),
        comes_from(request@, who),
        is_let_through(before, who, now_ms),
    ensures
        checked.follows_check(before, request@, now_ms),
        after.follows_request(&checked, request, now_ms, response),
{
    the_endpoints_are_told_by_their_path(request@);
    the_client_is_the_first_such_header(request@);
    abuse_laws::the_first_rule_over_budget_decides(before.rules().rules(), who, now_ms);
    if abuse::first_tripped(before.rules().rules(), who, now_ms) is Some {
        let i = choose|i: int| #[trigger]
            abuse_laws::decides(before.rules().rules(), who, now_ms, i)
                && abuse::first_tripped(before.rules().rules(), who, now_ms) == Some(
                (before.rules().rules()[i].name(), before.rules().rules()[i].action()),
            );
        assert(before.rules().rules()[i].limiter().decision(who, now_ms) is Allow);
    }
    choose|checked: Gateway<S, U>|
        #![trigger after.follows_request(&checked, request, now_ms, response)]
        checked.follows_check(before, request@, now_ms) && after.follows_request(
            &checked,
            request,
            now_ms,
            response,
        )
}

/// How the idempotency stage of a request went: the state in its middle, and what the
/// begin phase gave.
proof fn the_two_phases<S: Store, U: Upstream>(
    before: &Gateway<S, U>,
    after: &Gateway<S, U>,
    request: &Request,
    now_ms: u64,
    response: ResponseView,
) -> (r: (Gateway<S, U>, BeginPhase))
    requires
        after.follows_request(before, request, now_ms, response),
    ensures
        r.0.follows_begin(before, request@, now_ms),
        before.is_begin_answer(request@, now_ms, r.1),
        match r.1 {
            BeginPhase::Done(done) => *after == r.0 && response == done@,
            BeginPhase::Forward(ticket) => after.follows_forward(
                &r.0,
                request,
                now_ms,
                ticket.claim(),
                response,
            ),
        },
{
    let (mid, phase) = choose|mid: Gateway<S, U>, phase: BeginPhase|
        #![trigger mid.follows_begin(before, request@, now_ms), before.is_begin_answer(request@, now_ms, phase)]
        mid.follows_begin(before, request@, now_ms) && before.is_begin_answer(
            request@,
            now_ms,
            phase,
        ) && match phase {
            BeginPhase::Done(done) => *after == mid && response == done@,
            BeginPhase::Forward(ticket) => after.follows_forward(
                &mid,
                request,
                now_ms,
                ticket.claim(),
                response,
            ),
        };
    (mid, phase)
}

/// The backend's part in answering a request, where it had one.
proof fn the_backends_answer<S: Store, U: Upstream>(
    mid: &Gateway<S, U>,
    after: &Gateway<S, U>,
    request: &Request,
    now_ms: u64,
    claim: Option<(Seq<char>, u64)>,
    response: ResponseView,
) -> (forwarded: Result<Response, UpstreamError>)
    requires
        after.follows_forward(mid, request, now_ms, claim, response),
    ensures
        call_ensures(U::forward, (&mid.backend(), request), forwarded),
        after.follows_complete(mid, claim, forwarded, now_ms),
        response == gateway::completed_view(claim, forwarded),
        after.asked() == mid.asked().push(request@),
{
    choose|forwarded: Result<Response, UpstreamError>|
        #![trigger after.follows_complete(mid, claim, forwarded, now_ms)]
        call_ensures(U::forward, (&mid.backend(), request), forwarded) && after.follows_complete(
            mid,
            claim,
            forwarded,
            now_ms,
        ) && response == gateway::completed_view(claim, forwarded) && after.asked()
            == mid.asked().push(request@)
}

/// What the client gets of the backend's answer to a request without a key: the
/// answer, in every part, or word that the call failed.
pub open spec fn is_passed_through(
    forwarded: Result<Response, UpstreamError>,
    response: ResponseView,
) -> bool {
    match forwarded {
        Ok(answer) => is_response(response, answer.status, headers_of(answer), answer.body@),
        Err(_) => is_bare(response, 502, "upstream-error"@),
    }
}

/// A request without an `Idempotency-Key` header that is let through is handed to the
/// backend, once, and what the backend answers is handed back as it is: its status, its
/// headers and its body. Nothing is stored.
pub proof fn a_keyless_request_is_passed_through<S: Store, U: Upstream>(
    before: &Gateway<S, U>,
    after: &Gateway<S, U>,
    request: &Request,
    now_ms: u64,
    response: ResponseView,
    who: Seq<char>,
)
    requires
        after.follows_handle(before, request, now_ms, response),
        is_for_the_api(request@),
        comes_from(request@, who),
        is_let_through(before, who, now_ms),
        bears_none(request@),
    ensures
        exists|forwarded: Result<Response, UpstreamError>| #[trigger]
            call_ensures(U::forward, (&before.backend(), request), forwarded)
                && is_passed_through(forwarded, response) && is_counted(
                before.counters(),
                after.counters(),
                if forwarded is Ok {
                    Ending::Passthrough
                } else {
                    Ending::UpstreamError
                },
            ),
        asked_once_more(before, after, request),
        after.engine() == before.engine(),
        same_settings(before, after),
{
    let checked = a_request_that_is_let_through_goes_on(
        before,
        after,
        request,
        now_ms,
        response,
        who,
    );
    the_key_is_the_first_such_header(request@);
    let (mid, phase) = the_two_phases(&checked, after, request, now_ms, response);
    let claim = phase->Forward_0.claim();
    let forwarded = the_backends_answer(&mid, after, request, now_ms, claim, response);
    if let Ok(answer) = forwarded {
        assert(answer@.headers =~= headers_of(answer));
    }
    assert(is_passed_through(forwarded, response));
}

/// What a client gets of the backend's answer to the first request with a key: the
/// answer, with a header added that says so; or word that the call failed.
pub open spec fn is_first_answer(
    forwarded: Result<Response, UpstreamError>,
    response: ResponseView,
) -> bool {
    match forwarded {
        Ok(answer) => is_response(
            response,
            answer.status,
            headers_of(answer).push(("Onced-Status"@, "created"@)),
            answer.body@,
        ),
        Err(_) => is_bare(response, 502, "upstream-error"@),
    }
}

/// What is kept under a key of the backend's answer: all of it, under the fingerprint
/// of the request and with the time; or, where the call failed, the attempt.
pub open spec fn is_kept(
    forwarded: Result<Response, UpstreamError>,
    state: StateView,
    print: Seq<u8>,
    fence: u64,
    lease_ms: u64,
    now_ms: u64,
) -> bool {
    match (forwarded, state) {
        (
            Ok(answer),
            StateView::Completed { fingerprint, outcome, completed_at_ms },
        ) => {
            &&& fingerprint == print
            &&& outcome.status == answer.status
            &&& outcome.headers == headers_of(answer)
            &&& outcome.body == answer.body@
            &&& completed_at_ms == now_ms
        },
        (
            Err(_),
            StateView::InProgress { fence: held, fingerprint, lease_expires_at_ms },
        ) => {
            &&& fingerprint == print
            &&& held == fence
            &&& now_ms + lease_ms <= u64::MAX ==> lease_expires_at_ms == now_ms + lease_ms
            &&& now_ms + lease_ms > u64::MAX ==> lease_expires_at_ms == u64::MAX
        },
        _ => false,
    }
}

/// The key is free for the request at `now_ms`: nothing is stored under it, or what is
/// stored has outlived the time-to-live, or an attempt of the same request has outlived
/// its lease.
pub open spec fn is_free<S: Store, U: Upstream>(
    g: &Gateway<S, U>,
    key: Seq<char>,
    request: RequestView,
    now_ms: u64,
) -> bool {
    let records = g.engine().records();
    ||| !records.contains_key(key)
    ||| match records[key] {
        StateView::Completed { completed_at_ms, .. } => completed_at_ms + g.engine().ttl_ms()
            <= now_ms,
        StateView::InProgress { fingerprint, lease_expires_at_ms, .. } => fingerprint
            == gateway::fingerprint_of(request, g.secret()) && lease_expires_at_ms <= now_ms,
    }
}

/// The first request with a key, however long the key, is handed to the backend, once.
/// The client gets the backend's answer, and all of it is kept under the key. Nothing
/// else is touched.
pub proof fn a_request_with_a_free_key_is_run<S: Store, U: Upstream>(
    before: &Gateway<S, U>,
    after: &Gateway<S, U>,
    request: &Request,
    now_ms: u64,
    response: ResponseView,
    who: Seq<char>,
    key: Seq<char>,
)
    requires
        after.follows_handle(before, request, now_ms, response),
        is_for_the_api(request@),
        comes_from(request@, who),
        is_let_through(before, who, now_ms),
        bears(request@, key),
        is_free(before, key, request@, now_ms),
    ensures
        exists|forwarded: Result<Response, UpstreamError>| #[trigger]
            call_ensures(U::forward, (&before.backend(), request), forwarded) && is_first_answer(
                forwarded,
                response,
            ) && is_kept(
                forwarded,
                after.engine().records()[key],
                gateway::fingerprint_of(request@, before.secret()),
                before.engine().next_fence(),
                before.engine().lease_ms(),
                now_ms,
            ) && is_counted(
                before.counters(),
                after.counters(),
                if forwarded is Ok {
                    Ending::Created
                } else {
                    Ending::UpstreamError
                },
            ),
        asked_once_more(before, after, request),
        after.engine().records().contains_key(key),
        after.engine().next_fence() == before.engine().next_fence() + 1,
        forall|k: Seq<char>|
            k != key ==> after.engine().records().contains_key(k)
                == #[trigger] before.engine().records().contains_key(k)
                && after.engine().records()[k] == before.engine().records()[k],
        same_settings(before, after),
{
    let checked = a_request_that_is_let_through_goes_on(
        before,
        after,
        request,
        now_ms,
        response,
        who,
    );
    the_key_is_the_first_such_header(request@);
    assert(gateway::key_of(request@) == Some(key));
    assert(checked.due(request@, key, now_ms) is Start);
    let (mid, phase) = the_two_phases(&checked, after, request, now_ms, response);
    let claim = phase->Forward_0.claim();
    assert(claim == Some((key, before.engine().next_fence())));
    let forwarded = the_backends_answer(&mid, after, request, now_ms, claim, response);
    if let Ok(answer) = forwarded {
        assert(answer@.headers =~= headers_of(answer));
        assert(engine::refusal(mid.engine().records(), key, before.engine().next_fence()) is None);
    }
    assert(is_first_answer(forwarded, response));
    assert(is_kept(
        forwarded,
        after.engine().records()[key],
        gateway::fingerprint_of(request@, before.secret()),
        before.engine().next_fence(),
        before.engine().lease_ms(),
        now_ms,
    ));
}

/// An outcome that was completed at `completed_at_ms` still lives at `now_ms`.
pub open spec fn is_alive(completed_at_ms: u64, ttl_ms: u64, now_ms: u64) -> bool {
    now_ms < completed_at_ms + ttl_ms && now_ms < u64::MAX
}

/// Once a key has an outcome, and as long as that lives, a request with the key never
/// reaches the backend. The same request is answered with the outcome, in every part,
/// and a header that says so; a request with another fingerprint is refused.
pub proof fn a_stored_outcome_answers_for_its_key<S: Store, U: Upstream>(
    before: &Gateway<S, U>,
    after: &Gateway<S, U>,
    request: &Request,
    now_ms: u64,
    response: ResponseView,
    who: Seq<char>,
    key: Seq<char>,
    print: Seq<u8>,
    outcome: OutcomeView,
    completed_at_ms: u64,
)
    requires
        after.follows_handle(before, request, now_ms, response),
        is_for_the_api(request@),
        comes_from(request@, who),
        is_let_through(before, who, now_ms),
        bears(request@, key),
        before.engine().records().contains_key(key),
        before.engine().records()[key] == (StateView::Completed {
            fingerprint: print,
            outcome,
            completed_at_ms,
        }),
        is_alive(completed_at_ms, before.engine().ttl_ms(), now_ms),
    ensures
        if print == gateway::fingerprint_of(request@, before.secret()) {
            is_response(
                response,
                outcome.status,
                outcome.headers.push(("Onced-Status"@, "replayed"@)),
                outcome.body,
            ) && is_counted(before.counters(), after.counters(), Ending::Replayed)
        } else {
            is_bare(response, 422, "mismatch"@) && is_counted(
                before.counters(),
                after.counters(),
                Ending::Mismatch,
            )
        },
        after.asked() == before.asked(),
        after.engine() == before.engine(),
        same_settings(before, after),
{
    let checked = a_request_that_is_let_through_goes_on(
        before,
        after,
        request,
        now_ms,
        response,
        who,
    );
    the_key_is_the_first_such_header(request@);
    assert(gateway::key_of(request@) == Some(key));
    let (mid, phase) = the_two_phases(&checked, after, request, now_ms, response);
}

/// While an attempt holds a key, a request with the key never reaches the backend: the
/// same request is told to wait until the lease has run out, and a request with another
/// fingerprint is refused, lease or not.
pub proof fn an_attempt_in_flight_answers_for_its_key<S: Store, U: Upstream>(
    before: &Gateway<S, U>,
    after: &Gateway<S, U>,
    request: &Request,
    now_ms: u64,
    response: ResponseView,
    who: Seq<char>,
    key: Seq<char>,
    fence: u64,
    print: Seq<u8>,
    lease_expires_at_ms: u64,
)
    requires
        after.follows_handle(before, request, now_ms, response),
        is_for_the_api(request@),
        comes_from(request@, who),
        is_let_through(before, who, now_ms),
        bears(request@, key),
        before.engine().records().contains_key(key),
        before.engine().records()[key] == (StateView::InProgress {
            fence,
            fingerprint: print,
            lease_expires_at_ms,
        }),
        print == gateway::fingerprint_of(request@, before.secret()) ==> now_ms
            < lease_expires_at_ms,
    ensures
        if print == gateway::fingerprint_of(request@, before.secret()) {
            is_bare(response, 409, "in-progress"@) && is_counted(
                before.counters(),
                after.counters(),
                Ending::InProgress,
            )
        } else {
            is_bare(response, 422, "mismatch"@) && is_counted(
                before.counters(),
                after.counters(),
                Ending::Mismatch,
            )
        },
        after.asked() == before.asked(),
        after.engine() == before.engine(),
        same_settings(before, after),
{
    let checked = a_request_that_is_let_through_goes_on(
        before,
        after,
        request,
        now_ms,
        response,
        who,
    );
    the_key_is_the_first_such_header(request@);
    assert(gateway::key_of(request@) == Some(key));
    let (mid, phase) = the_two_phases(&checked, after, request, now_ms, response);
}

// ---------------------------------------------------------------------------
// Over whole histories
// ---------------------------------------------------------------------------

/// `states` are the states that a gateway goes through as it handles `calls`.
pub open spec fn is_history<S: Store, U: Upstream>(
    states: Seq<Gateway<S, U>>,
    calls: Seq<Handled>,
) -> bool {
    &&& states.len() == calls.len() + 1
    &&& forall|i: int|
        0 <= i < calls.len() ==> (#[trigger] states[i + 1]).follows_handle(
            &states[i],
            &calls[i].request,
            calls[i].now_ms,
            calls[i].response,
        )
}

/// Whatever is handled, an outcome that lives stays exactly as it is, and so do the
/// settings.
proof fn handling_keeps_a_living_outcome<S: Store, U: Upstream>(
    before: &Gateway<S, U>,
    after: &Gateway<S, U>,
    request: &Request,
    now_ms: u64,
    response: ResponseView,
    key: Seq<char>,
)
    requires
        after.follows_handle(before, request, now_ms, response),
        before.engine().records().contains_key(key),
        before.engine().records()[key] is Completed,
        is_alive(
            before.engine().records()[key]->Completed_completed_at_ms,
            before.engine().ttl_ms(),
            now_ms,
        ),
    ensures
        after.engine().records().contains_key(key),
        after.engine().records()[key] == before.engine().records()[key],
        same_settings(before, after),
        bears(request@, key) ==> after.asked() == before.asked(),
        after.asked() == before.asked() || asked_once_more(before, after, request),
{
    the_key_is_the_first_such_header(request@);
    if !gateway::is_operational(request@) && abuse::first_tripped(
        before.rules().rules(),
        gateway::identity_of(request@),
        now_ms,
    ) is None {
        let checked = choose|checked: Gateway<S, U>|
            #![trigger after.follows_request(&checked, request, now_ms, response)]
            checked.follows_check(before, request@, now_ms) && after.follows_request(
                &checked,
                request,
                now_ms,
                response,
            );
        let (mid, phase) = the_two_phases(&checked, after, request, now_ms, response);
        if let BeginPhase::Forward(ticket) = phase {
            let claim = ticket.claim();
            let forwarded = the_backends_answer(&mid, after, request, now_ms, claim, response);
            assert(gateway::key_of(request@) != Some(key));
            if let Some(k) = gateway::key_of(request@) {
                assert(k != key);
                assert(mid.engine().records()[key] == before.engine().records()[key]);
            }
        }
    }
}

/// The requests that were asked of the backend between two states, all of them without
/// the key.
pub open spec fn asked_without<S: Store, U: Upstream>(
    before: &Gateway<S, U>,
    after: &Gateway<S, U>,
    key: Seq<char>,
) -> bool {
    &&& before.asked().is_prefix_of(after.asked())
    &&& forall|i: int|
        before.asked().len() <= i < after.asked().len() ==> !bears(
            #[trigger] after.asked()[i],
            key,
        )
}

/// All calls from the `from`-th up to the `to`-th happen while the outcome lives.
pub open spec fn happen_while_alive(
    calls: Seq<Handled>,
    from: int,
    to: int,
    completed_at_ms: u64,
    ttl_ms: u64,
) -> bool {
    forall|i: int|
        from <= i < to ==> is_alive(completed_at_ms, ttl_ms, (#[trigger] calls[i]).now_ms)
}

/// From the moment a key has an outcome, and as long as that lives, the outcome stays,
/// whatever else is handled, and no request with the key is asked of the backend.
pub proof fn a_key_reaches_the_backend_no_more<S: Store, U: Upstream>(
    states: Seq<Gateway<S, U>>,
    calls: Seq<Handled>,
    from: int,
    to: int,
    key: Seq<char>,
)
    requires
        is_history(states, calls),
        0 <= from <= to <= calls.len(),
        states[from].engine().records().contains_key(key),
        states[from].engine().records()[key] is Completed,
        happen_while_alive(
            calls,
            from,
            to,
            states[from].engine().records()[key]->Completed_completed_at_ms,
            states[from].engine().ttl_ms(),
        ),
    ensures
        states[to].engine().records().contains_key(key),
        states[to].engine().records()[key] == states[from].engine().records()[key],
        same_settings(&states[from], &states[to]),
        asked_without(&states[from], &states[to], key),
    decreases to - from,
{
    if from < to {
        a_key_reaches_the_backend_no_more(states, calls, from, to - 1, key);
        let n = to - 1;
        assert(states[n + 1].follows_handle(
            &states[n],
            &calls[n].request,
            calls[n].now_ms,
            calls[n].response,
        ));
        assert(is_alive(
            states[from].engine().records()[key]->Completed_completed_at_ms,
            states[from].engine().ttl_ms(),
            calls[n].now_ms,
        ));
        handling_keeps_a_living_outcome(
            &states[n],
            &states[n + 1],
            &calls[n].request,
            calls[n].now_ms,
            calls[n].response,
            key,
        );
        assert forall|i: int|
            states[from].asked().len() <= i < states[to].asked().len() implies !bears(
            #[trigger] states[to].asked()[i],
            key,
        ) by {
            if i < states[n].asked().len() {
                assert(states[to].asked()[i] == states[n].asked()[i]);
            }
        }
    }
}

/// THE end-to-end guarantee, for every key there is. The first request with a key is
/// asked of the backend once; say that the call does not fail. From then on, whatever else the
/// gateway handles, and as long as the outcome lives: no request with that key is asked
/// of the backend again; the same request is answered with the status, the headers and
/// the body of the backend's answer, marked as replayed; and a request with the key
/// that differs in its method, its target or its body is refused, unless the hash
/// confuses the two.
pub proof fn a_key_takes_effect_exactly_once<S: Store, U: Upstream>(
    states: Seq<Gateway<S, U>>,
    calls: Seq<Handled>,
    first: int,
    later: int,
    key: Seq<char>,
    who: Seq<char>,
    later_who: Seq<char>,
)
    requires
        is_history(states, calls),
        0 <= first < later < calls.len(),
        is_for_the_api(calls[first].request@),
        comes_from(calls[first].request@, who),
        is_let_through(&states[first], who, calls[first].now_ms),
        bears(calls[first].request@, key),
        is_free(&states[first], key, calls[first].request@, calls[first].now_ms),
        !is_bare(calls[first].response, 502, "upstream-error"@),
        happen_while_alive(
            calls,
            first + 1,
            later + 1,
            calls[first].now_ms,
            states[first].engine().ttl_ms(),
        ),
        is_for_the_api(calls[later].request@),
        comes_from(calls[later].request@, later_who),
        is_let_through(&states[later], later_who, calls[later].now_ms),
        bears(calls[later].request@, key),
        is_sized(calls[first].request@),
        is_sized(calls[later].request@),
    ensures
        asked_once_more(&states[first], &states[first + 1], &calls[first].request),
        asked_without(&states[first + 1], &states[later + 1], key),
        ({
            let (a, b) = (calls[first].request@, calls[later].request@);
            let (given, got) = (calls[first].response, calls[later].response);
            if same_content(a, b) {
                &&& given.headers.len() > 0
                &&& given.headers.last() == ("Onced-Status"@, "created"@)
                &&& is_response(
                    got,
                    given.status,
                    given.headers.drop_last().push(("Onced-Status"@, "replayed"@)),
                    given.body,
                )
            } else {
                is_bare(got, 422, "mismatch"@) || are_confused(a, b, states[first].secret())
            }
        }),
{
    let (a, b) = (calls[first].request@, calls[later].request@);
    let (given, got) = (calls[first].response, calls[later].response);
    let now_ms = calls[first].now_ms;
    assert(states[first + 1].follows_handle(
        &states[first],
        &calls[first].request,
        now_ms,
        given,
    ));
    a_request_with_a_free_key_is_run(
        &states[first],
        &states[first + 1],
        &calls[first].request,
        now_ms,
        given,
        who,
        key,
    );
    let print = gateway::fingerprint_of(a, states[first].secret());
    let forwarded = choose|forwarded: Result<Response, UpstreamError>| #[trigger]
        call_ensures(
            U::forward,
            (&states[first].backend(), &calls[first].request),
            forwarded,
        ) && is_first_answer(forwarded, given) && is_kept(
            forwarded,
            states[first + 1].engine().records()[key],
            print,
            states[first].engine().next_fence(),
            states[first].engine().lease_ms(),
            now_ms,
        );
    assert(forwarded is Ok);
    let state = states[first + 1].engine().records()[key];
    let outcome = state->Completed_outcome;
    assert(given.headers.drop_last() =~= outcome.headers);
    a_key_reaches_the_backend_no_more(states, calls, first + 1, later, key);
    a_key_reaches_the_backend_no_more(states, calls, first + 1, later + 1, key);
    assert(states[later + 1].follows_handle(
        &states[later],
        &calls[later].request,
        calls[later].now_ms,
        got,
    ));
    assert(is_alive(now_ms, states[first].engine().ttl_ms(), calls[later].now_ms));
    a_stored_outcome_answers_for_its_key(
        &states[later],
        &states[later + 1],
        &calls[later].request,
        calls[later].now_ms,
        got,
        later_who,
        key,
        print,
        outcome,
        now_ms,
    );
    a_fingerprint_stands_for_the_content(a, b, states[first].secret());
}

// ---------------------------------------------------------------------------
// Abuse
// ---------------------------------------------------------------------------

/// What an action is called on the wire.
pub open spec fn is_action_name(action: Action, name: Seq<char>) -> bool {
    match action {
        Action::Challenge => name == "challenge"@,
        Action::Throttle => name == "throttle"@,
        Action::Block => name == "block"@,
    }
}

/// The response denies a request under a rule of this name and action.
pub open spec fn is_denial(r: ResponseView, rule: Seq<char>, action: Action) -> bool {
    &&& r.status == 429
    &&& r.body == Seq::<u8>::empty()
    &&& r.headers.len() == 3
    &&& r.headers[0] == ("Onced-Status"@, "denied"@)
    &&& r.headers[1] == ("Onced-Rule"@, rule)
    &&& r.headers[2].0 == "Onced-Action"@
    &&& is_action_name(action, r.headers[2].1)
}

/// The limits are applied per client, before the backend: where a rule denies a request
/// of the client that the request names, the first such rule is what it is answered,
/// with 429; the backend is not asked, and no key is touched.
pub proof fn a_client_over_its_limit_is_denied<S: Store, U: Upstream>(
    before: &Gateway<S, U>,
    after: &Gateway<S, U>,
    request: &Request,
    now_ms: u64,
    response: ResponseView,
    who: Seq<char>,
    rule: int,
)
    requires
        after.follows_handle(before, request, now_ms, response),
        is_for_the_api(request@),
        comes_from(request@, who),
        0 <= rule < before.rules().rules().len(),
        before.rules().rules()[rule].limiter().decision(who, now_ms) is Deny,
        forall|i: int|
            0 <= i < rule ==> (#[trigger] before.rules().rules()[i]).limiter().decision(
                who,
                now_ms,
            ) is Allow,
    ensures
        is_denial(
            response,
            before.rules().rules()[rule].name(),
            before.rules().rules()[rule].action(),
        ),
        is_counted(before.counters(), after.counters(), Ending::Denied),
        after.asked() == before.asked(),
        after.engine() == before.engine(),
        same_settings(before, after),
{
    let rules = before.rules().rules();
    the_endpoints_are_told_by_their_path(request@);
    the_client_is_the_first_such_header(request@);
    abuse_laws::the_first_rule_over_budget_decides(rules, who, now_ms);
    let i = choose|i: int| #[trigger]
        abuse_laws::decides(rules, who, now_ms, i) && abuse::first_tripped(rules, who, now_ms)
            == Some((rules[i].name(), rules[i].action()));
    if i < rule {
        assert(rules[i].limiter().decision(who, now_ms) is Allow);
    }
    if rule < i {
        assert(rules[rule].limiter().decision(who, now_ms) is Allow);
    }
    let name = gateway::action_name(rules[rule].action());
    assert(response.headers[2] == ("Onced-Action"@, name));
}

/// Every request for the API counts as one hit of the client that it names, against
/// every rule, whether it is let through or not; a request for an operational endpoint
/// does not count.
pub proof fn a_request_counts_against_its_client<S: Store, U: Upstream>(
    before: &Gateway<S, U>,
    after: &Gateway<S, U>,
    request: &Request,
    now_ms: u64,
    response: ResponseView,
    who: Seq<char>,
)
    requires
        after.follows_handle(before, request, now_ms, response),
        comes_from(request@, who),
    ensures
        is_for_the_api(request@) ==> after.rules().follows_hit(&before.rules(), who, now_ms),
        !is_for_the_api(request@) ==> after.rules() == before.rules(),
{
    the_endpoints_are_told_by_their_path(request@);
    the_client_is_the_first_such_header(request@);
    if is_for_the_api(request@) && abuse::first_tripped(
        before.rules().rules(),
        who,
        now_ms,
    ) is None {
        let checked = choose|checked: Gateway<S, U>|
            #![trigger after.follows_request(&checked, request, now_ms, response)]
            checked.follows_check(before, request@, now_ms) && after.follows_request(
                &checked,
                request,
                now_ms,
                response,
            );
        let (mid, phase) = the_two_phases(&checked, after, request, now_ms, response);
        if let BeginPhase::Forward(ticket) = phase {
            let claim = ticket.claim();
            let forwarded = the_backends_answer(&mid, after, request, now_ms, claim, response);
        }
    }
}

/// Every client has its own budget: what one client sends leaves what every rule decides
/// about a client that another `X-Forwarded-For` value names as it was, as long as the
/// cap on tracked clients is not reached.
pub proof fn clients_are_limited_independently<S: Store, U: Upstream>(
    before: &Gateway<S, U>,
    after: &Gateway<S, U>,
    request: &Request,
    now_ms: u64,
    response: ResponseView,
    who: Seq<char>,
    other: RequestView,
    other_who: Seq<char>,
    later_ms: u64,
    rule: int,
)
    requires
        after.follows_handle(before, request, now_ms, response),
        comes_from(request@, who),
        comes_from(other, other_who),
        who != other_who,
        0 <= rule < before.rules().rules().len(),
        before.rules().rules()[rule].limiter().counters().contains_key(who)
            || before.rules().rules()[rule].limiter().counters().dom().len()
            < before.rules().rules()[rule].limiter().max_keys(),
    ensures
        after.rules().rules().len() == before.rules().rules().len(),
        after.rules().rules()[rule].limiter().decision(gateway::identity_of(other), later_ms)
            == before.rules().rules()[rule].limiter().decision(other_who, later_ms),
{
    a_request_counts_against_its_client(before, after, request, now_ms, response, who);
    the_client_is_the_first_such_header(other);
    if is_for_the_api(request@) {
        abuse::keys_are_counted_independently(
            &before.rules().rules()[rule].limiter(),
            &after.rules().rules()[rule].limiter(),
            who,
            other_who,
            now_ms,
            later_ms,
        );
    }
}

/// The hits that calls make, where the `i`-th comes from `clients[i]`.
pub open spec fn hits_of(calls: Seq<Handled>, clients: Seq<Seq<char>>) -> abuse_laws::Hits {
    Seq::new(calls.len(), |i: int| (clients[i], calls[i].now_ms))
}

/// The states of the limiter of the `rule`-th rule.
pub open spec fn limiters_of<S: Store, U: Upstream>(
    states: Seq<Gateway<S, U>>,
    rule: int,
) -> Seq<SlidingWindowLimiter> {
    Seq::new(states.len(), |i: int| states[i].rules().rules()[rule].limiter())
}

/// A gateway keeps its rules.
proof fn the_rules_stay<S: Store, U: Upstream>(
    states: Seq<Gateway<S, U>>,
    calls: Seq<Handled>,
    clients: Seq<Seq<char>>,
    i: int,
)
    requires
        is_history(states, calls),
        clients.len() == calls.len(),
        forall|j: int|
            0 <= j < calls.len() ==> comes_from((#[trigger] calls[j]).request@, clients[j]),
        0 <= i < states.len(),
    ensures
        states[i].rules().rules().len() == states[0].rules().rules().len(),
        forall|r: int|
            0 <= r < states[0].rules().rules().len() ==> (#[trigger] states[i].rules().rules()[r])
                .name() == states[0].rules().rules()[r].name()
                && states[i].rules().rules()[r].action() == states[0].rules().rules()[r].action(),
    decreases i,
{
    if i > 0 {
        the_rules_stay(states, calls, clients, i - 1);
        let n = i - 1;
        assert(states[n + 1].follows_handle(
            &states[n],
            &calls[n].request,
            calls[n].now_ms,
            calls[n].response,
        ));
        assert(comes_from(calls[n].request@, clients[n]));
        a_request_counts_against_its_client(
            &states[n],
            &states[n + 1],
            &calls[n].request,
            calls[n].now_ms,
            calls[n].response,
            clients[n],
        );
        assert forall|r: int| 0 <= r < states[0].rules().rules().len() implies (
        #[trigger] states[i].rules().rules()[r]).name() == states[0].rules().rules()[r].name()
            && states[i].rules().rules()[r].action() == states[0].rules().rules()[r].action() by {
            assert(states[n].rules().rules()[r].name() == states[0].rules().rules()[r].name());
        }
    }
}

/// The limit over the trailing window, as clients see it. A gateway with one rule has
/// handled calls, each from the client that its `X-Forwarded-For` header names. With
/// `current` and `previous` the calls that the client of the last one has made in the
/// window of that call and in the one before, the last call is denied exactly where
/// `current` and the share of `previous` that the trailing window still covers come to
/// more than the limit; calls of other clients do not matter. There are no more clients
/// than may be tracked.
pub proof fn a_client_gets_its_limit_through<S: Store, U: Upstream>(
    states: Seq<Gateway<S, U>>,
    calls: Seq<Handled>,
    clients: Seq<Seq<char>>,
)
    requires
        is_history(states, calls),
        0 < calls.len() < u64::MAX,
        clients.len() == calls.len(),
        forall|i: int|
            0 <= i < calls.len() ==> comes_from((#[trigger] calls[i]).request@, clients[i])
                && is_for_the_api(calls[i].request@),
        forall|i: int, j: int|
            0 <= i < j < calls.len() ==> (#[trigger] calls[i]).now_ms <= (
            #[trigger] calls[j]).now_ms,
        states[0].rules().rules().len() == 1,
        states[0].rules().rules()[0].limiter().window_ms() > 0,
        states[0].rules().rules()[0].limiter().counters() == Counters::empty(),
        clients.to_set().len() <= states[0].rules().rules()[0].limiter().max_keys(),
    ensures
        ({
            let rule = states[0].rules().rules()[0];
            let window_ms = rule.limiter().window_ms();
            let now_ms = calls.last().now_ms;
            let hits = hits_of(calls, clients);
            let who = clients.last();
            let current = abuse_laws::hits_in(hits, who, window_ms, (now_ms / window_ms) as int);
            let previous = abuse_laws::hits_in(hits, who, window_ms, now_ms / window_ms - 1);
            let estimate = current * window_ms + previous * (window_ms - now_ms % window_ms);
            let before = states[calls.len() - 1];
            if estimate > rule.limiter().limit() * window_ms {
                &&& is_denial(calls.last().response, rule.name(), rule.action())
                &&& states.last().asked() == before.asked()
                &&& states.last().engine() == before.engine()
            } else {
                is_let_through(&before, who, now_ms)
            }
        }),
{
    let hits = hits_of(calls, clients);
    let limiters = limiters_of(states, 0);
    let n = calls.len() - 1;
    let who = clients.last();
    assert forall|i: int| 0 <= i < hits.len() implies (#[trigger] limiters[i + 1]).follows_hit(
        &limiters[i],
        hits[i].0,
        hits[i].1,
    ) by {
        assert(states[i + 1].follows_handle(
            &states[i],
            &calls[i].request,
            calls[i].now_ms,
            calls[i].response,
        ));
        assert(comes_from(calls[i].request@, clients[i]));
        a_request_counts_against_its_client(
            &states[i],
            &states[i + 1],
            &calls[i].request,
            calls[i].now_ms,
            calls[i].response,
            clients[i],
        );
        the_rules_stay(states, calls, clients, i);
        the_rules_stay(states, calls, clients, i + 1);
        assert(states[i + 1].rules().rules()[0].limiter().follows_hit(
            &states[i].rules().rules()[0].limiter(),
            clients[i],
            calls[i].now_ms,
        ));
    }
    assert(abuse_laws::is_run(limiters, hits));
    assert(abuse_laws::in_time(hits)) by {
        assert forall|i: int, j: int| 0 <= i < j < hits.len() implies (#[trigger] hits[i]).1 <= (
        #[trigger] hits[j]).1 by {
            assert(calls[i].now_ms <= calls[j].now_ms);
        }
    }
    abuse_laws::clients_under_the_cap_are_kept(limiters, hits, clients, who);
    abuse_laws::a_shorter_run_keeps_what_the_run_keeps(limiters, hits, who);
    abuse_laws::a_limiter_counts_the_trailing_window(limiters, hits);
    the_rules_stay(states, calls, clients, n);
    assert(states[n + 1].follows_handle(
        &states[n],
        &calls[n].request,
        calls[n].now_ms,
        calls[n].response,
    ));
    assert(comes_from(calls[n].request@, who) && is_for_the_api(calls[n].request@));
    assert(limiters[n] == states[n].rules().rules()[0].limiter());
    assert(hits.last() == (who, calls[n].now_ms));
    if states[n].rules().rules()[0].limiter().decision(who, calls[n].now_ms) is Deny {
        a_client_over_its_limit_is_denied(
            &states[n],
            &states[n + 1],
            &calls[n].request,
            calls[n].now_ms,
            calls[n].response,
            who,
            0,
        );
    }
}

} // verus!
