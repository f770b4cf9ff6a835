//! What a client of the sharded gateway can rely on: the same as of a single one,
//! and that a key always meets the same shard.

use crate::abuse;
use crate::abuse_laws;
use crate::client_laws;
use crate::engine;
use crate::gateway;
use crate::gateway::{BeginPhase, ForwardTicket, Gateway, Upstream, UpstreamError};
use crate::gateway_laws::Handled;
use crate::hash_laws;
use crate::hashing;
use crate::http::message::{Request, RequestView, Response, ResponseView};
use crate::metrics;
use crate::metrics::Metrics;
use crate::router;
use crate::router::Router;
use crate::store::Store;
use crate::{OutcomeView, StateView};
use std::collections::hash_map::DefaultHasher;
use vstd::prelude::*;
use vstd::std_specs::hash::DefaultHasherAdditionalSpecFns;
use vstd::utf8::*;

verus! {

/// `i` is where a text belongs among `n` slots: what the hasher makes of all of it,
/// modulo `n`.
pub open spec fn belongs_to(text: Seq<char>, n: nat, i: int) -> bool {
    exists|input: Seq<Seq<u8>>| #[trigger]
        hash_laws::is_whole_text(input, text) && i == (DefaultHasher::spec_finish(
            input,
        ) as usize) as int % n as int
}

/// Where a text belongs depends on all of it, and there is exactly one such slot.
pub proof fn a_text_belongs_to_one_slot(text: Seq<char>, n: nat)
    requires
        n > 0,
    ensures
        forall|i: int| (router::slot_of(text, n) == i) == #[trigger] belongs_to(text, n, i),
        0 <= router::slot_of(text, n) < n,
{
    hash_laws::a_text_is_hashed_whole(text, text);
    let whole = seq![encode_utf8(text), seq![0xffu8]];
    assert(hash_laws::is_whole_text(whole, text));
    assert forall|input: Seq<Seq<u8>>| #[trigger]
        hash_laws::is_whole_text(input, text) implies input == whole by {
        assert(input =~= whole);
    }
    assert(hashing::text_hash(text) == DefaultHasher::spec_finish(whole));
    assert forall|i: int| (router::slot_of(text, n) == i) == #[trigger] belongs_to(text, n, i) by {
        if router::slot_of(text, n) == i {
            assert(hash_laws::is_whole_text(whole, text));
        }
    }
}

/// A request goes to the shard that its `Idempotency-Key` header belongs to, whatever
/// else it holds and whatever the router has been through. Requests without one are
/// dealt out in turn: each goes to the shard after that of the last.
pub proof fn a_request_goes_to_the_shard_of_its_key<S: Store, U: Upstream>(
    r: &Router<S, U>,
    request: RequestView,
    key: Seq<char>,
)
    requires
        r.shards().len() > 0,
    ensures
        client_laws::bears(request, key) ==> belongs_to(key, r.shards().len(), r.route(request))
            && r.cursor_after(request) == r.cursor(),
        client_laws::bears_none(request) ==> {
            &&& r.route(request) == r.cursor() as int % r.shards().len() as int
            &&& r.cursor() < usize::MAX ==> r.cursor_after(request) == r.cursor() + 1
            &&& r.cursor() == usize::MAX ==> r.cursor_after(request) == 0
        },
        0 <= r.route(request) < r.shards().len(),
{
    client_laws::the_key_is_the_first_such_header(request);
    a_text_belongs_to_one_slot(key, r.shards().len());
    if let Some(k) = gateway::key_of(request) {
        assert(client_laws::bears(request, k));
        a_text_belongs_to_one_slot(k, r.shards().len());
    }
}

/// All shards take their turn: as many requests without a key in a row as there are
/// shards go each to another one.
pub proof fn keyless_requests_are_dealt_out_in_turn(cursor: nat, n: nat, i: nat, j: nat)
    requires
        n > 0,
        i < j < n,
    ensures
        (cursor + i) as int % n as int != (cursor + j) as int % n as int,
{
    let (a, b) = ((cursor + i) as int, (cursor + j) as int);
    if a % n as int == b % n as int {
        vstd::arithmetic::div_mod::lemma_fundamental_div_mod(a, n as int);
        vstd::arithmetic::div_mod::lemma_fundamental_div_mod(b, n as int);
        let (p, q) = (a / n as int, b / n as int);
        assert(n * q - n * p == j - i);
        assert(n * q - n * p == n * (q - p)) by (nonlinear_arith);
        if q <= p {
            assert(n * (q - p) <= 0) by (nonlinear_arith)
                requires
                    q <= p,
                    n > 0,
            ;
        } else {
            assert(n * (q - p) >= n) by (nonlinear_arith)
                requires
                    q - p >= 1,
                    n > 0,
            ;
        }
    }
}

/// Liveness and counters are answered on the spot: nothing changes, and the backend is
/// not asked. The counters are those of all shards.
pub proof fn an_endpoint_is_answered_on_the_spot<S: Store, U: Upstream>(
    before: &Router<S, U>,
    after: &Router<S, U>,
    request: &Request,
    now_ms: u64,
    response: ResponseView,
)
    requires
        after.follows_handle(before, request, now_ms, response),
    ensures
        client_laws::asks_for(request@, "/healthz"@) ==> *after == *before
            && client_laws::is_response(
            response,
            200,
            seq![("Onced-Status"@, "healthy"@)],
            encode_utf8("ok"@),
        ),
        client_laws::asks_for(request@, "/metrics"@) ==> *after == *before
            && client_laws::shows_counters(response, before.total_metrics()),
{
    metrics::the_text_shows_every_counter(before.total_metrics());
    client_laws::the_endpoints_are_told_by_their_path(request@);
    reveal_strlit("/healthz");
    reveal_strlit("/metrics");
    if client_laws::asks_for(request@, "/healthz"@) && client_laws::asks_for(
        request@,
        "/metrics"@,
    ) {
        assert(request@.target[1] == "/healthz"@[1]);
        assert(request@.target[1] == "/metrics"@[1]);
    }
}

/// The rule set that a client belongs to lets a request of it through.
pub open spec fn is_let_through<S: Store, U: Upstream>(
    r: &Router<S, U>,
    who: Seq<char>,
    set: int,
    now_ms: u64,
) -> bool {
    &&& belongs_to(who, r.abuse().len(), set)
    &&& forall|i: int|
        0 <= i < r.abuse()[set].rules().len() ==> (
        #[trigger] r.abuse()[set].rules()[i]).limiter().decision(who, now_ms) is Allow
}

/// All but the shard `i`, the rule set `set` and the cursor is as it was.
pub open spec fn same_elsewhere<S: Store, U: Upstream>(
    before: &Router<S, U>,
    after: &Router<S, U>,
    i: int,
    set: int,
) -> bool {
    &&& after.backend() == before.backend()
    &&& after.denied() == before.denied()
    &&& after.shards().len() == before.shards().len()
    &&& after.abuse().len() == before.abuse().len()
    &&& forall|j: int|
        0 <= j < before.shards().len() && j != i ==> #[trigger] after.shards()[j]
            == before.shards()[j]
    &&& forall|j: int|
        0 <= j < before.abuse().len() && j != set ==> #[trigger] after.abuse()[j]
            == before.abuse()[j]
}

/// A request that is let through is dispatched to its shard.
proof fn a_request_that_is_let_through_is_dispatched<S: Store, U: Upstream>(
    before: &Router<S, U>,
    after: &Router<S, U>,
    request: &Request,
    now_ms: u64,
    response: ResponseView,
    who: Seq<char>,
    set: int,
) -> (routed: Router<S, U>)
    requires
        before.wf(),
        after.follows_handle(before, request, now_ms, response),
        client_laws::is_for_the_api(request@),
        client_laws::comes_from(request@, who),
        is_let_through(before, who, set, now_ms),
    ensures
        0 <= before.route(request@) < before.shards().len(),
        routed.shards() == before.shards(),
        routed.backend() == before.backend(),
        routed.asked() == before.asked(),
        after.abuse()[set].follows_hit(&before.abuse()[set], who, now_ms),
        after.follows_dispatch(&routed, before.route(request@), request, now_ms, response),
        same_elsewhere(before, after, before.route(request@), set),
        after.cursor() == before.cursor_after(request@),
{
    client_laws::the_endpoints_are_told_by_their_path(request@);
    client_laws::the_client_is_the_first_such_header(request@);
    a_text_belongs_to_one_slot(who, before.abuse().len());
    client_laws::the_key_is_the_first_such_header(request@);
    if let Some(k) = gateway::key_of(request@) {
        a_text_belongs_to_one_slot(k, before.shards().len());
    }
    let rules = before.abuse()[set].rules();
    abuse_laws::the_first_rule_over_budget_decides(rules, who, now_ms);
    if abuse::first_tripped(rules, who, now_ms) is Some {
        let i = choose|i: int| #[trigger]
            abuse_laws::decides(rules, who, now_ms, i) && abuse::first_tripped(rules, who, now_ms)
                == Some((rules[i].name(), rules[i].action()));
        assert(before.abuse()[set].rules()[i].limiter().decision(who, now_ms) is Allow);
    }
    let routed = choose|routed: Router<S, U>|
        #![trigger after.same_but_shard(&routed, before.route(request@))]
        routed.follows_routing(before, request@, now_ms) && after.same_but_shard(
            &routed,
            before.route(request@),
        ) && after.follows_dispatch(&routed, before.route(request@), request, now_ms, response);
    routed
}

/// How a shard dealt with a request: the state in its middle, and what the begin phase
/// gave.
proof fn the_two_phases<S: Store, U: Upstream>(
    routed: &Router<S, U>,
    after: &Router<S, U>,
    i: int,
    request: &Request,
    now_ms: u64,
    response: ResponseView,
) -> (r: (Gateway<S, U>, BeginPhase))
    requires
        after.follows_dispatch(routed, i, request, now_ms, response),
    ensures
        r.0.follows_begin(&routed.shards()[i], request@, now_ms),
        routed.shards()[i].is_begin_answer(request@, now_ms, r.1),
        match r.1 {
            BeginPhase::Done(done) => after.shards()[i] == r.0 && response == done@
                && after.asked() == routed.asked(),
            BeginPhase::Forward(ticket) => after.follows_forward(
                routed,
                i,
                &r.0,
                request,
                now_ms,
                ticket.claim(),
                response,
            ),
        },
{
    let (mid, phase) = choose|mid: Gateway<S, U>, phase: BeginPhase|
        #![trigger mid.follows_begin(&routed.shards()[i], request@, now_ms), routed.shards()[i].is_begin_answer(request@, now_ms, phase)]
        mid.follows_begin(&routed.shards()[i], request@, now_ms)
            && routed.shards()[i].is_begin_answer(request@, now_ms, phase) && match phase {
            BeginPhase::Done(done) => after.shards()[i] == mid && response == done@
                && after.asked() == routed.asked(),
            BeginPhase::Forward(ticket) => after.follows_forward(
                routed,
                i,
                &mid,
                request,
                now_ms,
                ticket.claim(),
                response,
            ),
        };
    (mid, phase)
}

/// The backend's part in answering a request, where it had one.
proof fn the_backends_answer<S: Store, U: Upstream>(
    routed: &Router<S, U>,
    after: &Router<S, U>,
    i: int,
    mid: &Gateway<S, U>,
    request: &Request,
    now_ms: u64,
    claim: Option<(Seq<char>, u64)>,
    response: ResponseView,
) -> (forwarded: Result<Response, UpstreamError>)
    requires
        after.follows_forward(routed, i, mid, request, now_ms, claim, response),
    ensures
        call_ensures(U::forward, (&routed.backend(), request), forwarded),
        after.shards()[i].follows_complete(mid, claim, forwarded, now_ms),
        response == gateway::completed_view(claim, forwarded),
        after.asked() == routed.asked().push(request@),
{
    choose|forwarded: Result<Response, UpstreamError>|
        #![trigger after.shards()[i].follows_complete(mid, claim, forwarded, now_ms)]
        call_ensures(U::forward, (&routed.backend(), request), forwarded)
            && after.shards()[i].follows_complete(mid, claim, forwarded, now_ms) && response
            == gateway::completed_view(claim, forwarded) && after.shards()[i].asked()
            == mid.asked() && after.asked() == routed.asked().push(request@)
}

/// A request without an `Idempotency-Key` header that is let through is handed to the
/// backend, once, and what the backend answers is handed back as it is. Nothing is
/// stored on any shard.
pub proof fn a_keyless_request_is_passed_through<S: Store, U: Upstream>(
    before: &Router<S, U>,
    after: &Router<S, U>,
    request: &Request,
    now_ms: u64,
    response: ResponseView,
    who: Seq<char>,
    set: int,
)
    requires
        before.wf(),
        after.follows_handle(before, request, now_ms, response),
        client_laws::is_for_the_api(request@),
        client_laws::comes_from(request@, who),
        is_let_through(before, who, set, now_ms),
        client_laws::bears_none(request@),
    ensures
        exists|forwarded: Result<Response, UpstreamError>| #[trigger]
            call_ensures(U::forward, (&before.backend(), request), forwarded)
                && client_laws::is_passed_through(forwarded, response),
        after.asked() == before.asked().push(request@),
        after.shards().len() == before.shards().len(),
        forall|i: int|
            0 <= i < before.shards().len() ==> (#[trigger] after.shards()[i]).engine()
                == before.shards()[i].engine(),
        same_elsewhere(before, after, before.cursor() as int % before.shards().len() as int, set),
{
    let routed = a_request_that_is_let_through_is_dispatched(
        before,
        after,
        request,
        now_ms,
        response,
        who,
        set,
    );
    client_laws::the_key_is_the_first_such_header(request@);
    let i = before.route(request@);
    let (mid, phase) = the_two_phases(&routed, after, i, request, now_ms, response);
    let claim = phase->Forward_0.claim();
    let forwarded = the_backends_answer(
        &routed,
        after,
        i,
        &mid,
        request,
        now_ms,
        claim,
        response,
    );
    if let Ok(answer) = forwarded {
        assert(answer@.headers =~= client_laws::headers_of(answer));
    }
    assert(client_laws::is_passed_through(forwarded, response));
    assert forall|j: int| 0 <= j < before.shards().len() implies (
    #[trigger] after.shards()[j]).engine() == before.shards()[j].engine() by {
        if j != i {
            assert(after.shards()[j] == before.shards()[j]);
        }
    }
}

/// The first request with a key is handed to the backend, once, and all of its answer
/// is kept under the key on the shard that the key belongs to.
pub proof fn a_request_with_a_free_key_is_run<S: Store, U: Upstream>(
    before: &Router<S, U>,
    after: &Router<S, U>,
    request: &Request,
    now_ms: u64,
    response: ResponseView,
    who: Seq<char>,
    set: int,
    key: Seq<char>,
    i: int,
)
    requires
        before.wf(),
        after.follows_handle(before, request, now_ms, response),
        client_laws::is_for_the_api(request@),
        client_laws::comes_from(request@, who),
        is_let_through(before, who, set, now_ms),
        client_laws::bears(request@, key),
        belongs_to(key, before.shards().len(), i),
        client_laws::is_free(&before.shards()[i], key, request@, now_ms),
    ensures
        exists|forwarded: Result<Response, UpstreamError>| #[trigger]
            call_ensures(U::forward, (&before.backend(), request), forwarded)
                && client_laws::is_first_answer(forwarded, response) && client_laws::is_kept(
                forwarded,
                after.shards()[i].engine().records()[key],
                gateway::fingerprint_of(request@, before.shards()[i].secret()),
                before.shards()[i].engine().next_fence(),
                before.shards()[i].engine().lease_ms(),
                now_ms,
            ),
        after.asked() == before.asked().push(request@),
        after.shards()[i].engine().records().contains_key(key),
        forall|k: Seq<char>|
            k != key ==> after.shards()[i].engine().records().contains_key(k)
                == #[trigger] before.shards()[i].engine().records().contains_key(k)
                && after.shards()[i].engine().records()[k]
                == before.shards()[i].engine().records()[k],
        same_elsewhere(before, after, i, set),
        client_laws::same_settings(&before.shards()[i], &after.shards()[i]),
{
    let routed = a_request_that_is_let_through_is_dispatched(
        before,
        after,
        request,
        now_ms,
        response,
        who,
        set,
    );
    client_laws::the_key_is_the_first_such_header(request@);
    a_text_belongs_to_one_slot(key, before.shards().len());
    assert(gateway::key_of(request@) == Some(key));
    assert(i == before.route(request@));
    let shard = before.shards()[i];
    assert(shard.due(request@, key, now_ms) is Start);
    let (mid, phase) = the_two_phases(&routed, after, i, request, now_ms, response);
    let claim = phase->Forward_0.claim();
    let fence = shard.engine().next_fence();
    assert(claim == Some((key, fence)));
    let forwarded = the_backends_answer(
        &routed,
        after,
        i,
        &mid,
        request,
        now_ms,
        claim,
        response,
    );
    if let Ok(answer) = forwarded {
        assert(answer@.headers =~= client_laws::headers_of(answer));
        assert(engine::refusal(mid.engine().records(), key, fence) is None);
    }
    assert(client_laws::is_first_answer(forwarded, response));
    assert(client_laws::is_kept(
        forwarded,
        after.shards()[i].engine().records()[key],
        gateway::fingerprint_of(request@, shard.secret()),
        fence,
        shard.engine().lease_ms(),
        now_ms,
    ));
}

/// Once a key has an outcome on the shard that it belongs to, and as long as that lives,
/// a request with the key never reaches the backend: the same request gets the outcome,
/// in every part, and a request with another fingerprint is refused.
pub proof fn a_stored_outcome_answers_for_its_key<S: Store, U: Upstream>(
    before: &Router<S, U>,
    after: &Router<S, U>,
    request: &Request,
    now_ms: u64,
    response: ResponseView,
    who: Seq<char>,
    set: int,
    key: Seq<char>,
    i: int,
    print: Seq<u8>,
    outcome: OutcomeView,
    completed_at_ms: u64,
)
    requires
        before.wf(),
        after.follows_handle(before, request, now_ms, response),
        client_laws::is_for_the_api(request@),
        client_laws::comes_from(request@, who),
        is_let_through(before, who, set, now_ms),
        client_laws::bears(request@, key),
        belongs_to(key, before.shards().len(), i),
        before.shards()[i].engine().records().contains_key(key),
        before.shards()[i].engine().records()[key] == (StateView::Completed {
            fingerprint: print,
            outcome,
            completed_at_ms,
        }),
        client_laws::is_alive(completed_at_ms, before.shards()[i].engine().ttl_ms(), now_ms),
    ensures
        if print == gateway::fingerprint_of(request@, before.shards()[i].secret()) {
            client_laws::is_response(
                response,
                outcome.status,
                outcome.headers.push(("Onced-Status"@, "replayed"@)),
                outcome.body,
            )
        } else {
            client_laws::is_bare(response, 422, "mismatch"@)
        },
        after.asked() == before.asked(),
        after.shards()[i].engine() == before.shards()[i].engine(),
        same_elsewhere(before, after, i, set),
{
    let routed = a_request_that_is_let_through_is_dispatched(
        before,
        after,
        request,
        now_ms,
        response,
        who,
        set,
    );
    client_laws::the_key_is_the_first_such_header(request@);
    a_text_belongs_to_one_slot(key, before.shards().len());
    assert(gateway::key_of(request@) == Some(key));
    let (mid, phase) = the_two_phases(&routed, after, i, request, now_ms, response);
}

/// While an attempt holds a key on its shard, a request with the key never reaches the
/// backend: the same request is told to wait, another is refused.
pub proof fn an_attempt_in_flight_answers_for_its_key<S: Store, U: Upstream>(
    before: &Router<S, U>,
    after: &Router<S, U>,
    request: &Request,
    now_ms: u64,
    response: ResponseView,
    who: Seq<char>,
    set: int,
    key: Seq<char>,
    i: int,
    fence: u64,
    print: Seq<u8>,
    lease_expires_at_ms: u64,
)
    requires
        before.wf(),
        after.follows_handle(before, request, now_ms, response),
        client_laws::is_for_the_api(request@),
        client_laws::comes_from(request@, who),
        is_let_through(before, who, set, now_ms),
        client_laws::bears(request@, key),
        belongs_to(key, before.shards().len(), i),
        before.shards()[i].engine().records().contains_key(key),
        before.shards()[i].engine().records()[key] == (StateView::InProgress {
            fence,
            fingerprint: print,
            lease_expires_at_ms,
        }),
        print == gateway::fingerprint_of(request@, before.shards()[i].secret()) ==> now_ms
            < lease_expires_at_ms,
    ensures
        if print == gateway::fingerprint_of(request@, before.shards()[i].secret()) {
            client_laws::is_bare(response, 409, "in-progress"@)
        } else {
            client_laws::is_bare(response, 422, "mismatch"@)
        },
        after.asked() == before.asked(),
        after.shards()[i].engine() == before.shards()[i].engine(),
        same_elsewhere(before, after, i, set),
{
    let routed = a_request_that_is_let_through_is_dispatched(
        before,
        after,
        request,
        now_ms,
        response,
        who,
        set,
    );
    client_laws::the_key_is_the_first_such_header(request@);
    a_text_belongs_to_one_slot(key, before.shards().len());
    assert(gateway::key_of(request@) == Some(key));
    let (mid, phase) = the_two_phases(&routed, after, i, request, now_ms, response);
}

/// The limits are applied per client, on the rule set that the client belongs to, and
/// before the backend and the shards.
pub proof fn a_client_over_its_limit_is_denied<S: Store, U: Upstream>(
    before: &Router<S, U>,
    after: &Router<S, U>,
    request: &Request,
    now_ms: u64,
    response: ResponseView,
    who: Seq<char>,
    set: int,
    rule: int,
)
    requires
        before.wf(),
        after.follows_handle(before, request, now_ms, response),
        client_laws::is_for_the_api(request@),
        client_laws::comes_from(request@, who),
        belongs_to(who, before.abuse().len(), set),
        0 <= rule < before.abuse()[set].rules().len(),
        before.abuse()[set].rules()[rule].limiter().decision(who, now_ms) is Deny,
        forall|i: int|
            0 <= i < rule ==> (#[trigger] before.abuse()[set].rules()[i]).limiter().decision(
                who,
                now_ms,
            ) is Allow,
    ensures
        client_laws::is_denial(
            response,
            before.abuse()[set].rules()[rule].name(),
            before.abuse()[set].rules()[rule].action(),
        ),
        after.asked() == before.asked(),
        after.shards() == before.shards(),
        after.abuse()[set].follows_hit(&before.abuse()[set], who, now_ms),
        before.denied() < u64::MAX ==> after.denied() == before.denied() + 1,
{
    let rules = before.abuse()[set].rules();
    client_laws::the_endpoints_are_told_by_their_path(request@);
    client_laws::the_client_is_the_first_such_header(request@);
    a_text_belongs_to_one_slot(who, before.abuse().len());
    abuse_laws::the_first_rule_over_budget_decides(rules, who, now_ms);
    let i = choose|i: int| #[trigger]
        abuse_laws::decides(rules, who, now_ms, i) && abuse::first_tripped(rules, who, now_ms)
            == Some((rules[i].name(), rules[i].action()));
    if i < rule {
        assert(rules[i].limiter().decision(who, now_ms) is Allow);
    }
    if rule < i {
        assert(rules[rule].limiter().decision(who, now_ms) is Allow);
    }
    let name = gateway::action_name(rules[rule].action());
    assert(response.headers[2] == ("Onced-Action"@, name));
}

/// Every request for the API, let through or not, counts as one hit of its client on
/// the rule set that the client belongs to, and on no other.
pub proof fn a_request_counts_against_its_client<S: Store, U: Upstream>(
    before: &Router<S, U>,
    after: &Router<S, U>,
    request: &Request,
    now_ms: u64,
    response: ResponseView,
    who: Seq<char>,
    set: int,
)
    requires
        before.wf(),
        after.follows_handle(before, request, now_ms, response),
        client_laws::comes_from(request@, who),
        belongs_to(who, before.abuse().len(), set),
    ensures
        client_laws::is_for_the_api(request@) ==> after.abuse()[set].follows_hit(
            &before.abuse()[set],
            who,
            now_ms,
        ),
        after.abuse().len() == before.abuse().len(),
        forall|i: int|
            0 <= i < before.abuse().len() && i != set ==> #[trigger] after.abuse()[i]
                == before.abuse()[i],
        !client_laws::is_for_the_api(request@) ==> *after == *before,
{
    client_laws::the_endpoints_are_told_by_their_path(request@);
    client_laws::the_client_is_the_first_such_header(request@);
    a_text_belongs_to_one_slot(who, before.abuse().len());
    if client_laws::is_for_the_api(request@) && before.tripped(request@, now_ms) is None {
        let routed = choose|routed: Router<S, U>|
            #![trigger after.same_but_shard(&routed, before.route(request@))]
            routed.follows_routing(before, request@, now_ms) && after.same_but_shard(
                &routed,
                before.route(request@),
            ) && after.follows_dispatch(
                &routed,
                before.route(request@),
                request,
                now_ms,
                response,
            );
    }
}

/// How many of something the shards count in all.
pub open spec fn sum_over<S: Store, U: Upstream>(
    shards: Seq<Gateway<S, U>>,
    count: spec_fn(Metrics) -> u64,
) -> nat
    decreases shards.len(),
{
    if shards.len() == 0 {
        0
    } else {
        sum_over(shards.drop_last(), count) + count(shards.last().counters()) as nat
    }
}

/// `n`, or the largest count there is where that is less.
pub open spec fn at_most_the_largest(n: nat) -> nat {
    if n <= u64::MAX {
        n
    } else {
        u64::MAX as nat
    }
}

proof fn the_totals_are_sums<S: Store, U: Upstream>(shards: Seq<Gateway<S, U>>)
    ensures
        ({
            let m = router::total(shards);
            &&& m.requests_total == at_most_the_largest(
                sum_over(shards, |c: Metrics| c.requests_total),
            )
            &&& m.created == at_most_the_largest(sum_over(shards, |c: Metrics| c.created))
            &&& m.replayed == at_most_the_largest(sum_over(shards, |c: Metrics| c.replayed))
            &&& m.in_progress == at_most_the_largest(sum_over(shards, |c: Metrics| c.in_progress))
            &&& m.mismatch == at_most_the_largest(sum_over(shards, |c: Metrics| c.mismatch))
            &&& m.denied == at_most_the_largest(sum_over(shards, |c: Metrics| c.denied))
            &&& m.upstream_error == at_most_the_largest(
                sum_over(shards, |c: Metrics| c.upstream_error),
            )
            &&& m.passthrough == at_most_the_largest(sum_over(shards, |c: Metrics| c.passthrough))
        }),
    decreases shards.len(),
{
    if shards.len() > 0 {
        the_totals_are_sums(shards.drop_last());
    }
}

/// The counters of a router are those of its shards added up, each with its own kind,
/// with the router's denials among the denials.
pub proof fn the_counters_are_added_up<S: Store, U: Upstream>(r: &Router<S, U>)
    ensures
        ({
            let m = r.total_metrics();
            let shards = r.shards();
            &&& m.requests_total == at_most_the_largest(
                sum_over(shards, |c: Metrics| c.requests_total),
            )
            &&& m.created == at_most_the_largest(sum_over(shards, |c: Metrics| c.created))
            &&& m.replayed == at_most_the_largest(sum_over(shards, |c: Metrics| c.replayed))
            &&& m.in_progress == at_most_the_largest(sum_over(shards, |c: Metrics| c.in_progress))
            &&& m.mismatch == at_most_the_largest(sum_over(shards, |c: Metrics| c.mismatch))
            &&& m.denied == at_most_the_largest(
                sum_over(shards, |c: Metrics| c.denied) + r.denied() as nat,
            )
            &&& m.upstream_error == at_most_the_largest(
                sum_over(shards, |c: Metrics| c.upstream_error),
            )
            &&& m.passthrough == at_most_the_largest(sum_over(shards, |c: Metrics| c.passthrough))
        }),
{
    the_totals_are_sums(r.shards());
}

// ---------------------------------------------------------------------------
// Over whole histories
// ---------------------------------------------------------------------------

/// `states` are the states that a router goes through as it handles `calls`.
pub open spec fn is_history<S: Store, U: Upstream>(
    states: Seq<Router<S, U>>,
    calls: Seq<Handled>,
) -> bool {
    &&& states.len() == calls.len() + 1
    &&& forall|i: int| 0 <= i < states.len() ==> (#[trigger] states[i]).wf()
    &&& forall|i: int|
        0 <= i < calls.len() ==> (#[trigger] states[i + 1]).follows_handle(
            &states[i],
            &calls[i].request,
            calls[i].now_ms,
            calls[i].response,
        )
}

/// Whatever is handled, an outcome that lives stays exactly as it is on its shard, and
/// so do the settings.
proof fn handling_keeps_a_living_outcome<S: Store, U: Upstream>(
    before: &Router<S, U>,
    after: &Router<S, U>,
    request: &Request,
    now_ms: u64,
    response: ResponseView,
    key: Seq<char>,
    i: int,
)
    requires
        before.wf(),
        after.follows_handle(before, request, now_ms, response),
        belongs_to(key, before.shards().len(), i),
        before.shards()[i].engine().records().contains_key(key),
        before.shards()[i].engine().records()[key] is Completed,
        client_laws::is_alive(
            before.shards()[i].engine().records()[key]->Completed_completed_at_ms,
            before.shards()[i].engine().ttl_ms(),
            now_ms,
        ),
    ensures
        after.shards().len() == before.shards().len(),
        after.backend() == before.backend(),
        after.shards()[i].engine().records().contains_key(key),
        after.shards()[i].engine().records()[key] == before.shards()[i].engine().records()[key],
        client_laws::same_settings(&before.shards()[i], &after.shards()[i]),
        client_laws::bears(request@, key) ==> after.asked() == before.asked(),
        after.asked() == before.asked() || after.asked() == before.asked().push(request@),
{
    client_laws::the_key_is_the_first_such_header(request@);
    a_text_belongs_to_one_slot(key, before.shards().len());
    if before.operational(request@) is None && before.tripped(request@, now_ms) is None {
        let n = before.route(request@);
        let routed = choose|routed: Router<S, U>|
            #![trigger after.same_but_shard(&routed, before.route(request@))]
            routed.follows_routing(before, request@, now_ms) && after.same_but_shard(
                &routed,
                before.route(request@),
            ) && after.follows_dispatch(
                &routed,
                before.route(request@),
                request,
                now_ms,
                response,
            );
        assert(routed.shards() == before.shards());
        let (mid, phase) = the_two_phases(&routed, after, n, request, now_ms, response);
        if let BeginPhase::Forward(ticket) = phase {
            let claim = ticket.claim();
            let forwarded = the_backends_answer(
                &routed,
                after,
                n,
                &mid,
                request,
                now_ms,
                claim,
                response,
            );
            assert(gateway::key_of(request@) != Some(key));
            if let Some(k) = gateway::key_of(request@) {
                assert(k != key);
                if n == i {
                    assert(mid.engine().records()[key]
                        == before.shards()[i].engine().records()[key]);
                }
            }
        }
        if n != i {
            assert(after.shards()[i] == routed.shards()[i]);
        }
    }
}

/// The requests that were asked of the backend between two states, all of them without
/// the key.
pub open spec fn asked_without<S: Store, U: Upstream>(
    before: &Router<S, U>,
    after: &Router<S, U>,
    key: Seq<char>,
) -> bool {
    &&& before.asked().is_prefix_of(after.asked())
    &&& forall|i: int|
        before.asked().len() <= i < after.asked().len() ==> !client_laws::bears(
            #[trigger] after.asked()[i],
            key,
        )
}

/// From the moment a key has an outcome, and as long as that lives, the outcome stays on
/// its shard, whatever else is handled, and no request with the key is asked of the
/// backend.
pub proof fn a_key_reaches_the_backend_no_more<S: Store, U: Upstream>(
    states: Seq<Router<S, U>>,
    calls: Seq<Handled>,
    from: int,
    to: int,
    key: Seq<char>,
    i: int,
)
    requires
        is_history(states, calls),
        0 <= from <= to <= calls.len(),
        belongs_to(key, states[from].shards().len(), i),
        states[from].shards()[i].engine().records().contains_key(key),
        states[from].shards()[i].engine().records()[key] is Completed,
        client_laws::happen_while_alive(
            calls,
            from,
            to,
            states[from].shards()[i].engine().records()[key]->Completed_completed_at_ms,
            states[from].shards()[i].engine().ttl_ms(),
        ),
    ensures
        states[to].shards().len() == states[from].shards().len(),
        states[to].shards()[i].engine().records().contains_key(key),
        states[to].shards()[i].engine().records()[key]
            == states[from].shards()[i].engine().records()[key],
        client_laws::same_settings(&states[from].shards()[i], &states[to].shards()[i]),
        asked_without(&states[from], &states[to], key),
    decreases to - from,
{
    if from < to {
        a_key_reaches_the_backend_no_more(states, calls, from, to - 1, key, i);
        let n = to - 1;
        assert(states[n].wf());
        assert(states[n + 1].follows_handle(
            &states[n],
            &calls[n].request,
            calls[n].now_ms,
            calls[n].response,
        ));
        assert(client_laws::is_alive(
            states[from].shards()[i].engine().records()[key]->Completed_completed_at_ms,
            states[from].shards()[i].engine().ttl_ms(),
            calls[n].now_ms,
        ));
        handling_keeps_a_living_outcome(
            &states[n],
            &states[n + 1],
            &calls[n].request,
            calls[n].now_ms,
            calls[n].response,
            key,
            i,
        );
        assert forall|j: int|
            states[from].asked().len() <= j < states[to].asked().len() implies !client_laws::bears(
            #[trigger] states[to].asked()[j],
            key,
        ) by {
            if j < states[n].asked().len() {
                assert(states[to].asked()[j] == states[n].asked()[j]);
            }
        }
    }
}

/// THE end-to-end guarantee, across shards. The first request with a key is asked of the
/// backend once; say that the call does not fail. From then on, whatever else the router
/// handles on whatever shard, and as long as the outcome lives: no request with that key
/// is asked of the backend again; the same request is answered with the status, the
/// headers and the body of the first answer, marked as replayed; and a request with the
/// key that differs in its method, its target or its body is refused, unless the hash
/// confuses the two.
pub proof fn a_key_takes_effect_exactly_once<S: Store, U: Upstream>(
    states: Seq<Router<S, U>>,
    calls: Seq<Handled>,
    first: int,
    later: int,
    key: Seq<char>,
    i: int,
    who: Seq<char>,
    set: int,
    later_who: Seq<char>,
    later_set: int,
)
    requires
        is_history(states, calls),
        0 <= first < later < calls.len(),
        client_laws::is_for_the_api(calls[first].request@),
        client_laws::comes_from(calls[first].request@, who),
        is_let_through(&states[first], who, set, calls[first].now_ms),
        client_laws::bears(calls[first].request@, key),
        belongs_to(key, states[first].shards().len(), i),
        client_laws::is_free(
            &states[first].shards()[i],
            key,
            calls[first].request@,
            calls[first].now_ms,
        ),
        !client_laws::is_bare(calls[first].response, 502, "upstream-error"@),
        client_laws::happen_while_alive(
            calls,
            first + 1,
            later + 1,
            calls[first].now_ms,
            states[first].shards()[i].engine().ttl_ms(),
        ),
        client_laws::is_for_the_api(calls[later].request@),
        client_laws::comes_from(calls[later].request@, later_who),
        is_let_through(&states[later], later_who, later_set, calls[later].now_ms),
        client_laws::bears(calls[later].request@, key),
        client_laws::is_sized(calls[first].request@),
        client_laws::is_sized(calls[later].request@),
    ensures
        states[first + 1].asked() == states[first].asked().push(calls[first].request@),
        asked_without(&states[first + 1], &states[later + 1], key),
        ({
            let (a, b) = (calls[first].request@, calls[later].request@);
            let (given, got) = (calls[first].response, calls[later].response);
            if client_laws::same_content(a, b) {
                &&& given.headers.len() > 0
                &&& given.headers.last() == ("Onced-Status"@, "created"@)
                &&& client_laws::is_response(
                    got,
                    given.status,
                    given.headers.drop_last().push(("Onced-Status"@, "replayed"@)),
                    given.body,
                )
            } else {
                client_laws::is_bare(got, 422, "mismatch"@) || client_laws::are_confused(
                    a,
                    b,
                    states[first].shards()[i].secret(),
                )
            }
        }),
{
    let (a, b) = (calls[first].request@, calls[later].request@);
    let (given, got) = (calls[first].response, calls[later].response);
    let now_ms = calls[first].now_ms;
    let shard = states[first].shards()[i];
    assert(states[first].wf());
    assert(states[first + 1].follows_handle(
        &states[first],
        &calls[first].request,
        now_ms,
        given,
    ));
    a_request_with_a_free_key_is_run(
        &states[first],
        &states[first + 1],
        &calls[first].request,
        now_ms,
        given,
        who,
        set,
        key,
        i,
    );
    let print = gateway::fingerprint_of(a, shard.secret());
    let forwarded = choose|forwarded: Result<Response, UpstreamError>| #[trigger]
        call_ensures(
            U::forward,
            (&states[first].backend(), &calls[first].request),
            forwarded,
        ) && client_laws::is_first_answer(forwarded, given) && client_laws::is_kept(
            forwarded,
            states[first + 1].shards()[i].engine().records()[key],
            print,
            shard.engine().next_fence(),
            shard.engine().lease_ms(),
            now_ms,
        );
    assert(forwarded is Ok);
    let state = states[first + 1].shards()[i].engine().records()[key];
    let outcome = state->Completed_outcome;
    assert(given.headers.drop_last() =~= outcome.headers);
    a_key_reaches_the_backend_no_more(states, calls, first + 1, later, key, i);
    a_key_reaches_the_backend_no_more(states, calls, first + 1, later + 1, key, i);
    assert(states[later].wf());
    assert(states[later + 1].follows_handle(
        &states[later],
        &calls[later].request,
        calls[later].now_ms,
        got,
    ));
    assert(client_laws::is_alive(now_ms, shard.engine().ttl_ms(), calls[later].now_ms));
    a_stored_outcome_answers_for_its_key(
        &states[later],
        &states[later + 1],
        &calls[later].request,
        calls[later].now_ms,
        got,
        later_who,
        later_set,
        key,
        i,
        print,
        outcome,
        now_ms,
    );
    client_laws::a_fingerprint_stands_for_the_content(a, b, shard.secret());
}

/// The stages before the backend call are asked in their order: what the operational
/// endpoints answer is the answer; a denial is the answer to any other request; and only
/// what neither settles begins on its shard.
pub proof fn the_first_stage_that_settles_answers<A, B, C>(
    operational: A,
    deny: B,
    begin: C,
    r: Result<(usize, ForwardTicket), Response>,
) where
    A: FnOnce() -> Option<Response>,
    B: FnOnce() -> Option<Response>,
    C: FnOnce() -> Result<(usize, ForwardTicket), Response>,

    requires
        router::settled_in_order(operational, deny, begin, r),
    ensures
        !call_ensures(operational, (), None) ==> r is Err && call_ensures(
            operational,
            (),
            Some(r->Err_0),
        ),
        r is Err || call_ensures(operational, (), None) && call_ensures(deny, (), None),
        (forall|o: Option<Response>| #[trigger] call_ensures(operational, (), o) ==> o is None)
            && !call_ensures(deny, (), None) ==> r is Err && call_ensures(
            deny,
            (),
            Some(r->Err_0),
        ),
        (forall|o: Option<Response>| #[trigger] call_ensures(operational, (), o) ==> o is None) && (
        forall|d: Option<Response>| #[trigger] call_ensures(deny, (), d) ==> d is None)
            ==> call_ensures(begin, (), r),
{
}

} // verus!
