//! What the gateway and the router guarantee across requests.

use crate::abuse;
use crate::bytes;
use crate::engine;
use crate::gateway;
use crate::gateway::{BeginPhase, Gateway, Upstream, UpstreamError};
use crate::http::message::{Request, RequestView, Response, ResponseView};
use crate::metrics;
use crate::metrics::Metrics;
use crate::router;
use crate::router::Router;
use crate::store::Store;
use crate::text;
use crate::StateView;
use vstd::prelude::*;
use vstd::utf8::*;

verus! {

// ---------------------------------------------------------------------------
// Fingerprints
// ---------------------------------------------------------------------------

/// A message that starts with a sized part tells where the part ends.
proof fn sized_parts_are_separate(a: Seq<u8>, x: Seq<u8>, b: Seq<u8>, y: Seq<u8>)
    requires
        a.len() <= u64::MAX,
        b.len() <= u64::MAX,
        bytes::le_u64(a.len() as u64) + a + x == bytes::le_u64(b.len() as u64) + b + y,
    ensures
        a == b,
        x == y,
{
    let whole = bytes::le_u64(a.len() as u64) + a + x;
    assert(whole.subrange(0, 8) =~= bytes::le_u64(a.len() as u64));
    bytes::u64_reads_back(whole, 0, a.len() as u64);
    assert(whole.subrange(0, 8) =~= bytes::le_u64(b.len() as u64)) by {
        assert(whole == bytes::le_u64(b.len() as u64) + b + y);
    }
    bytes::u64_reads_back(whole, 0, b.len() as u64);
    assert(a.len() == b.len());
    assert(whole.subrange(8, 8 + a.len() as int) =~= a);
    assert((bytes::le_u64(b.len() as u64) + b + y).subrange(8, 8 + b.len() as int) =~= b);
    assert(whole.skip(8 + a.len() as int) =~= x);
    assert((bytes::le_u64(b.len() as u64) + b + y).skip(8 + b.len() as int) =~= y);
}

/// Requests that differ in their method, their target or their body have different
/// fingerprint messages: no two of them can be confused by where one part ends and
/// the next begins.
pub proof fn fingerprint_messages_are_unambiguous(a: RequestView, b: RequestView)
    requires
        encode_utf8(a.method).len() <= u64::MAX,
        encode_utf8(b.method).len() <= u64::MAX,
        encode_utf8(a.target).len() <= u64::MAX,
        encode_utf8(b.target).len() <= u64::MAX,
        gateway::fingerprint_message(a) == gateway::fingerprint_message(b),
    ensures
        a.method == b.method,
        a.target == b.target,
        a.body == b.body,
{
    let am = encode_utf8(a.method);
    let bm = encode_utf8(b.method);
    let at = encode_utf8(a.target);
    let bt = encode_utf8(b.target);
    let ax = bytes::le_u64(at.len() as u64) + at + a.body;
    let bx = bytes::le_u64(bt.len() as u64) + bt + b.body;
    assert(gateway::fingerprint_message(a) =~= bytes::le_u64(am.len() as u64) + am + ax);
    assert(gateway::fingerprint_message(b) =~= bytes::le_u64(bm.len() as u64) + bm + bx);
    sized_parts_are_separate(am, ax, bm, bx);
    sized_parts_are_separate(at, a.body, bt, b.body);
    text::encoding_is_injective(a.method, b.method);
    text::encoding_is_injective(a.target, b.target);
}

// ---------------------------------------------------------------------------
// Retries
// ---------------------------------------------------------------------------

/// A retry does not reach the backend: after the response to a keyed request was
/// committed, a retry of the request is settled in its begin phase with that
/// response, marked as replayed, for as long as the outcome lives. `committed` is
/// the gateway right after the commit, and `later` any gateway state in which the
/// key's record and the settings are still the same.
pub proof fn a_retry_replays_the_committed_response<S: Store, U: Upstream>(
    before: &Gateway<S, U>,
    committed: &Gateway<S, U>,
    later: &Gateway<S, U>,
    request: RequestView,
    fence: u64,
    response: Response,
    done_ms: u64,
    retry_ms: u64,
    phase: BeginPhase,
)
    requires
        gateway::key_of(request) is Some,
        engine::refusal(
            before.engine().records(),
            gateway::key_of(request)->Some_0,
            fence,
        ) is None,
        before.engine().records()[gateway::key_of(request)->Some_0]->InProgress_fingerprint
            == gateway::fingerprint_of(request, before.secret()),
        committed.follows_complete(
            before,
            Some((gateway::key_of(request)->Some_0, fence)),
            Ok(response),
            done_ms,
        ),
        later.engine().records().contains_key(gateway::key_of(request)->Some_0),
        later.engine().records()[gateway::key_of(request)->Some_0]
            == committed.engine().records()[gateway::key_of(request)->Some_0],
        later.engine().ttl_ms() == committed.engine().ttl_ms(),
        later.secret() == committed.secret(),
        retry_ms < engine::capped_sum(done_ms, committed.engine().ttl_ms()),
        later.is_begin_answer(request, retry_ms, phase),
    ensures
        phase is Done,
        phase->Done_0@ == gateway::tagged(
            gateway::replay_of(gateway::outcome_of(response@)),
            "replayed"@,
        ),
        phase->Done_0@.status == response@.status,
        phase->Done_0@.body == response@.body,
        phase->Done_0@.headers == response@.headers.push(
            ("Onced-Status"@, "replayed"@),
        ),
        !later.must_forward(request, retry_ms),
{
}

/// THE end-to-end guarantee: a request that starts its key and is answered by the
/// backend is answered the same way when it is retried. The retry gets the status,
/// the headers and the body of the first answer, marked as replayed; the engine does
/// not move; and over both the backend was asked exactly once.
pub proof fn a_retry_gets_the_first_answer<S: Store, U: Upstream>(
    before: &Gateway<S, U>,
    answered: &Gateway<S, U>,
    retried: &Gateway<S, U>,
    request: &Request,
    first_ms: u64,
    retry_ms: u64,
    first: ResponseView,
    retry: ResponseView,
)
    requires
        gateway::key_of(request@) is Some,
        before.due(request@, gateway::key_of(request@)->Some_0, first_ms) is Start,
        answered.follows_request(before, request, first_ms, first),
        first != gateway::failure_view(),
        retry_ms < engine::capped_sum(first_ms, before.engine().ttl_ms()),
        retried.follows_request(answered, request, retry_ms, retry),
    ensures
        retry.status == first.status,
        retry.body == first.body,
        first.headers.len() > 0,
        retry.headers == first.headers.drop_last().push(
            ("Onced-Status"@, "replayed"@),
        ),
        retried.engine() == answered.engine(),
        answered.asked() == before.asked().push(request@),
        retried.asked() == answered.asked(),
{
    let key = gateway::key_of(request@)->Some_0;
    let (mid, phase) = choose|mid: Gateway<S, U>, phase: BeginPhase|
        #![trigger mid.follows_begin(before, request@, first_ms), before.is_begin_answer(request@, first_ms, phase)]
        mid.follows_begin(before, request@, first_ms) && before.is_begin_answer(
            request@,
            first_ms,
            phase,
        ) && match phase {
            BeginPhase::Done(done) => *answered == mid && first == done@,
            BeginPhase::Forward(ticket) => answered.follows_forward(
                &mid,
                request,
                first_ms,
                ticket.claim(),
                first,
            ),
        };
    let ticket = phase->Forward_0;
    let claim = ticket.claim();
    assert(claim == Some((key, before.engine().next_fence())));
    let forwarded = choose|forwarded: Result<Response, UpstreamError>|
        #![trigger answered.follows_complete(&mid, claim, forwarded, first_ms)]
        call_ensures(U::forward, (&mid.backend(), request), forwarded)
            && answered.follows_complete(&mid, claim, forwarded, first_ms) && first
            == gateway::completed_view(claim, forwarded);
    let response = forwarded->Ok_0;
    assert(first == gateway::tagged(response@, "created"@));
    assert(first.headers.drop_last() =~= response@.headers);
    let (mid2, phase2) = choose|mid2: Gateway<S, U>, phase2: BeginPhase|
        #![trigger mid2.follows_begin(answered, request@, retry_ms), answered.is_begin_answer(request@, retry_ms, phase2)]
        mid2.follows_begin(answered, request@, retry_ms) && answered.is_begin_answer(
            request@,
            retry_ms,
            phase2,
        ) && match phase2 {
            BeginPhase::Done(done) => *retried == mid2 && retry == done@,
            BeginPhase::Forward(ticket) => retried.follows_forward(
                &mid2,
                request,
                retry_ms,
                ticket.claim(),
                retry,
            ),
        };
    a_retry_replays_the_committed_response(
        &mid,
        answered,
        answered,
        request@,
        before.engine().next_fence(),
        response,
        first_ms,
        retry_ms,
        phase2,
    );
}

/// A duplicate of a request that is still being executed is told to wait, and
/// never reaches the backend: after a begin phase that asked for the backend call,
/// and until the lease runs out, the same request is answered with a conflict.
pub proof fn a_duplicate_in_flight_is_told_to_wait<S: Store, U: Upstream>(
    before: &Gateway<S, U>,
    begun: &Gateway<S, U>,
    request: RequestView,
    begun_ms: u64,
    duplicate_ms: u64,
    phase: BeginPhase,
)
    requires
        gateway::key_of(request) is Some,
        before.due(request, gateway::key_of(request)->Some_0, begun_ms) is Start,
        begun.follows_begin(before, request, begun_ms),
        duplicate_ms < engine::capped_sum(begun_ms, before.engine().lease_ms()),
        begun.is_begin_answer(request, duplicate_ms, phase),
    ensures
        phase is Done,
        phase->Done_0@ == gateway::bare(409, "in-progress"@),
        !begun.must_forward(request, duplicate_ms),
{
}

/// A key that is held or completed for one request is never answered for another:
/// as long as its record lives, a request with a different fingerprint is rejected,
/// and never reaches the backend.
pub proof fn a_reused_key_is_rejected<S: Store, U: Upstream>(
    g: &Gateway<S, U>,
    request: RequestView,
    now_ms: u64,
    phase: BeginPhase,
)
    requires
        gateway::key_of(request) is Some,
        ({
            let key = gateway::key_of(request)->Some_0;
            let print = gateway::fingerprint_of(request, g.secret());
            &&& g.engine().records().contains_key(key)
            &&& match g.engine().records()[key] {
                StateView::InProgress { fingerprint, .. } => fingerprint != print,
                StateView::Completed { fingerprint, completed_at_ms, .. } => fingerprint != print
                    && !engine::is_expired(completed_at_ms, g.engine().ttl_ms(), now_ms),
            }
        }),
        g.is_begin_answer(request, now_ms, phase),
    ensures
        phase is Done,
        phase->Done_0@ == gateway::bare(422, "mismatch"@),
        !g.must_forward(request, now_ms),
{
}

/// A failed backend call commits nothing: the attempt stays in progress, so that a
/// retry can take it over once the lease has run out.
pub proof fn a_failed_call_commits_nothing<S: Store, U: Upstream>(
    before: &Gateway<S, U>,
    after: &Gateway<S, U>,
    claim: Option<(Seq<char>, u64)>,
    error: UpstreamError,
    now_ms: u64,
)
    requires
        after.follows_complete(before, claim, Err(error), now_ms),
    ensures
        after.engine() == before.engine(),
        gateway::completed_view(claim, Err(error)) == gateway::bare(502, "upstream-error"@),
{
}

/// Once a key has an outcome, and until that expires, no request that bears the key is
/// for the backend, whatever else it holds.
pub proof fn a_completed_key_never_reaches_the_backend<S: Store, U: Upstream>(
    g: &Gateway<S, U>,
    request: RequestView,
    now_ms: u64,
)
    requires
        gateway::key_of(request) is Some,
        g.engine().records().contains_key(gateway::key_of(request)->Some_0),
        ({
            let state = g.engine().records()[gateway::key_of(request)->Some_0];
            &&& state is Completed
            &&& !engine::is_expired(
                state->Completed_completed_at_ms,
                g.engine().ttl_ms(),
                now_ms,
            )
        }),
    ensures
        !g.must_forward(request, now_ms),
        !g.needs_the_backend(request, now_ms),
{
}

/// A commit that comes too late changes nothing: where the engine refuses it,
/// because the key was taken over or is completed, the records stay as they are and
/// no created outcome is counted.
pub proof fn a_late_commit_changes_nothing<S: Store, U: Upstream>(
    before: &Gateway<S, U>,
    after: &Gateway<S, U>,
    key: Seq<char>,
    fence: u64,
    response: Response,
    now_ms: u64,
)
    requires
        engine::refusal(before.engine().records(), key, fence) is Some,
        after.follows_complete(before, Some((key, fence)), Ok(response), now_ms),
    ensures
        after.engine() == before.engine(),
        after.counters() == before.counters(),
{
}

// ---------------------------------------------------------------------------
// Counters
// ---------------------------------------------------------------------------

/// How many requests were settled, one way or another.
pub open spec fn settled(m: Metrics) -> int {
    m.created + m.replayed + m.in_progress + m.mismatch + m.upstream_error + m.passthrough
}

/// How many requests were settled by a backend call.
pub open spec fn settled_by_the_backend(m: Metrics) -> int {
    m.created + m.upstream_error + m.passthrough
}

/// 1 where `b` holds, else 0.
pub open spec fn one_if(b: bool) -> int {
    if b {
        1
    } else {
        0
    }
}

/// The idempotency stage settles a request in exactly one way, and counts it so.
proof fn a_settled_request_is_counted_once<S: Store, U: Upstream>(
    before: &Gateway<S, U>,
    after: &Gateway<S, U>,
    request: &Request,
    now_ms: u64,
    response: ResponseView,
)
    requires
        after.follows_request(before, request, now_ms, response),
        settled(before.counters()) == before.counters().requests_total,
        before.counters().requests_total < u64::MAX,
    ensures
        after.counters().requests_total == before.counters().requests_total + 1,
        settled(after.counters()) == settled(before.counters()) + 1,
        after.counters().denied == before.counters().denied,
        settled_by_the_backend(after.counters()) == settled_by_the_backend(before.counters())
            + one_if(
            before.must_forward(request@, now_ms),
        ),
        after.asked() == if before.must_forward(request@, now_ms) {
            before.asked().push(request@)
        } else {
            before.asked()
        },
{
    let (mid, phase) = choose|mid: Gateway<S, U>, phase: BeginPhase|
        #![trigger mid.follows_begin(before, request@, now_ms), before.is_begin_answer(request@, now_ms, phase)]
        mid.follows_begin(before, request@, now_ms) && before.is_begin_answer(
            request@,
            now_ms,
            phase,
        ) && match phase {
            BeginPhase::Done(done) => *after == mid && response == done@,
            BeginPhase::Forward(ticket) => after.follows_forward(
                &mid,
                request,
                now_ms,
                ticket.claim(),
                response,
            ),
        };
    if let BeginPhase::Forward(ticket) = phase {
        let claim = ticket.claim();
        let forwarded = choose|forwarded: Result<Response, UpstreamError>|
            #![trigger after.follows_complete(&mid, claim, forwarded, now_ms)]
            call_ensures(U::forward, (&mid.backend(), request), forwarded)
                && after.follows_complete(&mid, claim, forwarded, now_ms) && response
                == gateway::completed_view(claim, forwarded);
        if let Some(key) = gateway::key_of(request@) {
            assert(engine::refusal(
                mid.engine().records(),
                key,
                before.engine().next_fence(),
            ) is None);
        }
    }
}

/// Each request that is handled is counted once: one for an operational endpoint not
/// at all, a denied one among the denials, and any other among the requests and in
/// exactly one of the ways in which a request is settled. The backend is asked, once,
/// exactly where the request is for it.
pub proof fn handling_counts_once<S: Store, U: Upstream>(
    before: &Gateway<S, U>,
    after: &Gateway<S, U>,
    request: &Request,
    now_ms: u64,
    response: ResponseView,
)
    requires
        after.follows_handle(before, request, now_ms, response),
        settled(before.counters()) == before.counters().requests_total,
        before.counters().requests_total < u64::MAX,
        before.counters().denied < u64::MAX,
    ensures
        settled(after.counters()) == after.counters().requests_total,
        after.counters().requests_total + after.counters().denied
            == before.counters().requests_total + before.counters().denied + one_if(
            !gateway::is_operational(request@),
        ),
        settled_by_the_backend(after.counters()) == settled_by_the_backend(before.counters())
            + one_if(before.needs_the_backend(request@, now_ms)),
        after.asked() == if before.needs_the_backend(request@, now_ms) {
            before.asked().push(request@)
        } else {
            before.asked()
        },
{
    if !gateway::is_operational(request@) && abuse::first_tripped(
        before.rules().rules(),
        gateway::identity_of(request@),
        now_ms,
    ) is None {
        let checked = choose|checked: Gateway<S, U>|
            #![trigger after.follows_request(&checked, request, now_ms, response)]
            checked.follows_check(before, request@, now_ms) && after.follows_request(
                &checked,
                request,
                now_ms,
                response,
            );
        a_settled_request_is_counted_once(&checked, after, request, now_ms, response);
    }
}

/// A request that was handled: what it was, when, and how it was answered.
pub struct Handled {
    pub request: Request,
    pub now_ms: u64,
    pub response: ResponseView,
}

/// `states` are the states that a fresh gateway goes through as it handles `calls`.
pub open spec fn is_driven<S: Store, U: Upstream>(
    states: Seq<Gateway<S, U>>,
    calls: Seq<Handled>,
) -> bool {
    &&& states.len() == calls.len() + 1
    &&& states[0].counters() == metrics::no_metrics()
    &&& forall|i: int|
        0 <= i < calls.len() ==> (#[trigger] states[i + 1]).follows_handle(
            &states[i],
            &calls[i].request,
            calls[i].now_ms,
            calls[i].response,
        )
}

/// How many of the calls are for something else than an operational endpoint.
pub open spec fn proxied(calls: Seq<Handled>) -> nat
    decreases calls.len(),
{
    if calls.len() == 0 {
        0
    } else {
        (proxied(calls.drop_last()) + one_if(!gateway::is_operational(calls.last().request@))) as nat
    }
}

/// The requests for the backend among the calls, in order.
pub open spec fn requests_for_the_backend<S: Store, U: Upstream>(
    states: Seq<Gateway<S, U>>,
    calls: Seq<Handled>,
) -> Seq<RequestView>
    decreases calls.len(),
{
    if calls.len() == 0 {
        Seq::empty()
    } else {
        let before = requests_for_the_backend(states, calls.drop_last());
        if states[calls.len() - 1].needs_the_backend(calls.last().request@, calls.last().now_ms) {
            before.push(calls.last().request@)
        } else {
            before
        }
    }
}

/// The counters add up: whatever requests a gateway has handled since it was built,
/// those that it counts are those that were created, replayed, told to wait,
/// rejected, failed or passed through; with the denials they are all the requests for
/// something else than an operational endpoint. The backend was asked exactly the
/// requests that are for it, once each and in order, and those created, failed or
/// passed through are as many.
pub proof fn the_counters_add_up<S: Store, U: Upstream>(
    states: Seq<Gateway<S, U>>,
    calls: Seq<Handled>,
)
    requires
        is_driven(states, calls),
        calls.len() <= u64::MAX,
    ensures
        settled(states.last().counters()) == states.last().counters().requests_total,
        states.last().counters().requests_total + states.last().counters().denied == proxied(
            calls,
        ),
        states.last().asked() == states[0].asked() + requests_for_the_backend(states, calls),
        settled_by_the_backend(states.last().counters()) == requests_for_the_backend(
            states,
            calls,
        ).len(),
        proxied(calls) <= calls.len(),
    decreases calls.len(),
{
    if calls.len() > 0 {
        let n = calls.len() - 1;
        let init = calls.drop_last();
        let first = states.drop_last();
        assert(is_driven(first, init)) by {
            assert forall|i: int| 0 <= i < init.len() implies (
            #[trigger] first[i + 1]).follows_handle(
                &first[i],
                &init[i].request,
                init[i].now_ms,
                init[i].response,
            ) by {
                assert(states[i + 1].follows_handle(
                    &states[i],
                    &calls[i].request,
                    calls[i].now_ms,
                    calls[i].response,
                ));
            }
        }
        the_counters_add_up(first, init);
        earlier_states_count_alike(states, first, init);
        assert(states[n + 1].follows_handle(
            &states[n],
            &calls[n].request,
            calls[n].now_ms,
            calls[n].response,
        ));
        handling_counts_once(
            &states[n],
            &states[n + 1],
            &calls[n].request,
            calls[n].now_ms,
            calls[n].response,
        );
        assert(first.last() == states[n] && first[0] == states[0]);
        assert(states.last().asked() =~= states[0].asked() + requests_for_the_backend(
            states,
            calls,
        ));
    } else {
        assert(states.last().asked() =~= states[0].asked() + Seq::<RequestView>::empty());
    }
}

/// Which calls are for the backend depends on the states before them only.
proof fn earlier_states_count_alike<S: Store, U: Upstream>(
    states: Seq<Gateway<S, U>>,
    first: Seq<Gateway<S, U>>,
    calls: Seq<Handled>,
)
    requires
        first.len() > calls.len(),
        first.is_prefix_of(states),
    ensures
        requests_for_the_backend(states, calls) == requests_for_the_backend(first, calls),
    decreases calls.len(),
{
    if calls.len() > 0 {
        earlier_states_count_alike(states, first, calls.drop_last());
        assert(states[calls.len() - 1] == first[calls.len() - 1]);
    }
}

// ---------------------------------------------------------------------------
// Routing
// ---------------------------------------------------------------------------

/// Every key lives on the shard that it is routed to.
pub open spec fn is_partitioned<S: Store, U: Upstream>(shards: Seq<Gateway<S, U>>) -> bool {
    forall|i: int, key: Seq<char>|
        0 <= i < shards.len() && #[trigger] shards[i].engine().records().contains_key(key)
            ==> router::slot_of(key, shards.len()) == i
}

/// Requests that bear the same key go to the same shard, whatever else they hold
/// and whatever the router has been through.
pub proof fn one_key_one_shard<S: Store, U: Upstream>(
    earlier: &Router<S, U>,
    later: &Router<S, U>,
    first: RequestView,
    second: RequestView,
)
    requires
        gateway::key_of(first) is Some,
        gateway::key_of(first) == gateway::key_of(second),
        earlier.shards().len() == later.shards().len(),
    ensures
        earlier.route(first) == later.route(second),
{
}

/// A key is never on two shards.
pub proof fn a_key_lives_on_one_shard<S: Store, U: Upstream>(
    shards: Seq<Gateway<S, U>>,
    key: Seq<char>,
    i: int,
    j: int,
)
    requires
        is_partitioned(shards),
        0 <= i < shards.len(),
        0 <= j < shards.len(),
        shards[i].engine().records().contains_key(key),
        shards[j].engine().records().contains_key(key),
    ensures
        i == j,
{
}

/// Beginning a request on the shard that it is routed to keeps every key on its
/// shard.
pub proof fn beginning_keeps_keys_on_their_shard<S: Store, U: Upstream>(
    before: &Router<S, U>,
    after: &Router<S, U>,
    request: RequestView,
    now_ms: u64,
)
    requires
        before.wf(),
        is_partitioned(before.shards()),
        after.same_but_shard(before, before.route(request)),
        after.shards()[before.route(request)].follows_begin(
            &before.shards()[before.route(request)],
            request,
            now_ms,
        ),
    ensures
        is_partitioned(after.shards()),
{
    let shard = before.route(request);
    let n = before.shards().len();
    assert forall|i: int, key: Seq<char>|
        0 <= i < n && #[trigger] after.shards()[i].engine().records().contains_key(
            key,
        ) implies router::slot_of(key, n) == i by {
        if before.shards()[i].engine().records().contains_key(key) {
        } else {
            assert(i == shard);
        }
    }
}

/// Completing a request on the shard that its key is routed to keeps every key on
/// its shard.
pub proof fn completing_keeps_keys_on_their_shard<S: Store, U: Upstream>(
    before: &Router<S, U>,
    after: &Router<S, U>,
    shard: int,
    claim: Option<(Seq<char>, u64)>,
    forwarded: Result<Response, UpstreamError>,
    now_ms: u64,
)
    requires
        is_partitioned(before.shards()),
        0 <= shard < before.shards().len(),
        after.same_but_shard(before, shard),
        after.shards()[shard].follows_complete(
            &before.shards()[shard],
            claim,
            forwarded,
            now_ms,
        ),
    ensures
        is_partitioned(after.shards()),
{
    let n = before.shards().len();
    assert forall|i: int, key: Seq<char>|
        0 <= i < n && #[trigger] after.shards()[i].engine().records().contains_key(
            key,
        ) implies router::slot_of(key, n) == i by {
        assert(before.shards()[i].engine().records().contains_key(key));
    }
}

/// Sweeping out expired keys keeps every key on its shard.
pub proof fn pruning_keeps_keys_on_their_shard<S: Store, U: Upstream>(
    before: &Router<S, U>,
    after: &Router<S, U>,
    now_ms: u64,
)
    requires
        is_partitioned(before.shards()),
        after.shards().len() == before.shards().len(),
        forall|i: int|
            0 <= i < before.shards().len() ==> (#[trigger] after.shards()[i]).engine().records()
                == engine::pruned(
                before.shards()[i].engine().records(),
                before.shards()[i].engine().ttl_ms(),
                now_ms,
            ),
    ensures
        is_partitioned(after.shards()),
{
    let n = before.shards().len();
    assert forall|i: int, key: Seq<char>|
        0 <= i < n && #[trigger] after.shards()[i].engine().records().contains_key(
            key,
        ) implies router::slot_of(key, n) == i by {
        assert(before.shards()[i].engine().records().contains_key(key));
    }
}

/// Handling a request from end to end keeps every key on its shard.
pub proof fn handling_keeps_keys_on_their_shard<S: Store, U: Upstream>(
    before: &Router<S, U>,
    routed: &Router<S, U>,
    after: &Router<S, U>,
    request: &Request,
    now_ms: u64,
    response: ResponseView,
)
    requires
        before.wf(),
        is_partitioned(before.shards()),
        routed.follows_routing(before, request@, now_ms),
        after.same_but_shard(routed, before.route(request@)),
        after.follows_dispatch(routed, before.route(request@), request, now_ms, response),
    ensures
        is_partitioned(after.shards()),
{
    let shard = before.route(request@);
    let n = before.shards().len();
    let old_records = before.shards()[shard].engine().records();
    let (mid, phase) = choose|mid: Gateway<S, U>, phase: BeginPhase|
        #![trigger mid.follows_begin(&routed.shards()[shard], request@, now_ms), routed.shards()[shard].is_begin_answer(request@, now_ms, phase)]
        mid.follows_begin(&routed.shards()[shard], request@, now_ms)
            && routed.shards()[shard].is_begin_answer(request@, now_ms, phase) && match phase {
            BeginPhase::Done(done) => after.shards()[shard] == mid && response == done@,
            BeginPhase::Forward(ticket) => after.follows_forward(
                routed,
                shard,
                &mid,
                request,
                now_ms,
                ticket.claim(),
                response,
            ),
        };
    assert(routed.shards() == before.shards());
    assert forall|i: int, key: Seq<char>|
        0 <= i < n && #[trigger] after.shards()[i].engine().records().contains_key(
            key,
        ) implies router::slot_of(key, n) == i by {
        if i != shard {
            assert(before.shards()[i].engine().records().contains_key(key));
        } else {
            let mid_has = mid.engine().records().contains_key(key);
            if let BeginPhase::Forward(ticket) = phase {
                let claim = ticket.claim();
                let forwarded = choose|forwarded: Result<Response, UpstreamError>|
                    #![trigger after.shards()[shard].follows_complete(&mid, claim, forwarded, now_ms)]
                    call_ensures(U::forward, (&routed.backend(), request), forwarded)
                        && after.shards()[shard].follows_complete(&mid, claim, forwarded, now_ms)
                        && response == gateway::completed_view(claim, forwarded);
                assert(after.shards()[shard].follows_complete(&mid, claim, forwarded, now_ms));
            }
            assert(mid_has);
            if old_records.contains_key(key) {
                assert(before.shards()[i].engine().records().contains_key(key));
            } else {
                assert(gateway::key_of(request@) == Some(key));
            }
        }
    }
}

/// All of one client's traffic is counted by one rule set, so that a limit is not
/// multiplied by the number of shards.
pub proof fn one_client_one_rule_set<S: Store, U: Upstream>(
    before: &Router<S, U>,
    after: &Router<S, U>,
    request: RequestView,
    now_ms: u64,
    i: int,
)
    requires
        after.follows_check(before, request, now_ms),
        0 <= i < before.abuse().len(),
        i != router::slot_of(gateway::identity_of(request), before.abuse().len()),
    ensures
        after.abuse()[i] == before.abuse()[i],
{
}

} // verus!
