//! Shard-per-core routing: independent idempotency shards behind one front door.
//!
//! Each shard is its own [`Gateway`] over its own engine and log, and each request
//! is routed by a stable hash. A request has two identities that are routed
//! independently: its idempotency key decides the shard (same key, same shard,
//! always, or exactly-once would break), and its client identity decides the abuse
//! rule set (one client's whole traffic lands on one rule set, so a limit is not
//! multiplied by the number of shards). The router runs the abuse stage first,
//! then dispatches to the key's shard.
//!
//! The stages are plain functions of one shard or one rule set, so a concurrent
//! driver can run them under a lock per shard and release it for the backend call.

use crate::abuse;
use crate::abuse::{RuleSet, Verdict};
use crate::engine;
use crate::gateway;
use crate::gateway::{health_ok, identity, metrics_response, too_many_requests};
use crate::gateway::{has_path, BeginPhase, ForwardTicket, Gateway, Upstream, UpstreamError};
use crate::hashing;
use crate::hashing::hash_text;
use crate::http::message::{Request, RequestView, Response, ResponseView};
use crate::line::Line;
use crate::metrics;
use crate::metrics::Metrics;
use crate::router_laws;
use crate::store::Store;
use vstd::prelude::*;
use vstd::utf8::*;

verus! {

/// The slot that a text is routed to, of `n`.
pub open spec fn slot_of(text: Seq<char>, n: nat) -> int {
    (hashing::text_hash(text) as usize) as int % n as int
}

/// The slot that `text` is routed to, of `n`.
pub fn slot(text: &str, n: usize) -> (i: usize)
    requires
        n > 0,
    ensures
        i == slot_of(text@, n as nat),
        i < n,
        router_laws::belongs_to(text@, n as nat, i as int),
{
    proof {
        router_laws::a_text_belongs_to_one_slot(text@, n as nat);
        assert(router_laws::belongs_to(text@, n as nat, slot_of(text@, n as nat)));
    }
    (hash_text(text) as usize) % n
}

/// The abuse stage on one rule set: the `429` response where a rule trips.
pub fn deny_if_abusive(rules: &mut RuleSet, request: &Request, now_ms: u64) -> (r: Option<Response>)
    requires
        old(rules).wf(),
    ensures
        final(rules).wf(),
        final(rules).follows_hit(old(rules), gateway::identity_of(request@), now_ms),
        match abuse::first_tripped(
            old(rules).rules(),
            gateway::identity_of(request@),
            now_ms,
        ) {
            None => r is None,
            Some((rule, action)) => r matches Some(response) && response@ == gateway::denial_view(
                rule,
                action,
            ),
        },
{
    match rules.evaluate(identity(request), now_ms) {
        Verdict::Deny { rule, action } => Some(too_many_requests(rule.as_str(), action)),
        Verdict::Allow => None,
    }
}

/// `r` is the answer of the first stage before the backend call that settles the
/// request: the operational endpoints, the abuse stage, or, where neither does, the
/// begin phase on the request's shard.
pub open spec fn settled_in_order<A, B, C>(
    operational: A,
    deny: B,
    begin: C,
    r: Result<(usize, ForwardTicket), Response>,
) -> bool where
    A: FnOnce() -> Option<Response>,
    B: FnOnce() -> Option<Response>,
    C: FnOnce() -> Result<(usize, ForwardTicket), Response>,
 {
    ||| r is Err && call_ensures(operational, (), Some(r->Err_0))
    ||| r is Err && call_ensures(operational, (), None) && call_ensures(deny, (), Some(r->Err_0))
    ||| call_ensures(operational, (), None) && call_ensures(deny, (), None) && call_ensures(
        begin,
        (),
        r,
    )
}

/// Runs the stages before the backend call in their order, for a driver that holds a
/// lock per stage: a final response, or the shard and the ticket to complete there.
pub fn before_the_backend<A, B, C>(operational: A, deny: B, begin: C) -> (r: Result<
    (usize, ForwardTicket),
    Response,
>) where
    A: FnOnce() -> Option<Response>,
    B: FnOnce() -> Option<Response>,
    C: FnOnce() -> Result<(usize, ForwardTicket), Response>,

    requires
        call_requires(operational, ()),
        call_requires(deny, ()),
        call_requires(begin, ()),
    ensures
        settled_in_order(operational, deny, begin, r),
{
    if let Some(response) = operational() {
        return Err(response);
    }
    if let Some(denial) = deny() {
        return Err(denial);
    }
    begin()
}

/// The counters of all shards added up.
pub open spec fn total<S: Store, U: Upstream>(shards: Seq<Gateway<S, U>>) -> Metrics
    decreases shards.len(),
{
    if shards.len() == 0 {
        metrics::no_metrics()
    } else {
        metrics::merged(total(shards.drop_last()), shards.last().counters())
    }
}

/// A sharded gateway: independent idempotency shards plus a separate abuse stage
/// sharded by client identity.
pub struct Router<S: Store, U: Upstream> {
    shards: Vec<Gateway<S, U>>,
    abuse: Vec<RuleSet>,
    line: Line<U>,
    denied: u64,
    next_shard: usize,
}

impl<S: Store, U: Upstream> Router<S, U> {
    pub closed spec fn shards(&self) -> Seq<Gateway<S, U>> {
        self.shards@
    }

    pub closed spec fn abuse(&self) -> Seq<RuleSet> {
        self.abuse@
    }

    /// The backend that the router forwards to.
    pub closed spec fn backend(&self) -> U {
        self.line.backend()
    }

    /// The requests that the backend was asked, in order.
    pub closed spec fn asked(&self) -> Seq<RequestView> {
        self.line.asked()
    }

    /// Requests rejected by the abuse stage.
    pub closed spec fn denied(&self) -> u64 {
        self.denied
    }

    /// The rotating cursor for keyless requests.
    pub closed spec fn cursor(&self) -> usize {
        self.next_shard
    }

    /// There are shards and rule sets, and all are well-formed.
    pub open spec fn wf(&self) -> bool {
        &&& self.shards().len() > 0
        &&& self.abuse().len() > 0
        &&& forall|i: int| 0 <= i < self.shards().len() ==> (#[trigger] self.shards()[i]).wf()
        &&& forall|i: int| 0 <= i < self.abuse().len() ==> (#[trigger] self.abuse()[i]).wf()
    }

    /// The counters of all shards, with the router's own denials.
    pub open spec fn total_metrics(&self) -> Metrics {
        let sum = total(self.shards());
        Metrics { denied: engine::capped_sum(sum.denied, self.denied()), ..sum }
    }

    /// The shard that a request is routed to: by its key, else round-robin.
    pub open spec fn route(&self, request: RequestView) -> int {
        match gateway::key_of(request) {
            Some(key) => slot_of(key, self.shards().len()),
            None => self.cursor() as int % self.shards().len() as int,
        }
    }

    /// The cursor after routing a request.
    pub open spec fn cursor_after(&self, request: RequestView) -> usize {
        match gateway::key_of(request) {
            Some(_) => self.cursor(),
            None => self.cursor().wrapping_add(1),
        }
    }

    /// The answer to an operational endpoint (`/healthz`, `/metrics`).
    pub open spec fn operational(&self, request: RequestView) -> Option<ResponseView> {
        if gateway::path_of(request) == encode_utf8("/healthz"@) {
            Some(gateway::health_view())
        } else if gateway::path_of(request) == encode_utf8("/metrics"@) {
            Some(gateway::metrics_view(self.total_metrics()))
        } else {
            None
        }
    }

    /// The rule that a request trips.
    pub open spec fn tripped(&self, request: RequestView, now_ms: u64) -> Option<
        (Seq<char>, abuse::Action),
    > {
        let who = gateway::identity_of(request);
        abuse::first_tripped(
            self.abuse()[slot_of(who, self.abuse().len())].rules(),
            who,
            now_ms,
        )
    }

    /// The request is for the backend: it is for no operational endpoint, it passes
    /// the abuse stage, and only the backend can settle it.
    pub open spec fn needs_the_backend(&self, request: RequestView, now_ms: u64) -> bool {
        &&& !gateway::is_operational(request)
        &&& self.tripped(request, now_ms) is None
        &&& self.shards()[self.route(request)].must_forward(request, now_ms)
    }

    /// `self` is `before` after the abuse stage of a request: its rule set has
    /// recorded the hit, and no other part has changed but the count of denials.
    pub open spec fn follows_check(
        &self,
        before: &Self,
        request: RequestView,
        now_ms: u64,
    ) -> bool {
        let who = gateway::identity_of(request);
        let i = slot_of(who, before.abuse().len());
        &&& self.shards() == before.shards()
        &&& self.backend() == before.backend()
        &&& self.asked() == before.asked()
        &&& self.cursor() == before.cursor()
        &&& self.denied() == if before.tripped(request, now_ms) is Some {
            metrics::bumped(before.denied())
        } else {
            before.denied()
        }
        &&& self.abuse().len() == before.abuse().len()
        &&& self.abuse()[i].follows_hit(&before.abuse()[i], who, now_ms)
        &&& forall|j: int|
            0 <= j < before.abuse().len() && j != i ==> self.abuse()[j] == before.abuse()[j]
    }

    /// `self` is `before` but for shard `i`.
    pub open spec fn same_but_shard(&self, before: &Self, i: int) -> bool {
        &&& self.abuse() == before.abuse()
        &&& self.backend() == before.backend()
        &&& self.denied() == before.denied()
        &&& self.cursor() == before.cursor()
        &&& self.shards().len() == before.shards().len()
        &&& forall|j: int|
            0 <= j < before.shards().len() && j != i ==> self.shards()[j] == before.shards()[j]
    }

    /// `self` is `before` after shard `i` dealt with a request and gave
    /// `response`: either its begin phase settled it, or the router's backend was
    /// asked, with that very request, and the shard's complete phase took the
    /// answer.
    pub open spec fn follows_dispatch(
        &self,
        before: &Self,
        i: int,
        request: &Request,
        now_ms: u64,
        response: ResponseView,
    ) -> bool {
        exists|mid: Gateway<S, U>, phase: BeginPhase|
            #![trigger mid.follows_begin(&before.shards()[i], request@, now_ms), before.shards()[i].is_begin_answer(request@, now_ms, phase)]
            mid.follows_begin(&before.shards()[i], request@, now_ms)
                && before.shards()[i].is_begin_answer(request@, now_ms, phase) && match phase {
                BeginPhase::Done(done) => self.shards()[i] == mid && response == done@
                    && self.asked() == before.asked(),
                BeginPhase::Forward(ticket) => self.follows_forward(
                    before,
                    i,
                    &mid,
                    request,
                    now_ms,
                    ticket.claim(),
                    response,
                ),
            }
    }

    /// Shard `i` is `mid` after the router's backend was asked, once, and its answer
    /// was taken.
    pub open spec fn follows_forward(
        &self,
        before: &Self,
        i: int,
        mid: &Gateway<S, U>,
        request: &Request,
        now_ms: u64,
        claim: Option<(Seq<char>, u64)>,
        response: ResponseView,
    ) -> bool {
        exists|forwarded: Result<Response, UpstreamError>|
            #![trigger self.shards()[i].follows_complete(mid, claim, forwarded, now_ms)]
            call_ensures(U::forward, (&before.backend(), request), forwarded)
                && self.shards()[i].follows_complete(mid, claim, forwarded, now_ms) && response
                == gateway::completed_view(claim, forwarded) && self.shards()[i].asked()
                == mid.asked() && self.asked() == before.asked().push(request@)
    }

    /// `self` is `before` after a request passed the abuse stage and was given its
    /// shard.
    pub open spec fn follows_routing(
        &self,
        before: &Self,
        request: RequestView,
        now_ms: u64,
    ) -> bool {
        exists|checked: Self|
            #![trigger checked.follows_check(before, request, now_ms)]
            checked.follows_check(before, request, now_ms) && self.shards() == checked.shards()
                && self.abuse() == checked.abuse() && self.backend() == checked.backend()
                && self.asked() == checked.asked()
                && self.denied() == checked.denied() && self.cursor() == checked.cursor_after(
                request,
            )
    }

    /// `self` is `before` after `request` was handled end to end, which gave
    /// `response`: an operational endpoint is answered on the spot, a request that trips
    /// a rule is denied, and any other is dispatched to its shard.
    pub open spec fn follows_handle(
        &self,
        before: &Self,
        request: &Request,
        now_ms: u64,
        response: ResponseView,
    ) -> bool {
        match before.operational(request@) {
            Some(view) => response == view && *self == *before,
            None => match before.tripped(request@, now_ms) {
                Some((rule, action)) => response == gateway::denial_view(rule, action)
                    && self.follows_check(before, request@, now_ms),
                None => exists|routed: Self|
                    #![trigger self.same_but_shard(&routed, before.route(request@))]
                    routed.follows_routing(before, request@, now_ms) && self.same_but_shard(
                        &routed,
                        before.route(request@),
                    ) && self.follows_dispatch(
                        &routed,
                        before.route(request@),
                        request,
                        now_ms,
                        response,
                    ),
            },
        }
    }

    /// Build a router from per-shard gateways and per-shard abuse rule sets.
    ///
    /// Each gateway has its own engine and log and an empty rule set (the router
    /// owns abuse). `upstream` is the backend client the router forwards through.
    pub fn new(shards: Vec<Gateway<S, U>>, abuse: Vec<RuleSet>, upstream: U) -> (r: Self)
        requires
            shards@.len() > 0,
            abuse@.len() > 0,
        ensures
            r.shards() == shards@,
            r.abuse() == abuse@,
            r.backend() == upstream,
            r.asked() == Seq::<RequestView>::empty(),
            r.denied() == 0,
            r.cursor() == 0,
    {
        Router { shards, abuse, line: Line::new(upstream), denied: 0, next_shard: 0 }
    }

    /// Reclaim expired keys and compact every shard's store. Call periodically,
    /// never on the request path.
    pub fn prune_expired(&mut self, now_ms: u64)
        requires
            old(self).wf(),
        ensures
            final(self).wf(),
            final(self).abuse() == old(self).abuse(),
            final(self).backend() == old(self).backend(),
            final(self).asked() == old(self).asked(),
            final(self).denied() == old(self).denied(),
            final(self).cursor() == old(self).cursor(),
            final(self).shards().len() == old(self).shards().len(),
            forall|i: int|
                0 <= i < old(self).shards().len() ==> {
                    &&& (#[trigger] final(self).shards()[i]).same_parts(&old(self).shards()[i])
                    &&& final(self).shards()[i].asked() == old(self).shards()[i].asked()
                    &&& final(self).shards()[i].counters() == old(self).shards()[i].counters()
                    &&& final(self).shards()[i].engine().follows_prune(
                        &old(self).shards()[i].engine(),
                        now_ms,
                    )
                },
    {
        let ghost before = self.shards@;
        let mut i: usize = 0;
        while i < self.shards.len()
            invariant
                before == old(self).shards@,
                self.abuse == old(self).abuse,
                self.line == old(self).line,
                self.denied == old(self).denied,
                self.next_shard == old(self).next_shard,
                i <= self.shards@.len(),
                self.shards@.len() == before.len(),
                forall|j: int| 0 <= j < before.len() ==> (#[trigger] self.shards@[j]).wf(),
                forall|j: int| i <= j < before.len() ==> #[trigger] self.shards@[j] == before[j],
                forall|j: int|
                    0 <= j < i ==> {
                        &&& (#[trigger] self.shards@[j]).same_parts(&before[j])
                        &&& self.shards@[j].asked() == before[j].asked()
                        &&& self.shards@[j].counters() == before[j].counters()
                        &&& self.shards@[j].engine().follows_prune(&before[j].engine(), now_ms)
                    },
            decreases self.shards@.len() - i,
        {
            assert(self.shards@[i as int] == before[i as int]);
            self.shards[i].prune_expired(now_ms);
            i = i + 1;
        }
    }

    /// Aggregate every shard's counters, plus the router's own denials, into one
    /// snapshot.
    pub fn aggregate_metrics(&self) -> (m: Metrics)
        ensures
            m == self.total_metrics(),
    {
        let mut sum = Metrics::default();
        let mut i: usize = 0;
        assert(self.shards@.take(0) =~= Seq::<Gateway<S, U>>::empty());
        while i < self.shards.len()
            invariant
                i <= self.shards@.len(),
                sum == total(self.shards@.take(i as int)),
            decreases self.shards@.len() - i,
        {
            sum.merge(self.shards[i].metrics());
            assert(self.shards@.take(i + 1).drop_last() =~= self.shards@.take(i as int));
            i = i + 1;
        }
        assert(self.shards@.take(i as int) =~= self.shards@);
        sum.denied = sum.denied.saturating_add(self.denied);
        sum
    }

    /// Index of the idempotency shard that owns `key`.
    pub fn shard_for_key(&self, key: &str) -> (i: usize)
        requires
            self.wf(),
        ensures
            i == slot_of(key@, self.shards().len()),
            i < self.shards().len(),
    {
        slot(key, self.shards.len())
    }

    /// Index of the abuse rule set that owns `identity`.
    pub fn abuse_for_identity(&self, identity: &str) -> (i: usize)
        requires
            self.wf(),
        ensures
            i == slot_of(identity@, self.abuse().len()),
            i < self.abuse().len(),
    {
        slot(identity, self.abuse.len())
    }

    /// Answer the operational endpoints (`/healthz`, `/metrics`) before any
    /// sharding. Nothing for a normal request.
    pub fn operational_response(&self, request: &Request) -> (r: Option<Response>)
        ensures
            match self.operational(request@) {
                None => r is None,
                Some(view) => r matches Some(response) && response@ == view,
            },
    {
        if has_path(request, "/healthz") {
            Some(health_ok())
        } else if has_path(request, "/metrics") {
            Some(metrics_response(&self.aggregate_metrics()))
        } else {
            None
        }
    }

    /// The abuse stage, on the rule set that owns the client's identity.
    fn check_abuse(&mut self, request: &Request, now_ms: u64) -> (r: Option<Response>)
        requires
            old(self).wf(),
        ensures
            final(self).wf(),
            final(self).follows_check(old(self), request@, now_ms),
            match old(self).tripped(request@, now_ms) {
                None => r is None,
                Some((rule, action)) => r matches Some(response) && response@
                    == gateway::denial_view(rule, action),
            },
    {
        let i: usize = self.abuse_for_identity(identity(request));
        let ghost before = *self;
        let denial = deny_if_abusive(&mut self.abuse[i], request, now_ms);
        if denial.is_some() {
            self.denied = self.denied.saturating_add(1);
        }
        proof {
            assert forall|j: int| 0 <= j < self.abuse().len() implies (
            #[trigger] self.abuse()[j]).wf() by {
                if j != i {
                    assert(self.abuse()[j] == before.abuse()[j]);
                }
            }
        }
        denial
    }

    /// The idempotency shard a request routes to: by key hash if it carries one,
    /// else round-robin.
    fn route_shard(&mut self, request: &Request) -> (i: usize)
        requires
            old(self).wf(),
        ensures
            final(self).wf(),
            i == old(self).route(request@),
            i < old(self).shards().len(),
            final(self).shards() == old(self).shards(),
            final(self).abuse() == old(self).abuse(),
            final(self).backend() == old(self).backend(),
            final(self).asked() == old(self).asked(),
            final(self).denied() == old(self).denied(),
            final(self).cursor() == old(self).cursor_after(request@),
    {
        match request.header("idempotency-key") {
            Some(key) => self.shard_for_key(key),
            None => {
                let i: usize = self.next_shard % self.shards.len();
                self.next_shard = self.next_shard.wrapping_add(1);
                i
            },
        }
    }

    /// Phase 1 on a shard: either a final response (`Err`) or a ticket to forward
    /// (`Ok`).
    pub fn begin_on(&mut self, i: usize, request: &Request, now_ms: u64) -> (r: Result<
        ForwardTicket,
        Response,
    >)
        requires
            old(self).wf(),
            i < old(self).shards().len(),
            old(self).shards()[i as int].can_begin(request@, now_ms),
        ensures
            final(self).wf(),
            final(self).same_but_shard(old(self), i as int),
            final(self).asked() == old(self).asked(),
            final(self).shards()[i as int].follows_begin(
                &old(self).shards()[i as int],
                request@,
                now_ms,
            ),
            old(self).shards()[i as int].is_begin_answer(
                request@,
                now_ms,
                match r {
                    Ok(ticket) => BeginPhase::Forward(ticket),
                    Err(response) => BeginPhase::Done(response),
                },
            ),
    {
        let ghost before = *self;
        let phase = self.shards[i].begin_phase(request, now_ms);
        proof {
            assert forall|j: int| 0 <= j < self.shards().len() implies (
            #[trigger] self.shards()[j]).wf() by {
                if j != i {
                    assert(self.shards()[j] == before.shards()[j]);
                }
            }
        }
        match phase {
            BeginPhase::Done(response) => Err(response),
            BeginPhase::Forward(ticket) => Ok(ticket),
        }
    }

    /// Phase 3 on a shard: commit the backend response (or its failure).
    pub fn complete_on(
        &mut self,
        i: usize,
        ticket: ForwardTicket,
        forwarded: Result<Response, UpstreamError>,
        now_ms: u64,
    ) -> (r: Response)
        requires
            old(self).wf(),
            i < old(self).shards().len(),
        ensures
            final(self).wf(),
            final(self).same_but_shard(old(self), i as int),
            final(self).asked() == old(self).asked(),
            final(self).shards()[i as int].asked() == old(self).shards()[i as int].asked(),
            final(self).shards()[i as int].follows_complete(
                &old(self).shards()[i as int],
                ticket.claim(),
                forwarded,
                now_ms,
            ),
            r@ == gateway::completed_view(ticket.claim(), forwarded),
    {
        let ghost before = *self;
        let r = self.shards[i].complete_phase(ticket, forwarded, now_ms);
        proof {
            assert forall|j: int| 0 <= j < self.shards().len() implies (
            #[trigger] self.shards()[j]).wf() by {
                if j != i {
                    assert(self.shards()[j] == before.shards()[j]);
                }
            }
        }
        r
    }

    /// Handle one request end to end: operational endpoints, the abuse stage, then
    /// the shard that owns the request's key.
    pub fn handle(&mut self, request: &Request, now_ms: u64) -> (r: Response)
        requires
            old(self).wf(),
            old(self).shards()[old(self).route(request@)].can_begin(request@, now_ms),
        ensures
            final(self).wf(),
            match old(self).operational(request@) {
                Some(view) => r@ == view && *final(self) == *old(self),
                None => match old(self).tripped(request@, now_ms) {
                    Some((rule, action)) => r@ == gateway::denial_view(rule, action)
                        && final(self).follows_check(old(self), request@, now_ms),
                    None => exists|routed: Self|
                        #![trigger final(self).same_but_shard(&routed, old(self).route(request@))]
                        routed.follows_routing(old(self), request@, now_ms)
                            && final(self).same_but_shard(&routed, old(self).route(request@))
                            && final(self).follows_dispatch(
                            &routed,
                            old(self).route(request@),
                            request,
                            now_ms,
                            r@,
                        ),
                },
            },
            final(self).follows_handle(old(self), request, now_ms, r@),
            final(self).asked() == if old(self).needs_the_backend(request@, now_ms) {
                old(self).asked().push(request@)
            } else {
                old(self).asked()
            },
    {
        if let Some(response) = self.operational_response(request) {
            return response;
        }
        if let Some(denial) = self.check_abuse(request, now_ms) {
            return denial;
        }
        let ghost checked = *self;
        let i: usize = self.route_shard(request);
        let ghost routed = *self;
        assert(routed.follows_routing(old(self), request@, now_ms)) by {
            assert(checked.follows_check(old(self), request@, now_ms));
        }
        assert(i as int == old(self).route(request@));
        match self.begin_on(i, request, now_ms) {
            Err(done) => {
                let ghost phase = BeginPhase::Done(done);
                assert(self.shards()[i as int].follows_begin(
                    &routed.shards()[i as int],
                    request@,
                    now_ms,
                ));
                assert(routed.shards()[i as int].is_begin_answer(request@, now_ms, phase));
                assert(self.follows_dispatch(&routed, i as int, request, now_ms, done@));
                assert(self.same_but_shard(&routed, old(self).route(request@)));
                done
            },
            Ok(ticket) => {
                let ghost mid = self.shards()[i as int];
                let ghost claim = ticket.claim();
                let ghost phase = BeginPhase::Forward(ticket);
                let forwarded = self.line.ask(request);
                let response = self.complete_on(i, ticket, forwarded, now_ms);
                assert(mid.follows_begin(&routed.shards()[i as int], request@, now_ms));
                assert(routed.shards()[i as int].is_begin_answer(request@, now_ms, phase));
                assert(self.shards()[i as int].follows_complete(&mid, claim, forwarded, now_ms));
                assert(self.follows_forward(
                    &routed,
                    i as int,
                    &mid,
                    request,
                    now_ms,
                    claim,
                    response@,
                ));
                assert(self.follows_dispatch(&routed, i as int, request, now_ms, response@));
                assert(self.same_but_shard(&routed, old(self).route(request@)));
                response
            },
        }
    }
}

} // verus!
