//! The idempotency engine: the one-directional state machine that turns a stream
//! of possibly-duplicated requests into an **exactly-once effect**.

use crate::store;
use crate::store::{Records, Store};
use crate::{CachedOutcome, Fence, IdempotencyKey, KeyState, OutcomeView, RequestFingerprint, StateView};
use vstd::prelude::*;

verus! {

/// Default time-to-live for a completed key's cached outcome: 24 hours.
pub const DEFAULT_TTL_MS: u64 = 86_400_000;

/// `a + b`, or the largest `u64` where that is less.
pub open spec fn capped_sum(a: u64, b: u64) -> u64 {
    if a + b > u64::MAX {
        u64::MAX
    } else {
        (a + b) as u64
    }
}

/// Whether an outcome completed at `completed_at_ms` has outlived `ttl_ms`.
pub open spec fn is_expired(completed_at_ms: u64, ttl_ms: u64, now_ms: u64) -> bool {
    now_ms >= capped_sum(completed_at_ms, ttl_ms)
}

/// The answers to an incoming request.
pub enum Answer {
    /// Record a fresh attempt and let it run.
    Start,
    /// Hand back the recorded outcome.
    Replay(OutcomeView),
    /// Another live attempt holds the key.
    InProgress,
    /// The key belongs to a different request.
    Mismatch,
}

/// What a request that bears `key` and `fingerprint` at `now_ms` is due.
pub open spec fn answer(
    records: Records,
    key: Seq<char>,
    fingerprint: Seq<u8>,
    now_ms: u64,
    ttl_ms: u64,
) -> Answer {
    if !records.contains_key(key) {
        Answer::Start
    } else {
        match records[key] {
            StateView::Completed { fingerprint: stored, outcome, completed_at_ms } => {
                if is_expired(completed_at_ms, ttl_ms, now_ms) {
                    Answer::Start
                } else if stored == fingerprint {
                    Answer::Replay(outcome)
                } else {
                    Answer::Mismatch
                }
            },
            StateView::InProgress { fingerprint: stored, lease_expires_at_ms, .. } => {
                if stored != fingerprint {
                    Answer::Mismatch
                } else if now_ms >= lease_expires_at_ms {
                    Answer::Start
                } else {
                    Answer::InProgress
                }
            },
        }
    }
}

/// How completing with `fence` at `key` is answered: `None` where it is accepted.
pub open spec fn refusal(records: Records, key: Seq<char>, fence: u64) -> Option<CompleteError> {
    if !records.contains_key(key) {
        Some(CompleteError::Unknown)
    } else {
        match records[key] {
            StateView::InProgress { fence: current, .. } => {
                if current != fence {
                    Some(CompleteError::StaleFence)
                } else {
                    None
                }
            },
            StateView::Completed { .. } => Some(CompleteError::AlreadyCompleted),
        }
    }
}

/// Whether pruning at `now_ms` keeps a record.
pub open spec fn survives(state: StateView, ttl_ms: u64, now_ms: u64) -> bool {
    match state {
        StateView::Completed { completed_at_ms, .. } => !is_expired(
            completed_at_ms,
            ttl_ms,
            now_ms,
        ),
        StateView::InProgress { .. } => true,
    }
}

/// `records` without what pruning at `now_ms` drops.
pub open spec fn pruned(records: Records, ttl_ms: u64, now_ms: u64) -> Records {
    records.restrict(
        Set::new(|k: Seq<char>| records.contains_key(k) && survives(records[k], ttl_ms, now_ms)),
    )
}

/// Every fence that a live worker may hold is below `next_fence`.
pub open spec fn fences_below(records: Records, next_fence: u64) -> bool {
    forall|k: Seq<char>| #[trigger]
        records.contains_key(k) ==> store::fence_of(records[k]) < next_fence
}

/// The idempotency engine. Owns one [`Store`] shard and the monotonic fence
/// counter for that shard. Single-threaded per shard, so it needs no internal
/// synchronisation.
pub struct Engine<S: Store> {
    store: S,
    lease_ms: u64,
    ttl_ms: u64,
    next_fence: u64,
}

/// The decision [`Engine::begin`] returns for an incoming request.
#[derive(Debug)]
pub enum Begin {
    /// First (or taking-over) attempt: execute the side effect, then call
    /// [`Engine::complete`] with the returned token.
    Run(RunToken),
    /// The side effect already happened for this key: replay this result and run
    /// nothing.
    Replay(CachedOutcome),
    /// Another live attempt holds this key; wait briefly and retry.
    InProgress,
    /// The key was reused with a different request. Reject; never replay.
    Mismatch,
}

/// Proof that the holder is the worker authorised to complete a specific key.
/// Carries the fence, so a stalled-then-resumed worker is detected at completion
/// time and refused.
#[derive(Debug)]
pub struct RunToken {
    key: IdempotencyKey,
    fence: Fence,
}

impl RunToken {
    /// The key that the token is for.
    pub closed spec fn key(&self) -> Seq<char> {
        self.key@
    }

    /// The fence that the token carries.
    pub closed spec fn fence(&self) -> u64 {
        self.fence.0
    }
}

impl Clone for RunToken {
    fn clone(&self) -> (r: Self)
        ensures
            r.key() == self.key(),
            r.fence() == self.fence(),
    {
        RunToken { key: self.key.clone(), fence: self.fence }
    }
}

/// Why a [`Engine::complete`] call was refused.
#[derive(Clone, Copy, Debug, PartialEq, Eq)]
pub enum CompleteError {
    /// The lease was taken over by a newer worker; this token is stale.
    StaleFence,
    /// The key is already completed; its outcome is immutable.
    AlreadyCompleted,
    /// No record for this key (for example, pruned after its time-to-live).
    Unknown,
}

impl<S: Store> Engine<S> {
    /// The engine's invariant, which is that of its store.
    pub open spec fn wf(&self) -> bool {
        self.backing().wf()
    }

    /// The store that holds the records.
    pub closed spec fn backing(&self) -> S {
        self.store
    }

    /// The records of the shard.
    pub open spec fn records(&self) -> Records {
        self.backing().records()
    }

    /// How long an attempt may hold a key.
    pub closed spec fn lease_ms(&self) -> u64 {
        self.lease_ms
    }

    /// How long a completed outcome is honoured.
    pub closed spec fn ttl_ms(&self) -> u64 {
        self.ttl_ms
    }

    /// The fence that the next attempt will carry.
    pub closed spec fn next_fence(&self) -> u64 {
        self.next_fence
    }

    /// The engine and its store work under the same settings as `other`'s, and
    /// the store's medium is untouched.
    pub open spec fn same_setting(&self, other: &Self) -> bool {
        &&& self.lease_ms() == other.lease_ms()
        &&& self.ttl_ms() == other.ttl_ms()
        &&& self.backing().strict() == other.backing().strict()
        &&& self.backing().medium() == other.backing().medium()
    }

    /// `self` is `before` with `state` put under `key`, durable at once where the
    /// store is strict.
    pub open spec fn follows_put(&self, before: &Self, key: Seq<char>, state: StateView) -> bool {
        &&& self.same_setting(before)
        &&& self.records() == before.records().insert(key, state)
        &&& self.backing().intact() == (before.backing().intact() && S::storable(key, state))
        &&& self.backing().intact() ==> self.backing().durable() == if before.backing().strict() {
            self.records()
        } else {
            before.backing().durable()
        }
        &&& self.backing().recovered_fence() == S::fence_after(
            before.backing().recovered_fence(),
            state,
        )
        &&& self.backing().intact() ==> self.backing().durable_fence()
            == if before.backing().strict() {
            self.backing().recovered_fence()
        } else {
            before.backing().durable_fence()
        }
    }

    /// `self` is `before` after a request that bears `key` and `fingerprint` began
    /// at `now_ms`: a start records a fresh attempt, anything else changes nothing.
    pub open spec fn follows_begin(
        &self,
        before: &Self,
        key: Seq<char>,
        fingerprint: Seq<u8>,
        now_ms: u64,
    ) -> bool {
        if answer(before.records(), key, fingerprint, now_ms, before.ttl_ms()) is Start {
            &&& self.next_fence() == before.next_fence() + 1
            &&& self.follows_put(
                before,
                key,
                StateView::InProgress {
                    fence: before.next_fence(),
                    fingerprint,
                    lease_expires_at_ms: capped_sum(now_ms, before.lease_ms()),
                },
            )
        } else {
            *self == *before
        }
    }

    /// `self` is `before` after `outcome` was committed under `key` with `fence`
    /// at `now_ms`: only the current holder of the key changes anything.
    pub open spec fn follows_complete(
        &self,
        before: &Self,
        key: Seq<char>,
        fence: u64,
        outcome: OutcomeView,
        now_ms: u64,
    ) -> bool {
        if refusal(before.records(), key, fence) is None {
            &&& self.next_fence() == before.next_fence()
            &&& self.follows_put(
                before,
                key,
                StateView::Completed {
                    fingerprint: before.records()[key]->InProgress_fingerprint,
                    outcome,
                    completed_at_ms: now_ms,
                },
            )
        } else {
            *self == *before
        }
    }

    /// `self` is `before` after a sweep at `now_ms`: exactly the expired keys are
    /// gone, what is left is durable, and no fence is forgotten.
    pub open spec fn follows_prune(&self, before: &Self, now_ms: u64) -> bool {
        &&& self.same_setting(before)
        &&& self.next_fence() == before.next_fence()
        &&& self.records() == pruned(before.records(), before.ttl_ms(), now_ms)
        &&& before.backing().intact() ==> self.backing().intact()
        &&& self.backing().intact() ==> self.backing().durable() == self.records()
        &&& self.backing().recovered_fence() == before.backing().recovered_fence()
        &&& self.backing().intact() ==> self.backing().durable_fence()
            == self.backing().recovered_fence()
    }

    /// Create an engine over `store`, with a per-key lease of `lease_ms` and the
    /// [`DEFAULT_TTL_MS`] completed-key time-to-live.
    pub fn new(store: S, lease_ms: u64) -> (r: Self)
        requires
            store.wf(),
            store.recovered_fence() < u64::MAX,
        ensures
            r.wf(),
            r.backing() == store,
            r.lease_ms() == lease_ms,
            r.ttl_ms() == DEFAULT_TTL_MS,
            r.ttl_ms() == 24 * 60 * 60 * 1000,
            r.next_fence() == store.recovered_fence() + 1,
            store::fences_at_most(store.records(), store.recovered_fence()) ==> fences_below(
                r.records(),
                r.next_fence(),
            ),
    {
        Self::with_ttl(store, lease_ms, DEFAULT_TTL_MS)
    }

    /// Create an engine with an explicit completed-key time-to-live. After
    /// `ttl_ms` past completion, a key is expired and a brand-new request may
    /// recycle it.
    pub fn with_ttl(store: S, lease_ms: u64, ttl_ms: u64) -> (r: Self)
        requires
            store.wf(),
            store.recovered_fence() < u64::MAX,
        ensures
            r.wf(),
            r.backing() == store,
            r.lease_ms() == lease_ms,
            r.ttl_ms() == ttl_ms,
            r.next_fence() == store.recovered_fence() + 1,
            store::fences_at_most(store.records(), store.recovered_fence()) ==> fences_below(
                r.records(),
                r.next_fence(),
            ),
    {
        let next_fence: u64 = store.highest_fence() + 1;
        Engine { store, lease_ms, ttl_ms, next_fence }
    }

    /// The store that holds the records.
    pub fn store(&self) -> (store: &S)
        ensures
            *store == self.backing(),
    {
        &self.store
    }

    /// Gives the store back.
    pub fn into_store(self) -> (store: S)
        ensures
            store == self.backing(),
            self.wf() ==> store.wf(),
    {
        self.store
    }

    /// Whether another fence can be minted.
    pub fn can_mint(&self) -> (r: bool)
        ensures
            r == (self.next_fence() < u64::MAX),
    {
        self.next_fence < u64::MAX
    }

    /// Make every preceding state change durable (one commit for a group-commit
    /// store). Call after a batch of `begin`/`complete` and before acknowledging
    /// those operations to clients.
    pub fn flush(&mut self)
        requires
            old(self).wf(),
        ensures
            final(self).wf(),
            final(self).same_setting(old(self)),
            final(self).next_fence() == old(self).next_fence(),
            final(self).records() == old(self).records(),
            final(self).backing().intact() == old(self).backing().intact(),
            final(self).backing().intact() ==> final(self).backing().durable() == final(self).records(),
            final(self).backing().recovered_fence() == old(self).backing().recovered_fence(),
            final(self).backing().intact() ==> final(self).backing().durable_fence()
                == final(self).backing().recovered_fence(),
    {
        self.store.flush();
    }

    /// Reclaim space: drop every completed key whose time-to-live has elapsed at
    /// `now_ms`, and compact the underlying store. In-progress keys are always
    /// retained. Run this periodically, not on the request path.
    pub fn prune_expired(&mut self, now_ms: u64)
        requires
            old(self).wf(),
        ensures
            final(self).wf(),
            final(self).follows_prune(old(self), now_ms),
    {
        let ghost before = self.store.records();
        let ttl_ms: u64 = self.ttl_ms;
        let keep = |_key: &IdempotencyKey, state: &KeyState| -> (kept: bool)
            ensures
                kept == survives(state@, ttl_ms, now_ms),
            {
                match state {
                    KeyState::Completed { completed_at_ms, .. } => now_ms
                        < completed_at_ms.saturating_add(ttl_ms),
                    KeyState::InProgress { .. } => true,
                }
            };
        self.store.compact(&keep);
        proof {
            let after = self.store.records();
            let want = pruned(before, ttl_ms, now_ms);
            assert forall|k: Seq<char>| #[trigger] after.contains_key(k) == want.contains_key(k) by {
                if before.contains_key(k) {
                    assert(store::asked(keep, k, before[k], after.contains_key(k)));
                }
            }
            assert(after =~= want);
        }
    }

    fn mint_fence(&mut self) -> (fence: Fence)
        requires
            old(self).next_fence < u64::MAX,
        ensures
            fence.0 == old(self).next_fence,
            *final(self) == (Engine { next_fence: (old(self).next_fence + 1) as u64, ..*old(self) }),
    {
        let fence = Fence(self.next_fence);
        self.next_fence = self.next_fence + 1;
        fence
    }

    /// What an incoming request is due where it starts nothing.
    fn look_up(&self, key: &IdempotencyKey, fingerprint: &RequestFingerprint, now_ms: u64) -> (r:
        Option<Begin>)
        requires
            self.wf(),
        ensures
            match answer(self.records(), key@, fingerprint@, now_ms, self.ttl_ms()) {
                Answer::Start => r is None,
                Answer::Replay(outcome) => r matches Some(Begin::Replay(replayed)) && replayed@
                    == outcome,
                Answer::InProgress => r matches Some(Begin::InProgress),
                Answer::Mismatch => r matches Some(Begin::Mismatch),
            },
    {
        match self.store.get(key) {
            None => None,
            Some(KeyState::Completed { fingerprint: stored, outcome, completed_at_ms }) => {
                if now_ms >= completed_at_ms.saturating_add(self.ttl_ms) {
                    None
                } else if stored.same(fingerprint) {
                    Some(Begin::Replay(outcome.clone()))
                } else {
                    Some(Begin::Mismatch)
                }
            },
            Some(KeyState::InProgress { fingerprint: stored, lease_expires_at_ms, .. }) => {
                if !stored.same(fingerprint) {
                    Some(Begin::Mismatch)
                } else if now_ms >= *lease_expires_at_ms {
                    None
                } else {
                    Some(Begin::InProgress)
                }
            },
        }
    }

    /// Whether a request bearing `key` would start an attempt, for which a fence has to
    /// be minted.
    pub fn would_start(
        &self,
        key: &IdempotencyKey,
        fingerprint: &RequestFingerprint,
        now_ms: u64,
    ) -> (r: bool)
        requires
            self.wf(),
        ensures
            r == (answer(self.records(), key@, fingerprint@, now_ms, self.ttl_ms()) is Start),
    {
        self.look_up(key, fingerprint, now_ms).is_none()
    }

    /// Record a fresh in-progress attempt and hand back its run token.
    fn start(&mut self, key: IdempotencyKey, fingerprint: RequestFingerprint, now_ms: u64) -> (r:
        Begin)
        requires
            old(self).wf(),
            old(self).next_fence() < u64::MAX,
        ensures
            final(self).wf(),
            final(self).next_fence() == old(self).next_fence() + 1,
            final(self).follows_put(
                old(self),
                key@,
                (StateView::InProgress {
                    fence: old(self).next_fence(),
                    fingerprint: fingerprint@,
                    lease_expires_at_ms: capped_sum(now_ms, old(self).lease_ms()),
                }),
            ),
            r matches Begin::Run(token) && token.key() == key@ && token.fence()
                == old(self).next_fence(),
    {
        let fence = self.mint_fence();
        let lease_expires_at_ms: u64 = now_ms.saturating_add(self.lease_ms);
        self.store.put(
            key.clone(),
            KeyState::InProgress { fence, fingerprint, lease_expires_at_ms },
        );
        Begin::Run(RunToken { key, fence })
    }

    /// Decide what to do with an incoming request bearing `key`.
    pub fn begin(&mut self, key: IdempotencyKey, fingerprint: RequestFingerprint, now_ms: u64) -> (r:
        Begin)
        requires
            old(self).wf(),
            answer(old(self).records(), key@, fingerprint@, now_ms, old(self).ttl_ms()) is Start
                ==> old(self).next_fence() < u64::MAX,
        ensures
            final(self).wf(),
            final(self).follows_begin(old(self), key@, fingerprint@, now_ms),
            match answer(old(self).records(), key@, fingerprint@, now_ms, old(self).ttl_ms()) {
                Answer::Start => r matches Begin::Run(token) && token.key() == key@
                    && token.fence() == old(self).next_fence(),
                Answer::Replay(outcome) => r matches Begin::Replay(replayed) && replayed@
                    == outcome,
                Answer::InProgress => r is InProgress,
                Answer::Mismatch => r is Mismatch,
            },
    {
        let verdict = self.look_up(&key, &fingerprint, now_ms);
        match verdict {
            None => self.start(key, fingerprint, now_ms),
            Some(settled) => settled,
        }
    }

    /// Commit the outcome of a side effect, completing at `now_ms` (which starts
    /// the key's time-to-live). Only the current fence holder may complete, and
    /// once completed the result is immutable until it expires.
    pub fn complete(&mut self, token: RunToken, outcome: CachedOutcome, now_ms: u64) -> (r: Result<
        (),
        CompleteError,
    >)
        requires
            old(self).wf(),
        ensures
            final(self).wf(),
            final(self).follows_complete(
                old(self),
                token.key(),
                token.fence(),
                outcome@,
                now_ms,
            ),
            match refusal(old(self).records(), token.key(), token.fence()) {
                Some(why) => r == Err::<(), CompleteError>(why),
                None => r is Ok,
            },
    {
        let fingerprint = match self.store.get(&token.key) {
            Some(KeyState::InProgress { fence, fingerprint, .. }) => {
                if fence.0 != token.fence.0 {
                    return Err(CompleteError::StaleFence);
                }
                *fingerprint
            },
            Some(KeyState::Completed { .. }) => {
                return Err(CompleteError::AlreadyCompleted);
            },
            None => {
                return Err(CompleteError::Unknown);
            },
        };
        self.store.put(
            token.key,
            KeyState::Completed { fingerprint, outcome, completed_at_ms: now_ms },
        );
        Ok(())
    }
}

} // verus!
