//! What the engine guarantees over whole histories: an effect happens exactly
//! once, a stale worker never commits, and housekeeping is invisible.
//!
//! A history is a sequence of [`Event`]s. Each engine operation is one event, as
//! the first laws below show, so what holds of every history holds of every run of
//! an [`Engine`].

use crate::engine;
use crate::engine::{Answer, CompleteError, Engine};
use crate::store;
use crate::store::{MediumView, Records, Store};
use crate::wal::codec;
use crate::wal::kept_store;
use crate::wal::log_store;
use crate::wal::replay;
use crate::wal::{KeptStore, LogKeeper, WalStore};
use crate::{OutcomeView, StateView};
use vstd::prelude::*;

verus! {

/// The state of an engine.
#[verifier::ext_equal]
pub struct EngineState {
    pub records: Records,
    /// The fence that the next attempt will carry.
    pub next_fence: int,
    pub lease_ms: u64,
    pub ttl_ms: u64,
}

/// Something that happens to an engine.
pub enum Event {
    /// A request begins.
    Begin { key: Seq<char>, fingerprint: Seq<u8>, now_ms: u64 },
    /// A worker tries to commit an outcome.
    Complete { key: Seq<char>, fence: int, outcome: OutcomeView, now_ms: u64 },
    /// Buffered changes are made durable.
    Flush,
    /// Expired keys are swept out.
    Prune { now_ms: u64 },
    /// The process dies, and an engine is recovered from a medium on which every
    /// change was durable.
    Crash,
}

/// The state after an event.
pub open spec fn after_event(s: EngineState, e: Event) -> EngineState {
    match e {
        Event::Begin { key, fingerprint, now_ms } => {
            if engine::answer(s.records, key, fingerprint, now_ms, s.ttl_ms) is Start {
                EngineState {
                    records: s.records.insert(
                        key,
                        StateView::InProgress {
                            fence: s.next_fence as u64,
                            fingerprint,
                            lease_expires_at_ms: engine::capped_sum(now_ms, s.lease_ms),
                        },
                    ),
                    next_fence: s.next_fence + 1,
                    ..s
                }
            } else {
                s
            }
        },
        Event::Complete { key, fence, outcome, now_ms } => {
            if engine::refusal(s.records, key, fence as u64) is None {
                EngineState {
                    records: s.records.insert(
                        key,
                        StateView::Completed {
                            fingerprint: s.records[key]->InProgress_fingerprint,
                            outcome,
                            completed_at_ms: now_ms,
                        },
                    ),
                    ..s
                }
            } else {
                s
            }
        },
        Event::Flush => s,
        Event::Prune { now_ms } => EngineState {
            records: engine::pruned(s.records, s.ttl_ms, now_ms),
            ..s
        },
        Event::Crash => s,
    }
}

/// The state after a history.
pub open spec fn after_history(s: EngineState, history: Seq<Event>) -> EngineState
    decreases history.len(),
{
    if history.len() == 0 {
        s
    } else {
        after_event(after_history(s, history.drop_last()), history.last())
    }
}

/// Every fence that a live worker may hold is below the next one.
pub open spec fn is_fenced(s: EngineState) -> bool {
    &&& 0 <= s.next_fence <= u64::MAX
    &&& engine::fences_below(s.records, s.next_fence as u64)
}

/// A history stays within the fences that there are.
pub open spec fn can_fence(s: EngineState, history: Seq<Event>) -> bool {
    s.next_fence + history.len() <= u64::MAX
}

impl<S: Store> Engine<S> {
    /// The engine's state.
    pub open spec fn state(&self) -> EngineState {
        EngineState {
            records: self.records(),
            next_fence: self.next_fence() as int,
            lease_ms: self.lease_ms(),
            ttl_ms: self.ttl_ms(),
        }
    }
}

/// What `begin` does is an event.
pub proof fn begin_is_an_event<S: Store>(
    before: &Engine<S>,
    after: &Engine<S>,
    key: Seq<char>,
    fingerprint: Seq<u8>,
    now_ms: u64,
)
    requires
        after.follows_begin(before, key, fingerprint, now_ms),
    ensures
        after.state() == after_event(
            before.state(),
            Event::Begin { key, fingerprint, now_ms },
        ),
{
}

/// What `complete` does is an event.
pub proof fn complete_is_an_event<S: Store>(
    before: &Engine<S>,
    after: &Engine<S>,
    key: Seq<char>,
    fence: u64,
    outcome: OutcomeView,
    now_ms: u64,
)
    requires
        after.follows_complete(before, key, fence, outcome, now_ms),
    ensures
        after.state() == after_event(
            before.state(),
            Event::Complete { key, fence: fence as int, outcome, now_ms },
        ),
{
}

/// What `prune_expired` does is an event.
pub proof fn prune_is_an_event<S: Store>(before: &Engine<S>, after: &Engine<S>, now_ms: u64)
    requires
        after.follows_prune(before, now_ms),
    ensures
        after.state() == after_event(before.state(), Event::Prune { now_ms }),
{
}

// ---------------------------------------------------------------------------
// Exactly once
// ---------------------------------------------------------------------------

/// All that a history does at a time, it does before `limit_ms`.
pub open spec fn happens_before(history: Seq<Event>, limit_ms: u64) -> bool {
    forall|i: int|
        0 <= i < history.len() ==> match #[trigger] history[i] {
            Event::Begin { now_ms, .. } => now_ms < limit_ms,
            Event::Prune { now_ms } => now_ms < limit_ms,
            _ => true,
        }
}

/// A committed outcome is immutable until it expires: whatever happens before
/// then, crashes included, the record stays exactly as it was committed.
pub proof fn a_committed_outcome_is_immutable(
    s: EngineState,
    history: Seq<Event>,
    key: Seq<char>,
)
    requires
        s.records.contains_key(key),
        s.records[key] is Completed,
        happens_before(
            history,
            engine::capped_sum(s.records[key]->Completed_completed_at_ms, s.ttl_ms),
        ),
    ensures
        after_history(s, history).ttl_ms == s.ttl_ms,
        after_history(s, history).records.contains_key(key),
        after_history(s, history).records[key] == s.records[key],
    decreases history.len(),
{
    if history.len() > 0 {
        let init = history.drop_last();
        let limit = engine::capped_sum(s.records[key]->Completed_completed_at_ms, s.ttl_ms);
        assert forall|i: int| 0 <= i < init.len() implies match #[trigger] init[i] {
            Event::Begin { now_ms, .. } => now_ms < limit,
            Event::Prune { now_ms } => now_ms < limit,
            _ => true,
        } by {
            assert(init[i] == history[i]);
        }
        a_committed_outcome_is_immutable(s, init, key);
        assert(history[history.len() - 1] == history.last());
    }
}

/// Exactly-once effect: once a key has completed, and until its outcome expires,
/// every request that bears the key and the same fingerprint is answered with that
/// very outcome, every other request that bears it is rejected, and no worker can
/// commit to it again, whatever has happened in between: retries, takeovers, sweeps
/// and crashes.
pub proof fn a_completed_key_only_replays(
    s: EngineState,
    history: Seq<Event>,
    key: Seq<char>,
    fingerprint: Seq<u8>,
    fence: u64,
    now_ms: u64,
)
    requires
        s.records.contains_key(key),
        s.records[key] is Completed,
        happens_before(
            history,
            engine::capped_sum(s.records[key]->Completed_completed_at_ms, s.ttl_ms),
        ),
        now_ms < engine::capped_sum(s.records[key]->Completed_completed_at_ms, s.ttl_ms),
    ensures
        engine::answer(
            after_history(s, history).records,
            key,
            fingerprint,
            now_ms,
            s.ttl_ms,
        ) == (if fingerprint == s.records[key]->Completed_fingerprint {
            Answer::Replay(s.records[key]->Completed_outcome)
        } else {
            Answer::Mismatch
        }),
        engine::refusal(after_history(s, history).records, key, fence) == Some(
            CompleteError::AlreadyCompleted,
        ),
{
    a_committed_outcome_is_immutable(s, history, key);
}

/// Mismatch safety: an outcome is replayed only to the request that it belongs to.
pub proof fn only_the_same_request_is_replayed(
    records: Records,
    key: Seq<char>,
    fingerprint: Seq<u8>,
    now_ms: u64,
    ttl_ms: u64,
)
    requires
        engine::answer(records, key, fingerprint, now_ms, ttl_ms) is Replay,
    ensures
        records.contains_key(key),
        records[key] is Completed,
        records[key]->Completed_fingerprint == fingerprint,
        engine::answer(records, key, fingerprint, now_ms, ttl_ms) == Answer::Replay(
            records[key]->Completed_outcome,
        ),
        !engine::is_expired(records[key]->Completed_completed_at_ms, ttl_ms, now_ms),
{
}

/// While an attempt holds a key under a live lease, no other attempt is started.
pub proof fn a_live_attempt_is_not_repeated(
    records: Records,
    key: Seq<char>,
    fingerprint: Seq<u8>,
    now_ms: u64,
    ttl_ms: u64,
)
    requires
        records.contains_key(key),
        records[key] is InProgress,
        now_ms < records[key]->InProgress_lease_expires_at_ms,
    ensures
        engine::answer(records, key, fingerprint, now_ms, ttl_ms) == (if fingerprint
            == records[key]->InProgress_fingerprint {
            Answer::InProgress
        } else {
            Answer::Mismatch
        }),
{
}

/// A dead worker does not wedge its key: once the lease has run out, a retry of
/// the same request takes over.
pub proof fn a_dead_lease_is_taken_over(
    records: Records,
    key: Seq<char>,
    now_ms: u64,
    ttl_ms: u64,
)
    requires
        records.contains_key(key),
        records[key] is InProgress,
        now_ms >= records[key]->InProgress_lease_expires_at_ms,
    ensures
        engine::answer(
            records,
            key,
            records[key]->InProgress_fingerprint,
            now_ms,
            ttl_ms,
        ) is Start,
{
}

/// An expired key is recycled by whatever request bears it next.
pub proof fn an_expired_key_is_recycled(
    records: Records,
    key: Seq<char>,
    fingerprint: Seq<u8>,
    now_ms: u64,
    ttl_ms: u64,
)
    requires
        records.contains_key(key),
        records[key] is Completed,
        engine::is_expired(records[key]->Completed_completed_at_ms, ttl_ms, now_ms),
    ensures
        engine::answer(records, key, fingerprint, now_ms, ttl_ms) is Start,
{
}

/// A key that nothing is known of is started by whatever request bears it.
pub proof fn an_unknown_key_is_started(
    records: Records,
    key: Seq<char>,
    fingerprint: Seq<u8>,
    now_ms: u64,
    ttl_ms: u64,
)
    requires
        !records.contains_key(key),
    ensures
        engine::answer(records, key, fingerprint, now_ms, ttl_ms) is Start,
{
}

/// An attempt's key is never taken over by another request, lease or not.
pub proof fn another_request_never_takes_over(
    records: Records,
    key: Seq<char>,
    fingerprint: Seq<u8>,
    now_ms: u64,
    ttl_ms: u64,
)
    requires
        records.contains_key(key),
        records[key] is InProgress,
        records[key]->InProgress_fingerprint != fingerprint,
    ensures
        engine::answer(records, key, fingerprint, now_ms, ttl_ms) is Mismatch,
{
}

/// Times are added up as numbers are, and stop at the last one that there is; so an
/// outcome has expired exactly once its time-to-live has passed since it was completed.
pub proof fn an_outcome_expires_after_its_time_to_live(
    completed_at_ms: u64,
    ttl_ms: u64,
    now_ms: u64,
)
    ensures
        completed_at_ms + ttl_ms <= u64::MAX ==> engine::capped_sum(completed_at_ms, ttl_ms)
            == completed_at_ms + ttl_ms,
        completed_at_ms + ttl_ms > u64::MAX ==> engine::capped_sum(completed_at_ms, ttl_ms)
            == u64::MAX,
        now_ms < u64::MAX ==> (engine::is_expired(completed_at_ms, ttl_ms, now_ms) <==> now_ms
            >= completed_at_ms + ttl_ms),
{
}

/// The life of a key, over whatever store. A request starts it; its worker commits, in
/// time or not, as long as nobody has taken the key over; and from then on, until the
/// time-to-live has passed, the same request gets the very outcome that was committed,
/// and any other is refused. After that the key is free again.
pub proof fn a_committed_outcome_is_replayed<S: Store>(
    before: &Engine<S>,
    begun: &Engine<S>,
    done: &Engine<S>,
    key: Seq<char>,
    fingerprint: Seq<u8>,
    begun_ms: u64,
    outcome: OutcomeView,
    done_ms: u64,
    again: Seq<u8>,
    again_ms: u64,
)
    requires
        !before.records().contains_key(key),
        before.next_fence() < u64::MAX,
        begun.follows_begin(before, key, fingerprint, begun_ms),
        done.follows_complete(begun, key, before.next_fence(), outcome, done_ms),
        again_ms < u64::MAX,
    ensures
        ({
            let given = engine::answer(done.records(), key, again, again_ms, done.ttl_ms());
            if again_ms >= done_ms + before.ttl_ms() {
                given is Start
            } else if again == fingerprint {
                given == Answer::Replay(outcome)
            } else {
                given is Mismatch
            }
        }),
        forall|k: Seq<char>|
            k != key ==> done.records().contains_key(k)
                == #[trigger] before.records().contains_key(k) && done.records()[k]
                == before.records()[k],
{
}

// ---------------------------------------------------------------------------
// Fencing
// ---------------------------------------------------------------------------

/// Fences stay fenced: whatever happens, crashes included, every live fence stays
/// below the next one.
pub proof fn fences_stay_below_the_next(s: EngineState, history: Seq<Event>)
    requires
        is_fenced(s),
        can_fence(s, history),
    ensures
        is_fenced(after_history(s, history)),
        after_history(s, history).next_fence <= s.next_fence + history.len(),
    decreases history.len(),
{
    if history.len() > 0 {
        fences_stay_below_the_next(s, history.drop_last());
        let mid = after_history(s, history.drop_last());
        let end = after_event(mid, history.last());
        assert forall|k: Seq<char>| #[trigger] end.records.contains_key(k) implies store::fence_of(
            end.records[k],
        ) < end.next_fence by {
            if mid.records.contains_key(k) {
                assert(store::fence_of(mid.records[k]) < mid.next_fence);
            }
        }
    }
}

/// The fence of `key` is above `fence`, or the key is not in progress at all; and
/// so is every fence yet to be minted.
spec fn is_past(s: EngineState, key: Seq<char>, fence: u64) -> bool {
    &&& s.next_fence > fence
    &&& s.records.contains_key(key) && s.records[key] is InProgress
        ==> s.records[key]->InProgress_fence > fence
}

/// A fence that is past stays past.
proof fn past_stays_past(s: EngineState, history: Seq<Event>, key: Seq<char>, fence: u64)
    requires
        is_past(s, key, fence),
        can_fence(s, history),
    ensures
        is_past(after_history(s, history), key, fence),
        after_history(s, history).next_fence <= s.next_fence + history.len(),
    decreases history.len(),
{
    if history.len() > 0 {
        past_stays_past(s, history.drop_last(), key, fence);
    }
}

/// Fencing: once a key has been started again with a newer fence, a worker that
/// holds an older one is refused, then and ever after, however often the key is
/// recycled, swept out or begun anew, and however often the process dies and
/// recovers in between.
pub proof fn a_stale_fence_never_commits(
    s: EngineState,
    history: Seq<Event>,
    key: Seq<char>,
    fence: u64,
)
    requires
        is_fenced(s),
        can_fence(s, history),
        s.records.contains_key(key),
        s.records[key] is InProgress,
        s.records[key]->InProgress_fence > fence,
    ensures
        engine::refusal(after_history(s, history).records, key, fence) is Some,
{
    past_stays_past(s, history, key, fence);
}

/// A fence is handed out once: a worker that does not hold its key any more, because
/// the key was completed, swept out or never its own, never comes to hold it again.
pub proof fn a_spent_fence_never_commits(
    s: EngineState,
    history: Seq<Event>,
    key: Seq<char>,
    fence: u64,
)
    requires
        is_fenced(s),
        can_fence(s, history),
        fence < s.next_fence,
        engine::refusal(s.records, key, fence) is Some,
    ensures
        engine::refusal(after_history(s, history).records, key, fence) is Some,
    decreases history.len(),
{
    if history.len() > 0 {
        let init = history.drop_last();
        a_spent_fence_never_commits(s, init, key, fence);
        next_fence_never_falls(s, init);
        fences_stay_below_the_next(s, init);
    }
}

/// Fences keep increasing, crashes or not.
pub proof fn next_fence_never_falls(s: EngineState, history: Seq<Event>)
    ensures
        after_history(s, history).next_fence >= s.next_fence,
    decreases history.len(),
{
    if history.len() > 0 {
        next_fence_never_falls(s, history.drop_last());
    }
}

/// A takeover hands out a newer fence than the one it takes the key from.
pub proof fn a_takeover_supersedes(
    s: EngineState,
    key: Seq<char>,
    fingerprint: Seq<u8>,
    now_ms: u64,
)
    requires
        is_fenced(s),
        s.next_fence < u64::MAX,
        s.records.contains_key(key),
        s.records[key] is InProgress,
        engine::answer(s.records, key, fingerprint, now_ms, s.ttl_ms) is Start,
    ensures
        ({
            let after = after_event(s, Event::Begin { key, fingerprint, now_ms });
            &&& after.records[key] is InProgress
            &&& after.records[key]->InProgress_fence == s.next_fence
            &&& s.records[key]->InProgress_fence < s.next_fence
            &&& engine::refusal(
                after.records,
                key,
                s.records[key]->InProgress_fence,
            ) == Some(CompleteError::StaleFence)
        }),
{
    assert(store::fence_of(s.records[key]) < s.next_fence);
}

// ---------------------------------------------------------------------------
// Housekeeping
// ---------------------------------------------------------------------------

/// Sweeping out expired keys is invisible: no request is answered differently, at
/// the time of the sweep or later.
pub proof fn pruning_changes_no_answer(
    records: Records,
    ttl_ms: u64,
    swept_ms: u64,
    key: Seq<char>,
    fingerprint: Seq<u8>,
    now_ms: u64,
)
    requires
        swept_ms <= now_ms,
    ensures
        engine::answer(
            engine::pruned(records, ttl_ms, swept_ms),
            key,
            fingerprint,
            now_ms,
            ttl_ms,
        ) == engine::answer(records, key, fingerprint, now_ms, ttl_ms),
{
}

/// Of two engines in the same state, one of which is swept, each gives a request that
/// begins then or later the same answer.
pub proof fn a_swept_engine_answers_alike(
    s: EngineState,
    swept_ms: u64,
    key: Seq<char>,
    fingerprint: Seq<u8>,
    now_ms: u64,
)
    requires
        swept_ms <= now_ms,
    ensures
        ({
            let swept = after_event(s, Event::Prune { now_ms: swept_ms });
            &&& engine::answer(swept.records, key, fingerprint, now_ms, swept.ttl_ms)
                == engine::answer(s.records, key, fingerprint, now_ms, s.ttl_ms)
            &&& swept.next_fence == s.next_fence
        }),
{
    pruning_changes_no_answer(s.records, s.ttl_ms, swept_ms, key, fingerprint, now_ms);
}

/// A sweep keeps every attempt in progress and every outcome that has not
/// expired, and drops exactly the rest.
pub proof fn pruning_drops_exactly_the_expired(
    records: Records,
    ttl_ms: u64,
    now_ms: u64,
    key: Seq<char>,
)
    requires
        records.contains_key(key),
    ensures
        match records[key] {
            StateView::InProgress { .. } => {
                &&& engine::pruned(records, ttl_ms, now_ms).contains_key(key)
                &&& engine::pruned(records, ttl_ms, now_ms)[key] == records[key]
            },
            StateView::Completed { completed_at_ms, .. } => engine::pruned(
                records,
                ttl_ms,
                now_ms,
            ).contains_key(key) <==> now_ms < engine::capped_sum(completed_at_ms, ttl_ms),
        },
        engine::pruned(records, ttl_ms, now_ms).submap_of(records),
        records[key] matches StateView::Completed { completed_at_ms, .. } ==> (engine::pruned(
            records,
            ttl_ms,
            now_ms,
        ).contains_key(key) <==> now_ms < completed_at_ms + ttl_ms && now_ms < u64::MAX),
{
}

// ---------------------------------------------------------------------------
// Durability
// ---------------------------------------------------------------------------

/// Nothing is lost in a crash: what is durable is all there is.
pub open spec fn is_all_durable<S: Store>(e: &Engine<S>) -> bool {
    e.backing().intact() && e.backing().durable() == e.records()
}

/// Over a strict store every commit is durable before it is acknowledged: a crash
/// right after a begin or a complete loses nothing.
pub proof fn a_strict_engine_is_always_durable<S: Store>(
    before: &Engine<S>,
    after: &Engine<S>,
    key: Seq<char>,
    state: StateView,
)
    requires
        before.backing().strict(),
        is_all_durable(before),
        S::storable(key, state),
        after.follows_put(before, key, state),
    ensures
        is_all_durable(after),
        after.backing().strict(),
{
}

/// Under group commit a change is durable only after the next flush: until then a
/// crash falls back to what was durable before it.
pub proof fn a_buffered_change_waits_for_the_flush<S: Store>(
    before: &Engine<S>,
    after: &Engine<S>,
    key: Seq<char>,
    state: StateView,
)
    requires
        !before.backing().strict(),
        before.backing().intact(),
        S::storable(key, state),
        after.follows_put(before, key, state),
    ensures
        after.backing().intact(),
        after.backing().durable() == before.backing().durable(),
{
}

/// The engine's next fence is the one after the highest that its store has seen.
pub open spec fn is_in_step<S: Store>(e: &Engine<S>) -> bool {
    e.next_fence() == e.backing().recovered_fence() + 1
}

/// The store remembers the highest fence that it was ever given.
pub open spec fn keeps_fences<S: Store>() -> bool {
    forall|fence: u64, state: StateView| #[trigger]
        S::fence_after(fence, state) == store::higher(fence, store::fence_of(state))
}

/// An engine over a store that remembers fences stays in step with it: beginning an
/// attempt, completing one, and housekeeping keep it so.
pub proof fn an_engine_stays_in_step<S: Store>(
    before: &Engine<S>,
    begun: &Engine<S>,
    completed: &Engine<S>,
    kept: &Engine<S>,
    key: Seq<char>,
    fingerprint: Seq<u8>,
    fence: u64,
    outcome: OutcomeView,
    now_ms: u64,
)
    requires
        keeps_fences::<S>(),
        is_in_step(before),
        begun.follows_begin(before, key, fingerprint, now_ms),
        completed.follows_complete(before, key, fence, outcome, now_ms),
        kept.next_fence() == before.next_fence(),
        kept.backing().recovered_fence() == before.backing().recovered_fence(),
    ensures
        is_in_step(begun),
        is_in_step(completed),
        is_in_step(kept),
{
}

/// Logs remember fences, with and without a keeper.
pub proof fn logs_keep_fences<K: LogKeeper>()
    ensures
        keeps_fences::<WalStore>(),
        keeps_fences::<KeptStore<K>>(),
{
}

/// The restart trap: an engine that is started on a log, whatever bytes of a torn
/// record follow it, mints above the fence of every record in the log, though that
/// record is superseded.
pub proof fn a_restarted_engine_mints_above_every_logged_fence(
    history: Seq<(Seq<char>, StateView)>,
    tail: Seq<u8>,
    floor: u64,
    strict: bool,
    reopened: WalStore,
    e: &Engine<WalStore>,
    i: int,
)
    requires
        replay::all_encodable(history),
        !codec::has_whole_frame(tail),
        log_store::opened(
            (MediumView { log: replay::log_of(history) + tail, floor }),
            strict,
            Ok(reopened),
        ),
        e.next_fence() == reopened.recovered_fence() + 1,
        0 <= i < history.len(),
    ensures
        e.next_fence() > store::fence_of(history[i].1),
        history[i].1 matches StateView::InProgress { fence, .. } ==> e.next_fence() > fence,
        e.next_fence() > floor,
{
    log_store::a_reopened_log_covers_every_fence_in_it(
        history,
        tail,
        floor,
        strict,
        Ok(reopened),
        i,
    );
}

/// Crash recovery: an engine that is opened on the medium of a crashed one has
/// exactly what was durable, and mints its fences above every one that is durable:
/// those of superseded records and of records that a sweep has dropped included.
pub proof fn a_crash_loses_only_what_was_not_durable(
    crashed: &Engine<WalStore>,
    reopened: WalStore,
    recovered: &Engine<WalStore>,
    strict: bool,
)
    requires
        crashed.wf(),
        crashed.backing().intact(),
        log_store::opened(crashed.backing().image(), strict, Ok(reopened)),
        recovered.backing() == reopened,
        reopened.recovered_fence() < u64::MAX,
        recovered.next_fence() == reopened.recovered_fence() + 1,
    ensures
        recovered.records() == crashed.backing().durable(),
        recovered.next_fence() == crashed.backing().durable_fence() + 1,
        crashed.backing().strict() ==> recovered.records() == crashed.records(),
        is_all_durable(recovered),
        is_fenced(recovered.state()),
        is_in_step(recovered),
{
    log_store::a_reopened_log_holds_the_durable_records(
        &crashed.backing(),
        strict,
        Ok(reopened),
    );
    log_store::a_recovered_fence_covers_the_records(&reopened);
    if crashed.backing().strict() {
        log_store::a_strict_log_is_always_durable(&crashed.backing());
    }
}

/// What a crash of an engine over a strict log does is an event: it changes nothing,
/// neither the records nor the fence that comes next.
pub proof fn a_crash_is_an_event(
    crashed: &Engine<WalStore>,
    reopened: WalStore,
    recovered: &Engine<WalStore>,
    strict: bool,
)
    requires
        crashed.wf(),
        is_in_step(crashed),
        crashed.backing().intact(),
        crashed.backing().strict(),
        log_store::opened(crashed.backing().image(), strict, Ok(reopened)),
        recovered.backing() == reopened,
        recovered.lease_ms() == crashed.lease_ms(),
        recovered.ttl_ms() == crashed.ttl_ms(),
        reopened.recovered_fence() < u64::MAX,
        recovered.next_fence() == reopened.recovered_fence() + 1,
    ensures
        recovered.state() == after_event(crashed.state(), Event::Crash),
        is_in_step(recovered),
{
    a_crash_loses_only_what_was_not_durable(crashed, reopened, recovered, strict);
    log_store::a_strict_log_is_always_durable(&crashed.backing());
}

/// So is a crash of an engine over a kept log: what its keeper holds is enough to go
/// on exactly where the crashed engine was.
pub proof fn a_crash_over_a_kept_log_is_an_event<K: LogKeeper>(
    crashed: &Engine<KeptStore<K>>,
    reopened: WalStore,
    recovered: &Engine<KeptStore<K>>,
    strict: bool,
)
    requires
        crashed.wf(),
        is_in_step(crashed),
        crashed.backing().intact(),
        crashed.backing().strict(),
        log_store::opened(crashed.backing().contents(), strict, Ok(reopened)),
        recovered.backing().records() == reopened.records(),
        recovered.backing().recovered_fence() == reopened.recovered_fence(),
        recovered.lease_ms() == crashed.lease_ms(),
        recovered.ttl_ms() == crashed.ttl_ms(),
        recovered.next_fence() == recovered.backing().recovered_fence() + 1,
    ensures
        recovered.state() == after_event(crashed.state(), Event::Crash),
        is_in_step(recovered),
{
    kept_store::a_kept_medium_recovers_the_durable_records(
        &crashed.backing(),
        strict,
        Ok(reopened),
    );
}

/// Times and counters are added up exactly as long as the sum fits, and stay at the largest
/// number from then on.
pub proof fn a_sum_is_exact_where_it_fits(a: u64, b: u64)
    ensures
        a + b <= u64::MAX ==> engine::capped_sum(a, b) == a + b,
        a + b > u64::MAX ==> engine::capped_sum(a, b) == u64::MAX,
{
}

} // verus!
