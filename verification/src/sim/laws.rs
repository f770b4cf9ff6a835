//! No seed and no schedule of faults breaks the invariants.

use crate::bytes;
use crate::engine;
use crate::engine::{Answer, DEFAULT_TTL_MS};
use crate::http::wire_laws;
use crate::lex;
use crate::sim::model;
use crate::sim::model::{Durability, SimView, Violation, KEY_SPACE};
use crate::store::Records;
use crate::{OutcomeView, StateView};
use vstd::prelude::*;

verus! {

/// The outcome that `records` hold for the key with this index.
pub open spec fn outcome_at(records: Records, index: int) -> Option<OutcomeView> {
    let key = model::key_text(index as u64);
    if records.contains_key(key) {
        match records[key] {
            StateView::Completed { outcome, .. } => Some(outcome),
            StateView::InProgress { .. } => None,
        }
    } else {
        None
    }
}

/// The record of each key bears that key's fingerprint, and was completed after
/// the clock started.
pub open spec fn in_order(records: Records) -> bool {
    forall|i: int|
        0 <= i < KEY_SPACE && records.contains_key(#[trigger] model::key_text(i as u64))
            ==> match records[model::key_text(i as u64)] {
            StateView::InProgress { fingerprint, .. } => fingerprint == model::fingerprint_bytes(
                i as u64,
            ),
            StateView::Completed { fingerprint, completed_at_ms, .. } => fingerprint
                == model::fingerprint_bytes(i as u64) && completed_at_ms >= 1,
        }
}

/// The invariants that hold between the operations of a simulation:
///
/// - what counts as committed is what the engine has completed, and what counts as
///   durable is what the log has completed;
/// - a durable outcome is the committed one;
/// - in strict mode nothing is lost in a crash, no attempt is forgotten, and a key
///   is completed exactly once if it is committed and never otherwise.
pub open spec fn is_sound(s: SimView) -> bool {
    &&& s.committed.len() == KEY_SPACE
    &&& s.durable.len() == KEY_SPACE
    &&& s.completes.len() == KEY_SPACE
    &&& s.now_ms >= 1
    &&& in_order(s.records)
    &&& in_order(s.saved)
    &&& forall|i: int| 0 <= i < KEY_SPACE ==> (#[trigger] s.committed[i]) == outcome_at(s.records, i)
    &&& forall|i: int| 0 <= i < KEY_SPACE ==> (#[trigger] s.durable[i]) == outcome_at(s.saved, i)
    &&& forall|i: int|
        0 <= i < KEY_SPACE && (#[trigger] s.durable[i]) is Some ==> s.committed[i] == s.durable[i]
    &&& forall|i: int| 0 <= i < s.inflight.len() ==> (#[trigger] s.inflight[i]).index < KEY_SPACE
    &&& s.mode is Strict ==> {
        &&& s.saved == s.records
        &&& forall|i: int|
            0 <= i < s.inflight.len() ==> s.records.contains_key(
                model::key_text((#[trigger] s.inflight[i]).index),
            )
        &&& forall|i: int|
            0 <= i < KEY_SPACE ==> (#[trigger] s.completes[i]) == (if s.committed[i] is Some {
                1u64
            } else {
                0u64
            })
    }
}

/// No outcome that was committed can have expired yet.
pub open spec fn all_live(s: SimView) -> bool {
    s.now_ms <= DEFAULT_TTL_MS
}

/// Different indices have different keys.
proof fn keys_differ(i: u64, j: u64)
    requires
        model::key_text(i) == model::key_text(j),
    ensures
        i == j,
{
    reveal_strlit("key-");
    let a = lex::decimal_text(i as nat);
    let b = lex::decimal_text(j as nat);
    assert(model::key_text(i).skip(4) =~= a);
    assert(model::key_text(j).skip(4) =~= b);
    lex::decimal_bytes(i as nat);
    lex::decimal_bytes(j as nat);
    lex::decimal_reads_back(i as nat);
    lex::decimal_reads_back(j as nat);
}

/// Putting a record under one key leaves the others as they are.
proof fn a_put_touches_one_key(s: SimView, index: u64, state: StateView)
    requires
        index < KEY_SPACE,
        in_order(s.records),
        match state {
            StateView::InProgress { fingerprint, .. } => fingerprint == model::fingerprint_bytes(
                index,
            ),
            StateView::Completed { fingerprint, completed_at_ms, .. } => fingerprint
                == model::fingerprint_bytes(index) && completed_at_ms >= 1,
        },
    ensures
        ({
            let after = model::with_record(s, index, state).records;
            &&& in_order(after)
            &&& outcome_at(after, index as int) == (match state {
                StateView::Completed { outcome, .. } => Some(outcome),
                StateView::InProgress { .. } => None,
            })
            &&& forall|i: int|
                0 <= i < KEY_SPACE && i != index ==> #[trigger] outcome_at(after, i) == outcome_at(
                    s.records,
                    i,
                )
        }),
{
    let after = model::with_record(s, index, state).records;
    assert forall|i: int| 0 <= i < KEY_SPACE && i != index implies #[trigger] model::key_text(
        i as u64,
    ) != model::key_text(index) by {
        if model::key_text(i as u64) == model::key_text(index) {
            keys_differ(i as u64, index);
        }
    }
    assert forall|i: int| 0 <= i < KEY_SPACE && i != index implies #[trigger] outcome_at(after, i)
        == outcome_at(s.records, i) by {
        assert(model::key_text(i as u64) != model::key_text(index));
    }
}

/// A fresh simulation is sound.
pub proof fn a_fresh_simulation_is_sound(seed: u64, mode: Durability)
    ensures
        is_sound(model::fresh(seed, mode)),
{
}

/// Beginning a request breaks nothing: a replay is of the committed outcome, and
/// no mismatch is seen.
pub proof fn beginning_is_sound(s: SimView)
    requires
        is_sound(s),
        all_live(s),
    ensures
        model::after_begin(s) is Ok,
        is_sound(model::after_begin(s)->Ok_0),
{
    let index = (model::next_random(s.rng) % KEY_SPACE) as u64;
    assert(s.committed[index as int] == outcome_at(s.records, index as int));
    let state = StateView::InProgress {
        fence: s.next_fence,
        fingerprint: model::fingerprint_bytes(index),
        lease_expires_at_ms: engine::capped_sum(s.now_ms, model::LEASE_MS),
    };
    if model::answer_at(s, index) is Start {
        a_put_touches_one_key(s, index, state);
        let t = model::after_begin(s)->Ok_0;
        assert(s.committed[index as int] is None);
        assert forall|i: int| 0 <= i < KEY_SPACE implies (#[trigger] t.committed[i]) == outcome_at(
            t.records,
            i,
        ) by {
            assert(s.committed[i] == outcome_at(s.records, i));
        }
        assert forall|i: int| 0 <= i < KEY_SPACE implies (#[trigger] t.durable[i]) == outcome_at(
            t.saved,
            i,
        ) by {
            assert(s.durable[i] == outcome_at(s.saved, i));
            assert(s.committed[i] == outcome_at(s.records, i));
        }
        assert forall|i: int| 0 <= i < t.inflight.len() implies (#[trigger] t.inflight[i]).index
            < KEY_SPACE && (t.mode is Strict ==> t.records.contains_key(
            model::key_text(t.inflight[i].index),
        )) by {
            if i < s.inflight.len() {
                assert(t.inflight[i] == s.inflight[i]);
            }
        }
    }
}

/// Completing breaks nothing: a commit is a key's only one, a key that is reported
/// as completed is committed, and no durable attempt is forgotten.
pub proof fn completing_is_sound(s: SimView)
    requires
        is_sound(s),
    ensures
        model::after_complete(s) is Ok,
        is_sound(model::after_complete(s)->Ok_0),
{
    if s.inflight.len() > 0 {
        let rng = model::next_random(s.rng);
        let which = (rng as int) % (s.inflight.len() as int);
        let worker = s.inflight[which];
        let at = worker.index as int;
        let left = SimView { rng, inflight: s.inflight.remove(which), ..s };
        let key = model::key_text(worker.index);
        assert(s.committed[at] == outcome_at(s.records, at));
        assert(s.durable[at] == outcome_at(s.saved, at));
        let t = model::after_complete(s)->Ok_0;
        assert forall|i: int| 0 <= i < left.inflight.len() implies (#[trigger] left.inflight[i]).index
            < KEY_SPACE && (s.mode is Strict ==> s.records.contains_key(
            model::key_text(left.inflight[i].index),
        )) by {
            if i < which {
                assert(left.inflight[i] == s.inflight[i]);
            } else {
                assert(left.inflight[i] == s.inflight[i + 1]);
            }
        }
        if engine::refusal(s.records, key, worker.fence) is None {
            let state = StateView::Completed {
                fingerprint: s.records[key]->InProgress_fingerprint,
                outcome: worker.outcome,
                completed_at_ms: s.now_ms,
            };
            assert(model::key_text(at as u64) == key);
            a_put_touches_one_key(s, worker.index, state);
            assert(s.durable[at] is None);
            assert(s.completes[at] == 0 || s.mode is GroupCommit);
            assert(t.inflight == left.inflight);
            assert forall|i: int| 0 <= i < KEY_SPACE implies (#[trigger] t.committed[i])
                == outcome_at(t.records, i) by {
                assert(s.committed[i] == outcome_at(s.records, i));
            }
            assert forall|i: int| 0 <= i < KEY_SPACE implies (#[trigger] t.durable[i])
                == outcome_at(t.saved, i) by {
                assert(s.durable[i] == outcome_at(s.saved, i));
                assert(s.committed[i] == outcome_at(s.records, i));
            }
            assert forall|i: int| 0 <= i < KEY_SPACE && (#[trigger] t.durable[i]) is Some implies
                t.committed[i] == t.durable[i] by {
                assert(s.durable[i] == outcome_at(s.saved, i));
                assert(s.committed[i] == outcome_at(s.records, i));
            }
            assert forall|i: int| 0 <= i < t.inflight.len() implies (#[trigger] t.inflight[i]).index
                < KEY_SPACE && (s.mode is Strict ==> t.records.contains_key(
                model::key_text(t.inflight[i].index),
            )) by {
                assert(t.inflight[i] == left.inflight[i]);
            }
            if s.mode is Strict {
                assert forall|i: int| 0 <= i < KEY_SPACE implies (#[trigger] t.completes[i]) == (
                if t.committed[i] is Some {
                    1u64
                } else {
                    0u64
                }) by {
                    assert(s.completes[i] == (if s.committed[i] is Some {
                        1u64
                    } else {
                        0u64
                    }));
                }
            }
        } else {
            assert(t.inflight == left.inflight);
        }
    }
}

/// What marking the first `n` keys gives, where no durable outcome differs from
/// the committed one.
proof fn marking_agrees(s: SimView, n: nat)
    requires
        n <= KEY_SPACE,
        s.committed.len() == KEY_SPACE,
        s.durable.len() == KEY_SPACE,
        forall|i: int|
            0 <= i < KEY_SPACE && (#[trigger] s.durable[i]) is Some ==> s.committed[i]
                == s.durable[i],
    ensures
        model::marked(s, n) == Ok::<SimView, Violation>(
            SimView {
                durable: Seq::new(
                    KEY_SPACE as nat,
                    |i: int|
                        if i < n {
                            s.committed[i]
                        } else {
                            s.durable[i]
                        },
                ),
                ..s
            },
        ),
    decreases n,
{
    let want = SimView {
        durable: Seq::new(
            KEY_SPACE as nat,
            |i: int|
                if i < n {
                    s.committed[i]
                } else {
                    s.durable[i]
                },
        ),
        ..s
    };
    if n == 0 {
        assert(s =~= want);
    } else {
        marking_agrees(s, (n - 1) as nat);
        let at = n - 1;
        let t = model::marked(s, (n - 1) as nat)->Ok_0;
        assert(t.durable[at] == s.durable[at]);
        assert(model::marked(s, n)->Ok_0.durable =~= want.durable);
        assert(model::marked(s, n)->Ok_0 =~= want);
    }
}

/// Flushing breaks nothing: no durable outcome changes.
pub proof fn flushing_is_sound(s: SimView)
    requires
        is_sound(s),
    ensures
        model::after_flush(s) is Ok,
        is_sound(model::after_flush(s)->Ok_0),
{
    let flushed = SimView {
        saved: s.records,
        saved_fence: (s.next_fence - 1) as u64,
        stats: model::Stats { flushes: (s.stats.flushes + 1) as u64, ..s.stats },
        ..s
    };
    marking_agrees(flushed, KEY_SPACE as nat);
    let t = model::after_flush(s)->Ok_0;
    assert forall|i: int| 0 <= i < KEY_SPACE implies (#[trigger] t.durable[i]) == outcome_at(
        t.saved,
        i,
    ) && t.durable[i] == t.committed[i] by {
        assert(s.committed[i] == outcome_at(s.records, i));
    }
    assert forall|i: int| 0 <= i < KEY_SPACE implies (#[trigger] t.committed[i]) == outcome_at(
        t.records,
        i,
    ) by {
        assert(s.committed[i] == outcome_at(s.records, i));
    }
}

/// Advancing the clock breaks nothing.
pub proof fn advancing_is_sound(s: SimView)
    requires
        is_sound(s),
        s.now_ms <= u64::MAX - 1999,
    ensures
        is_sound(model::after_advance(s)),
        s.now_ms < model::after_advance(s).now_ms <= s.now_ms + 1999,
{
    let t = model::after_advance(s);
    assert(t.committed == s.committed && t.durable == s.durable && t.completes == s.completes);
    assert(t.inflight == s.inflight && t.records == s.records && t.saved == s.saved);
}

/// None of the first `n` keys is lost.
proof fn nothing_is_lost(s: SimView, n: nat)
    requires
        n <= KEY_SPACE,
        is_sound(s),
        all_live(s),
    ensures
        model::lost(s, n) is None,
    decreases n,
{
    if n > 0 {
        nothing_is_lost(s, (n - 1) as nat);
        let at = n - 1;
        assert(s.committed[at] == outcome_at(s.records, at));
        assert(model::key_text(at as u64) == model::key_text((n - 1) as u64));
    }
}

/// A crash breaks nothing: every committed key replays its exact outcome after the
/// recovery.
pub proof fn crashing_is_sound(s: SimView)
    requires
        is_sound(s),
        all_live(s),
    ensures
        model::after_crash(s) is Ok,
        is_sound(model::after_crash(s)->Ok_0),
{
    let t = model::recovered(s);
    assert forall|i: int| 0 <= i < KEY_SPACE implies (#[trigger] t.committed[i]) == outcome_at(
        t.records,
        i,
    ) by {
        assert(s.committed[i] == outcome_at(s.records, i));
        assert(s.durable[i] == outcome_at(s.saved, i));
    }
    assert forall|i: int| 0 <= i < KEY_SPACE && (#[trigger] t.durable[i]) is Some implies
        t.committed[i] == t.durable[i] by {
        assert(s.durable[i] == outcome_at(s.saved, i));
    }
    assert(t.inflight == s.inflight && t.completes == s.completes && t.saved == s.saved);
    assert(is_sound(t));
    nothing_is_lost(t, KEY_SPACE as nat);
}

/// One step breaks nothing, whatever the dice pick.
pub proof fn a_step_is_sound(s: SimView)
    requires
        is_sound(s),
        all_live(s),
    ensures
        model::after_step(s) is Ok,
        is_sound(model::after_step(s)->Ok_0),
        model::after_step(s)->Ok_0.now_ms <= s.now_ms + 1999,
{
    reveal(model::after_step);
    let rng = model::next_random(s.rng);
    let rolled = SimView { rng, ..s };
    assert(rolled.committed == s.committed && rolled.durable == s.durable);
    assert(rolled.completes == s.completes && rolled.inflight == s.inflight);
    assert(is_sound(rolled));
    beginning_is_sound(rolled);
    completing_is_sound(rolled);
    flushing_is_sound(rolled);
    advancing_is_sound(rolled);
    crashing_is_sound(rolled);
    marking_agrees(
        SimView {
            saved: rolled.records,
            saved_fence: (rolled.next_fence - 1) as u64,
            stats: model::Stats { flushes: (s.stats.flushes + 1) as u64, ..s.stats },
            ..rolled
        },
        KEY_SPACE as nat,
    );
    let t = model::after_roll(rolled, (rng % 100) as u64)->Ok_0;
    let u = model::after_step(s)->Ok_0;
    assert(u.committed == t.committed && u.durable == t.durable && u.completes == t.completes);
    assert(u.inflight == t.inflight && u.records == t.records && u.saved == t.saved);
    assert(is_sound(u));
}

/// Exactly-once, durability, replay consistency and fencing hold on every run: as
/// long as no committed outcome has outlived its time-to-live, no violation is ever
/// reported, whatever the seed and whichever faults it injects.
pub proof fn no_violation_while_the_outcomes_live(s: SimView, steps: nat)
    requires
        is_sound(s),
        forall|m: nat|
            m < steps && (#[trigger] model::after_steps(s, m)) is Ok ==> all_live(
                model::after_steps(s, m)->Ok_0,
            ),
    ensures
        model::after_steps(s, steps) is Ok,
        is_sound(model::after_steps(s, steps)->Ok_0),
    decreases steps,
{
    if steps > 0 {
        no_violation_while_the_outcomes_live(s, (steps - 1) as nat);
        let t = model::after_steps(s, (steps - 1) as nat)->Ok_0;
        assert(all_live(t));
        a_step_is_sound(t);
    }
}

/// A run that is short enough for no outcome to expire reports no violation.
pub proof fn a_short_run_reports_no_violation(s: SimView, steps: nat)
    requires
        is_sound(s),
        s.now_ms + 1999 * steps <= DEFAULT_TTL_MS,
    ensures
        model::after_steps(s, steps) is Ok,
        is_sound(model::after_steps(s, steps)->Ok_0),
        model::after_steps(s, steps)->Ok_0.now_ms <= s.now_ms + 1999 * steps,
    decreases steps,
{
    if steps > 0 {
        a_short_run_reports_no_violation(s, (steps - 1) as nat);
        a_step_is_sound(model::after_steps(s, (steps - 1) as nat)->Ok_0);
    }
}

/// The workers hold keys of the key space.
spec fn is_staffed(s: SimView) -> bool {
    &&& s.durable.len() == KEY_SPACE
    &&& forall|i: int| 0 <= i < s.inflight.len() ==> (#[trigger] s.inflight[i]).index < KEY_SPACE
}

/// Completing changes no durable outcome.
proof fn completing_keeps_the_durable(s: SimView, index: int)
    requires
        is_staffed(s),
        0 <= index < KEY_SPACE,
        s.durable[index] is Some,
        model::after_complete(s) is Ok,
    ensures
        is_staffed(model::after_complete(s)->Ok_0),
        model::after_complete(s)->Ok_0.durable[index] == s.durable[index],
{
    if s.inflight.len() > 0 {
        let which = (model::next_random(s.rng) as int) % (s.inflight.len() as int);
        let worker = s.inflight[which];
        let t = model::after_complete(s)->Ok_0;
        assert(worker.index < KEY_SPACE);
        assert(t.inflight == s.inflight.remove(which));
        assert forall|i: int| 0 <= i < t.inflight.len() implies (#[trigger] t.inflight[i]).index
            < KEY_SPACE by {
            if i < which {
                assert(t.inflight[i] == s.inflight[i]);
            } else {
                assert(t.inflight[i] == s.inflight[i + 1]);
            }
        }
    }
}

/// A step changes no durable outcome.
proof fn a_step_keeps_the_durable(s: SimView, index: int)
    requires
        is_staffed(s),
        0 <= index < KEY_SPACE,
        s.durable[index] is Some,
        model::after_step(s) is Ok,
    ensures
        is_staffed(model::after_step(s)->Ok_0),
        model::after_step(s)->Ok_0.durable[index] == s.durable[index],
{
    reveal(model::after_step);
    let rolled = SimView { rng: model::next_random(s.rng), ..s };
    assert(rolled.durable == s.durable && rolled.inflight == s.inflight);
    assert(is_staffed(rolled));
    let flushed = SimView {
        saved: rolled.records,
        saved_fence: (rolled.next_fence - 1) as u64,
        stats: model::Stats { flushes: (s.stats.flushes + 1) as u64, ..s.stats },
        ..rolled
    };
    if model::after_complete(rolled) is Ok {
        completing_keeps_the_durable(rolled, index);
    }
    if model::after_flush(rolled) is Ok {
        marking_keeps_the_durable(flushed, KEY_SPACE as nat, index);
    }
    let t = model::after_roll(rolled, (rolled.rng % 100) as u64)->Ok_0;
    let u = model::after_step(s)->Ok_0;
    assert(u.durable == t.durable && u.inflight == t.inflight);
    assert forall|i: int| 0 <= i < t.inflight.len() implies (#[trigger] t.inflight[i]).index
        < KEY_SPACE by {
        if i < rolled.inflight.len() && t.inflight.len() >= rolled.inflight.len() {
            assert(t.inflight[i] == rolled.inflight[i]);
        }
    }
}

/// Durable exactly-once: once a key has a durable outcome, that outcome never
/// changes, in any run that ends without a violation.
pub proof fn a_durable_outcome_never_changes(s: SimView, steps: nat, index: int)
    requires
        is_sound(s),
        0 <= index < KEY_SPACE,
        s.durable[index] is Some,
        model::after_steps(s, steps) is Ok,
    ensures
        model::after_steps(s, steps)->Ok_0.durable[index] == s.durable[index],
{
    the_durable_is_kept(s, steps, index);
}

proof fn the_durable_is_kept(s: SimView, steps: nat, index: int)
    requires
        is_staffed(s),
        0 <= index < KEY_SPACE,
        s.durable[index] is Some,
        model::after_steps(s, steps) is Ok,
    ensures
        is_staffed(model::after_steps(s, steps)->Ok_0),
        model::after_steps(s, steps)->Ok_0.durable[index] == s.durable[index],
    decreases steps,
{
    if steps > 0 {
        the_durable_is_kept(s, (steps - 1) as nat, index);
        a_step_keeps_the_durable(model::after_steps(s, (steps - 1) as nat)->Ok_0, index);
    }
}

/// Marking keys durable changes no durable outcome.
proof fn marking_keeps_the_durable(s: SimView, n: nat, index: int)
    requires
        0 <= index < KEY_SPACE,
        n <= KEY_SPACE,
        s.durable.len() == KEY_SPACE,
        s.durable[index] is Some,
        model::marked(s, n) is Ok,
    ensures
        model::marked(s, n)->Ok_0.durable.len() == KEY_SPACE,
        model::marked(s, n)->Ok_0.durable[index] == s.durable[index],
        model::marked(s, n)->Ok_0.inflight == s.inflight,
    decreases n,
{
    if n > 0 {
        marking_keeps_the_durable(s, (n - 1) as nat, index);
    }
}

// ---------------------------------------------------------------------------
// What a simulation would report
// ---------------------------------------------------------------------------

/// The outcome under the key with this index lives, and belongs to its request.
pub open spec fn is_replayable(s: SimView, index: u64, outcome: OutcomeView) -> bool {
    let key = model::key_text(index);
    &&& s.records.contains_key(key)
    &&& s.records[key] is Completed
    &&& s.records[key]->Completed_fingerprint == model::fingerprint_bytes(index)
    &&& s.records[key]->Completed_outcome == outcome
    &&& s.now_ms < u64::MAX
    &&& s.now_ms < s.records[key]->Completed_completed_at_ms + 86_400_000
}

/// A replay of anything but the committed outcome would be reported.
pub proof fn a_wrong_replay_is_reported(s: SimView, outcome: OutcomeView)
    requires
        ({
            let index = (model::next_random(s.rng) % 8) as u64;
            &&& is_replayable(s, index, outcome)
            &&& s.committed[index as int] != Some(outcome)
        }),
    ensures
        model::after_begin(s) is Err,
        model::after_begin(s)->Err_0.seed == s.seed,
        model::after_begin(s)->Err_0.index == (model::next_random(s.rng) % 8) as u64,
{
}

/// A worker that holds its key commits; where the key was committed before, in strict
/// mode, or its durable outcome was another, that would be reported.
pub proof fn a_second_commit_is_reported(s: SimView, which: int)
    requires
        s.mode is Strict,
        s.inflight.len() > 0,
        which == model::next_random(s.rng) as int % s.inflight.len() as int,
        ({
            let key = model::key_text(s.inflight[which].index);
            &&& s.records.contains_key(key)
            &&& s.records[key] is InProgress
            &&& s.records[key]->InProgress_fence == s.inflight[which].fence
        }),
        s.completes[s.inflight[which].index as int] != 0
            || s.durable[s.inflight[which].index as int] is Some
            && s.durable[s.inflight[which].index as int] != Some(s.inflight[which].outcome),
    ensures
        model::after_complete(s) is Err,
        model::after_complete(s)->Err_0.seed == s.seed,
        model::after_complete(s)->Err_0.index == s.inflight[which].index,
{
}

/// A commit that comes too late leaves everything as it was, but for the worker.
pub proof fn a_late_commit_is_refused(s: SimView, which: int)
    requires
        s.inflight.len() > 0,
        which == model::next_random(s.rng) as int % s.inflight.len() as int,
        ({
            let key = model::key_text(s.inflight[which].index);
            &&& s.records.contains_key(key)
            &&& s.records[key] is InProgress
            &&& s.records[key]->InProgress_fence != s.inflight[which].fence
        }),
    ensures
        model::after_complete(s) is Ok,
        model::after_complete(s)->Ok_0.records == s.records,
        model::after_complete(s)->Ok_0.committed == s.committed,
        model::after_complete(s)->Ok_0.stats.stale_fences == (s.stats.stale_fences + 1) as u64,
{
}

/// What a crash leaves behind under a key that was committed must be the committed
/// outcome; where it is not, that would be reported.
pub proof fn a_lost_commit_is_reported(s: SimView, index: u64)
    requires
        index < 8,
        ({
            let back = model::recovered(s);
            &&& back.records == s.saved
            &&& back.committed[index as int] is Some
            &&& !is_replayable(back, index, back.committed[index as int]->Some_0)
        }),
        s.now_ms < u64::MAX,
    ensures
        model::after_crash(s) is Err,
{
    let back = model::recovered(s);
    let expected = back.committed[index as int]->Some_0;
    assert(model::answer_at(back, index) != Answer::Replay(expected));
    a_lost_key_is_found(back, index, 8);
}

/// A key that does not replay what was committed is found.
proof fn a_lost_key_is_found(s: SimView, index: u64, n: nat)
    requires
        index < n,
        s.committed[index as int] is Some,
        model::answer_at(s, index) != Answer::Replay(s.committed[index as int]->Some_0),
    ensures
        model::lost(s, n) is Some,
    decreases n,
{
    if index < n - 1 {
        a_lost_key_is_found(s, index, (n - 1) as nat);
    } else {
        assert(index == (n - 1) as u64);
    }
}

/// After a crash the engine has what was saved, and mints above every fence that was.
pub proof fn a_crash_goes_back_to_what_was_saved(s: SimView)
    ensures
        model::recovered(s).records == s.saved,
        s.saved_fence < u64::MAX ==> model::recovered(s).next_fence == s.saved_fence + 1,
        model::recovered(s).inflight == s.inflight,
        model::recovered(s).durable == s.durable,
        s.mode is Strict ==> model::recovered(s).committed == s.committed,
        s.mode is GroupCommit ==> model::recovered(s).committed == s.durable,
{
}

/// A run takes as many steps as it was asked for, unless it reports a violation.
pub proof fn a_run_takes_all_its_steps(s: SimView, n: nat)
    requires
        s.stats.steps + n <= u64::MAX,
        model::after_steps(s, n) is Ok,
    ensures
        model::after_steps(s, n)->Ok_0.stats.steps == s.stats.steps + n,
    decreases n,
{
    if n > 0 {
        a_run_takes_all_its_steps(s, (n - 1) as nat);
        let t = model::after_steps(s, (n - 1) as nat)->Ok_0;
        reveal(model::after_step);
        let rolled = SimView { rng: model::next_random(t.rng), ..t };
        let roll = (rolled.rng % 100) as u64;
        an_operation_takes_no_step(rolled, roll);
    }
}

proof fn an_operation_takes_no_step(s: SimView, roll: u64)
    ensures
        model::after_roll(s, roll) is Ok ==> model::after_roll(s, roll)->Ok_0.stats.steps
            == s.stats.steps,
{
    let flushed = SimView {
        saved: s.records,
        saved_fence: (s.next_fence - 1) as u64,
        stats: model::Stats { flushes: (s.stats.flushes + 1) as u64, ..s.stats },
        ..s
    };
    marking_takes_no_step(flushed, KEY_SPACE as nat);
}

proof fn marking_takes_no_step(s: SimView, n: nat)
    ensures
        model::marked(s, n) is Ok ==> model::marked(s, n)->Ok_0.stats == s.stats,
    decreases n,
{
    if n > 0 {
        marking_takes_no_step(s, (n - 1) as nat);
    }
}

// ---------------------------------------------------------------------------
// What the steps try
// ---------------------------------------------------------------------------

/// Requests under different indices have different keys and different fingerprints, and
/// outcomes with different numbers differ, so that one is never taken for the other.
pub proof fn requests_are_told_apart(i: u64, j: u64)
    requires
        i != j,
    ensures
        model::key_text(i) != model::key_text(j),
        model::fingerprint_bytes(i) != model::fingerprint_bytes(j),
        model::numbered_outcome(i) != model::numbered_outcome(j),
{
    let (s, t) = (lex::decimal_text(i as nat), lex::decimal_text(j as nat));
    let head = "key-"@;
    assert((head + s).skip(head.len() as int) =~= s);
    assert((head + t).skip(head.len() as int) =~= t);
    wire_laws::written_digits_denote_the_number(i as nat);
    wire_laws::written_digits_denote_the_number(j as nat);
    let (a, b) = (bytes::le_u64(i), bytes::le_u64(j));
    bytes::u64_reads_back(a, 0, i);
    bytes::u64_reads_back(b, 0, j);
    assert(model::fingerprint_bytes(i).take(8) =~= a);
    assert(model::fingerprint_bytes(j).take(8) =~= b);
}

/// The generator never runs into one state from two, and never gets stuck at zero: every
/// seed but one goes through states of its own.
pub proof fn the_generator_keeps_states_apart(x: u64, y: u64)
    ensures
        model::next_random(x) == model::next_random(y) ==> x == y,
        x != 0 ==> model::next_random(x) != 0,
        model::seeded(x) == model::seeded(y) ==> x == y,
{
    let (a, b) = (x ^ (x << 13), y ^ (y << 13));
    let (c, d) = (a ^ (a >> 7), b ^ (b >> 7));
    assert(x ^ (x << 13) == y ^ (y << 13) ==> x == y) by (bit_vector);
    assert(a ^ (a >> 7) == b ^ (b >> 7) ==> a == b) by (bit_vector);
    assert(c ^ (c << 17) == d ^ (d << 17) ==> c == d) by (bit_vector);
    assert(x != 0 ==> x ^ (x << 13) != 0) by (bit_vector);
    assert(a != 0 ==> a ^ (a >> 7) != 0) by (bit_vector);
    assert(c != 0 ==> c ^ (c << 17) != 0) by (bit_vector);
    assert(x ^ 0x9E37_79B9_7F4A_7C15 == y ^ 0x9E37_79B9_7F4A_7C15 ==> x == y) by (bit_vector);
}

/// Of a hundred rolls in strict mode forty begin a request, thirty complete one, fifteen
/// advance the clock and fifteen crash the engine; with group commit it is thirty-five,
/// twenty-five, ten and fifteen, and fifteen flush.
pub proof fn every_operation_has_its_share(s: SimView, roll: u64)
    requires
        roll < 100,
    ensures
        s.mode is Strict && 0 <= roll < 40 ==> model::after_roll(s, roll) == model::after_begin(s),
        s.mode is Strict && 40 <= roll < 70 ==> model::after_roll(s, roll)
            == model::after_complete(s),
        s.mode is Strict && 70 <= roll < 85 ==> model::after_roll(s, roll) == Ok::<
            SimView,
            Violation,
        >(model::after_advance(s)),
        s.mode is Strict && 85 <= roll ==> model::after_roll(s, roll) == model::after_crash(s),
        s.mode is GroupCommit && 0 <= roll < 35 ==> model::after_roll(s, roll)
            == model::after_begin(s),
        s.mode is GroupCommit && 35 <= roll < 60 ==> model::after_roll(s, roll)
            == model::after_complete(s),
        s.mode is GroupCommit && 60 <= roll < 75 ==> model::after_roll(s, roll)
            == model::after_flush(s),
        s.mode is GroupCommit && 75 <= roll < 85 ==> model::after_roll(s, roll) == Ok::<
            SimView,
            Violation,
        >(model::after_advance(s)),
        s.mode is GroupCommit && 85 <= roll ==> model::after_roll(s, roll)
            == model::after_crash(s),
{
}

/// A request for a key that has no record starts an attempt: a worker holds a fence of its
/// own and an outcome of its own, and the record says so.
pub proof fn a_request_for_an_unknown_key_starts(s: SimView, index: u64)
    requires
        index == model::next_random(s.rng) % 8,
        !s.records.contains_key(model::key_text(index)),
        s.next_fence < u64::MAX,
        s.next_body < u64::MAX,
        s.stats.runs < u64::MAX,
        s.now_ms + 1_000 <= u64::MAX,
    ensures
        model::after_begin(s) matches Ok(t) && {
            &&& t.inflight.len() == s.inflight.len() + 1
            &&& t.inflight.drop_last() == s.inflight
            &&& t.inflight.last().index == index
            &&& t.inflight.last().fence == s.next_fence
            &&& t.inflight.last().outcome.status == 200
            &&& t.inflight.last().outcome.body == bytes::le_u64(t.next_body)
            &&& t.next_body == s.next_body + 1
            &&& t.next_fence == s.next_fence + 1
            &&& t.stats.runs == s.stats.runs + 1
            &&& t.records == s.records.insert(
                model::key_text(index),
                StateView::InProgress {
                    fence: s.next_fence,
                    fingerprint: model::fingerprint_bytes(index),
                    lease_expires_at_ms: (s.now_ms + 1_000) as u64,
                },
            )
            &&& s.mode is Strict ==> t.saved == t.records
            &&& s.mode is GroupCommit ==> t.saved == s.saved
            &&& t.committed == s.committed
            &&& t.durable == s.durable
        },
{
    let t = model::after_begin(s)->Ok_0;
    assert(t.inflight.drop_last() =~= s.inflight);
}

/// A worker that holds its key commits its outcome, once, and lets go of the key.
pub proof fn a_worker_that_holds_its_key_commits(s: SimView, which: int)
    requires
        s.inflight.len() > 0,
        which == model::next_random(s.rng) as int % s.inflight.len() as int,
        s.stats.completes_ok < u64::MAX,
        ({
            let worker = s.inflight[which];
            let key = model::key_text(worker.index);
            &&& s.records.contains_key(key)
            &&& s.records[key] is InProgress
            &&& s.records[key]->InProgress_fence == worker.fence
            &&& s.mode is Strict ==> s.completes[worker.index as int] == 0
                && s.durable[worker.index as int] is None
        }),
    ensures
        ({
            let worker = s.inflight[which];
            let at = worker.index as int;
            let key = model::key_text(worker.index);
            model::after_complete(s) matches Ok(t) && {
                &&& t.inflight == s.inflight.remove(which)
                &&& t.committed == s.committed.update(at, Some(worker.outcome))
                &&& t.stats.completes_ok == s.stats.completes_ok + 1
                &&& t.records == s.records.insert(
                    key,
                    StateView::Completed {
                        fingerprint: s.records[key]->InProgress_fingerprint,
                        outcome: worker.outcome,
                        completed_at_ms: s.now_ms,
                    },
                )
                &&& s.mode is Strict ==> t.saved == t.records && t.durable == s.durable.update(
                    at,
                    Some(worker.outcome),
                ) && t.completes == s.completes.update(at, 1)
                &&& s.mode is GroupCommit ==> t.saved == s.saved && t.durable == s.durable
            }
        }),
{
}

/// The clock always goes on: by at most half a lease, or by a lease at least and less than
/// two.
pub proof fn the_clock_goes_on(s: SimView)
    requires
        s.now_ms + 2_000 <= u64::MAX,
    ensures
        ({
            let t = model::after_advance(s);
            &&& s.now_ms + 1 <= t.now_ms <= s.now_ms + 500 || s.now_ms + 1_000 <= t.now_ms
                < s.now_ms + 2_000
            &&& model::next_random(s.rng) % 2 == 0 <==> t.now_ms <= s.now_ms + 500
            &&& t.records == s.records
            &&& t.inflight == s.inflight
            &&& t.committed == s.committed
            &&& t.durable == s.durable
        }),
{
}

/// A flush saves every record, and makes every committed outcome durable.
pub proof fn a_flush_saves_everything(s: SimView, index: u64)
    requires
        model::after_flush(s) is Ok,
        index < 8,
        s.committed[index as int] is Some,
        s.durable.len() == 8,
    ensures
        model::after_flush(s)->Ok_0.saved == s.records,
        model::after_flush(s)->Ok_0.records == s.records,
        model::after_flush(s)->Ok_0.durable[index as int] == s.committed[index as int],
{
    let flushed = SimView {
        saved: s.records,
        saved_fence: (s.next_fence - 1) as u64,
        stats: model::Stats { flushes: (s.stats.flushes + 1) as u64, ..s.stats },
        ..s
    };
    marking_makes_durable(flushed, 8, index);
}

proof fn marking_makes_durable(s: SimView, n: nat, index: u64)
    requires
        n <= 8,
        model::marked(s, n) is Ok,
        s.durable.len() == 8,
    ensures
        model::marked(s, n)->Ok_0.records == s.records,
        model::marked(s, n)->Ok_0.saved == s.saved,
        model::marked(s, n)->Ok_0.committed == s.committed,
        model::marked(s, n)->Ok_0.durable.len() == 8,
        index < n && s.committed[index as int] is Some ==> model::marked(
            s,
            n,
        )->Ok_0.durable[index as int] == s.committed[index as int],
    decreases n,
{
    if n > 0 {
        assert(model::marked(s, (n - 1) as nat) is Ok);
        marking_makes_durable(s, (n - 1) as nat, index);
    }
}

} // verus!
