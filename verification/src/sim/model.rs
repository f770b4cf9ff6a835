//! What a simulation is, and what each of its steps does.

use crate::bytes;
use crate::engine;
use crate::engine::{Answer, Begin, CompleteError, DEFAULT_TTL_MS};
use crate::lex;
use crate::store;
use crate::store::Records;
use crate::{OutcomeView, StateView};
use vstd::prelude::*;

verus! {

/// Number of distinct keys the workers contend over. Small, so the same key is
/// repeatedly retried, crashed, and taken over.
pub const KEY_SPACE: u64 = 8;

/// Per-key lease. Clock jumps routinely exceed it to force takeovers.
pub const LEASE_MS: u64 = 1_000;

/// Counters that show that a campaign exercised the hard paths (so that a passing
/// run is meaningful, not vacuous).
#[derive(Clone, Copy, Debug, PartialEq, Eq)]
pub struct Stats {
    pub steps: u64,
    pub runs: u64,
    pub replays: u64,
    pub in_progress: u64,
    pub completes_ok: u64,
    pub stale_fences: u64,
    pub already_completed: u64,
    pub crashes: u64,
    pub takeovers: u64,
    /// Group-commit flushes (buffered mode only).
    pub flushes: u64,
    /// Completions of an orphaned token whose begin was lost in a crash before the
    /// flush (buffered mode only): refused with `Unknown`, never a double effect.
    pub unknown_completes: u64,
}

impl Default for Stats {
    fn default() -> (r: Self)
        ensures
            r == no_stats(),
    {
        Stats {
            steps: 0,
            runs: 0,
            replays: 0,
            in_progress: 0,
            completes_ok: 0,
            stale_fences: 0,
            already_completed: 0,
            crashes: 0,
            takeovers: 0,
            flushes: 0,
            unknown_completes: 0,
        }
    }
}

/// Counters that have counted nothing.
pub open spec fn no_stats() -> Stats {
    Stats {
        steps: 0,
        runs: 0,
        replays: 0,
        in_progress: 0,
        completes_ok: 0,
        stale_fences: 0,
        already_completed: 0,
        crashes: 0,
        takeovers: 0,
        flushes: 0,
        unknown_completes: 0,
    }
}

impl Stats {
    /// Fold another run's counters into this one. A counter stays at the largest
    /// `u64` rather than overflow.
    pub fn accumulate(&mut self, other: &Stats)
        ensures
            *final(self) == (Stats {
                steps: engine::capped_sum(old(self).steps, other.steps),
                runs: engine::capped_sum(old(self).runs, other.runs),
                replays: engine::capped_sum(old(self).replays, other.replays),
                in_progress: engine::capped_sum(old(self).in_progress, other.in_progress),
                completes_ok: engine::capped_sum(old(self).completes_ok, other.completes_ok),
                stale_fences: engine::capped_sum(old(self).stale_fences, other.stale_fences),
                already_completed: engine::capped_sum(
                    old(self).already_completed,
                    other.already_completed,
                ),
                crashes: engine::capped_sum(old(self).crashes, other.crashes),
                takeovers: engine::capped_sum(old(self).takeovers, other.takeovers),
                flushes: engine::capped_sum(old(self).flushes, other.flushes),
                unknown_completes: engine::capped_sum(
                    old(self).unknown_completes,
                    other.unknown_completes,
                ),
            }),
    {
        self.steps = self.steps.saturating_add(other.steps);
        self.runs = self.runs.saturating_add(other.runs);
        self.replays = self.replays.saturating_add(other.replays);
        self.in_progress = self.in_progress.saturating_add(other.in_progress);
        self.completes_ok = self.completes_ok.saturating_add(other.completes_ok);
        self.stale_fences = self.stale_fences.saturating_add(other.stale_fences);
        self.already_completed = self.already_completed.saturating_add(other.already_completed);
        self.crashes = self.crashes.saturating_add(other.crashes);
        self.takeovers = self.takeovers.saturating_add(other.takeovers);
        self.flushes = self.flushes.saturating_add(other.flushes);
        self.unknown_completes = self.unknown_completes.saturating_add(other.unknown_completes);
    }
}

/// Which write-ahead-log durability discipline a simulation drives.
#[derive(Clone, Copy, Debug, PartialEq, Eq, Structural)]
pub enum Durability {
    /// One commit per write: a completed key is durable the instant it commits.
    Strict,
    /// Group commit: writes are durable only after an explicit flush. A crash
    /// before the flush loses them, which the engine must tolerate without ever
    /// exposing two different durable outcomes for one key.
    GroupCommit,
}

/// Which decision an engine gave.
#[derive(Clone, Copy, Debug, PartialEq, Eq, Structural)]
pub enum BeginKind {
    Run,
    Replay,
    InProgress,
    Mismatch,
}

/// What is wrong with a key.
#[derive(Clone, Copy, Debug, PartialEq, Eq, Structural)]
pub enum ViolationKind {
    /// A replay returned an outcome that was never committed for the key.
    ReplayedUncommitted,
    /// A mismatch was reported, though fingerprints are fixed per key.
    UnexpectedMismatch,
    /// The key was successfully completed twice: exactly-once is violated.
    CompletedTwice,
    /// The key was reported as already completed, but nothing was committed.
    CompletedUncommitted,
    /// The record of a durable attempt is gone.
    UnknownCompletion,
    /// The durable outcome changed: durable exactly-once is violated.
    DurableChanged,
    /// The key replayed the wrong outcome after a crash: durability is violated.
    WrongReplayAfterCrash,
    /// A committed key did not replay after a crash: durability is violated.
    NoReplayAfterCrash(BeginKind),
}

/// A violated invariant, with the seed that reproduces it.
#[derive(Clone, Copy, Debug, PartialEq, Eq, Structural)]
pub struct Violation {
    pub seed: u64,
    pub index: u64,
    pub kind: ViolationKind,
}

/// A worker that holds a run token, and the outcome that it means to commit.
#[verifier::ext_equal]
pub struct Worker {
    pub index: u64,
    pub fence: u64,
    pub outcome: OutcomeView,
}

/// The state of a simulation.
#[verifier::ext_equal]
pub struct SimView {
    pub seed: u64,
    pub mode: Durability,
    /// The state of the generator.
    pub rng: u64,
    /// The records that the engine sees.
    pub records: Records,
    /// The records that survive a crash.
    pub saved: Records,
    /// The highest fence that survives a crash.
    pub saved_fence: u64,
    /// The fence that the next attempt will carry.
    pub next_fence: u64,
    pub now_ms: u64,
    pub inflight: Seq<Worker>,
    /// The committed outcome per key: what a replay must return now.
    pub committed: Seq<Option<OutcomeView>>,
    /// The durable outcome per key, which must never change.
    pub durable: Seq<Option<OutcomeView>>,
    /// How often each key was successfully completed (counted in strict mode).
    pub completes: Seq<u64>,
    /// How many outcomes were made.
    pub next_body: u64,
    pub stats: Stats,
}

/// The generator's next state, which is also the number it yields.
pub open spec fn next_random(x: u64) -> u64 {
    let a = x ^ (x << 13);
    let b = a ^ (a >> 7);
    b ^ (b << 17)
}

/// The generator's state for a seed.
pub open spec fn seeded(seed: u64) -> u64 {
    seed ^ 0x9E37_79B9_7F4A_7C15
}

/// The key with this index.
pub open spec fn key_text(index: u64) -> Seq<char> {
    "key-"@ + lex::decimal_text(index as nat)
}

/// The fingerprint of the request under the key with this index.
pub open spec fn fingerprint_bytes(index: u64) -> Seq<u8> {
    bytes::le_u64(index) + Seq::new(24, |i: int| 0u8)
}

/// The outcome with this number.
pub open spec fn numbered_outcome(n: u64) -> OutcomeView {
    OutcomeView { status: 200, headers: Seq::empty(), body: bytes::le_u64(n) }
}

/// A simulation that has done nothing yet.
pub open spec fn fresh(seed: u64, mode: Durability) -> SimView {
    SimView {
        seed,
        mode,
        rng: seeded(seed),
        records: Records::empty(),
        saved: Records::empty(),
        saved_fence: 0,
        next_fence: 1,
        now_ms: 1,
        inflight: Seq::empty(),
        committed: Seq::new(KEY_SPACE as nat, |i: int| None),
        durable: Seq::new(KEY_SPACE as nat, |i: int| None),
        completes: Seq::new(KEY_SPACE as nat, |i: int| 0),
        next_body: 0,
        stats: no_stats(),
    }
}

/// A violation at the key with this index.
pub open spec fn broken(s: SimView, index: u64, kind: ViolationKind) -> Result<SimView, Violation> {
    Err(Violation { seed: s.seed, index, kind })
}

/// Which decision an answer leads to.
pub open spec fn kind_of_answer(a: Answer) -> BeginKind {
    match a {
        Answer::Start => BeginKind::Run,
        Answer::Replay(_) => BeginKind::Replay,
        Answer::InProgress => BeginKind::InProgress,
        Answer::Mismatch => BeginKind::Mismatch,
    }
}

/// Which decision this is.
pub open spec fn kind_of(begin: Begin) -> BeginKind {
    match begin {
        Begin::Run(_) => BeginKind::Run,
        Begin::Replay(_) => BeginKind::Replay,
        Begin::InProgress => BeginKind::InProgress,
        Begin::Mismatch => BeginKind::Mismatch,
    }
}

/// What the engine answers to the request with this index.
pub open spec fn answer_at(s: SimView, index: u64) -> Answer {
    engine::answer(
        s.records,
        key_text(index),
        fingerprint_bytes(index),
        s.now_ms,
        DEFAULT_TTL_MS,
    )
}

/// The simulation with `state` put under the key with this index: durable at once
/// in strict mode.
pub open spec fn with_record(s: SimView, index: u64, state: StateView) -> SimView {
    let records = s.records.insert(key_text(index), state);
    SimView {
        records,
        saved: if s.mode is Strict {
            records
        } else {
            s.saved
        },
        saved_fence: if s.mode is Strict {
            store::higher(s.saved_fence, store::fence_of(state))
        } else {
            s.saved_fence
        },
        ..s
    }
}

/// Whether a worker holds a token for the key with this index.
pub open spec fn has_worker(s: SimView, index: u64) -> bool {
    exists|i: int| 0 <= i < s.inflight.len() && (#[trigger] s.inflight[i]).index == index
}

/// A request for a random key begins.
pub open spec fn after_begin(s: SimView) -> Result<SimView, Violation> {
    let rng = next_random(s.rng);
    let index = (rng % KEY_SPACE) as u64;
    match answer_at(s, index) {
        Answer::Start => {
            let body = (s.next_body + 1) as u64;
            Ok(
                SimView {
                    rng,
                    next_fence: (s.next_fence + 1) as u64,
                    next_body: body,
                    inflight: s.inflight.push(
                        Worker { index, fence: s.next_fence, outcome: numbered_outcome(body) },
                    ),
                    stats: Stats {
                        runs: (s.stats.runs + 1) as u64,
                        takeovers: if has_worker(s, index) {
                            (s.stats.takeovers + 1) as u64
                        } else {
                            s.stats.takeovers
                        },
                        ..s.stats
                    },
                    ..with_record(
                        s,
                        index,
                        StateView::InProgress {
                            fence: s.next_fence,
                            fingerprint: fingerprint_bytes(index),
                            lease_expires_at_ms: engine::capped_sum(s.now_ms, LEASE_MS),
                        },
                    )
                },
            )
        },
        Answer::Replay(outcome) => {
            if s.committed[index as int] == Some(outcome) {
                Ok(
                    SimView {
                        rng,
                        stats: Stats { replays: (s.stats.replays + 1) as u64, ..s.stats },
                        ..s
                    },
                )
            } else {
                broken(s, index, ViolationKind::ReplayedUncommitted)
            }
        },
        Answer::InProgress => Ok(
            SimView {
                rng,
                stats: Stats { in_progress: (s.stats.in_progress + 1) as u64, ..s.stats },
                ..s
            },
        ),
        Answer::Mismatch => broken(s, index, ViolationKind::UnexpectedMismatch),
    }
}

/// `outcome` becomes the durable outcome of the key with this index, which must
/// have had no other.
pub open spec fn marked_durable(s: SimView, index: u64, outcome: OutcomeView) -> Result<
    SimView,
    Violation,
> {
    match s.durable[index as int] {
        Some(existing) => {
            if existing == outcome {
                Ok(s)
            } else {
                broken(s, index, ViolationKind::DurableChanged)
            }
        },
        None => Ok(SimView { durable: s.durable.update(index as int, Some(outcome)), ..s }),
    }
}

/// A worker commits its outcome under the key that it holds.
pub open spec fn after_commit(s: SimView, worker: Worker) -> Result<SimView, Violation> {
    let at = worker.index as int;
    let after = SimView {
        committed: s.committed.update(at, Some(worker.outcome)),
        stats: Stats { completes_ok: (s.stats.completes_ok + 1) as u64, ..s.stats },
        ..with_record(
            s,
            worker.index,
            StateView::Completed {
                fingerprint: s.records[key_text(worker.index)]->InProgress_fingerprint,
                outcome: worker.outcome,
                completed_at_ms: s.now_ms,
            },
        )
    };
    match s.mode {
        // Durable at once, so a key completes at most once.
        Durability::Strict => {
            if s.completes[at] != 0 {
                broken(s, worker.index, ViolationKind::CompletedTwice)
            } else {
                marked_durable(
                    SimView { completes: s.completes.update(at, 1), ..after },
                    worker.index,
                    worker.outcome,
                )
            }
        },
        // The completion is only in memory until the next flush; a crash before
        // that may revert it, and a retry may complete again.
        Durability::GroupCommit => Ok(after),
    }
}

/// A random worker tries to commit.
pub open spec fn after_complete(s: SimView) -> Result<SimView, Violation> {
    if s.inflight.len() == 0 {
        Ok(s)
    } else {
        let rng = next_random(s.rng);
        let which = (rng as int) % (s.inflight.len() as int);
        let worker = s.inflight[which];
        let left = SimView { rng, inflight: s.inflight.remove(which), ..s };
        match engine::refusal(s.records, key_text(worker.index), worker.fence) {
            None => after_commit(left, worker),
            Some(CompleteError::StaleFence) => Ok(
                SimView {
                    stats: Stats { stale_fences: (s.stats.stale_fences + 1) as u64, ..s.stats },
                    ..left
                },
            ),
            Some(CompleteError::AlreadyCompleted) => {
                if s.committed[worker.index as int] is Some {
                    Ok(
                        SimView {
                            stats: Stats {
                                already_completed: (s.stats.already_completed + 1) as u64,
                                ..s.stats
                            },
                            ..left
                        },
                    )
                } else {
                    broken(s, worker.index, ViolationKind::CompletedUncommitted)
                }
            },
            Some(CompleteError::Unknown) => match s.mode {
                // A begin is durable before its token escapes, so the record
                // always exists at completion time.
                Durability::Strict => broken(s, worker.index, ViolationKind::UnknownCompletion),
                // The begin may have been lost in a crash before the flush, which
                // orphans the token. Refusal is correct: no double effect.
                Durability::GroupCommit => Ok(
                    SimView {
                        stats: Stats {
                            unknown_completes: (s.stats.unknown_completes + 1) as u64,
                            ..s.stats
                        },
                        ..left
                    },
                ),
            },
        }
    }
}

/// The committed outcomes of the first `n` keys become durable.
pub open spec fn marked(s: SimView, n: nat) -> Result<SimView, Violation>
    decreases n,
{
    if n == 0 {
        Ok(s)
    } else {
        let index = (n - 1) as u64;
        match marked(s, (n - 1) as nat) {
            Err(v) => Err(v),
            Ok(t) => match t.committed[index as int] {
                None => Ok(t),
                Some(outcome) => marked_durable(t, index, outcome),
            },
        }
    }
}

/// Group commit: every preceding write becomes durable, and with it every outcome
/// that is committed in memory.
pub open spec fn after_flush(s: SimView) -> Result<SimView, Violation> {
    marked(
        SimView {
            saved: s.records,
            saved_fence: (s.next_fence - 1) as u64,
            stats: Stats { flushes: (s.stats.flushes + 1) as u64, ..s.stats },
            ..s
        },
        KEY_SPACE as nat,
    )
}

/// The clock advances: half the time by a small step, half the time past the
/// lease, which forces takeovers of any key in flight.
pub open spec fn after_advance(s: SimView) -> SimView {
    let coin = next_random(s.rng);
    let rng = next_random(coin);
    let jump = if coin % 2 == 0 {
        rng % (LEASE_MS / 2) + 1
    } else {
        LEASE_MS + rng % LEASE_MS
    };
    SimView { rng, now_ms: (s.now_ms + jump) as u64, ..s }
}

/// What is wrong with the first of the first `n` keys that is committed and does
/// not replay its exact outcome, if there is one.
pub open spec fn lost(s: SimView, n: nat) -> Option<Violation>
    decreases n,
{
    if n == 0 {
        None
    } else {
        let index = (n - 1) as u64;
        match lost(s, (n - 1) as nat) {
            Some(v) => Some(v),
            None => match s.committed[index as int] {
                None => None,
                Some(expected) => {
                    let given = answer_at(s, index);
                    if given == Answer::Replay(expected) {
                        None
                    } else if given is Replay {
                        Some(
                            Violation {
                                seed: s.seed,
                                index,
                                kind: ViolationKind::WrongReplayAfterCrash,
                            },
                        )
                    } else {
                        Some(
                            Violation {
                                seed: s.seed,
                                index,
                                kind: ViolationKind::NoReplayAfterCrash(kind_of_answer(given)),
                            },
                        )
                    }
                },
            },
        }
    }
}

/// The simulation once a crashed engine is recovered from the log. The tokens of
/// the workers in flight survive.
pub open spec fn recovered(s: SimView) -> SimView {
    SimView {
        records: s.saved,
        next_fence: (s.saved_fence + 1) as u64,
        committed: if s.mode is GroupCommit {
            s.durable
        } else {
            s.committed
        },
        stats: Stats { crashes: (s.stats.crashes + 1) as u64, ..s.stats },
        ..s
    }
}

/// The engine crashes and recovers, and every committed key must replay.
pub open spec fn after_crash(s: SimView) -> Result<SimView, Violation> {
    match lost(recovered(s), KEY_SPACE as nat) {
        Some(v) => Err(v),
        None => Ok(recovered(s)),
    }
}

/// The operation that a roll of the dice picks.
pub open spec fn after_roll(s: SimView, roll: u64) -> Result<SimView, Violation> {
    match s.mode {
        Durability::Strict => {
            if roll <= 39 {
                after_begin(s)
            } else if roll <= 69 {
                after_complete(s)
            } else if roll <= 84 {
                Ok(after_advance(s))
            } else {
                after_crash(s)
            }
        },
        Durability::GroupCommit => {
            if roll <= 34 {
                after_begin(s)
            } else if roll <= 59 {
                after_complete(s)
            } else if roll <= 74 {
                after_flush(s)
            } else if roll <= 84 {
                Ok(after_advance(s))
            } else {
                after_crash(s)
            }
        },
    }
}

/// One step: a roll of the dice, and the operation that it picks.
#[verifier::opaque]
pub open spec fn after_step(s: SimView) -> Result<SimView, Violation> {
    let rng = next_random(s.rng);
    match after_roll(SimView { rng, ..s }, (rng % 100) as u64) {
        Err(v) => Err(v),
        Ok(t) => Ok(
            SimView { stats: Stats { steps: (t.stats.steps + 1) as u64, ..t.stats }, ..t },
        ),
    }
}

/// A run of `n` steps, which stops at the first violation.
pub open spec fn after_steps(s: SimView, n: nat) -> Result<SimView, Violation>
    decreases n,
{
    if n == 0 {
        Ok(s)
    } else {
        match after_steps(s, (n - 1) as nat) {
            Err(v) => Err(v),
            Ok(t) => after_step(t),
        }
    }
}

} // verus!
