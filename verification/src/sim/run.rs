//! The simulator.

use crate::bytes;
use crate::bytes::put_u64;
use crate::engine;
use crate::engine::{Begin, CompleteError, Engine, RunToken, DEFAULT_TTL_MS};
use crate::hash::to_array32;
use crate::headers::Headers;
use crate::lex;
use crate::lex::TextBuf;
use crate::sim::model;
use crate::sim::model::{BeginKind, Durability, SimView, Stats, Violation, ViolationKind, Worker};
use crate::sim::model::{KEY_SPACE, LEASE_MS};
use crate::store::{Records, Store};
use crate::wal::codec;
use crate::wal::kept_store::{carry_out, LogKeeper, MemoryKeeper};
use crate::wal::log_store;
use crate::wal::replay;
use crate::wal::WalStore;
use crate::{CachedOutcome, IdempotencyKey, OutcomeView, RequestFingerprint, StateView};
use vstd::prelude::*;
use vstd::utf8::*;

verus! {

/// The number of steps after which a simulation's clock could overflow.
pub const MAX_STEPS: u64 = 9_000_000_000_000_000;

/// A deterministic xorshift generator, reproducible from a seed.
struct Rng(u64);

impl Rng {
    fn new(seed: u64) -> (r: Self)
        ensures
            r.0 == model::seeded(seed),
    {
        // Avoids the zero state, which xorshift cannot leave, for every seed but
        // the mask itself.
        Rng(seed ^ 0x9E37_79B9_7F4A_7C15)
    }

    fn next_u64(&mut self) -> (x: u64)
        ensures
            x == model::next_random(old(self).0),
            final(self).0 == x,
    {
        let mut x: u64 = self.0;
        x = x ^ (x << 13);
        x = x ^ (x >> 7);
        x = x ^ (x << 17);
        self.0 = x;
        x
    }

    fn below(&mut self, n: u64) -> (x: u64)
        requires
            n > 0,
        ensures
            x == model::next_random(old(self).0) % n,
            final(self).0 == model::next_random(old(self).0),
    {
        self.next_u64() % n
    }
}

/// The key with this index.
pub fn key_of(index: u64) -> (key: IdempotencyKey)
    ensures
        key@ == model::key_text(index),
{
    let mut text = TextBuf::new();
    text.push("key-");
    text.push_number(index);
    let key = IdempotencyKey(text.into_text());
    assert(key@ =~= model::key_text(index));
    key
}

/// A stable fingerprint per key, so that the simulation never produces spurious
/// mismatches.
pub fn fingerprint_of(index: u64) -> (fingerprint: RequestFingerprint)
    ensures
        fingerprint@ == model::fingerprint_bytes(index),
{
    let mut b: Vec<u8> = Vec::new();
    put_u64(&mut b, index);
    assert(b@ =~= bytes::le_u64(index));
    while b.len() < 32
        invariant
            8 <= b@.len() <= 32,
            b@ == bytes::le_u64(index) + Seq::new((b@.len() - 8) as nat, |i: int| 0u8),
        decreases 32 - b.len(),
    {
        b.push(0);
        assert(b@ =~= bytes::le_u64(index) + Seq::new((b@.len() - 8) as nat, |i: int| 0u8));
    }
    assert(b@.take(32) =~= model::fingerprint_bytes(index));
    RequestFingerprint(to_array32(b.as_slice()))
}

/// Which decision this is.
fn kind_of(begin: &Begin) -> (kind: BeginKind)
    ensures
        kind == model::kind_of(*begin),
{
    match begin {
        Begin::Run(_) => BeginKind::Run,
        Begin::Replay(_) => BeginKind::Replay,
        Begin::InProgress => BeginKind::InProgress,
        Begin::Mismatch => BeginKind::Mismatch,
    }
}

/// The name of a decision.
pub fn begin_name(kind: BeginKind) -> (name: &'static str)
    ensures
        name@ == match kind {
            BeginKind::Run => "Run"@,
            BeginKind::Replay => "Replay"@,
            BeginKind::InProgress => "InProgress"@,
            BeginKind::Mismatch => "Mismatch"@,
        },
{
    match kind {
        BeginKind::Run => "Run",
        BeginKind::Replay => "Replay",
        BeginKind::InProgress => "InProgress",
        BeginKind::Mismatch => "Mismatch",
    }
}

/// The outcomes of the keys, by their views.
spec fn outcome_views(outcomes: Seq<Option<CachedOutcome>>) -> Seq<Option<OutcomeView>> {
    outcomes.map_values(
        |o: Option<CachedOutcome>|
            match o {
                Some(outcome) => Some(outcome@),
                None => None,
            },
    )
}

/// No outcome for any key.
fn no_outcomes() -> (r: Vec<Option<CachedOutcome>>)
    ensures
        outcome_views(r@) == Seq::new(KEY_SPACE as nat, |i: int| None::<OutcomeView>),
{
    let mut r: Vec<Option<CachedOutcome>> = Vec::new();
    while (r.len() as u64) < KEY_SPACE
        invariant
            r@.len() <= KEY_SPACE,
            forall|i: int| 0 <= i < r@.len() ==> r@[i] is None,
        decreases KEY_SPACE - r@.len(),
    {
        r.push(None);
    }
    assert(outcome_views(r@) =~= Seq::new(KEY_SPACE as nat, |i: int| None::<OutcomeView>));
    r
}

/// A copy of the outcomes of the keys.
fn copy_outcomes(outcomes: &Vec<Option<CachedOutcome>>) -> (r: Vec<Option<CachedOutcome>>)
    ensures
        outcome_views(r@) == outcome_views(outcomes@),
{
    let mut r: Vec<Option<CachedOutcome>> = Vec::new();
    while r.len() < outcomes.len()
        invariant
            r@.len() <= outcomes@.len(),
            outcome_views(r@) == outcome_views(outcomes@).take(r@.len() as int),
        decreases outcomes@.len() - r@.len(),
    {
        let ghost n = r@.len() as int;
        let one: Option<CachedOutcome> = match &outcomes[r.len()] {
            Some(outcome) => Some(outcome.clone()),
            None => None,
        };
        r.push(one);
        assert(outcome_views(r@) =~= outcome_views(outcomes@).take(n + 1));
    }
    assert(outcome_views(r@) =~= outcome_views(outcomes@));
    r
}

/// A worker that holds a run token for a key, plus the outcome it intends to
/// commit. Survives crashes (the worker is a separate process from the gateway).
struct Inflight {
    index: u64,
    token: RunToken,
    outcome: CachedOutcome,
}

impl View for Inflight {
    type V = Worker;

    closed spec fn view(&self) -> Worker {
        Worker { index: self.index, fence: self.token.fence(), outcome: self.outcome@ }
    }
}

impl Inflight {
    spec fn wf(&self) -> bool {
        &&& self.index < KEY_SPACE
        &&& self.token.key() == model::key_text(self.index)
        &&& is_plain(self.outcome@)
    }
}

/// An outcome without headers and with a small body.
spec fn is_plain(outcome: OutcomeView) -> bool {
    outcome.headers.len() == 0 && outcome.body.len() == 8
}

/// The fingerprints in `records` have their full length.
spec fn is_whole(records: Records) -> bool {
    forall|k: Seq<char>| #[trigger]
        records.contains_key(k) ==> match records[k] {
            StateView::InProgress { fingerprint, .. } => fingerprint.len() == 32,
            StateView::Completed { fingerprint, .. } => fingerprint.len() == 32,
        }
}

/// The records that a simulation puts can be written down.
proof fn small_records_are_storable(index: u64, state: StateView)
    requires
        index < KEY_SPACE,
        match state {
            StateView::InProgress { fingerprint, .. } => fingerprint.len() == 32,
            StateView::Completed { fingerprint, outcome, .. } => fingerprint.len() == 32
                && is_plain(outcome),
        },
    ensures
        WalStore::storable(model::key_text(index), state),
{
    let key = model::key_text(index);
    let digits = lex::decimal_text(index as nat);
    reveal_strlit("key-");
    lex::encoding_of_sum("key-"@, digits);
    lex::decimal_bytes(index as nat);
    is_ascii_chars_encode_utf8("key-"@);
    assert(encode_utf8(key).len() == 5);
    assert(codec::sized_text(key).len() == 9);
    if let StateView::Completed { outcome, .. } = state {
        assert(codec::fields_bytes(outcome.headers).len() == 0);
    }
    assert(codec::payload_bytes(key, state).len() <= u32::MAX);
}

/// One simulation run, seeded and self-contained (its own log).
pub struct Simulation {
    seed: u64,
    mode: Durability,
    rng: Rng,
    /// What the disk held when the engine was last opened on it.
    disk: MemoryKeeper,
    engine: Engine<WalStore>,
    now_ms: u64,
    inflight: Vec<Inflight>,
    /// The in-memory committed outcome per key (what a replay must return now). In
    /// group-commit mode a crash resets it to `durable`, since completions that
    /// were not flushed are lost.
    committed: Vec<Option<CachedOutcome>>,
    /// The durable outcome per key: set once it has been flushed, and never to
    /// change. In strict mode a completion is durable at once.
    durable: Vec<Option<CachedOutcome>>,
    /// Count of successful completions per key. In strict mode this stays at most
    /// 1; in group-commit mode a lost completion may be retried, so it is not
    /// counted.
    completes: Vec<u64>,
    /// Monotonic source of distinct outcome bodies.
    next_body: u64,
    stats: Stats,
}

impl View for Simulation {
    type V = SimView;

    closed spec fn view(&self) -> SimView {
        SimView {
            seed: self.seed,
            mode: self.mode,
            rng: self.rng.0,
            records: self.engine.records(),
            saved: self.engine.backing().durable(),
            saved_fence: self.engine.backing().durable_fence(),
            next_fence: self.engine.next_fence(),
            now_ms: self.now_ms,
            inflight: self.inflight@.map_values(|w: Inflight| w@),
            committed: outcome_views(self.committed@),
            durable: outcome_views(self.durable@),
            completes: self.completes@,
            next_body: self.next_body,
            stats: self.stats,
        }
    }
}

/// No counter is above `n`.
spec fn counted_at_most(stats: Stats, n: int) -> bool {
    &&& stats.steps <= n
    &&& stats.runs <= n
    &&& stats.replays <= n
    &&& stats.in_progress <= n
    &&& stats.completes_ok <= n
    &&& stats.stale_fences <= n
    &&& stats.already_completed <= n
    &&& stats.crashes <= n
    &&& stats.takeovers <= n
    &&& stats.flushes <= n
    &&& stats.unknown_completes <= n
}

impl Simulation {
    /// The invariant of a simulation that has done, or is doing, its `n`th step.
    spec fn kept(&self, n: int) -> bool {
        &&& n <= MAX_STEPS
        &&& self.engine.wf()
        &&& self.engine.backing().intact()
        &&& self.engine.backing().strict() == (self.mode is Strict)
        &&& self.engine.backing().medium() == self.disk.contents()
        &&& self.engine.lease_ms() == LEASE_MS
        &&& self.engine.ttl_ms() == DEFAULT_TTL_MS
        &&& self.engine.next_fence() <= n + 1
        &&& self.engine.next_fence() == self.engine.backing().recovered_fence() + 1
        &&& self.engine.backing().durable_fence() <= self.engine.backing().recovered_fence()
        &&& self.mode is Strict ==> self.engine.backing().durable_fence()
            == self.engine.backing().recovered_fence()
        &&& engine::fences_below(self.engine.records(), self.engine.next_fence())
        &&& engine::fences_below(self.engine.backing().durable(), self.engine.next_fence())
        &&& is_whole(self.engine.records())
        &&& is_whole(self.engine.backing().durable())
        &&& forall|i: int| 0 <= i < self.inflight@.len() ==> (#[trigger] self.inflight@[i]).wf()
        &&& self.committed@.len() == KEY_SPACE
        &&& self.durable@.len() == KEY_SPACE
        &&& self.completes@.len() == KEY_SPACE
        &&& 1 <= self.now_ms <= 1 + 1999 * n
        &&& self.next_body <= n
        &&& counted_at_most(self.stats, n)
    }

    /// The invariant of a simulation.
    pub closed spec fn wf(&self) -> bool {
        self.kept(self.stats.steps as int)
    }

    /// Create a fresh **strict-durability** simulation for `seed`.
    pub fn new(seed: u64) -> (r: Self)
        ensures
            r.wf(),
            r@ == model::fresh(seed, Durability::Strict),
    {
        Self::with_mode(seed, Durability::Strict)
    }

    /// Create a fresh simulation for `seed` under durability `mode`, over an empty
    /// log.
    pub fn with_mode(seed: u64, mode: Durability) -> (r: Self)
        ensures
            r.wf(),
            r@ == model::fresh(seed, mode),
    {
        let disk = MemoryKeeper::new();
        proof {
            nothing_replays_to_nothing(disk.contents().log);
        }
        let store = open_store(&disk, mode);
        let mut completes: Vec<u64> = Vec::new();
        while (completes.len() as u64) < KEY_SPACE
            invariant
                completes@.len() <= KEY_SPACE,
                completes@ == Seq::new(completes@.len(), |i: int| 0u64),
            decreases KEY_SPACE - completes@.len(),
        {
            completes.push(0);
            assert(completes@ =~= Seq::new(completes@.len(), |i: int| 0u64));
        }
        let r = Simulation {
            seed,
            mode,
            rng: Rng::new(seed),
            disk,
            engine: Engine::new(store, LEASE_MS),
            now_ms: 1,
            inflight: Vec::new(),
            committed: no_outcomes(),
            durable: no_outcomes(),
            completes,
            next_body: 0,
            stats: Stats::default(),
        };
        assert(r@ =~= model::fresh(seed, mode));
        assert(r.committed@.len() == r@.committed.len());
        assert(r.durable@.len() == r@.durable.len());
        r
    }

    /// Run `steps` operations and return the run's statistics, or the first
    /// violated invariant.
    pub fn run(&mut self, steps: u64) -> (r: Result<Stats, Violation>)
        requires
            old(self).wf(),
            old(self)@.stats.steps + steps <= MAX_STEPS,
        ensures
            match model::after_steps(old(self)@, steps as nat) {
                Ok(s) => r == Ok::<Stats, Violation>(s.stats) && final(self)@ == s
                    && final(self).wf(),
                Err(v) => r == Err::<Stats, Violation>(v),
            },
    {
        let mut done: u64 = 0;
        let ghost start = self@;
        while done < steps
            invariant
                done <= steps,
                start == old(self)@,
                self.wf(),
                self.stats.steps == start.stats.steps + done,
                start.stats.steps + steps <= MAX_STEPS,
                model::after_steps(start, done as nat) == Ok::<SimView, Violation>(self@),
            decreases steps - done,
        {
            let taken = self.step();
            proof {
                assert(model::after_steps(start, (done + 1) as nat) == model::after_step(
                    model::after_steps(start, done as nat)->Ok_0,
                ));
            }
            match taken {
                Ok(()) => {},
                Err(violation) => {
                    proof {
                        the_first_violation_ends_a_run(start, (done + 1) as nat, steps as nat);
                    }
                    return Err(violation);
                },
            }
            done = done + 1;
        }
        Ok(self.stats)
    }

    /// The counters of the run so far.
    pub fn stats(&self) -> (stats: Stats)
        ensures
            stats == self@.stats,
    {
        self.stats
    }

    /// How many keys have a durable outcome.
    pub fn durable_keys(&self) -> (n: usize)
        ensures
            n == count_some(self@.durable),
    {
        let mut n: usize = 0;
        let mut i: usize = 0;
        assert(self@.durable.take(0) =~= Seq::<Option<OutcomeView>>::empty());
        while i < self.durable.len()
            invariant
                i <= self.durable@.len(),
                n <= i,
                n == count_some(self@.durable.take(i as int)),
            decreases self.durable@.len() - i,
        {
            proof {
                assert(self@.durable.take(i + 1).drop_last() =~= self@.durable.take(i as int));
            }
            if self.durable[i].is_some() {
                n = n + 1;
            }
            i = i + 1;
        }
        assert(self@.durable.take(i as int) =~= self@.durable);
        n
    }

    /// `self` is `before` after an operation that gave `r`, where `want` is what
    /// the operation is to do.
    spec fn goes(
        &self,
        before: &Self,
        r: Result<(), Violation>,
        want: Result<SimView, Violation>,
    ) -> bool {
        match want {
            Ok(s) => {
                &&& r is Ok
                &&& self@ == s
                &&& self.stats.steps == before.stats.steps
                &&& self.kept(before.stats.steps + 1)
            },
            Err(v) => r == Err::<(), Violation>(v),
        }
    }

    fn step(&mut self) -> (r: Result<(), Violation>)
        requires
            old(self).wf(),
            old(self).stats.steps < MAX_STEPS,
        ensures
            match model::after_step(old(self)@) {
                Ok(s) => {
                    &&& r is Ok
                    &&& final(self)@ == s
                    &&& final(self).wf()
                    &&& final(self).stats.steps == old(self).stats.steps + 1
                },
                Err(v) => r == Err::<(), Violation>(v),
            },
    {
        reveal(model::after_step);
        let roll: u64 = self.rng.below(100);
        let ghost rolled = self@;
        assert(rolled =~= SimView { rng: model::next_random(old(self)@.rng), ..old(self)@ });
        let taken = match self.mode {
            // No flush step: every write is durable the instant it commits.
            Durability::Strict => {
                if roll <= 39 {
                    self.do_begin()
                } else if roll <= 69 {
                    self.do_complete()
                } else if roll <= 84 {
                    self.do_advance_clock();
                    Ok(())
                } else {
                    self.do_crash()
                }
            },
            // Explicit flushes interleave; crashes between them are where writes
            // are lost.
            Durability::GroupCommit => {
                if roll <= 34 {
                    self.do_begin()
                } else if roll <= 59 {
                    self.do_complete()
                } else if roll <= 74 {
                    self.do_flush()
                } else if roll <= 84 {
                    self.do_advance_clock();
                    Ok(())
                } else {
                    self.do_crash()
                }
            },
        };
        match taken {
            Ok(()) => {
                let ghost moved = self@;
                self.stats.steps = self.stats.steps + 1;
                assert(self@ =~= SimView {
                    stats: Stats { steps: (moved.stats.steps + 1) as u64, ..moved.stats },
                    ..moved
                });
                Ok(())
            },
            Err(violation) => Err(violation),
        }
    }

    /// Group commit: flush the log, making every preceding write durable. Every
    /// key that is committed in memory becomes durable, and its durable outcome
    /// must never change.
    fn do_flush(&mut self) -> (r: Result<(), Violation>)
        requires
            old(self).wf(),
            old(self).stats.steps < MAX_STEPS,
        ensures
            final(self).goes(old(self), r, model::after_flush(old(self)@)),
    {
        let ghost n = self.stats.steps + 1;
        self.stats.flushes = self.stats.flushes + 1;
        self.engine.flush();
        let ghost flushed = self@;
        assert(flushed =~= SimView {
            saved: old(self)@.records,
            saved_fence: (old(self)@.next_fence - 1) as u64,
            stats: Stats { flushes: (old(self)@.stats.flushes + 1) as u64, ..old(self)@.stats },
            ..old(self)@
        });
        let mut index: u64 = 0;
        while index < KEY_SPACE
            invariant
                index <= KEY_SPACE,
                self.kept(n),
                n == old(self).stats.steps + 1,
                self.stats.steps == old(self).stats.steps,
                model::marked(flushed, index as nat) == Ok::<SimView, Violation>(self@),
                model::after_flush(old(self)@) == model::marked(flushed, KEY_SPACE as nat),
            decreases KEY_SPACE - index,
        {
            let ghost here = self@;
            assert(model::marked(flushed, (index + 1) as nat) == match here.committed[index as int] {
                None => Ok::<SimView, Violation>(here),
                Some(outcome) => model::marked_durable(here, index, outcome),
            });
            let outcome: Option<CachedOutcome> = match &self.committed[index as usize] {
                Some(outcome) => Some(outcome.clone()),
                None => None,
            };
            if let Some(outcome) = outcome {
                match self.mark_durable(index, outcome, Ghost(n)) {
                    Ok(()) => {},
                    Err(violation) => {
                        proof {
                            the_first_change_ends_a_flush(
                                flushed,
                                (index + 1) as nat,
                                KEY_SPACE as nat,
                            );
                        }
                        return Err(violation);
                    },
                }
            }
            index = index + 1;
        }
        Ok(())
    }

    /// Record `outcome` as the durable outcome for `index`: once a key is durable,
    /// its outcome never changes.
    fn mark_durable(&mut self, index: u64, outcome: CachedOutcome, Ghost(n): Ghost<int>) -> (r:
        Result<(), Violation>)
        requires
            index < KEY_SPACE,
            old(self).kept(n),
        ensures
            match model::marked_durable(old(self)@, index, outcome@) {
                Ok(s) => {
                    &&& r is Ok
                    &&& final(self)@ == s
                    &&& final(self).kept(n)
                    &&& final(self).stats == old(self).stats
                },
                Err(v) => r == Err::<(), Violation>(v),
            },
    {
        let at: usize = index as usize;
        match &self.durable[at] {
            Some(existing) => {
                if existing.same(&outcome) {
                    Ok(())
                } else {
                    Err(Violation { seed: self.seed, index, kind: ViolationKind::DurableChanged })
                }
            },
            None => {
                let ghost o = outcome@;
                self.durable.set(at, Some(outcome));
                proof {
                    assert(self@.durable =~= old(self)@.durable.update(index as int, Some(o)));
                    assert(self@ =~= SimView {
                        durable: old(self)@.durable.update(index as int, Some(o)),
                        ..old(self)@
                    });
                }
                Ok(())
            },
        }
    }

    /// The next outcome, distinct from all before it.
    fn make_outcome(&mut self) -> (outcome: CachedOutcome)
        requires
            old(self).next_body < u64::MAX,
        ensures
            *final(self) == (Simulation {
                next_body: (old(self).next_body + 1) as u64,
                ..*old(self)
            }),
            outcome@ == model::numbered_outcome(final(self).next_body),
            is_plain(outcome@),
    {
        self.next_body = self.next_body + 1;
        let mut body: Vec<u8> = Vec::new();
        put_u64(&mut body, self.next_body);
        let outcome = CachedOutcome { status: 200, headers: Headers::new(), body };
        assert(outcome@ =~= model::numbered_outcome(self.next_body));
        outcome
    }

    /// Whether a worker holds a token for the key with this index.
    fn has_inflight(&self, index: u64) -> (r: bool)
        ensures
            r == model::has_worker(self@, index),
    {
        let mut i: usize = 0;
        while i < self.inflight.len()
            invariant
                i <= self.inflight@.len(),
                forall|j: int| 0 <= j < i ==> (#[trigger] self@.inflight[j]).index != index,
            decreases self.inflight@.len() - i,
        {
            assert(self@.inflight[i as int] == self.inflight@[i as int]@);
            if self.inflight[i].index == index {
                return true;
            }
            i = i + 1;
        }
        false
    }
    fn do_begin(&mut self) -> (r: Result<(), Violation>)
        requires
            old(self).wf(),
            old(self).stats.steps < MAX_STEPS,
        ensures
            final(self).goes(old(self), r, model::after_begin(old(self)@)),
    {
        let index: u64 = self.rng.below(KEY_SPACE);
        let key = key_of(index);
        let fingerprint = fingerprint_of(index);
        let had_inflight: bool = self.has_inflight(index);
        let ghost before = self.engine;
        proof {
            assert(self@.inflight =~= old(self)@.inflight);
            small_records_are_storable(
                index,
                StateView::InProgress {
                    fence: self.engine.next_fence(),
                    fingerprint: fingerprint@,
                    lease_expires_at_ms: engine::capped_sum(self.now_ms, LEASE_MS),
                },
            );
        }
        match self.engine.begin(key, fingerprint, self.now_ms) {
            Begin::Run(token) => {
                self.stats.runs = self.stats.runs + 1;
                if had_inflight {
                    // A new token was issued while another worker held one: this is
                    // a lease takeover. The old token is now stale.
                    self.stats.takeovers = self.stats.takeovers + 1;
                }
                let outcome = self.make_outcome();
                self.inflight.push(Inflight { index, token, outcome });
                proof {
                    let want = model::after_begin(old(self)@)->Ok_0;
                    assert(self@.inflight =~= want.inflight);
                    assert(self@ =~= want);
                }
                Ok(())
            },
            Begin::Replay(outcome) => {
                let same: bool = match &self.committed[index as usize] {
                    Some(expected) => expected.same(&outcome),
                    None => false,
                };
                if !same {
                    return Err(
                        Violation {
                            seed: self.seed,
                            index,
                            kind: ViolationKind::ReplayedUncommitted,
                        },
                    );
                }
                self.stats.replays = self.stats.replays + 1;
                assert(self@ =~= model::after_begin(old(self)@)->Ok_0);
                Ok(())
            },
            Begin::InProgress => {
                self.stats.in_progress = self.stats.in_progress + 1;
                assert(self@ =~= model::after_begin(old(self)@)->Ok_0);
                Ok(())
            },
            Begin::Mismatch => Err(
                Violation { seed: self.seed, index, kind: ViolationKind::UnexpectedMismatch },
            ),
        }
    }

    fn do_complete(&mut self) -> (r: Result<(), Violation>)
        requires
            old(self).wf(),
            old(self).stats.steps < MAX_STEPS,
        ensures
            final(self).goes(old(self), r, model::after_complete(old(self)@)),
    {
        if self.inflight.len() == 0 {
            return Ok(());
        }
        let which: usize = self.rng.below(self.inflight.len() as u64) as usize;
        let worker = self.inflight.remove(which);
        let index: u64 = worker.index;
        let ghost w = worker@;
        let ghost n = self.stats.steps + 1;
        let ghost left = self@;
        proof {
            assert(w == old(self)@.inflight[which as int]);
            assert(left.inflight =~= old(self)@.inflight.remove(which as int));
            if self.engine.records().contains_key(model::key_text(index)) {
                if let StateView::InProgress { fingerprint, .. } =
                    self.engine.records()[model::key_text(index)] {
                    small_records_are_storable(
                        index,
                        StateView::Completed {
                            fingerprint,
                            outcome: w.outcome,
                            completed_at_ms: self.now_ms,
                        },
                    );
                }
            }
        }
        match self.engine.complete(worker.token, worker.outcome.clone(), self.now_ms) {
            Ok(()) => {
                let at: usize = index as usize;
                self.stats.completes_ok = self.stats.completes_ok + 1;
                self.committed.set(at, Some(worker.outcome.clone()));
                assert(self@.committed =~= left.committed.update(index as int, Some(w.outcome)));
                match self.mode {
                    Durability::Strict => {
                        // Durable at once, so a key completes at most once.
                        if self.completes[at] != 0 {
                            return Err(
                                Violation {
                                    seed: self.seed,
                                    index,
                                    kind: ViolationKind::CompletedTwice,
                                },
                            );
                        }
                        self.completes.set(at, 1);
                        self.mark_durable(index, worker.outcome, Ghost(n))
                    },
                    // The completion is only in memory until the next flush; a
                    // crash before that may revert it, and a retry may complete
                    // again. Durability is checked at flush time.
                    Durability::GroupCommit => Ok(()),
                }
            },
            Err(CompleteError::StaleFence) => {
                // A superseded worker is refused.
                self.stats.stale_fences = self.stats.stale_fences + 1;
                Ok(())
            },
            Err(CompleteError::AlreadyCompleted) => {
                if self.committed[index as usize].is_none() {
                    return Err(
                        Violation {
                            seed: self.seed,
                            index,
                            kind: ViolationKind::CompletedUncommitted,
                        },
                    );
                }
                self.stats.already_completed = self.stats.already_completed + 1;
                Ok(())
            },
            Err(CompleteError::Unknown) => match self.mode {
                // A begin is durable before its token escapes, so the record
                // always exists at completion time.
                Durability::Strict => Err(
                    Violation { seed: self.seed, index, kind: ViolationKind::UnknownCompletion },
                ),
                // The begin may have been lost in a crash before the flush, which
                // orphans the token. Refusal is correct: no double effect.
                Durability::GroupCommit => {
                    self.stats.unknown_completes = self.stats.unknown_completes + 1;
                    Ok(())
                },
            },
        }
    }

    fn do_advance_clock(&mut self)
        requires
            old(self).wf(),
            old(self).stats.steps < MAX_STEPS,
        ensures
            final(self).goes(old(self), Ok(()), Ok(model::after_advance(old(self)@))),
    {
        // Half the time a small step; half the time past the lease (forcing
        // takeovers of any key in flight).
        let jump: u64 = if self.rng.below(2) == 0 {
            self.rng.below(LEASE_MS / 2) + 1
        } else {
            LEASE_MS + self.rng.below(LEASE_MS)
        };
        self.now_ms = self.now_ms + jump;
        assert(self@ =~= model::after_advance(old(self)@));
    }

    fn do_crash(&mut self) -> (r: Result<(), Violation>)
        requires
            old(self).wf(),
            old(self).stats.steps < MAX_STEPS,
        ensures
            final(self).goes(old(self), r, model::after_crash(old(self)@)),
    {
        self.stats.crashes = self.stats.crashes + 1;

        // Drop the engine and recover from disk, on which every issued write has
        // been carried out. In-flight worker tokens deliberately survive (a worker
        // outlives a gateway crash).
        let mut disk = self.disk.clone();
        carry_out(&mut disk, self.engine.store().writes());
        let ghost crashed = self.engine.backing();
        proof {
            log_store::carrying_out_the_writes_gives_the_image(&crashed);
            log_store::an_intact_log_replays(&crashed);
        }
        let reopened = open_store(&disk, self.mode);
        proof {
            log_store::a_reopened_log_holds_the_durable_records(
                &crashed,
                self.mode is Strict,
                Ok(reopened),
            );
            log_store::a_recovered_fence_covers_the_records(&reopened);
        }
        self.engine = Engine::new(reopened, LEASE_MS);
        self.disk = disk;

        // A crash loses every write that was not flushed, so what counts as
        // committed falls back to what was durable. (In strict mode that is the
        // same.)
        if self.mode == Durability::GroupCommit {
            self.committed = copy_outcomes(&self.durable);
        }
        let ghost back = self@;
        assert(self.committed@.len() == back.committed.len());
        assert(back =~= model::recovered(old(self)@));

        // Every committed key replays its exact outcome after the crash.
        let mut index: u64 = 0;
        while index < KEY_SPACE
            invariant
                index <= KEY_SPACE,
                self.kept(old(self).stats.steps + 1),
                self.stats.steps == old(self).stats.steps,
                old(self).stats.steps < MAX_STEPS,
                self@ == back,
                back == model::recovered(old(self)@),
                model::lost(back, index as nat) is None,
            decreases KEY_SPACE - index,
        {
            if self.committed[index as usize].is_some() {
                let given = self.engine.begin(key_of(index), fingerprint_of(index), self.now_ms);
                let broken: Option<ViolationKind> = match (&self.committed[index as usize], &given) {
                    (Some(expected), Begin::Replay(got)) => {
                        if got.same(expected) {
                            None
                        } else {
                            Some(ViolationKind::WrongReplayAfterCrash)
                        }
                    },
                    (_, other) => Some(ViolationKind::NoReplayAfterCrash(kind_of(other))),
                };
                if let Some(kind) = broken {
                    proof {
                        the_first_loss_is_reported(back, (index + 1) as nat, KEY_SPACE as nat);
                    }
                    return Err(Violation { seed: self.seed, index, kind });
                }
            }
            index = index + 1;
        }
        Ok(())
    }
}

/// How many of `outcomes` there are.
pub open spec fn count_some(outcomes: Seq<Option<OutcomeView>>) -> nat
    decreases outcomes.len(),
{
    if outcomes.len() == 0 {
        0
    } else {
        count_some(outcomes.drop_last()) + if outcomes.last() is Some {
            1nat
        } else {
            0
        }
    }
}

/// An empty log replays to no records.
proof fn nothing_replays_to_nothing(log: Seq<u8>)
    requires
        log.len() == 0,
    ensures
        replay::is_clean(log),
        replay::replay(log).records == Records::empty(),
        replay::replay(log).fence == 0,
{
    let history = Seq::<(Seq<char>, StateView)>::empty();
    replay::replay_recovers_what_was_written(history);
    assert(log =~= replay::log_of(history));
}

/// A run stops at its first violation.
proof fn the_first_violation_ends_a_run(s: SimView, n: nat, m: nat)
    requires
        n <= m,
        model::after_steps(s, n) is Err,
    ensures
        model::after_steps(s, m) == model::after_steps(s, n),
    decreases m,
{
    if n < m {
        the_first_violation_ends_a_run(s, n, (m - 1) as nat);
    }
}

/// A flush stops at the first durable outcome that changed.
proof fn the_first_change_ends_a_flush(s: SimView, n: nat, m: nat)
    requires
        n <= m,
        model::marked(s, n) is Err,
    ensures
        model::marked(s, m) == model::marked(s, n),
    decreases m,
{
    if n < m {
        the_first_change_ends_a_flush(s, n, (m - 1) as nat);
    }
}

/// A crash reports the first committed key that is lost.
proof fn the_first_loss_is_reported(s: SimView, n: nat, m: nat)
    requires
        n <= m,
        model::lost(s, n) is Some,
    ensures
        model::lost(s, m) == model::lost(s, n),
    decreases m,
{
    if n < m {
        the_first_loss_is_reported(s, n, (m - 1) as nat);
    }
}

/// Open the log in the discipline that a simulation drives.
fn open_store(disk: &MemoryKeeper, mode: Durability) -> (store: WalStore)
    requires
        replay::is_clean(disk.contents().log),
    ensures
        log_store::opened(disk.contents(), mode is Strict, Ok(store)),
{
    let sync_each: bool = match mode {
        Durability::Strict => true,
        Durability::GroupCommit => false,
    };
    WalStore::open_with(disk.log(), disk.floor(), sync_each).unwrap()
}

} // verus!
