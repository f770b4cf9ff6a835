//! Abuse defense: how many operations has this actor performed lately?
//!
//! [`SlidingWindowLimiter`] keeps two counters per key, for the current and the
//! previous fixed window, and estimates the trailing-window rate as the current
//! count plus the previous count weighted by how much of the previous window still
//! overlaps the trailing one. That is constant memory per key, and, unlike a fixed
//! window, it denies a burst across a window boundary. The number of tracked keys
//! is capped, so rotating through fresh keys cannot exhaust memory.
//!
//! Time is injected (`now_ms`) and assumed monotonic non-decreasing.

use crate::table::Table;
use crate::text::copy_text;
use vstd::prelude::*;

verus! {

/// Default cap on the keys that a limiter tracks.
pub const DEFAULT_MAX_KEYS: usize = 100_000;

/// The verdict for one request against a limiter.
#[derive(Debug, Clone, Copy, PartialEq, Eq)]
pub enum Decision {
    /// Within budget: let it through.
    Allow,
    /// Over budget: reject (or, at a higher layer, challenge or throttle).
    Deny,
}

/// The two fixed-window counters tracked per key.
#[derive(Clone, Copy)]
pub struct WindowCounter {
    /// Index of the window that `current` belongs to (`now_ms / window_ms`).
    pub window_index: u64,
    /// Hits recorded in the current window.
    pub current: u64,
    /// Hits recorded in the immediately preceding window.
    pub previous: u64,
}

/// The counters of a key that has not been seen before.
pub open spec fn fresh_counter(window_index: u64) -> WindowCounter {
    WindowCounter { window_index, current: 0, previous: 0 }
}

/// `c` rolled forward to `window_index`: one window on, what was current becomes
/// previous; further on, nothing recent survives; otherwise it stays.
pub open spec fn rolled(c: WindowCounter, window_index: u64) -> WindowCounter {
    if window_index == c.window_index + 1 {
        WindowCounter { window_index, current: 0, previous: c.current }
    } else if window_index > c.window_index + 1 {
        fresh_counter(window_index)
    } else {
        c
    }
}

/// `c` with one more hit in the window `window_index`. A counter stops at the
/// largest value there is.
pub open spec fn hit(c: WindowCounter, window_index: u64) -> WindowCounter {
    let r = rolled(c, window_index);
    WindowCounter {
        current: if r.current == u64::MAX {
            u64::MAX
        } else {
            (r.current + 1) as u64
        },
        ..r
    }
}

/// The estimated trailing-window rate at `now_ms` does not exceed `limit`:
/// `current + previous * (window_ms - elapsed) / window_ms <= limit`.
pub open spec fn within_budget(c: WindowCounter, window_ms: u64, limit: u64, now_ms: u64) -> bool {
    c.current * window_ms + c.previous * (window_ms - now_ms % window_ms) <= limit * window_ms
}

/// The counters by key.
pub type Counters = Map<Seq<char>, WindowCounter>;

/// The counter of `key` after a hit at `now_ms`.
pub open spec fn counter_after(
    counters: Counters,
    key: Seq<char>,
    window_ms: u64,
    now_ms: u64,
) -> WindowCounter {
    let window_index = now_ms / window_ms;
    if counters.contains_key(key) {
        hit(counters[key], window_index)
    } else {
        hit(fresh_counter(window_index), window_index)
    }
}

/// `after` is `before` with `key` set to `value`; where `key` is new and `cap`
/// keys are tracked already, one of them makes room.
pub open spec fn admitted<V>(
    before: Map<Seq<char>, V>,
    after: Map<Seq<char>, V>,
    key: Seq<char>,
    value: V,
    cap: nat,
) -> bool {
    if before.contains_key(key) || before.dom().len() < cap {
        after == before.insert(key, value)
    } else {
        exists|victim: Seq<char>| #[trigger]
            before.contains_key(victim) && after == before.remove(victim).insert(key, value)
    }
}

/// A sliding-window rate limiter: constant memory per key, a capped number of
/// keys, and resistant to window-boundary bursting.
pub struct SlidingWindowLimiter {
    window_ms: u64,
    limit: u64,
    max_keys: usize,
    hand: usize,
    counters: Table<WindowCounter>,
}

impl SlidingWindowLimiter {
    /// The window is not empty, and no more keys are tracked than the cap allows.
    pub closed spec fn wf(&self) -> bool {
        &&& self.window_ms > 0
        &&& self.max_keys > 0
        &&& self.counters.wf()
        &&& self.counters@.dom().len() <= self.max_keys
    }

    /// The counters by key.
    pub closed spec fn counters(&self) -> Counters {
        self.counters@
    }

    /// The length of a window.
    pub closed spec fn window_ms(&self) -> u64 {
        self.window_ms
    }

    /// How many hits a trailing window may hold.
    pub closed spec fn limit(&self) -> u64 {
        self.limit
    }

    /// How many keys may be tracked.
    pub closed spec fn max_keys(&self) -> nat {
        self.max_keys as nat
    }

    /// The decision for a hit of `key` at `now_ms`.
    pub open spec fn decision(&self, key: Seq<char>, now_ms: u64) -> Decision {
        if within_budget(
            counter_after(self.counters(), key, self.window_ms(), now_ms),
            self.window_ms(),
            self.limit(),
            now_ms,
        ) {
            Decision::Allow
        } else {
            Decision::Deny
        }
    }

    /// `self` is `before` after a hit of `key` at `now_ms`.
    pub open spec fn follows_hit(&self, before: &Self, key: Seq<char>, now_ms: u64) -> bool {
        &&& self.window_ms() == before.window_ms()
        &&& self.limit() == before.limit()
        &&& self.max_keys() == before.max_keys()
        &&& admitted(
            before.counters(),
            self.counters(),
            key,
            counter_after(before.counters(), key, before.window_ms(), now_ms),
            before.max_keys(),
        )
    }

    /// Create a limiter allowing up to `limit` hits per trailing `window_ms`.
    pub fn new(window_ms: u64, limit: u64) -> (r: Self)
        requires
            window_ms > 0,
        ensures
            r.wf(),
            r.window_ms() == window_ms,
            r.limit() == limit,
            r.max_keys() == DEFAULT_MAX_KEYS,
            r.max_keys() == 100_000,
            r.counters() == Counters::empty(),
    {
        Self::with_capacity(window_ms, limit, DEFAULT_MAX_KEYS)
    }

    /// As [`new`](Self::new), with an explicit cap on tracked keys.
    pub fn with_capacity(window_ms: u64, limit: u64, max_keys: usize) -> (r: Self)
        requires
            window_ms > 0,
            max_keys > 0,
        ensures
            r.wf(),
            r.window_ms() == window_ms,
            r.limit() == limit,
            r.max_keys() == max_keys,
            r.counters() == Counters::empty(),
    {
        SlidingWindowLimiter { window_ms, limit, max_keys, hand: 0, counters: Table::new() }
    }

    /// Number of keys currently tracked (bounded by the cap).
    pub fn tracked_keys(&self) -> (n: usize)
        requires
            self.wf(),
        ensures
            n == self.counters().dom().len(),
            n <= self.max_keys(),
    {
        self.counters.len()
    }

    /// Record a hit for `key` at `now_ms` and return whether it is within budget.
    pub fn check(&mut self, key: &str, now_ms: u64) -> (r: Decision)
        requires
            old(self).wf(),
        ensures
            final(self).wf(),
            r == old(self).decision(key@, now_ms),
            final(self).follows_hit(old(self), key@, now_ms),
    {
        let window_index: u64 = now_ms / self.window_ms;
        let position = self.counters.position(key);
        let mut counter = match position {
            Some(i) => *self.counters.value_at(i),
            None => WindowCounter { window_index, current: 0, previous: 0 },
        };
        if window_index > counter.window_index {
            if window_index - counter.window_index == 1 {
                counter = WindowCounter { window_index, current: 0, previous: counter.current };
            } else {
                counter = WindowCounter { window_index, current: 0, previous: 0 };
            }
        }
        counter.current = counter.current.saturating_add(1);
        let allowed: bool = fits(counter, self.window_ms, self.limit, now_ms);
        let ghost before = self.counters@;
        proof {
            self.counters.keys_cover();
        }
        match position {
            Some(i) => {
                let _ = self.counters.replace_value(i, counter);
                assert(self.counters@.dom() =~= before.dom());
            },
            None => {
                let n: usize = self.counters.len();
                if n < self.max_keys {
                    self.counters.insert(copy_text(key), counter);
                    assert(self.counters@.dom() =~= before.dom().insert(key@));
                } else {
                    let i: usize = if self.hand < n {
                        self.hand
                    } else {
                        0
                    };
                    let ghost victim = self.counters.keys()[i as int];
                    assert(self.counters.keys().contains(victim));
                    assert(before.contains_key(victim));
                    self.counters.supplant(i, copy_text(key), counter);
                    self.hand = i + 1;
                    assert(self.counters@.dom() =~= before.dom().remove(victim).insert(key@));
                }
            },
        }
        if allowed {
            Decision::Allow
        } else {
            Decision::Deny
        }
    }
}

/// Whether the estimated rate fits the budget, in exact integer arithmetic.
fn fits(c: WindowCounter, window_ms: u64, limit: u64, now_ms: u64) -> (r: bool)
    requires
        window_ms > 0,
    ensures
        r == within_budget(c, window_ms, limit, now_ms),
{
    let overlap: u64 = window_ms - now_ms % window_ms;
    proof {
        assert(c.previous * overlap >= 0) by (nonlinear_arith);
    }
    if c.current > limit {
        proof {
            assert(c.current * window_ms > limit * window_ms) by (nonlinear_arith)
                requires
                    c.current > limit,
                    window_ms > 0,
            ;
        }
        return false;
    }
    let room: u64 = limit - c.current;
    proof {
        assert(room * window_ms <= 0xffff_ffff_ffff_ffff * 0xffff_ffff_ffff_ffff)
            by (nonlinear_arith)
            requires
                room <= 0xffff_ffff_ffff_ffff,
                window_ms <= 0xffff_ffff_ffff_ffff,
        ;
        assert(c.previous * overlap <= 0xffff_ffff_ffff_ffff * 0xffff_ffff_ffff_ffff)
            by (nonlinear_arith)
            requires
                c.previous <= 0xffff_ffff_ffff_ffff,
                overlap <= 0xffff_ffff_ffff_ffff,
        ;
        assert(limit * window_ms == c.current * window_ms + room * window_ms) by (nonlinear_arith)
            requires
                limit == c.current + room,
        ;
    }
    c.previous as u128 * overlap as u128 <= room as u128 * window_ms as u128
}

/// What to do when a rule's budget is exceeded. The engine only classifies; how
/// to act is the caller's.
#[derive(Debug, Clone, Copy, PartialEq, Eq)]
pub enum Action {
    /// Make the caller prove itself.
    Challenge,
    /// Deliberately slow the caller down.
    Throttle,
    /// Reject outright.
    Block,
}

/// The outcome of evaluating a [`RuleSet`] for one request.
#[derive(Debug, PartialEq, Eq)]
pub enum Verdict {
    /// No rule tripped.
    Allow,
    /// A rule tripped: `rule` names it, `action` is what to do.
    Deny { rule: String, action: Action },
}

impl Clone for Verdict {
    fn clone(&self) -> (r: Self)
        ensures
            r.tripped() == self.tripped(),
    {
        match self {
            Verdict::Allow => Verdict::Allow,
            Verdict::Deny { rule, action } => Verdict::Deny { rule: rule.clone(), action: *action },
        }
    }
}

impl Verdict {
    /// The name and action of the rule that tripped, if one did.
    pub open spec fn tripped(&self) -> Option<(Seq<char>, Action)> {
        match *self {
            Verdict::Allow => None,
            Verdict::Deny { rule, action } => Some((rule@, action)),
        }
    }
}

/// One named limit and the action to take when it is exceeded.
pub struct Rule {
    name: String,
    limiter: SlidingWindowLimiter,
    action: Action,
}

impl Rule {
    pub closed spec fn name(&self) -> Seq<char> {
        self.name@
    }

    pub closed spec fn limiter(&self) -> SlidingWindowLimiter {
        self.limiter
    }

    pub closed spec fn action(&self) -> Action {
        self.action
    }
}

/// The first of `rules` that denies a hit of `key` at `now_ms`.
pub open spec fn first_tripped(rules: Seq<Rule>, key: Seq<char>, now_ms: u64) -> Option<
    (Seq<char>, Action),
>
    decreases rules.len(),
{
    if rules.len() == 0 {
        None
    } else if first_tripped(rules.drop_last(), key, now_ms) is Some {
        first_tripped(rules.drop_last(), key, now_ms)
    } else if rules.last().limiter().decision(key, now_ms) is Deny {
        Some((rules.last().name(), rules.last().action()))
    } else {
        None
    }
}

/// An ordered set of rate-limit rules evaluated together over the same key. Every
/// rule is recorded on each request (so each dimension stays accurate), and the
/// first rule to trip, in insertion order, decides the verdict.
pub struct RuleSet {
    rules: Vec<Rule>,
}

impl RuleSet {
    pub closed spec fn rules(&self) -> Seq<Rule> {
        self.rules@
    }

    /// Every rule's limiter is well-formed.
    pub open spec fn wf(&self) -> bool {
        forall|i: int| 0 <= i < self.rules().len() ==> (#[trigger] self.rules()[i]).limiter().wf()
    }

    /// `self` is `before` after a hit of `key` at `now_ms` was recorded against
    /// every rule.
    pub open spec fn follows_hit(&self, before: &Self, key: Seq<char>, now_ms: u64) -> bool {
        &&& self.rules().len() == before.rules().len()
        &&& forall|i: int|
            0 <= i < before.rules().len() ==> {
                &&& (#[trigger] self.rules()[i]).name() == before.rules()[i].name()
                &&& self.rules()[i].action() == before.rules()[i].action()
                &&& self.rules()[i].limiter().follows_hit(
                    &before.rules()[i].limiter(),
                    key,
                    now_ms,
                )
            }
    }

    /// An empty rule set (allows everything).
    pub fn new() -> (r: Self)
        ensures
            r.wf(),
            r.rules().len() == 0,
    {
        RuleSet { rules: Vec::new() }
    }

    /// Add a rule: up to `limit` hits per trailing `window_ms`, else `action`.
    pub fn rule(self, name: &str, window_ms: u64, limit: u64, action: Action) -> (r: Self)
        requires
            self.wf(),
            window_ms > 0,
        ensures
            r.wf(),
            r.rules().len() == self.rules().len() + 1,
            r.rules().drop_last() == self.rules(),
            r.rules().last().name() == name@,
            r.rules().last().action() == action,
            r.rules().last().limiter().window_ms() == window_ms,
            r.rules().last().limiter().limit() == limit,
            r.rules().last().limiter().max_keys() == DEFAULT_MAX_KEYS,
            r.rules().last().limiter().max_keys() == 100_000,
            r.rules().last().limiter().counters() == Counters::empty(),
    {
        let mut rules = self.rules;
        rules.push(
            Rule {
                name: copy_text(name),
                limiter: SlidingWindowLimiter::new(window_ms, limit),
                action,
            },
        );
        let r = RuleSet { rules };
        assert(r.rules().drop_last() =~= self.rules());
        assert forall|i: int| 0 <= i < r.rules().len() implies (
        #[trigger] r.rules()[i]).limiter().wf() by {
            if i < self.rules().len() {
                assert(r.rules()[i] == self.rules()[i]);
            }
        }
        r
    }

    /// Record this request against every rule and return the verdict.
    pub fn evaluate(&mut self, key: &str, now_ms: u64) -> (r: Verdict)
        requires
            old(self).wf(),
        ensures
            final(self).wf(),
            r.tripped() == first_tripped(old(self).rules(), key@, now_ms),
            final(self).follows_hit(old(self), key@, now_ms),
    {
        let ghost before = self.rules@;
        let mut verdict = Verdict::Allow;
        let mut i: usize = 0;
        assert(before.take(0) =~= Seq::<Rule>::empty());
        while i < self.rules.len()
            invariant
                before == old(self).rules@,
                i <= self.rules@.len(),
                self.rules@.len() == before.len(),
                verdict.tripped() == first_tripped(before.take(i as int), key@, now_ms),
                forall|j: int| 0 <= j < before.len() ==> (#[trigger] self.rules@[j]).limiter.wf(),
                forall|j: int| i <= j < before.len() ==> #[trigger] self.rules@[j] == before[j],
                forall|j: int|
                    0 <= j < i ==> {
                        &&& (#[trigger] self.rules@[j]).name() == before[j].name()
                        &&& self.rules@[j].action() == before[j].action()
                        &&& self.rules@[j].limiter().follows_hit(
                            &before[j].limiter(),
                            key@,
                            now_ms,
                        )
                    },
            decreases self.rules@.len() - i,
        {
            assert(before.take(i + 1).drop_last() =~= before.take(i as int));
            assert(before.take(i + 1).last() == before[i as int]);
            assert(self.rules@[i as int] == before[i as int]);
            let decision = self.rules[i].limiter.check(key, now_ms);
            if let Decision::Deny = decision {
                if let Verdict::Allow = verdict {
                    verdict = Verdict::Deny {
                        rule: self.rules[i].name.clone(),
                        action: self.rules[i].action,
                    };
                }
            }
            i = i + 1;
        }
        assert(before.take(i as int) =~= before);
        verdict
    }
}

impl Default for RuleSet {
    fn default() -> (r: Self)
        ensures
            r.wf(),
            r.rules().len() == 0,
    {
        RuleSet::new()
    }
}


/// How many of `n` hits of one key at one instant are let through, from counter
/// `c` on.
pub open spec fn let_through(
    c: WindowCounter,
    window_ms: u64,
    limit: u64,
    now_ms: u64,
    n: nat,
) -> nat
    decreases n,
{
    if n == 0 {
        0
    } else {
        let next = hit(c, now_ms / window_ms);
        let_through(next, window_ms, limit, now_ms, (n - 1) as nat) + if within_budget(
            next,
            window_ms,
            limit,
            now_ms,
        ) {
            1nat
        } else {
            0nat
        }
    }
}

/// Within a single static window a key never gets more than its limit through,
/// however many hits it makes.
pub proof fn at_most_the_limit_in_a_static_window(
    c: WindowCounter,
    window_ms: u64,
    limit: u64,
    now_ms: u64,
    n: nat,
)
    requires
        window_ms > 0,
        limit < u64::MAX || n <= u64::MAX,
    ensures
        let_through(c, window_ms, limit, now_ms, n) <= limit,
{
    let idx = now_ms / window_ms;
    if limit == u64::MAX {
        no_more_than_asked(c, window_ms, limit, now_ms, n);
    } else if n > 0 {
        let next = hit(c, idx);
        room_is_used_up(next, window_ms, limit, now_ms, (n - 1) as nat);
        over_the_limit_is_over_budget(next, window_ms, limit, now_ms);
    }
}

proof fn no_more_than_asked(
    c: WindowCounter,
    window_ms: u64,
    limit: u64,
    now_ms: u64,
    n: nat,
)
    requires
        window_ms > 0,
    ensures
        let_through(c, window_ms, limit, now_ms, n) <= n,
    decreases n,
{
    if n > 0 {
        no_more_than_asked(hit(c, now_ms / window_ms), window_ms, limit, now_ms, (n - 1) as nat);
    }
}

proof fn over_the_limit_is_over_budget(c: WindowCounter, window_ms: u64, limit: u64, now_ms: u64)
    requires
        window_ms > 0,
    ensures
        c.current > limit ==> !within_budget(c, window_ms, limit, now_ms),
{
    let overlap = window_ms - now_ms % window_ms;
    assert(c.previous * overlap >= 0) by (nonlinear_arith)
        requires
            overlap >= 0,
    ;
    if c.current > limit {
        assert(c.current * window_ms > limit * window_ms) by (nonlinear_arith)
            requires
                c.current > limit,
                window_ms > 0,
        ;
    }
}

proof fn room_is_used_up(c: WindowCounter, window_ms: u64, limit: u64, now_ms: u64, n: nat)
    requires
        window_ms > 0,
        limit < u64::MAX,
        now_ms / window_ms <= c.window_index,
    ensures
        let_through(c, window_ms, limit, now_ms, n) <= if c.current < limit {
            limit - c.current
        } else {
            0
        },
    decreases n,
{
    if n > 0 {
        let next = hit(c, now_ms / window_ms);
        room_is_used_up(next, window_ms, limit, now_ms, (n - 1) as nat);
        over_the_limit_is_over_budget(next, window_ms, limit, now_ms);
    }
}

/// A burst that used up the budget of one window cannot be repeated at the start
/// of the next: there the previous window still counts in full.
pub proof fn a_boundary_burst_is_denied(
    c: WindowCounter,
    window_ms: u64,
    limit: u64,
    now_ms: u64,
)
    requires
        window_ms > 0,
        now_ms % window_ms == 0,
        now_ms / window_ms == c.window_index + 1,
        c.current >= limit,
    ensures
        !within_budget(hit(c, now_ms / window_ms), window_ms, limit, now_ms),
{
    assert(1 * window_ms + c.current * window_ms > limit * window_ms) by (nonlinear_arith)
        requires
            window_ms > 0,
            c.current >= limit,
    ;
}

/// Two windows on, old traffic has decayed: the key is treated as a new one.
pub proof fn old_traffic_decays(c: WindowCounter, window_index: u64)
    requires
        window_index >= c.window_index + 2,
    ensures
        hit(c, window_index) == hit(fresh_counter(window_index), window_index),
{
}

/// A hit of one key leaves the counters of all others alone, as long as the cap
/// has not been reached.
pub proof fn keys_are_counted_independently(
    before: &SlidingWindowLimiter,
    after: &SlidingWindowLimiter,
    key: Seq<char>,
    other: Seq<char>,
    now_ms: u64,
    later_ms: u64,
)
    requires
        after.follows_hit(before, key, now_ms),
        before.counters().contains_key(key) || before.counters().dom().len() < before.max_keys(),
        other != key,
    ensures
        after.decision(other, later_ms) == before.decision(other, later_ms),
{
}

} // verus!
