//! Distinct-target velocity detection: the carding and credential-stuffing signal.
//!
//! A rate limiter counts how many requests an actor makes. It misses the actor
//! that touches many distinct targets once each. [`DistinctVelocityLimiter`] flags
//! an actor whose count of distinct targets in the current window exceeds a
//! threshold. Distinct-counting is done with a [`HyperLogLog`] per actor, so memory
//! is bounded however many targets there are, and the number of tracked actors is
//! itself capped.

use crate::abuse;
use crate::abuse::Decision;
use crate::abuse_laws;
use crate::hll;
use crate::hll::HyperLogLog;
use crate::table::Table;
use crate::text::copy_text;
use vstd::prelude::*;

verus! {

/// Default cap on tracked actors (bounds total memory).
pub const DEFAULT_MAX_ACTORS: usize = 100_000;

/// HyperLogLog precision per actor: about 3% standard error, ample for an
/// order-of-magnitude threshold.
pub const PRECISION: u8 = 10;

/// One actor's distinct-target sketch for the current fixed window.
pub struct ActorWindow {
    window_index: u64,
    seen: HyperLogLog,
}

/// What an [`ActorWindow`] holds.
pub struct ActorView {
    pub window_index: u64,
    /// The registers of the sketch.
    pub seen: Seq<u8>,
}

impl View for ActorWindow {
    type V = ActorView;

    closed spec fn view(&self) -> ActorView {
        ActorView { window_index: self.window_index, seen: self.seen@ }
    }
}

/// The actors by name.
pub type Actors = Map<Seq<char>, ActorView>;

/// The actors of a table, by their views.
pub open spec fn actors_of(table: Map<Seq<char>, ActorWindow>) -> Actors {
    table.map_values(|a: ActorWindow| a@)
}

/// The sketch of `actor` after touching `target` in the window `window_index`: a
/// new window starts a fresh count.
pub open spec fn actor_after(
    actors: Actors,
    actor: Seq<char>,
    target: Seq<char>,
    window_index: u64,
) -> ActorView {
    let seen = if actors.contains_key(actor) && actors[actor].window_index == window_index {
        actors[actor].seen
    } else {
        hll::empty_registers(PRECISION as u32)
    };
    ActorView { window_index, seen: hll::observed(seen, PRECISION as u32, target) }
}

/// Flags an actor that touches more than `max_distinct` distinct targets within a
/// fixed `window_ms` window. Bounded memory per actor and a capped number of
/// actors.
pub struct DistinctVelocityLimiter {
    window_ms: u64,
    max_distinct: u64,
    max_actors: usize,
    hand: usize,
    actors: Table<ActorWindow>,
}

impl DistinctVelocityLimiter {
    /// The window is not empty, every sketch has the common precision, and no
    /// more actors are tracked than the cap allows.
    pub closed spec fn wf(&self) -> bool {
        &&& self.window_ms > 0
        &&& self.max_actors > 0
        &&& self.actors.wf()
        &&& self.actors@.dom().len() <= self.max_actors
        &&& forall|k: Seq<char>| #[trigger]
            self.actors@.contains_key(k) ==> self.actors@[k].seen.wf()
                && self.actors@[k].seen.precision() == PRECISION
    }

    pub closed spec fn actors(&self) -> Actors {
        actors_of(self.actors@)
    }

    pub closed spec fn window_ms(&self) -> u64 {
        self.window_ms
    }

    /// How many distinct targets are tolerated.
    pub closed spec fn max_distinct(&self) -> u64 {
        self.max_distinct
    }

    /// How many actors may be tracked.
    pub closed spec fn max_actors(&self) -> nat {
        self.max_actors as nat
    }

    /// `self` is `before` after `actor` touched `target` at `now_ms`: the target is in
    /// the actor's sketch, and where the actor is new and the cap is reached, another
    /// made room.
    pub open spec fn follows_touch(
        &self,
        before: &Self,
        actor: Seq<char>,
        target: Seq<char>,
        now_ms: u64,
    ) -> bool {
        &&& self.window_ms() == before.window_ms()
        &&& self.max_distinct() == before.max_distinct()
        &&& self.max_actors() == before.max_actors()
        &&& abuse::admitted(
            before.actors(),
            self.actors(),
            actor,
            actor_after(before.actors(), actor, target, now_ms / before.window_ms()),
            before.max_actors(),
        )
    }

    /// Flag any actor exceeding `max_distinct` distinct targets per `window_ms`.
    pub fn new(window_ms: u64, max_distinct: u64) -> (r: Self)
        requires
            window_ms > 0,
        ensures
            r.wf(),
            r.window_ms() == window_ms,
            r.max_distinct() == max_distinct,
            r.max_actors() == DEFAULT_MAX_ACTORS,
            r.max_actors() == 100_000,
            r.actors() == Actors::empty(),
    {
        Self::with_capacity(window_ms, max_distinct, DEFAULT_MAX_ACTORS)
    }

    /// As [`new`](Self::new), with an explicit cap on tracked actors.
    pub fn with_capacity(window_ms: u64, max_distinct: u64, max_actors: usize) -> (r: Self)
        requires
            window_ms > 0,
            max_actors > 0,
        ensures
            r.wf(),
            r.window_ms() == window_ms,
            r.max_distinct() == max_distinct,
            r.max_actors() == max_actors,
            r.actors() == Actors::empty(),
    {
        let r = DistinctVelocityLimiter {
            window_ms,
            max_distinct,
            max_actors,
            hand: 0,
            actors: Table::new(),
        };
        assert(r.actors() =~= Actors::empty());
        r
    }

    /// Number of actors currently tracked (bounded by the cap).
    pub fn tracked_actors(&self) -> (n: usize)
        requires
            self.wf(),
        ensures
            n == self.actors().dom().len(),
            n <= self.max_actors(),
    {
        assert(self.actors().dom() =~= self.actors@.dom());
        self.actors.len()
    }

    /// Record that `actor` touched `target` at `now_ms`, and return whether the
    /// actor is now over its distinct-target budget for the window.
    ///
    /// `exceeds` tells whether the number of distinct targets that a sketch has seen,
    /// as estimated from its registers, exceeds a budget.
    pub fn check<F: Fn(&HyperLogLog, u64) -> bool>(
        &mut self,
        actor: &str,
        target: &str,
        now_ms: u64,
        exceeds: &F,
    ) -> (r: Decision)
        requires
            old(self).wf(),
            forall|sketch: &HyperLogLog, budget: u64| call_requires(*exceeds, (sketch, budget)),
        ensures
            final(self).wf(),
            final(self).follows_touch(old(self), actor@, target@, now_ms),
            exists|sketch: HyperLogLog, over: bool|
                #![trigger call_ensures(*exceeds, (&sketch, old(self).max_distinct()), over)]
                call_ensures(*exceeds, (&sketch, old(self).max_distinct()), over) && sketch.wf()
                    && sketch.precision() == PRECISION && sketch@ == actor_after(
                    old(self).actors(),
                    actor@,
                    target@,
                    now_ms / old(self).window_ms(),
                ).seen && r == (if over {
                    Decision::Deny
                } else {
                    Decision::Allow
                }),
    {
        let window_index: u64 = now_ms / self.window_ms;
        let ghost before = self.actors@;
        let ghost want = actor_after(self.actors(), actor@, target@, window_index);
        proof {
            self.actors.keys_cover();
            assert(actors_of(before).dom() =~= before.dom());
        }
        let mut entry = ActorWindow { window_index, seen: HyperLogLog::new(PRECISION) };
        let position = self.actors.position(actor);
        if let Some(i) = position {
            let old_entry = self.actors.replace_value(i, entry);
            assert(self.actors@.dom() =~= before.dom());
            if old_entry.window_index == window_index {
                entry = old_entry;
            } else {
                entry = ActorWindow { window_index, seen: HyperLogLog::new(PRECISION) };
            }
        }
        entry.seen.add(target);
        assert(entry@ == want);
        let over: bool = exceeds(&entry.seen, self.max_distinct);
        let ghost budget = old(self).max_distinct();
        assert(call_ensures(*exceeds, (&entry.seen, budget), over));
        let r = if over {
            Decision::Deny
        } else {
            Decision::Allow
        };
        match position {
            Some(i) => {
                let _ = self.actors.replace_value(i, entry);
                assert(actors_of(self.actors@) =~= actors_of(before).insert(actor@, want));
                assert(self.actors@.dom() =~= before.dom());
            },
            None => {
                let len: usize = self.actors.len();
                if len < self.max_actors {
                    self.actors.insert(copy_text(actor), entry);
                    assert(self.actors@.dom() =~= before.dom().insert(actor@));
                    assert(actors_of(self.actors@) =~= actors_of(before).insert(actor@, want));
                } else {
                    let i: usize = if self.hand < len {
                        self.hand
                    } else {
                        0
                    };
                    let ghost victim = self.actors.keys()[i as int];
                    assert(self.actors.keys().contains(victim));
                    assert(before.contains_key(victim));
                    self.actors.supplant(i, copy_text(actor), entry);
                    self.hand = i + 1;
                    assert(self.actors@.dom() =~= before.dom().remove(victim).insert(actor@));
                    assert(actors_of(self.actors@) =~= actors_of(before).remove(victim).insert(
                        actor@,
                        want,
                    ));
                    assert(actors_of(before).contains_key(victim));
                }
            },
        }
        r
    }
}

/// Touching one target again within a window does not add to the count.
pub proof fn a_repeated_target_is_counted_once(
    actors: Actors,
    actor: Seq<char>,
    target: Seq<char>,
    window_index: u64,
)
    requires
        actors.contains_key(actor) && actors[actor].window_index == window_index
            ==> actors[actor].seen.len() == 1u64 << (PRECISION as u64),
    ensures
        ({
            let once = actor_after(actors, actor, target, window_index);
            actor_after(actors.insert(actor, once), actor, target, window_index) == once
        }),
{
    let seen = if actors.contains_key(actor) && actors[actor].window_index == window_index {
        actors[actor].seen
    } else {
        hll::empty_registers(PRECISION as u32)
    };
    hll::observing_again_changes_nothing(seen, PRECISION as u32, target);
}

/// A new window starts a fresh count: what an actor touched before does not
/// matter.
pub proof fn a_new_window_starts_afresh(
    actors: Actors,
    actor: Seq<char>,
    target: Seq<char>,
    window_index: u64,
)
    requires
        actors.contains_key(actor) ==> actors[actor].window_index != window_index,
    ensures
        actor_after(actors, actor, target, window_index) == actor_after(
            Actors::empty(),
            actor,
            target,
            window_index,
        ),
{
}

/// What one actor touches leaves the counts of all others alone, as long as the
/// cap has not been reached.
pub proof fn actors_are_counted_independently(
    before: Actors,
    after: Actors,
    actor: Seq<char>,
    target: Seq<char>,
    window_index: u64,
    other: Seq<char>,
    cap: nat,
)
    requires
        abuse::admitted(
            before,
            after,
            actor,
            actor_after(before, actor, target, window_index),
            cap,
        ),
        before.contains_key(actor) || before.dom().len() < cap,
        other != actor,
    ensures
        after.contains_key(other) == before.contains_key(other),
        before.contains_key(other) ==> after[other] == before[other],
{
}

/// A touch: whose, of what, and when.
pub struct Touch {
    pub actor: Seq<char>,
    pub target: Seq<char>,
    pub now_ms: u64,
}

/// `limiters` are the states that a fresh limiter goes through as it sees `touches`.
pub open spec fn is_run(limiters: Seq<DistinctVelocityLimiter>, touches: Seq<Touch>) -> bool {
    &&& limiters.len() == touches.len() + 1
    &&& limiters[0].max_actors() > 0
    &&& limiters[0].actors() == Actors::empty()
    &&& forall|i: int|
        0 <= i < touches.len() ==> (#[trigger] limiters[i + 1]).follows_touch(
            &limiters[i],
            touches[i].actor,
            touches[i].target,
            touches[i].now_ms,
        )
}

/// The actors of the touches.
pub open spec fn actors_in(touches: Seq<Touch>) -> Seq<Seq<char>> {
    touches.map_values(|t: Touch| t.actor)
}

/// A limiter keeps its cap.
proof fn the_cap_stays(limiters: Seq<DistinctVelocityLimiter>, touches: Seq<Touch>, i: int)
    requires
        is_run(limiters, touches),
        0 <= i < limiters.len(),
    ensures
        limiters[i].max_actors() == limiters[0].max_actors(),
    decreases i,
{
    if i > 0 {
        the_cap_stays(limiters, touches, i - 1);
        assert(limiters[(i - 1) + 1].follows_touch(
            &limiters[i - 1],
            touches[i - 1].actor,
            touches[i - 1].target,
            touches[i - 1].now_ms,
        ));
    }
}

/// Memory is bounded: however many actors a limiter has seen, it tracks as many as
/// there are distinct ones among them, and never more than the cap.
pub proof fn as_many_actors_as_the_cap_allows(
    limiters: Seq<DistinctVelocityLimiter>,
    touches: Seq<Touch>,
)
    requires
        is_run(limiters, touches),
    ensures
        limiters.last().actors().dom().len() == if actors_in(touches).to_set().len()
            < limiters[0].max_actors() {
            actors_in(touches).to_set().len()
        } else {
            limiters[0].max_actors()
        },
        actors_in(touches).to_set().len() <= limiters[0].max_actors()
            ==> limiters.last().actors().dom() == actors_in(touches).to_set(),
{
    let states = limiters.map_values(|l: DistinctVelocityLimiter| l.actors());
    let keys = actors_in(touches);
    let cap = limiters[0].max_actors();
    assert forall|i: int| 0 <= i < keys.len() implies abuse::admitted(
        states[i],
        #[trigger] states[i + 1],
        keys[i],
        states[i + 1][keys[i]],
        cap,
    ) by {
        the_cap_stays(limiters, touches, i);
        assert(limiters[i + 1].follows_touch(
            &limiters[i],
            touches[i].actor,
            touches[i].target,
            touches[i].now_ms,
        ));
        let value = actor_after(
            limiters[i].actors(),
            touches[i].actor,
            touches[i].target,
            touches[i].now_ms / limiters[i].window_ms(),
        );
        assert(states[i] == limiters[i].actors());
        assert(states[i + 1] == limiters[i + 1].actors());
        assert(keys[i] == touches[i].actor);
        abuse_laws::an_admitted_key_is_set(states[i], states[i + 1], keys[i], value, cap);
    }
    abuse_laws::as_many_keys_as_the_cap_allows(states, keys, cap);
}

/// Time does not run backwards.
pub open spec fn in_time(touches: Seq<Touch>) -> bool {
    forall|i: int, j: int|
        0 <= i < j < touches.len() ==> (#[trigger] touches[i]).now_ms <= (
        #[trigger] touches[j]).now_ms
}

/// The targets that `actor` touched in the window with this index, in order.
pub open spec fn targets_in(
    touches: Seq<Touch>,
    actor: Seq<char>,
    window_ms: u64,
    window_index: int,
) -> Seq<Seq<char>>
    decreases touches.len(),
{
    if touches.len() == 0 {
        Seq::empty()
    } else {
        let before = targets_in(touches.drop_last(), actor, window_ms, window_index);
        let last = touches.last();
        if last.actor == actor && last.now_ms / window_ms == window_index {
            before.push(last.target)
        } else {
            before
        }
    }
}

/// The actor is among the touches.
pub open spec fn has_touched(touches: Seq<Touch>, actor: Seq<char>) -> bool {
    exists|i: int| 0 <= i < touches.len() && (#[trigger] touches[i]).actor == actor
}

/// From its first touch on, `actor` never has to make room for another.
pub open spec fn is_kept(
    limiters: Seq<DistinctVelocityLimiter>,
    touches: Seq<Touch>,
    actor: Seq<char>,
) -> bool {
    forall|j: int|
        0 <= j <= touches.len() && has_touched(touches.take(j), actor) ==> (
        #[trigger] limiters[j]).actors().contains_key(actor)
}

/// The first part of a run is a run, and keeps what the run keeps.
proof fn a_shorter_run_is_a_run(
    limiters: Seq<DistinctVelocityLimiter>,
    touches: Seq<Touch>,
    actor: Seq<char>,
)
    requires
        touches.len() > 0,
        is_run(limiters, touches),
    ensures
        is_run(limiters.drop_last(), touches.drop_last()),
        is_kept(limiters, touches, actor) ==> is_kept(
            limiters.drop_last(),
            touches.drop_last(),
            actor,
        ),
        in_time(touches) ==> in_time(touches.drop_last()),
{
    let init = touches.drop_last();
    let first = limiters.drop_last();
    assert forall|i: int| 0 <= i < init.len() implies (#[trigger] first[i + 1]).follows_touch(
        &first[i],
        init[i].actor,
        init[i].target,
        init[i].now_ms,
    ) by {
        assert(limiters[i + 1].follows_touch(
            &limiters[i],
            touches[i].actor,
            touches[i].target,
            touches[i].now_ms,
        ));
    }
    if is_kept(limiters, touches, actor) {
        assert forall|j: int| 0 <= j <= init.len() && has_touched(init.take(j), actor) implies (
        #[trigger] first[j]).actors().contains_key(actor) by {
            assert(init.take(j) =~= touches.take(j));
            assert(limiters[j].actors().contains_key(actor));
        }
    }
    if in_time(touches) {
        assert forall|i: int, j: int| 0 <= i < j < init.len() implies (#[trigger] init[i]).now_ms
            <= (#[trigger] init[j]).now_ms by {
            assert(touches[i].now_ms <= touches[j].now_ms);
        }
    }
}

/// A limiter keeps its settings.
proof fn the_settings_stay(limiters: Seq<DistinctVelocityLimiter>, touches: Seq<Touch>)
    requires
        is_run(limiters, touches),
    ensures
        limiters.last().window_ms() == limiters[0].window_ms(),
        limiters.last().max_distinct() == limiters[0].max_distinct(),
    decreases touches.len(),
{
    if touches.len() > 0 {
        let n = touches.len() - 1;
        a_shorter_run_is_a_run(limiters, touches, Seq::empty());
        the_settings_stay(limiters.drop_last(), touches.drop_last());
        assert(limiters[n + 1].follows_touch(
            &limiters[n],
            touches[n].actor,
            touches[n].target,
            touches[n].now_ms,
        ));
    }
}

/// One more target is one more that is observed.
proof fn observing_one_more(precision: u32, keys: Seq<Seq<char>>, key: Seq<char>)
    ensures
        hll::observed(hll::observed_all(precision, keys), precision, key) == hll::observed_all(
            precision,
            keys.push(key),
        ),
{
    assert(keys.push(key).drop_last() =~= keys);
}

/// What a limiter holds of an actor that it has kept: the window of the actor's last
/// touch, and a sketch of all that it touched in that window.
proof fn a_kept_actor_is_sketched(
    limiters: Seq<DistinctVelocityLimiter>,
    touches: Seq<Touch>,
    actor: Seq<char>,
)
    requires
        is_run(limiters, touches),
        in_time(touches),
        is_kept(limiters, touches, actor),
        limiters[0].window_ms() > 0,
    ensures
        ({
            let actors = limiters.last().actors();
            let window_ms = limiters[0].window_ms();
            if actors.contains_key(actor) {
                let w = actors[actor].window_index;
                &&& touches.len() > 0
                &&& w <= touches.last().now_ms / window_ms
                &&& actors[actor].seen == hll::observed_all(
                    10,
                    targets_in(touches, actor, window_ms, w as int),
                )
                &&& forall|v: int|
                    v > w ==> #[trigger] targets_in(touches, actor, window_ms, v).len() == 0
            } else {
                forall|v: int| #[trigger] targets_in(touches, actor, window_ms, v).len() == 0
            }
        }),
    decreases touches.len(),
{
    let window_ms = limiters[0].window_ms();
    if touches.len() > 0 {
        let n = touches.len() - 1;
        let init = touches.drop_last();
        let first = limiters.drop_last();
        let last = touches.last();
        a_shorter_run_is_a_run(limiters, touches, actor);
        a_kept_actor_is_sketched(first, init, actor);
        the_settings_stay(first, init);
        let before = limiters[n];
        let after = limiters[n + 1];
        assert(first.last() == before);
        assert(after.follows_touch(&before, touches[n].actor, touches[n].target, touches[n].now_ms));
        let w = last.now_ms / window_ms;
        if init.len() > 0 {
            assert(touches[n - 1].now_ms <= touches[n].now_ms);
            vstd::arithmetic::div_mod::lemma_div_is_ordered(
                init.last().now_ms as int,
                last.now_ms as int,
                window_ms as int,
            );
        }
        let value = actor_after(before.actors(), last.actor, last.target, w);
        abuse_laws::an_admitted_key_is_set(
            before.actors(),
            after.actors(),
            last.actor,
            value,
            before.max_actors(),
        );
        if last.actor == actor {
            let seen = targets_in(init, actor, window_ms, w as int);
            if !(before.actors().contains_key(actor) && before.actors()[actor].window_index == w) {
                assert(seen.len() == 0);
                assert(seen =~= Seq::<Seq<char>>::empty());
            }
            observing_one_more(10, seen, last.target);
            assert forall|v: int| v > w implies #[trigger] targets_in(
                touches,
                actor,
                window_ms,
                v,
            ).len() == 0 by {
                assert(targets_in(init, actor, window_ms, v).len() == 0);
            }
        } else {
            assert forall|v: int| #[trigger] targets_in(touches, actor, window_ms, v) == targets_in(
                init,
                actor,
                window_ms,
                v,
            ) by {}
            if before.actors().contains_key(actor) {
                a_tracked_actor_has_touched(first, init, actor);
                let i = choose|i: int|
                    0 <= i < init.len() && (#[trigger] init[i]).actor == actor;
                assert(touches.take(n + 1) =~= touches);
                assert(touches[i].actor == actor);
                assert(has_touched(touches.take(n + 1), actor));
                assert(limiters[n + 1].actors().contains_key(actor));
            }
        }
    }
}

/// Whom a limiter tracks has touched something.
proof fn a_tracked_actor_has_touched(
    limiters: Seq<DistinctVelocityLimiter>,
    touches: Seq<Touch>,
    actor: Seq<char>,
)
    requires
        is_run(limiters, touches),
        limiters.last().actors().contains_key(actor),
    ensures
        has_touched(touches, actor),
    decreases touches.len(),
{
    if touches.len() > 0 {
        let n = touches.len() - 1;
        a_shorter_run_is_a_run(limiters, touches, actor);
        assert(limiters[n + 1].follows_touch(
            &limiters[n],
            touches[n].actor,
            touches[n].target,
            touches[n].now_ms,
        ));
        assert(limiters.drop_last().last() == limiters[n]);
        assert(limiters.last() == limiters[n + 1]);
        if touches[n].actor != actor {
            abuse_laws::an_admission_brings_one_key(
                limiters[n].actors(),
                limiters[n + 1].actors(),
                touches[n].actor,
                actor_after(
                    limiters[n].actors(),
                    touches[n].actor,
                    touches[n].target,
                    touches[n].now_ms / limiters[n].window_ms(),
                ),
                limiters[n].max_actors(),
                actor,
            );
            a_tracked_actor_has_touched(limiters.drop_last(), touches.drop_last(), actor);
            let init = touches.drop_last();
            let i = choose|i: int| 0 <= i < init.len() && (#[trigger] init[i]).actor == actor;
            assert(touches[i].actor == actor);
        }
    }
}

/// Distinct targets are what counts. The sketch that decides about a touch is one of
/// `2^10` registers that has observed exactly the targets that the actor has touched in
/// the window of that touch, this one among them: not those of other actors, and not
/// those of other windows. The actor must not have had to make room for another since
/// its first touch.
pub proof fn a_touch_is_judged_by_the_targets_in_its_window(
    limiters: Seq<DistinctVelocityLimiter>,
    touches: Seq<Touch>,
)
    requires
        touches.len() > 0,
        is_run(limiters, touches),
        in_time(touches),
        limiters[0].window_ms() > 0,
        is_kept(limiters.drop_last(), touches.drop_last(), touches.last().actor),
    ensures
        ({
            let last = touches.last();
            let window_ms = limiters[0].window_ms();
            let before = limiters[touches.len() - 1];
            let w = last.now_ms / window_ms;
            &&& before.window_ms() == window_ms
            &&& before.max_distinct() == limiters[0].max_distinct()
            &&& actor_after(before.actors(), last.actor, last.target, w).seen
                == hll::observed_all(10, targets_in(touches, last.actor, window_ms, w as int))
            &&& targets_in(touches, last.actor, window_ms, w as int).last() == last.target
        }),
{
    let last = touches.last();
    let init = touches.drop_last();
    let first = limiters.drop_last();
    let window_ms = limiters[0].window_ms();
    let n = touches.len() - 1;
    let w = last.now_ms / window_ms;
    a_shorter_run_is_a_run(limiters, touches, last.actor);
    a_kept_actor_is_sketched(first, init, last.actor);
    the_settings_stay(first, init);
    let before = limiters[n];
    assert(first.last() == before);
    if init.len() > 0 {
        assert(touches[n - 1].now_ms <= touches[n].now_ms);
        vstd::arithmetic::div_mod::lemma_div_is_ordered(
            init.last().now_ms as int,
            last.now_ms as int,
            window_ms as int,
        );
    }
    let seen = targets_in(init, last.actor, window_ms, w as int);
    if !(before.actors().contains_key(last.actor) && before.actors()[last.actor].window_index
        == w) {
        assert(seen =~= Seq::<Seq<char>>::empty());
    }
    observing_one_more(10, seen, last.target);
}

/// Where there are no more actors than may be tracked, every one of them is kept.
pub proof fn actors_under_the_cap_are_kept(
    limiters: Seq<DistinctVelocityLimiter>,
    touches: Seq<Touch>,
    actor: Seq<char>,
)
    requires
        is_run(limiters, touches),
        actors_in(touches).to_set().len() <= limiters[0].max_actors(),
    ensures
        is_kept(limiters, touches, actor),
    decreases touches.len(),
{
    if touches.len() > 0 {
        let init = touches.drop_last();
        let first = limiters.drop_last();
        a_shorter_run_is_a_run(limiters, touches, actor);
        vstd::seq_lib::seq_to_set_is_finite(actors_in(touches));
        vstd::seq_lib::seq_to_set_is_finite(actors_in(init));
        assert forall|k: Seq<char>| #[trigger]
            actors_in(init).to_set().contains(k) implies actors_in(touches).to_set().contains(k) by {
            let i = choose|i: int| 0 <= i < init.len() && actors_in(init)[i] == k;
            assert(actors_in(touches)[i] == k);
        }
        vstd::set_lib::lemma_len_subset(
            actors_in(init).to_set(),
            actors_in(touches).to_set(),
        );
        actors_under_the_cap_are_kept(first, init, actor);
        as_many_actors_as_the_cap_allows(limiters, touches);
        assert forall|j: int|
            0 <= j <= touches.len() && has_touched(touches.take(j), actor) implies (
        #[trigger] limiters[j]).actors().contains_key(actor) by {
            if j < touches.len() {
                assert(touches.take(j) =~= init.take(j));
                assert(first[j].actors().contains_key(actor));
            } else {
                assert(touches.take(j) =~= touches);
                let i = choose|i: int|
                    0 <= i < touches.len() && (#[trigger] touches[i]).actor == actor;
                assert(actors_in(touches)[i] == actor);
                assert(actors_in(touches).to_set().contains(actor));
                assert(limiters.last().actors().dom().contains(actor));
            }
        }
    } else {
        assert forall|j: int|
            0 <= j <= touches.len() && has_touched(touches.take(j), actor) implies (
        #[trigger] limiters[j]).actors().contains_key(actor) by {}
    }
}

} // verus!
