//! What the limiters guarantee over whole histories: every hit is counted in its
//! window, and every rule counts as if it were alone.

use crate::abuse;
use crate::abuse::{Counters, Rule, RuleSet, SlidingWindowLimiter};
use vstd::arithmetic::div_mod::lemma_div_is_ordered;
use vstd::prelude::*;

verus! {

/// The hits that a limiter has seen, in order: whose, and when.
pub type Hits = Seq<(Seq<char>, u64)>;

/// Time does not run backwards.
pub open spec fn in_time(hits: Hits) -> bool {
    forall|i: int, j: int|
        0 <= i < j < hits.len() ==> (#[trigger] hits[i]).1 <= (#[trigger] hits[j]).1
}

/// How many hits of `key` fall into the window with this index.
pub open spec fn hits_in(hits: Hits, key: Seq<char>, window_ms: u64, window_index: int) -> nat
    decreases hits.len(),
{
    if hits.len() == 0 {
        0
    } else {
        hits_in(hits.drop_last(), key, window_ms, window_index) + if hits.last().0 == key
            && hits.last().1 / window_ms == window_index {
            1nat
        } else {
            0nat
        }
    }
}

/// The counters that `hits` lead to where no key has to make room for another.
pub open spec fn tallied(hits: Hits, window_ms: u64) -> Counters
    decreases hits.len(),
{
    if hits.len() == 0 {
        Counters::empty()
    } else {
        let before = tallied(hits.drop_last(), window_ms);
        before.insert(
            hits.last().0,
            abuse::counter_after(before, hits.last().0, window_ms, hits.last().1),
        )
    }
}

proof fn no_more_hits_than_there_are(hits: Hits, key: Seq<char>, window_ms: u64, window_index: int)
    ensures
        hits_in(hits, key, window_ms, window_index) <= hits.len(),
    decreases hits.len(),
{
    if hits.len() > 0 {
        no_more_hits_than_there_are(hits.drop_last(), key, window_ms, window_index);
    }
}

/// Every hit is counted in its window: a key's counters are its hits in the window of
/// its last hit and in the one before, and a key without counters has no hits.
pub proof fn the_tally_is_exact(hits: Hits, key: Seq<char>, window_ms: u64)
    requires
        window_ms > 0,
        in_time(hits),
        hits.len() < u64::MAX,
    ensures
        ({
            let counters = tallied(hits, window_ms);
            let c = counters[key];
            if counters.contains_key(key) {
                &&& hits.len() > 0
                &&& c.window_index <= hits.last().1 / window_ms
                &&& hits.last().0 == key ==> c.window_index == hits.last().1 / window_ms
                &&& c.current == hits_in(hits, key, window_ms, c.window_index as int)
                &&& c.previous == hits_in(hits, key, window_ms, c.window_index - 1)
                &&& forall|w: int|
                    w > c.window_index ==> #[trigger] hits_in(hits, key, window_ms, w) == 0
            } else {
                forall|w: int| #[trigger] hits_in(hits, key, window_ms, w) == 0
            }
        }),
    decreases hits.len(),
{
    if hits.len() > 0 {
        let init = hits.drop_last();
        let (k, t) = hits.last();
        assert(in_time(init)) by {
            assert forall|i: int, j: int| 0 <= i < j < init.len() implies (#[trigger] init[i]).1
                <= (#[trigger] init[j]).1 by {
                assert(init[i] == hits[i] && init[j] == hits[j]);
            }
        }
        the_tally_is_exact(init, key, window_ms);
        let before = tallied(init, window_ms);
        let w = t / window_ms;
        if init.len() > 0 {
            assert(hits[init.len() - 1] == init.last() && hits[init.len() as int] == hits.last());
            lemma_div_is_ordered(init.last().1 as int, t as int, window_ms as int);
        }
        if k == key {
            no_more_hits_than_there_are(init, key, window_ms, w as int);
            assert(hits_in(init, key, window_ms, w as int) < u64::MAX);
            if before.contains_key(key) {
                assert(before[key].window_index <= w);
            }
            assert(hits_in(hits, key, window_ms, w as int) == hits_in(
                init,
                key,
                window_ms,
                w as int,
            ) + 1);
            assert(hits_in(hits, key, window_ms, w - 1) == hits_in(init, key, window_ms, w - 1));
        }
        let c = tallied(hits, window_ms)[key];
        if tallied(hits, window_ms).contains_key(key) {
            assert forall|v: int| v > c.window_index implies #[trigger] hits_in(
                hits,
                key,
                window_ms,
                v,
            ) == 0 by {
                assert(hits_in(init, key, window_ms, v) == 0);
            }
        } else {
            assert forall|v: int| #[trigger] hits_in(hits, key, window_ms, v) == 0 by {
                assert(hits_in(init, key, window_ms, v) == 0);
            }
        }
    }
}

/// `limiters` are the states that a fresh limiter goes through as it sees `hits`.
pub open spec fn is_run(limiters: Seq<SlidingWindowLimiter>, hits: Hits) -> bool {
    &&& limiters.len() == hits.len() + 1
    &&& limiters[0].window_ms() > 0
    &&& limiters[0].counters() == Counters::empty()
    &&& forall|i: int|
        0 <= i < hits.len() ==> (#[trigger] limiters[i + 1]).follows_hit(
            &limiters[i],
            hits[i].0,
            hits[i].1,
        )
}

/// The key occurs among the hits.
pub open spec fn has_hit(hits: Hits, key: Seq<char>) -> bool {
    exists|i: int| 0 <= i < hits.len() && (#[trigger] hits[i]).0 == key
}

/// From its first hit on, `key` never has to make room for another.
pub open spec fn is_kept(limiters: Seq<SlidingWindowLimiter>, hits: Hits, key: Seq<char>) -> bool {
    forall|j: int|
        0 <= j <= hits.len() && has_hit(hits.take(j), key) ==> (
        #[trigger] limiters[j]).counters().contains_key(key)
}

/// The first part of a run is a run, and keeps what the run keeps.
proof fn a_shorter_run_is_a_run(limiters: Seq<SlidingWindowLimiter>, hits: Hits)
    requires
        hits.len() > 0,
        is_run(limiters, hits),
    ensures
        is_run(limiters.drop_last(), hits.drop_last()),
        forall|key: Seq<char>|
            is_kept(limiters, hits, key) ==> #[trigger] is_kept(
                limiters.drop_last(),
                hits.drop_last(),
                key,
            ),
{
    let init = hits.drop_last();
    let first = limiters.drop_last();
    assert forall|i: int| 0 <= i < init.len() implies (#[trigger] first[i + 1]).follows_hit(
        &first[i],
        init[i].0,
        init[i].1,
    ) by {
        assert(limiters[i + 1].follows_hit(&limiters[i], hits[i].0, hits[i].1));
    }
    assert forall|key: Seq<char>| is_kept(limiters, hits, key) implies #[trigger] is_kept(
        first,
        init,
        key,
    ) by {
        assert forall|j: int| 0 <= j <= init.len() && has_hit(init.take(j), key) implies (
        #[trigger] first[j]).counters().contains_key(key) by {
            assert(init.take(j) =~= hits.take(j));
            assert(limiters[j].counters().contains_key(key));
        }
    }
}

/// A limiter keeps its settings.
proof fn the_settings_stay(limiters: Seq<SlidingWindowLimiter>, hits: Hits)
    requires
        is_run(limiters, hits),
    ensures
        limiters.last().window_ms() == limiters[0].window_ms(),
        limiters.last().limit() == limiters[0].limit(),
        limiters.last().max_keys() == limiters[0].max_keys(),
    decreases hits.len(),
{
    if hits.len() > 0 {
        let n = hits.len() - 1;
        a_shorter_run_is_a_run(limiters, hits);
        the_settings_stay(limiters.drop_last(), hits.drop_last());
        assert(limiters[n + 1].follows_hit(&limiters[n], hits[n].0, hits[n].1));
    }
}

/// One more hit is one more key that occurs.
proof fn hits_grow(hits: Hits, key: Seq<char>)
    requires
        hits.len() > 0,
    ensures
        has_hit(hits, key) == (has_hit(hits.drop_last(), key) || hits.last().0 == key),
{
    let init = hits.drop_last();
    if has_hit(hits, key) && hits.last().0 != key {
        let i = choose|i: int| 0 <= i < hits.len() && (#[trigger] hits[i]).0 == key;
        assert(init[i].0 == key);
    }
    if has_hit(init, key) {
        let i = choose|i: int| 0 <= i < init.len() && (#[trigger] init[i]).0 == key;
        assert(hits[i].0 == key);
    }
    if hits.last().0 == key {
        assert(hits[hits.len() - 1].0 == key);
    }
}

/// The tally has the keys that occur.
proof fn the_tally_has_the_keys_that_occur(hits: Hits, window_ms: u64, key: Seq<char>)
    ensures
        tallied(hits, window_ms).contains_key(key) == has_hit(hits, key),
    decreases hits.len(),
{
    if hits.len() > 0 {
        the_tally_has_the_keys_that_occur(hits.drop_last(), window_ms, key);
        hits_grow(hits, key);
    }
}

/// As long as a key does not have to make room, a limiter's counter for it is the
/// tally, whatever happens to other keys.
proof fn a_kept_key_is_tallied(
    limiters: Seq<SlidingWindowLimiter>,
    hits: Hits,
    key: Seq<char>,
)
    requires
        is_run(limiters, hits),
        is_kept(limiters, hits, key),
    ensures
        ({
            let tally = tallied(hits, limiters[0].window_ms());
            &&& limiters.last().counters().contains_key(key) == tally.contains_key(key)
            &&& tally.contains_key(key) ==> limiters.last().counters()[key] == tally[key]
        }),
    decreases hits.len(),
{
    if hits.len() > 0 {
        let n = hits.len() - 1;
        let init = hits.drop_last();
        let first = limiters.drop_last();
        let window_ms = limiters[0].window_ms();
        a_shorter_run_is_a_run(limiters, hits);
        assert(is_kept(first, init, key));
        a_kept_key_is_tallied(first, init, key);
        the_settings_stay(first, init);
        assert(first.last() == limiters[n]);
        assert(limiters[n + 1].follows_hit(&limiters[n], hits[n].0, hits[n].1));
        the_tally_has_the_keys_that_occur(hits, window_ms, key);
        the_tally_has_the_keys_that_occur(init, window_ms, key);
        assert(hits.take(n + 1) =~= hits);
        if has_hit(hits, key) {
            assert(limiters[n + 1].counters().contains_key(key));
        }
    }
}

/// Where all keys fit under the cap, every key is kept.
pub proof fn keys_under_the_cap_are_kept(
    limiters: Seq<SlidingWindowLimiter>,
    hits: Hits,
    key: Seq<char>,
)
    requires
        is_run(limiters, hits),
        tallied(hits, limiters[0].window_ms()).dom().len() <= limiters[0].max_keys(),
    ensures
        is_kept(limiters, hits, key),
        limiters.last().counters() == tallied(hits, limiters[0].window_ms()),
    decreases hits.len(),
{
    let window_ms = limiters[0].window_ms();
    if hits.len() > 0 {
        let n = hits.len() - 1;
        let init = hits.drop_last();
        let first = limiters.drop_last();
        a_shorter_run_is_a_run(limiters, hits);
        the_settings_stay(first, init);
        the_tally_is_finite(init, window_ms);
        assert(tallied(hits, window_ms).dom() =~= tallied(init, window_ms).dom().insert(
            hits.last().0,
        ));
        keys_under_the_cap_are_kept(first, init, key);
        assert(first.last() == limiters[n]);
        assert(limiters[n + 1].follows_hit(&limiters[n], hits[n].0, hits[n].1));
        the_tally_has_the_keys_that_occur(hits, window_ms, key);
        assert forall|j: int| 0 <= j <= hits.len() && has_hit(hits.take(j), key) implies (
        #[trigger] limiters[j]).counters().contains_key(key) by {
            if j <= n {
                assert(hits.take(j) =~= init.take(j));
                assert(first[j].counters().contains_key(key));
            } else {
                assert(hits.take(j) =~= hits);
            }
        }
    } else {
        assert forall|j: int| 0 <= j <= hits.len() && has_hit(hits.take(j), key) implies (
        #[trigger] limiters[j]).counters().contains_key(key) by {}
    }
}

proof fn the_tally_is_finite(hits: Hits, window_ms: u64)
    ensures
        tallied(hits, window_ms).dom().finite(),
    decreases hits.len(),
{
    if hits.len() > 0 {
        the_tally_is_finite(hits.drop_last(), window_ms);
        assert(tallied(hits, window_ms).dom() =~= tallied(hits.drop_last(), window_ms).dom().insert(
            hits.last().0,
        ));
    }
}

/// Where the keys that occur are no more than the cap allows, every key is kept.
pub proof fn clients_under_the_cap_are_kept(
    limiters: Seq<SlidingWindowLimiter>,
    hits: Hits,
    keys: Seq<Seq<char>>,
    key: Seq<char>,
)
    requires
        is_run(limiters, hits),
        keys.len() == hits.len(),
        forall|i: int| 0 <= i < hits.len() ==> (#[trigger] hits[i]).0 == keys[i],
        keys.to_set().len() <= limiters[0].max_keys(),
    ensures
        is_kept(limiters, hits, key),
{
    let window_ms = limiters[0].window_ms();
    let tally = tallied(hits, window_ms);
    the_tally_is_finite(hits, window_ms);
    vstd::seq_lib::seq_to_set_is_finite(keys);
    assert forall|k: Seq<char>| #[trigger] tally.dom().contains(k) implies keys.to_set().contains(
        k,
    ) by {
        the_tally_has_the_keys_that_occur(hits, window_ms, k);
        let i = choose|i: int| 0 <= i < hits.len() && (#[trigger] hits[i]).0 == k;
        assert(keys[i] == k);
        assert(keys.contains(k));
    }
    assert(tally.dom().subset_of(keys.to_set()));
    vstd::set_lib::lemma_len_subset(tally.dom(), keys.to_set());
    keys_under_the_cap_are_kept(limiters, hits, key);
}

/// What a run keeps, the run without its last hit keeps.
pub proof fn a_shorter_run_keeps_what_the_run_keeps(
    limiters: Seq<SlidingWindowLimiter>,
    hits: Hits,
    key: Seq<char>,
)
    requires
        hits.len() > 0,
        is_run(limiters, hits),
        is_kept(limiters, hits, key),
    ensures
        is_kept(limiters.drop_last(), hits.drop_last(), key),
{
    a_shorter_run_is_a_run(limiters, hits);
}

/// The counter that decides about the last hit, where its key was kept, is the tally.
proof fn the_deciding_counter_is_the_tally(
    limiters: Seq<SlidingWindowLimiter>,
    hits: Hits,
)
    requires
        hits.len() > 0,
        is_run(limiters, hits),
        is_kept(limiters.drop_last(), hits.drop_last(), hits.last().0),
    ensures
        abuse::counter_after(
            limiters[hits.len() - 1].counters(),
            hits.last().0,
            limiters[0].window_ms(),
            hits.last().1,
        ) == tallied(hits, limiters[0].window_ms())[hits.last().0],
        limiters[hits.len() - 1].window_ms() == limiters[0].window_ms(),
        limiters[hits.len() - 1].limit() == limiters[0].limit(),
{
    let init = hits.drop_last();
    let first = limiters.drop_last();
    a_shorter_run_is_a_run(limiters, hits);
    the_settings_stay(first, init);
    a_kept_key_is_tallied(first, init, hits.last().0);
    assert(first.last() == limiters[hits.len() - 1]);
}

/// The limit over the trailing window holds over whole histories. With `current` and
/// `previous` the hits that the key of the last hit has made in the window of that hit
/// and in the one before, itself and denied ones included, the hit is let through
/// exactly where `current` and the share of `previous` that the trailing window still
/// covers come to at most the limit. Hits of other keys, and older ones, do not
/// matter. The key must not have had to make room for another since its first hit:
/// where it had to, it starts anew.
pub proof fn a_limiter_counts_the_trailing_window(
    limiters: Seq<SlidingWindowLimiter>,
    hits: Hits,
)
    requires
        hits.len() > 0,
        hits.len() < u64::MAX,
        in_time(hits),
        is_run(limiters, hits),
        is_kept(limiters.drop_last(), hits.drop_last(), hits.last().0),
    ensures
        ({
            let (key, now_ms) = hits.last();
            let window_ms = limiters[0].window_ms();
            let current = hits_in(hits, key, window_ms, (now_ms / window_ms) as int);
            let previous = hits_in(hits, key, window_ms, now_ms / window_ms - 1);
            let estimate = current * window_ms + previous * (window_ms - now_ms % window_ms);
            let decision = limiters[hits.len() - 1].decision(key, now_ms);
            &&& decision is Allow <==> estimate <= limiters[0].limit() * window_ms
            &&& previous == 0 ==> (decision is Allow <==> current <= limiters[0].limit())
        }),
{
    let window_ms = limiters[0].window_ms();
    let (key, now_ms) = hits.last();
    the_deciding_counter_is_the_tally(limiters, hits);
    the_tally_is_exact(hits, key, window_ms);
    let c = tallied(hits, window_ms)[key];
    let limit = limiters[0].limit();
    let current = c.current;
    if c.previous == 0 {
        assert(current * window_ms <= limit * window_ms <==> current <= limit) by (nonlinear_arith)
            requires
                window_ms > 0,
        ;
        assert(c.previous * (window_ms - now_ms % window_ms) == 0) by (nonlinear_arith)
            requires
                c.previous == 0,
        ;
    }
}

// ---------------------------------------------------------------------------
// Caps
// ---------------------------------------------------------------------------

/// `states` are what a capped map goes through as `keys` are set in it, in order.
pub open spec fn is_admission<V>(
    states: Seq<Map<Seq<char>, V>>,
    keys: Seq<Seq<char>>,
    cap: nat,
) -> bool {
    &&& states.len() == keys.len() + 1
    &&& states[0] == Map::<Seq<char>, V>::empty()
    &&& forall|i: int|
        0 <= i < keys.len() ==> abuse::admitted(
            states[i],
            #[trigger] states[i + 1],
            keys[i],
            states[i + 1][keys[i]],
            cap,
        )
}

/// A key that was admitted is there, with its value.
pub proof fn an_admitted_key_is_set<V>(
    before: Map<Seq<char>, V>,
    after: Map<Seq<char>, V>,
    key: Seq<char>,
    value: V,
    cap: nat,
)
    requires
        abuse::admitted(before, after, key, value, cap),
    ensures
        after.contains_key(key),
        after[key] == value,
{
}

/// No other key comes with one that is admitted, and no value of another changes.
pub proof fn an_admission_brings_one_key<V>(
    before: Map<Seq<char>, V>,
    after: Map<Seq<char>, V>,
    key: Seq<char>,
    value: V,
    cap: nat,
    other: Seq<char>,
)
    requires
        abuse::admitted(before, after, key, value, cap),
        after.contains_key(other),
        other != key,
    ensures
        before.contains_key(other),
        after[other] == before[other],
{
    if !(before.contains_key(key) || before.dom().len() < cap) {
        let victim = choose|victim: Seq<char>| #[trigger]
            before.contains_key(victim) && after == before.remove(victim).insert(key, value);
        assert(before.remove(victim).contains_key(other));
    }
}

/// A capped map has as many keys as were set in it, up to the cap, and all of them
/// where they fit under it.
pub proof fn as_many_keys_as_the_cap_allows<V>(
    states: Seq<Map<Seq<char>, V>>,
    keys: Seq<Seq<char>>,
    cap: nat,
)
    requires
        cap > 0,
        is_admission(states, keys, cap),
    ensures
        states.last().dom().finite(),
        states.last().dom().subset_of(keys.to_set()),
        states.last().dom().len() == if keys.to_set().len() < cap {
            keys.to_set().len()
        } else {
            cap
        },
        keys.to_set().len() <= cap ==> states.last().dom() == keys.to_set(),
    decreases keys.len(),
{
    keys.lemma_cardinality_of_set();
    if keys.len() == 0 {
        assert(keys.to_set() =~= Set::empty());
        assert(states.last().dom() =~= Set::empty());
    } else {
        let n = keys.len() - 1;
        let init = keys.drop_last();
        let first = states.drop_last();
        let key = keys.last();
        assert(is_admission(first, init, cap)) by {
            assert forall|i: int| 0 <= i < init.len() implies abuse::admitted(
                first[i],
                #[trigger] first[i + 1],
                init[i],
                first[i + 1][init[i]],
                cap,
            ) by {
                assert(abuse::admitted(
                    states[i],
                    states[i + 1],
                    keys[i],
                    states[i + 1][keys[i]],
                    cap,
                ));
            }
        }
        as_many_keys_as_the_cap_allows(first, init, cap);
        init.lemma_cardinality_of_set();
        one_more_key(keys);
        let before = states[n];
        let after = states[n + 1];
        assert(first.last() == before);
        assert(abuse::admitted(before, after, keys[n], after[keys[n]], cap));
        let old_set = init.to_set();
        let dom = before.dom();
        if before.contains_key(key) {
            assert(after.dom() =~= dom);
            assert(old_set.contains(key));
            assert(keys.to_set() =~= old_set);
        } else if dom.len() < cap {
            assert(after.dom() =~= dom.insert(key));
        } else {
            let victim = choose|victim: Seq<char>| #[trigger]
                before.contains_key(victim) && after == before.remove(victim).insert(
                    key,
                    after[key],
                );
            assert(after.dom() =~= dom.remove(victim).insert(key));
            assert(dom.contains(victim));
            if old_set.contains(key) {
                assert(keys.to_set() =~= old_set);
            }
        }
    }
}

/// The keys of a list are its last one and the others.
proof fn one_more_key(keys: Seq<Seq<char>>)
    requires
        keys.len() > 0,
    ensures
        keys.to_set() == keys.drop_last().to_set().insert(keys.last()),
        keys.drop_last().to_set().finite(),
{
    let init = keys.drop_last();
    init.lemma_cardinality_of_set();
    vstd::seq_lib::seq_to_set_is_finite(init);
    assert forall|k: Seq<char>| keys.to_set().contains(k) == #[trigger] init.to_set().insert(
        keys.last(),
    ).contains(k) by {
        if keys.contains(k) {
            let i = choose|i: int| 0 <= i < keys.len() && keys[i] == k;
            if i < init.len() {
                assert(init[i] == k);
            }
        }
        if init.contains(k) {
            let i = choose|i: int| 0 <= i < init.len() && init[i] == k;
            assert(keys[i] == k);
        }
        if k == keys.last() {
            assert(keys[keys.len() - 1] == k);
        }
    }
    assert(keys.to_set() =~= init.to_set().insert(keys.last()));
}

// ---------------------------------------------------------------------------
// Rule sets
// ---------------------------------------------------------------------------

/// The first rule that is over budget, in insertion order, decides; where none is,
/// the request is let through.
pub proof fn the_first_rule_over_budget_decides(rules: Seq<Rule>, key: Seq<char>, now_ms: u64)
    ensures
        abuse::first_tripped(rules, key, now_ms) is None ==> forall|i: int|
            0 <= i < rules.len() ==> (#[trigger] rules[i]).limiter().decision(key, now_ms) is Allow,
        abuse::first_tripped(rules, key, now_ms) is Some ==> exists|i: int| #[trigger]
            decides(rules, key, now_ms, i) && abuse::first_tripped(rules, key, now_ms) == Some(
                (rules[i].name(), rules[i].action()),
            ),
    decreases rules.len(),
{
    if rules.len() > 0 {
        let init = rules.drop_last();
        let n = rules.len() - 1;
        the_first_rule_over_budget_decides(init, key, now_ms);
        match abuse::first_tripped(init, key, now_ms) {
            Some(tripped) => {
                let i = choose|i: int| #[trigger]
                    decides(init, key, now_ms, i) && tripped == (
                        init[i].name(),
                        init[i].action(),
                    );
                assert(rules[i] == init[i]);
                assert forall|j: int| 0 <= j < i implies (#[trigger] rules[j]).limiter().decision(
                    key,
                    now_ms,
                ) is Allow by {
                    assert(rules[j] == init[j]);
                }
                assert(decides(rules, key, now_ms, i));
            },
            None => {
                assert forall|j: int| 0 <= j < n implies (#[trigger] rules[j]).limiter().decision(
                    key,
                    now_ms,
                ) is Allow by {
                    assert(rules[j] == init[j]);
                }
                if rules.last().limiter().decision(key, now_ms) is Deny {
                    assert(decides(rules, key, now_ms, n));
                } else {
                    assert forall|i: int| 0 <= i < rules.len() implies (
                    #[trigger] rules[i]).limiter().decision(key, now_ms) is Allow by {
                        if i < n {
                            assert(rules[i] == init[i]);
                        }
                    }
                }
            },
        }
    }
}

/// The `i`-th rule is over budget, and none before it is.
pub open spec fn decides(rules: Seq<Rule>, key: Seq<char>, now_ms: u64, i: int) -> bool {
    &&& 0 <= i < rules.len()
    &&& rules[i].limiter().decision(key, now_ms) is Deny
    &&& forall|j: int|
        0 <= j < i ==> (#[trigger] rules[j]).limiter().decision(key, now_ms) is Allow
}

/// `sets` are the states that a rule set goes through as it sees `hits`.
pub open spec fn is_rule_run(sets: Seq<RuleSet>, hits: Hits) -> bool {
    &&& sets.len() == hits.len() + 1
    &&& forall|i: int|
        0 <= i < hits.len() ==> (#[trigger] sets[i + 1]).follows_hit(
            &sets[i],
            hits[i].0,
            hits[i].1,
        )
}

/// The states of the `k`-th rule's limiter.
pub open spec fn limiters_of(sets: Seq<RuleSet>, k: int) -> Seq<SlidingWindowLimiter> {
    Seq::new(sets.len(), |i: int| sets[i].rules()[k].limiter())
}

/// A rule set keeps its rules.
proof fn the_rules_stay(sets: Seq<RuleSet>, hits: Hits, i: int)
    requires
        is_rule_run(sets, hits),
        0 <= i < sets.len(),
    ensures
        sets[i].rules().len() == sets[0].rules().len(),
    decreases i,
{
    if i > 0 {
        the_rules_stay(sets, hits, i - 1);
        assert(sets[(i - 1) + 1].follows_hit(&sets[i - 1], hits[i - 1].0, hits[i - 1].1));
    }
}

/// Every rule of a rule set that is fresh counts as if it were alone: at each hit its
/// limiter decides as a separate one with the same window and limit does that has seen
/// the same hits, where neither had to drop the key since its first hit. Time may run
/// backwards.
pub proof fn a_rule_counts_as_if_it_were_alone(
    sets: Seq<RuleSet>,
    hits: Hits,
    k: int,
    alone: Seq<SlidingWindowLimiter>,
)
    requires
        hits.len() > 0,
        is_rule_run(sets, hits),
        0 <= k < sets[0].rules().len(),
        sets[0].rules()[k].limiter().window_ms() > 0,
        sets[0].rules()[k].limiter().counters() == Counters::empty(),
        is_run(alone, hits),
        alone[0].window_ms() == sets[0].rules()[k].limiter().window_ms(),
        alone[0].limit() == sets[0].rules()[k].limiter().limit(),
        is_kept(alone.drop_last(), hits.drop_last(), hits.last().0),
        is_kept(limiters_of(sets, k).drop_last(), hits.drop_last(), hits.last().0),
    ensures
        sets[hits.len() - 1].rules()[k].limiter().decision(hits.last().0, hits.last().1)
            == alone[hits.len() - 1].decision(hits.last().0, hits.last().1),
{
    let limiters = limiters_of(sets, k);
    assert forall|i: int| 0 <= i < hits.len() implies (#[trigger] limiters[i + 1]).follows_hit(
        &limiters[i],
        hits[i].0,
        hits[i].1,
    ) by {
        the_rules_stay(sets, hits, i);
        the_rules_stay(sets, hits, i + 1);
        assert(sets[i + 1].follows_hit(&sets[i], hits[i].0, hits[i].1));
        assert(sets[i + 1].rules()[k].limiter().follows_hit(
            &sets[i].rules()[k].limiter(),
            hits[i].0,
            hits[i].1,
        ));
    }
    assert(is_run(limiters, hits));
    the_deciding_counter_is_the_tally(limiters, hits);
    the_deciding_counter_is_the_tally(alone, hits);
}

} // verus!
