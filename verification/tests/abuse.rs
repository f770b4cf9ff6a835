//! Rate limits, rules, sketches and distinct-target velocity.

use onced::abuse::{Action, Decision, RuleSet, SlidingWindowLimiter, Verdict};
use onced::hll::HyperLogLog;
use onced::sketch::CountMinSketch;
use onced::velocity::DistinctVelocityLimiter;
use std::collections::HashMap;

/// Up to and including the limit is allowed; the next request is denied.
#[test]
fn allows_up_to_the_limit_then_denies() {
    let mut limiter = SlidingWindowLimiter::new(1000, 5);
    for _ in 0..5 {
        assert!(matches!(limiter.check("ip-1", 0), Decision::Allow));
    }
    assert!(matches!(limiter.check("ip-1", 0), Decision::Deny));
}

/// The defining property of a *sliding* window: a burst at the end of one window
/// cannot be immediately doubled at the start of the next.
#[test]
fn sliding_window_blocks_boundary_bursting() {
    let mut limiter = SlidingWindowLimiter::new(1000, 5);
    for _ in 0..5 {
        assert!(matches!(limiter.check("ip-1", 999), Decision::Allow));
    }
    assert!(matches!(limiter.check("ip-1", 1000), Decision::Deny));
}

/// Two full windows later, an old burst has fully decayed out of the count.
#[test]
fn old_traffic_decays_after_two_windows() {
    let mut limiter = SlidingWindowLimiter::new(1000, 5);
    for _ in 0..5 {
        limiter.check("ip-1", 0);
    }
    assert!(matches!(limiter.check("ip-1", 2000), Decision::Allow));
}

/// Different keys (IPs, accounts, card fingerprints) are counted separately.
#[test]
fn keys_are_counted_independently() {
    let mut limiter = SlidingWindowLimiter::new(1000, 1);
    assert!(matches!(limiter.check("a", 0), Decision::Allow));
    assert!(matches!(limiter.check("a", 0), Decision::Deny));
    assert!(matches!(limiter.check("b", 0), Decision::Allow));
}

/// The previous window contributes in proportion to its overlap with the trailing
/// window. Halfway into the next window, a previously-full window of 10
/// contributes 10 * 0.5 = 5, leaving headroom for exactly 5 more.
#[test]
fn previous_window_is_weighted_by_overlap() {
    let mut limiter = SlidingWindowLimiter::new(1000, 10);
    for _ in 0..10 {
        limiter.check("ip-1", 0);
    }

    let mut allowed = 0;
    for _ in 0..10 {
        if matches!(limiter.check("ip-1", 1500), Decision::Allow) {
            allowed += 1;
        }
    }
    assert_eq!(allowed, 5);
}

/// A flood of distinct keys cannot grow memory without bound.
#[test]
fn tracked_keys_stay_bounded() {
    let mut limiter = SlidingWindowLimiter::with_capacity(1_000, 2, 16);
    for i in 0..200 {
        assert_eq!(limiter.check(&format!("ip-{i}"), 0), Decision::Allow);
        assert!(limiter.tracked_keys() <= 16);
    }
    assert_eq!(limiter.tracked_keys(), 16);
}

/// The limiter never admits more than its limit within one static window.
#[test]
fn limiter_never_exceeds_limit_in_a_static_window() {
    for limit in 1..24u64 {
        let mut limiter = SlidingWindowLimiter::new(1000, limit);
        let allowed = (0..64)
            .filter(|_| matches!(limiter.check("k", 0), Decision::Allow))
            .count();
        assert_eq!(allowed as u64, limit);
    }
}

#[test]
fn rules_allow_when_every_rule_passes() {
    let mut rules = RuleSet::new()
        .rule("per-second", 1000, 100, Action::Throttle)
        .rule("per-minute", 60_000, 1000, Action::Block);
    assert_eq!(rules.evaluate("ip-1", 0), Verdict::Allow);
}

#[test]
fn rules_deny_with_the_tripped_rules_action() {
    let mut rules = RuleSet::new().rule("strict", 1000, 2, Action::Block);
    assert_eq!(rules.evaluate("ip-1", 0), Verdict::Allow);
    assert_eq!(rules.evaluate("ip-1", 0), Verdict::Allow);
    assert_eq!(
        rules.evaluate("ip-1", 0),
        Verdict::Deny {
            rule: "strict".into(),
            action: Action::Block,
        }
    );
}

#[test]
fn rules_first_tripped_in_order_wins() {
    let mut rules = RuleSet::new()
        .rule("loose-throttle", 1000, 100, Action::Throttle)
        .rule("strict-block", 1000, 2, Action::Block);
    rules.evaluate("ip-1", 0);
    rules.evaluate("ip-1", 0);
    assert_eq!(
        rules.evaluate("ip-1", 0),
        Verdict::Deny {
            rule: "strict-block".into(),
            action: Action::Block,
        }
    );
}

#[test]
fn rules_keep_keys_independent() {
    let mut rules = RuleSet::new().rule("strict", 1000, 1, Action::Challenge);
    assert_eq!(rules.evaluate("a", 0), Verdict::Allow);
    assert_eq!(
        rules.evaluate("a", 0),
        Verdict::Deny {
            rule: "strict".into(),
            action: Action::Challenge,
        }
    );
    assert_eq!(rules.evaluate("b", 0), Verdict::Allow);
}

/// With no collisions (a single key), the estimate is exact; an unseen key in an
/// empty sketch reads zero.
#[test]
fn estimates_a_lone_key_exactly() {
    let mut cms = CountMinSketch::new(4, 256);
    for _ in 0..7 {
        cms.add("card-1", 1);
    }
    assert_eq!(cms.estimate("card-1"), 7);
    assert_eq!(cms.estimate("never-seen"), 0);
}

/// The core invariant: the estimate is never below the true count, for every key,
/// no matter how many distinct keys collide into the sketch.
#[test]
fn never_underestimates_across_many_keys() {
    let mut cms = CountMinSketch::new(5, 512);
    let mut truth: HashMap<String, u64> = HashMap::new();

    let mut state = 0x1234_5678u64;
    let mut next = || {
        state ^= state << 13;
        state ^= state >> 7;
        state ^= state << 17;
        state
    };

    for _ in 0..2000 {
        let key = format!("k{}", next() % 300);
        let count = 1 + next() % 5;
        *truth.entry(key.clone()).or_insert(0) += count;
        cms.add(&key, count);
    }

    for (key, &true_count) in &truth {
        assert!(
            cms.estimate(key) >= true_count,
            "underestimated {key}: {} < {true_count}",
            cms.estimate(key)
        );
    }
}

/// A heavy hitter (the carding signal) stands far above the light traffic it hides
/// among.
#[test]
fn surfaces_a_heavy_hitter() {
    let mut cms = CountMinSketch::new(5, 1024);
    for _ in 0..1000 {
        cms.add("attacker-ip", 1);
    }
    for i in 0..500 {
        cms.add(&format!("user{i}"), 1);
    }

    assert!(cms.estimate("attacker-ip") >= 1000);
    assert!(cms.estimate("attacker-ip") > 10 * cms.estimate("user42").max(1));
}

/// Count-Min Sketch respects its error bound: sized at width = ceil(e / epsilon),
/// depth = ceil(ln(1 / delta)), the fraction of keys whose estimate exceeds the
/// truth by more than epsilon * N stays at or below delta.
#[test]
fn cms_respects_epsilon_n_error_bound() {
    let epsilon = 0.01_f64;
    let delta = 0.01_f64;
    let width = (std::f64::consts::E / epsilon).ceil() as usize; // ~272
    let depth = (1.0 / delta).ln().ceil() as usize; // ~5

    let mut cms = CountMinSketch::new(depth, width);
    let mut truth: HashMap<u64, u64> = HashMap::new();
    let mut n = 0u64;
    // Deterministic skewed stream via xorshift.
    let mut x = 0x9E37_79B9_7F4A_7C15u64;
    for _ in 0..40_000 {
        x ^= x << 13;
        x ^= x >> 7;
        x ^= x << 17;
        let key = x % 600;
        *truth.entry(key).or_default() += 1;
        cms.add(&key.to_string(), 1);
        n += 1;
    }

    let bound = (epsilon * n as f64) as u64;
    let violations = truth
        .iter()
        .filter(|(k, &t)| cms.estimate(&k.to_string()) > t + bound)
        .count();
    let frac = violations as f64 / truth.len() as f64;
    // Allow generous slack (3 * delta) so the probabilistic bound isn't flaky.
    assert!(
        frac <= 3.0 * delta,
        "error bound violated for {frac:.4} of keys (delta = {delta})"
    );
}

/// The HyperLogLog estimate of how many distinct keys a sketch has observed.
fn estimate(sketch: &HyperLogLog) -> f64 {
    let registers = sketch.registers();
    let m = registers.len() as f64;
    let alpha = match registers.len() {
        16 => 0.673,
        32 => 0.697,
        64 => 0.709,
        _ => 0.7213 / (1.0 + 1.079 / m),
    };
    let harmonic: f64 = registers.iter().map(|&r| 2f64.powi(-(r as i32))).sum();
    let raw = alpha * m * m / harmonic;
    let zeros = registers.iter().filter(|&&r| r == 0).count();
    if raw <= 2.5 * m && zeros > 0 {
        m * (m / zeros as f64).ln()
    } else {
        raw
    }
}

/// An empty sketch estimates zero distinct items.
#[test]
fn empty_estimates_zero() {
    let hll = HyperLogLog::new(12);
    assert_eq!(estimate(&hll), 0.0);
}

/// Adding the same item ten thousand times is still one distinct item.
#[test]
fn duplicates_do_not_inflate_cardinality() {
    let mut hll = HyperLogLog::new(12);
    for _ in 0..10_000 {
        hll.add("same-card");
    }
    assert!(
        estimate(&hll) < 5.0,
        "estimate {} should be ~1 for a single distinct key",
        estimate(&hll)
    );
}

/// Mid-range cardinality is estimated within ~10%.
#[test]
fn estimates_mid_range_cardinality() {
    let mut hll = HyperLogLog::new(12);
    let n = 5_000usize;
    for i in 0..n {
        hll.add(&format!("card-{i}"));
    }
    let estimate = estimate(&hll);
    let error = (estimate - n as f64).abs() / n as f64;
    assert!(error < 0.10, "estimate {estimate} vs {n}, error {error}");
}

/// Large cardinality (past the small-range correction) is also within ~10%.
#[test]
fn estimates_large_cardinality() {
    let mut hll = HyperLogLog::new(12);
    let n = 50_000usize;
    for i in 0..n {
        hll.add(&format!("user-{i}"));
    }
    let estimate = estimate(&hll);
    let error = (estimate - n as f64).abs() / n as f64;
    assert!(error < 0.10, "estimate {estimate} vs {n}, error {error}");
}

/// The relative error stays within 4 standard errors (4 * 1.04 / sqrt(m)) of the
/// true cardinality across many independent key streams.
#[test]
fn hll_relative_error_within_four_sigma() {
    let precision = 12u8;
    let m = 1u32 << precision;
    let sigma = 1.04 / (m as f64).sqrt();
    let n = 50_000usize;

    for seed in 0..40u64 {
        let mut hll = HyperLogLog::new(precision);
        for i in 0..n {
            hll.add(&format!("{seed}:{i}"));
        }
        let rel = (estimate(&hll) - n as f64).abs() / n as f64;
        assert!(
            rel < 4.0 * sigma,
            "seed {seed}: relative error {rel:.4} exceeded 4 sigma = {:.4}",
            4.0 * sigma
        );
    }
}

/// A sketch depends on which keys it has seen, not on their order or how often.
#[test]
fn a_sketch_is_a_function_of_the_set_of_keys() {
    let mut a = HyperLogLog::new(6);
    let mut b = HyperLogLog::new(6);
    for i in 0..100 {
        a.add(&format!("k{i}"));
        b.add(&format!("k{}", 99 - i));
        b.add(&format!("k{}", 99 - i));
    }
    assert_eq!(a.registers(), b.registers());
    assert_eq!(a.registers().len(), 64);
}

/// Whether the estimate of a sketch exceeds a budget.
fn exceeds(sketch: &HyperLogLog, budget: u64) -> bool {
    estimate(sketch) > budget as f64
}

/// An actor is denied exactly when the estimate of its distinct targets exceeds the
/// limit, by however little.
#[test]
fn the_estimate_is_compared_with_the_limit_as_it_is() {
    for limit in [0u64, 1, 2, 5, 20, 50] {
        let mut limiter = DistinctVelocityLimiter::new(1_000, limit);
        let mut seen = HyperLogLog::new(10);
        for i in 0..100 {
            let target = format!("card-{i}");
            seen.add(&target);
            let over = estimate(&seen) > limit as f64;
            let decision = limiter.check("ip-1", &target, 0, &exceeds);
            assert_eq!(decision == Decision::Deny, over, "limit {limit}, target {i}");
        }
    }
}

/// Carding: one actor fanning out to many distinct targets is flagged.
#[test]
fn flags_an_actor_hitting_many_distinct_targets() {
    let mut limiter = DistinctVelocityLimiter::new(1_000, 20);
    let mut last = Decision::Allow;
    for i in 0..200 {
        last = limiter.check("ip-1", &format!("card-{i}"), 0, &exceeds);
    }
    assert_eq!(
        last,
        Decision::Deny,
        "200 distinct targets must trip the limit"
    );
}

/// The same target hit repeatedly is NOT carding: distinct count stays at 1.
#[test]
fn the_same_target_repeated_is_never_flagged() {
    let mut limiter = DistinctVelocityLimiter::new(1_000, 20);
    for _ in 0..500 {
        assert_eq!(
            limiter.check("ip-1", "card-x", 0, &exceeds),
            Decision::Allow
        );
    }
}

/// A small number of distinct targets stays under the limit.
#[test]
fn a_few_distinct_targets_are_allowed() {
    let mut limiter = DistinctVelocityLimiter::new(1_000, 20);
    for i in 0..5 {
        assert_eq!(
            limiter.check("ip-1", &format!("acct-{i}"), 0, &exceeds),
            Decision::Allow
        );
    }
}

/// Distinct actors are independent; one carder does not flag a clean actor.
#[test]
fn actors_are_counted_independently() {
    let mut limiter = DistinctVelocityLimiter::new(1_000, 20);
    for i in 0..200 {
        limiter.check("carder", &format!("card-{i}"), 0, &exceeds);
    }
    assert_eq!(
        limiter.check("clean", "card-1", 0, &exceeds),
        Decision::Allow
    );
}

/// A new window resets the distinct-count, so yesterday's fan-out does not
/// permanently condemn an actor.
#[test]
fn a_new_window_resets_the_distinct_count() {
    let mut limiter = DistinctVelocityLimiter::new(1_000, 20);
    for i in 0..200 {
        limiter.check("ip-1", &format!("card-{i}"), 0, &exceeds);
    }
    // Next window: a single new target is fine again.
    assert_eq!(
        limiter.check("ip-1", "card-new", 5_000, &exceeds),
        Decision::Allow
    );
}

/// A flood of distinct actors cannot grow memory without bound.
#[test]
fn tracked_actors_stay_bounded() {
    let cap = 128;
    let mut limiter = DistinctVelocityLimiter::with_capacity(1_000, 20, cap);
    for i in 0..10_000 {
        limiter.check(&format!("ip-{i}"), "target", 0, &exceeds);
    }
    assert!(limiter.tracked_actors() <= cap);
}

/// The decision is what the comparison says of the actor's sketch and the budget.
#[test]
fn the_comparison_decides() {
    let mut limiter = DistinctVelocityLimiter::new(1_000, 20);
    let mut seen = HyperLogLog::new(10);
    seen.add("t");
    let asked = |sketch: &HyperLogLog, budget: u64| {
        assert_eq!(budget, 20);
        assert_eq!(sketch.registers(), seen.registers());
    };
    let never = |sketch: &HyperLogLog, budget: u64| {
        asked(sketch, budget);
        false
    };
    let always = |sketch: &HyperLogLog, budget: u64| {
        asked(sketch, budget);
        true
    };
    assert_eq!(limiter.check("a", "t", 0, &never), Decision::Allow);
    assert_eq!(limiter.check("a", "t", 0, &always), Decision::Deny);
}

/// A limiter tracks as many actors as it has seen distinct ones, up to its cap.
#[test]
fn as_many_actors_as_the_cap_allows() {
    let mut limiter = DistinctVelocityLimiter::with_capacity(1_000, 20, 5);
    for i in 0..20usize {
        let actor = format!("ip-{}", i / 2);
        limiter.check(&actor, "t", 0, &exceeds);
        assert_eq!(limiter.tracked_actors(), (i / 2 + 1).min(5));
    }
}

/// An estimate lies between a key's own count and all that was added.
#[test]
fn an_estimate_never_exceeds_the_total() {
    let mut cms = CountMinSketch::new(2, 3);
    let mut total = 0;
    for i in 0..50u64 {
        cms.add(&format!("k{}", i % 9), i);
        total += i;
        for k in 0..9 {
            assert!(cms.estimate(&format!("k{k}")) <= total);
        }
    }
}

/// Over a whole history a limiter weighs a key's own hits in the current and the
/// previous window, and every rule of a set decides as a limiter of its own does.
#[test]
fn limits_hold_over_whole_histories() {
    let (window, limit) = (100u64, 7u64);
    let mut limiter = SlidingWindowLimiter::new(window, limit);
    let mut wide = SlidingWindowLimiter::new(300, 15);
    let mut rules = RuleSet::new()
        .rule("narrow", window, limit, Action::Throttle)
        .rule("wide", 300, 15, Action::Block);
    let mut seen: Vec<(u64, u64)> = Vec::new();
    let (mut now, mut state) = (0u64, 12345u64);
    for _ in 0..2_000 {
        state = state.wrapping_mul(6364136223846793005).wrapping_add(1);
        now += (state >> 33) % 12;
        let who = (state >> 50) % 3;
        seen.push((who, now));
        let hits = |w: u64| seen.iter().filter(|h| h.0 == who && h.1 / window == w).count() as u64;
        let current = hits(now / window);
        let previous = if now < window { 0 } else { hits(now / window - 1) };
        let fits = current * window + previous * (window - now % window) <= limit * window;
        let key = format!("ip-{who}");
        let narrow = limiter.check(&key, now);
        assert_eq!(narrow == Decision::Allow, fits);
        let expected = match (narrow, wide.check(&key, now)) {
            (Decision::Deny, _) => Verdict::Deny {
                rule: "narrow".to_string(),
                action: Action::Throttle,
            },
            (_, Decision::Deny) => Verdict::Deny {
                rule: "wide".to_string(),
                action: Action::Block,
            },
            _ => Verdict::Allow,
        };
        assert_eq!(rules.evaluate(&key, now), expected);
    }
}
