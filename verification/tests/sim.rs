//! Fault-injected simulation campaigns.

use onced::sim::{begin_name, fingerprint_of, key_of, BeginKind, Durability, Simulation, Stats};

/// The campaign: many seeds, each a long fault-injected run. The counter assertions
/// prove the run exercised crashes, recoveries, takeovers, and replays, so a clean
/// pass is not vacuous.
#[test]
fn exactly_once_holds_across_seeds_and_faults() {
    let mut total = Stats::default();
    for seed in 0..12u64 {
        let mut sim = Simulation::new(seed);
        let stats = sim.run(400).unwrap();
        total.accumulate(&stats);
    }

    assert!(
        total.completes_ok > 0,
        "campaign committed nothing: {total:?}"
    );
    assert!(total.crashes > 0, "campaign injected no crashes: {total:?}");
    assert!(total.replays > 0, "campaign never replayed: {total:?}");
    assert!(
        total.takeovers > 0,
        "campaign never took over a lease: {total:?}"
    );
    assert!(
        total.stale_fences > 0,
        "campaign never refused a stale fence: {total:?}"
    );
    assert_eq!(total.steps, 4_800);
}

/// Group-commit campaign: the same fault injection, but writes are durable only
/// after a flush, and crashes between flushes lose un-flushed writes.
#[test]
fn group_commit_holds_durable_exactly_once_across_crashes() {
    let mut total = Stats::default();
    let mut durable_seen = false;
    for seed in 0..16u64 {
        let mut sim = Simulation::with_mode(seed, Durability::GroupCommit);
        let stats = sim.run(600).unwrap();
        durable_seen |= sim.durable_keys() > 0;
        total.accumulate(&stats);
    }

    assert!(total.flushes > 0, "campaign never flushed: {total:?}");
    assert!(total.crashes > 0, "campaign injected no crashes: {total:?}");
    assert!(
        total.completes_ok > 0,
        "campaign committed nothing: {total:?}"
    );
    assert!(durable_seen, "campaign never made a key durable: {total:?}");
    assert!(
        total.unknown_completes > 0,
        "campaign never orphaned a token across a pre-flush crash \
         (group-commit recovery path unexercised): {total:?}"
    );
}

/// A run replays exactly from its seed, in one go or in pieces.
#[test]
fn a_seed_determines_the_run() {
    for mode in [Durability::Strict, Durability::GroupCommit] {
        let whole = Simulation::with_mode(7, mode).run(300).unwrap();
        let mut sim = Simulation::with_mode(7, mode);
        sim.run(100).unwrap();
        sim.run(200).unwrap();
        assert_eq!(sim.stats(), whole);
        assert_ne!(Simulation::with_mode(8, mode).run(300).unwrap(), whole);
    }
}

/// Counters that would overflow stay at the largest number there is.
#[test]
fn accumulated_counters_saturate() {
    let mut total = Stats::default();
    total.steps = u64::MAX - 1;
    let mut other = Stats::default();
    other.steps = 5;
    other.runs = 3;
    total.accumulate(&other);
    assert_eq!(total.steps, u64::MAX);
    assert_eq!(total.runs, 3);
}

#[test]
fn keys_and_fingerprints_follow_their_index() {
    assert_eq!(key_of(7).0, "key-7");
    let print = fingerprint_of(0x0102).0;
    assert_eq!(print[0], 2);
    assert_eq!(print[1], 1);
    assert!(print[2..].iter().all(|&b| b == 0));
    assert_eq!(begin_name(BeginKind::Run), "Run");
    assert_eq!(begin_name(BeginKind::InProgress), "InProgress");
}
