//! The idempotency engine over an in-memory store and over replicas.

use onced::engine::{Begin, CompleteError, Engine, RunToken};
use onced::headers::Headers;
use onced::replication::ReplicatedStore;
use onced::store::{MemoryStore, Store};
use onced::wal::kept_store;
use onced::wal::{LogWrite, MemoryKeeper, WalStore};
use onced::{CachedOutcome, Fence, IdempotencyKey, KeyState, RequestFingerprint};

const LEASE_MS: u64 = 30_000;

/// Carries out `writes` on the log that `disk` holds.
fn carry_out(disk: &mut Vec<u8>, writes: &Vec<LogWrite>) {
    let mut keeper = MemoryKeeper::holding(disk.clone(), 0);
    kept_store::carry_out(&mut keeper, writes);
    *disk = keeper.log().to_vec();
}

fn key(s: &str) -> IdempotencyKey {
    IdempotencyKey(s.to_string())
}

fn fp(byte: u8) -> RequestFingerprint {
    RequestFingerprint([byte; 32])
}

fn outcome(status: u16, body: &[u8]) -> CachedOutcome {
    CachedOutcome {
        status,
        headers: Headers::new(),
        body: body.to_vec(),
    }
}

fn run_token<S: Store>(
    engine: &mut Engine<S>,
    k: &IdempotencyKey,
    f: RequestFingerprint,
    now: u64,
) -> RunToken {
    match engine.begin(k.clone(), f, now) {
        Begin::Run(token) => token,
        other => panic!("expected Run, got {other:?}"),
    }
}

#[test]
fn vocabulary_is_constructible_and_distinct() {
    let fingerprint = RequestFingerprint([7u8; 32]);

    let in_progress = KeyState::InProgress {
        fence: Fence(1),
        fingerprint,
        lease_expires_at_ms: 31_000,
    };
    let completed = KeyState::Completed {
        fingerprint,
        outcome: CachedOutcome {
            status: 200,
            headers: Headers::new(),
            body: b"ok".to_vec(),
        },
        completed_at_ms: 12_000,
    };

    // An in-progress key is distinct from a completed one.
    assert_ne!(in_progress, completed);
    // Fences are monotonically comparable (higher fence wins).
    assert!(Fence(2) > Fence(1));
    // Keys are usable as map/set members.
    assert_eq!(IdempotencyKey("k".into()), IdempotencyKey("k".into()));
}

/// The headline guarantee: the first request runs the side effect once; a retry
/// carrying the same key replays the stored result without re-running.
#[test]
fn operation_runs_once_then_replays_on_retry() {
    let mut engine = Engine::new(MemoryStore::new(), LEASE_MS);
    let k = key("charge-1");
    let f = fp(1);

    let token = run_token(&mut engine, &k, f, 1_000);
    let result = outcome(201, b"charged");
    engine
        .complete(token, result.clone(), 1_000)
        .expect("the only in-flight attempt should complete");

    match engine.begin(k, f, 1_005) {
        Begin::Replay(replayed) => assert_eq!(replayed, result),
        other => panic!("retry should Replay, got {other:?}"),
    }
}

/// A second request for a key whose first attempt is still in flight (lease not
/// expired) must not run the side effect a second time.
#[test]
fn concurrent_request_while_in_progress_is_told_to_wait() {
    let mut engine = Engine::new(MemoryStore::new(), LEASE_MS);
    let k = key("charge-2");
    let f = fp(2);

    let _first = run_token(&mut engine, &k, f, 1_000);
    assert!(matches!(engine.begin(k, f, 1_005), Begin::InProgress));
}

/// The same key carrying a *different* request must never be confused with the
/// original, neither while in progress nor after completion.
#[test]
fn same_key_with_a_different_request_is_a_mismatch() {
    let mut engine = Engine::new(MemoryStore::new(), LEASE_MS);
    let k = key("charge-3");
    let original = fp(1);
    let imposter = fp(9);

    let token = run_token(&mut engine, &k, original, 1_000);
    assert!(matches!(
        engine.begin(k.clone(), imposter, 1_001),
        Begin::Mismatch
    ));

    engine.complete(token, outcome(200, b"ok"), 1_001).unwrap();
    assert!(matches!(engine.begin(k, imposter, 1_002), Begin::Mismatch));
}

/// If the original worker stalls past its lease, a new worker takes over; the
/// stalled worker's stale fence must not be allowed to write a result, and the
/// result that *is* stored is the new worker's.
#[test]
fn a_stale_fence_cannot_overwrite_the_outcome() {
    let mut engine = Engine::new(MemoryStore::new(), LEASE_MS);
    let k = key("charge-4");
    let f = fp(1);

    let stalled = run_token(&mut engine, &k, f, 1_000);
    // Lease expires at 1_000 + LEASE_MS; a retry at that instant takes over.
    let fresh = run_token(&mut engine, &k, f, 1_000 + LEASE_MS);

    assert_eq!(
        engine.complete(stalled, outcome(500, b"stale"), 1_000 + LEASE_MS),
        Err(CompleteError::StaleFence),
    );

    let good = outcome(201, b"fresh");
    engine
        .complete(fresh, good.clone(), 1_000 + LEASE_MS)
        .unwrap();

    assert!(matches!(engine.begin(k, f, 1_000 + LEASE_MS + 1), Begin::Replay(o) if o == good));
}

/// A completed key is immutable: a duplicate completion is rejected and the
/// originally stored outcome is preserved.
#[test]
fn completed_key_is_immutable() {
    let mut engine = Engine::new(MemoryStore::new(), LEASE_MS);
    let k = key("charge-5");
    let f = fp(1);

    let token = run_token(&mut engine, &k, f, 1_000);
    let first = outcome(201, b"first");
    engine
        .complete(token.clone(), first.clone(), 1_000)
        .unwrap();

    assert_eq!(
        engine.complete(token, outcome(200, b"second"), 1_001),
        Err(CompleteError::AlreadyCompleted),
    );
    assert!(matches!(engine.begin(k, f, 1_001), Begin::Replay(o) if o == first));
}

/// Within its time-to-live a completed key still replays; once it elapses the key
/// is recycled, so a brand-new request, even a *different* one reusing the same key
/// string, gets to run rather than replaying a stale outcome.
#[test]
fn a_completed_key_is_recycled_after_its_ttl() {
    const TTL: u64 = 10_000;
    let mut engine = Engine::with_ttl(MemoryStore::new(), LEASE_MS, TTL);
    let k = key("charge-ttl");
    let f = fp(1);

    let token = run_token(&mut engine, &k, f, 1_000);
    engine
        .complete(token, outcome(201, b"first"), 1_000)
        .unwrap();

    // Just before expiry: still replays the cached outcome.
    assert!(matches!(
        engine.begin(k.clone(), f, 1_000 + TTL - 1),
        Begin::Replay(o) if o == outcome(201, b"first")
    ));

    // At or after expiry: recycled. A different request reusing the key now runs
    // (rather than being rejected as a mismatch against the expired outcome).
    let different = fp(9);
    assert!(matches!(
        engine.begin(k, different, 1_000 + TTL),
        Begin::Run(_)
    ));
}

/// A token whose record was swept out, or was never there, is refused.
#[test]
fn completing_a_forgotten_key_is_unknown() {
    const TTL: u64 = 10;
    let mut engine = Engine::with_ttl(MemoryStore::new(), LEASE_MS, TTL);
    let k = key("gone");
    let token = run_token(&mut engine, &k, fp(1), 0);
    engine
        .complete(token.clone(), outcome(200, b"x"), 0)
        .unwrap();
    engine.prune_expired(TTL);
    assert_eq!(
        engine.complete(token, outcome(200, b"y"), TTL),
        Err(CompleteError::Unknown),
    );
}

/// A sweep keeps attempts in progress, however old, and changes no answer.
#[test]
fn pruning_keeps_attempts_in_progress() {
    let mut engine = Engine::with_ttl(MemoryStore::new(), LEASE_MS, 10);
    let _token = run_token(&mut engine, &key("held"), fp(1), 0);
    engine.prune_expired(LEASE_MS - 1);
    assert!(matches!(
        engine.begin(key("held"), fp(1), LEASE_MS - 1),
        Begin::InProgress
    ));
    assert!(matches!(
        engine.begin(key("held"), fp(2), LEASE_MS - 1),
        Begin::Mismatch
    ));
}

/// Leases and times-to-live that would overflow the clock never run out.
#[test]
fn times_saturate_at_the_end_of_the_clock() {
    let mut engine = Engine::with_ttl(MemoryStore::new(), u64::MAX, u64::MAX);
    let k = key("late");
    let token = run_token(&mut engine, &k, fp(1), 5);
    assert!(matches!(
        engine.begin(k.clone(), fp(1), u64::MAX - 1),
        Begin::InProgress
    ));
    engine.complete(token, outcome(200, b"x"), 5).unwrap();
    assert!(matches!(
        engine.begin(k.clone(), fp(1), u64::MAX - 1),
        Begin::Replay(_)
    ));
    assert!(matches!(engine.begin(k, fp(1), u64::MAX), Begin::Run(_)));
}

/// Fences only grow: each new attempt supersedes all before it.
#[test]
fn every_takeover_supersedes_all_earlier_workers() {
    let mut engine = Engine::new(MemoryStore::new(), 10);
    let k = key("contended");
    let mut tokens = Vec::new();
    for i in 0..5u64 {
        tokens.push(run_token(&mut engine, &k, fp(1), i * 10));
    }
    let last = tokens.pop().unwrap();
    for stale in tokens {
        assert_eq!(
            engine.complete(stale, outcome(500, b"stale"), 41),
            Err(CompleteError::StaleFence)
        );
    }
    assert_eq!(engine.complete(last, outcome(200, b"good"), 41), Ok(()));
    assert!(engine.can_mint());
}

/// A history of takeovers and crashes: the first commit stands, every other worker
/// is refused, and every retry gets the same outcome.
#[test]
fn one_commit_stands_across_takeovers_and_crashes() {
    let mut disk: Vec<u8> = Vec::new();
    let k = key("charge");
    let mut tokens = Vec::new();
    for i in 0..4u64 {
        let mut engine = Engine::new(WalStore::open(&disk).unwrap(), 10);
        tokens.push(run_token(&mut engine, &k, fp(1), i * 10));
        carry_out(&mut disk, engine.store().writes());
    }
    let mut engine = Engine::new(WalStore::open(&disk).unwrap(), 10);
    let winner = tokens.pop().unwrap();
    let first = tokens.remove(0);
    assert_eq!(
        engine.complete(first, outcome(500, b"stale"), 40),
        Err(CompleteError::StaleFence)
    );
    assert_eq!(
        engine.complete(winner, outcome(201, b"charged"), 40),
        Ok(())
    );
    carry_out(&mut disk, engine.store().writes());
    for stale in tokens {
        let mut engine = Engine::new(WalStore::open(&disk).unwrap(), 10);
        assert_eq!(
            engine.complete(stale, outcome(500, b"stale"), 50),
            Err(CompleteError::AlreadyCompleted)
        );
        assert!(matches!(
            engine.begin(k.clone(), fp(1), 51),
            Begin::Replay(o) if o == outcome(201, b"charged")
        ));
        assert!(matches!(
            engine.begin(k.clone(), fp(2), 51),
            Begin::Mismatch
        ));
    }
}

fn state() -> KeyState {
    KeyState::Completed {
        fingerprint: RequestFingerprint([0u8; 32]),
        outcome: CachedOutcome {
            status: 200,
            headers: Headers::new(),
            body: Vec::new(),
        },
        completed_at_ms: 0,
    }
}

/// `compact` drops exactly the entries the predicate rejects, keeping the rest.
#[test]
fn memory_store_compact_drops_rejected_keys() {
    let mut store = MemoryStore::new();
    store.put(IdempotencyKey("keep".into()), state());
    store.put(IdempotencyKey("drop".into()), state());

    store.compact(&|key: &IdempotencyKey, _: &KeyState| key.0 == "keep");

    assert!(store.get(&IdempotencyKey("keep".into())).is_some());
    assert!(store.get(&IdempotencyKey("drop".into())).is_none());
}

fn completed() -> KeyState {
    KeyState::Completed {
        fingerprint: RequestFingerprint([3u8; 32]),
        outcome: CachedOutcome {
            status: 200,
            headers: Headers::new(),
            body: b"done".to_vec(),
        },
        completed_at_ms: 0,
    }
}

/// Every write lands on every node.
#[test]
fn a_write_reaches_every_replica() {
    let mut store = ReplicatedStore::new(vec![
        MemoryStore::new(),
        MemoryStore::new(),
        MemoryStore::new(),
    ]);
    assert_eq!(store.node_count(), 3);

    let key = IdempotencyKey("k".into());
    store.put(key.clone(), completed());

    // Drop the wrapper into its replicas and check each one independently.
    let replicas = store.into_nodes();
    for replica in &replicas {
        assert_eq!(replica.get(&key), Some(&completed()));
    }
}

/// THE distributed guarantee: a committed effect survives the *primary node*
/// being destroyed. Recovery from a replica alone still replays the outcome, so
/// exactly-once holds across a node death, not just a process crash.
#[test]
fn exactly_once_survives_primary_node_death() {
    let mut replica: Vec<u8> = Vec::new();
    let key = IdempotencyKey("charge".into());
    let fingerprint = RequestFingerprint([1u8; 32]);
    let outcome = CachedOutcome {
        status: 201,
        headers: Headers::new(),
        body: b"charged".to_vec(),
    };

    // Commit through the replicated store (primary + one replica).
    {
        let store = ReplicatedStore::new(vec![
            WalStore::open(&[]).unwrap(),
            WalStore::open(&replica).unwrap(),
        ]);
        let mut engine = Engine::new(store, 30_000);
        let token = match engine.begin(key.clone(), fingerprint, 1_000) {
            Begin::Run(token) => token,
            other => panic!("expected Run, got {other:?}"),
        };
        engine.complete(token, outcome.clone(), 1_000).unwrap();
        let mut nodes = engine.into_store().into_nodes();
        carry_out(&mut replica, &nodes[1].take_writes());
        // The PRIMARY NODE is lost entirely (its disk is gone).
    }

    // Promote the replica: recover from it alone. The committed effect must still
    // be there, and a retry replays it exactly.
    let mut engine = Engine::new(WalStore::open(&replica).unwrap(), 30_000);
    match engine.begin(key, fingerprint, 2_000) {
        Begin::Replay(got) => assert_eq!(got, outcome),
        other => panic!("exactly-once must survive primary death, got {other:?}"),
    }
}
