//! The write-ahead log: its records, and recovery of its bytes.

use onced::engine::{Begin, CompleteError, Engine};
use onced::headers::Headers;
use onced::store::Store;
use onced::wal::codec::{GENESIS, HEADER_LEN};
use onced::wal::kept_store;
use onced::wal::{
    crc32, decode_record, encode_record, KeptStore, LogKeeper, LogWrite, MemoryKeeper, WalError,
    WalStore,
};
use onced::{CachedOutcome, Fence, IdempotencyKey, KeyState, RequestFingerprint};
use std::cell::RefCell;
use std::collections::HashMap;
use std::rc::Rc;

fn completed(status: u16, body: &[u8]) -> KeyState {
    let mut headers = Headers::new();
    headers.push("content-type".to_string(), "application/json".to_string());
    KeyState::Completed {
        fingerprint: RequestFingerprint([3u8; 32]),
        outcome: CachedOutcome {
            status,
            headers,
            body: body.to_vec(),
        },
        completed_at_ms: 50_000,
    }
}

/// Carries out `writes` on the log that `disk` holds.
fn carry_out(disk: &mut Vec<u8>, writes: &Vec<LogWrite>) {
    let mut keeper = MemoryKeeper::holding(disk.clone(), 0);
    kept_store::carry_out(&mut keeper, writes);
    *disk = keeper.log().to_vec();
}

/// Carries out on `disk` what the store has issued, as its keeper does before an
/// operation is acknowledged.
fn sync(disk: &mut Vec<u8>, store: &mut WalStore) {
    let writes = store.take_writes();
    carry_out(disk, &writes);
}

/// The disk under an engine, once what its store has issued is carried out.
fn synced(disk: &[u8], engine: &Engine<WalStore>) -> Vec<u8> {
    let mut after = disk.to_vec();
    carry_out(&mut after, engine.store().writes());
    after
}

/// A record must survive a serialize -> deserialize round trip byte-for-byte.
#[test]
fn encode_then_decode_round_trips_both_variants() {
    let key = IdempotencyKey("round-trip".into());

    let in_progress = KeyState::InProgress {
        fence: Fence(42),
        fingerprint: RequestFingerprint([7u8; 32]),
        lease_expires_at_ms: 99_000,
    };
    let framed = encode_record(&key, &in_progress, &GENESIS);
    let (consumed, k, s, chain) = decode_record(&framed).expect("valid record decodes");
    assert_eq!(consumed, framed.len());
    assert_eq!(k, key);
    assert_eq!(s, in_progress);
    // Chain must be non-genesis (a real SHA-256 of the record contents).
    assert_ne!(chain, GENESIS);

    let done = completed(201, b"charged");
    let framed = encode_record(&key, &done, &GENESIS);
    let (consumed, k, s, chain2) = decode_record(&framed).expect("valid record decodes");
    assert_eq!(consumed, framed.len());
    assert_eq!(k, key);
    assert_eq!(s, done);
    assert_ne!(chain2, GENESIS);
    // Different states produce different chains.
    assert_ne!(chain, chain2);
}

/// A truncated/garbage tail (a crash mid-append) decodes to None, never a bogus
/// record.
#[test]
fn a_truncated_record_decodes_to_none() {
    let key = IdempotencyKey("k".into());
    let framed = encode_record(&key, &completed(200, b"ok"), &GENESIS);
    // Hand the decoder every strict prefix of a valid record.
    for cut in 0..framed.len() {
        assert!(
            decode_record(&framed[..cut]).is_none(),
            "prefix of length {cut} must not decode"
        );
    }
}

/// The bytes of a record, field by field.
#[test]
fn a_record_has_the_documented_layout() {
    let key = IdempotencyKey("k".into());
    let state = KeyState::InProgress {
        fence: Fence(0x0102),
        fingerprint: RequestFingerprint([9u8; 32]),
        lease_expires_at_ms: 7,
    };
    let framed = encode_record(&key, &state, &GENESIS);
    // Key length and key, tag, fence, fingerprint, lease.
    let mut payload: Vec<u8> = vec![1, 0, 0, 0, b'k', 0];
    payload.extend_from_slice(&[2, 1, 0, 0, 0, 0, 0, 0]);
    payload.extend_from_slice(&[9u8; 32]);
    payload.extend_from_slice(&[7, 0, 0, 0, 0, 0, 0, 0]);
    assert_eq!(&framed[HEADER_LEN..], &payload[..]);
    assert_eq!(&framed[0..4], &(payload.len() as u32).to_le_bytes());
    assert_eq!(&framed[4..8], &crc32(&payload).to_le_bytes());
    let mut chained = GENESIS.to_vec();
    chained.extend_from_slice(&crc32(&payload).to_le_bytes());
    chained.extend_from_slice(&payload);
    assert_eq!(&framed[8..40], &onced::hash::sha256(&chained));
}

/// The bytes of a completed record, field by field: repeated headers are kept, in
/// the order in which they came.
#[test]
fn a_completed_record_has_the_documented_layout() {
    let key = IdempotencyKey("k".into());
    let mut headers = Headers::new();
    headers.push("b".to_string(), "1".to_string());
    headers.push("a".to_string(), "2".to_string());
    headers.push("b".to_string(), "3".to_string());
    let state = KeyState::Completed {
        fingerprint: RequestFingerprint([9u8; 32]),
        outcome: CachedOutcome {
            status: 0x0102,
            headers,
            body: b"xy".to_vec(),
        },
        completed_at_ms: 7,
    };
    let framed = encode_record(&key, &state, &GENESIS);
    // Key length and key, tag, fingerprint, completion time, status, headers, body.
    let mut payload: Vec<u8> = vec![1, 0, 0, 0, b'k', 1];
    payload.extend_from_slice(&[9u8; 32]);
    payload.extend_from_slice(&[7, 0, 0, 0, 0, 0, 0, 0]);
    payload.extend_from_slice(&[2, 1, 3, 0, 0, 0]);
    payload.extend_from_slice(&[1, 0, 0, 0, b'b', 1, 0, 0, 0, b'1']);
    payload.extend_from_slice(&[1, 0, 0, 0, b'a', 1, 0, 0, 0, b'2']);
    payload.extend_from_slice(&[1, 0, 0, 0, b'b', 1, 0, 0, 0, b'3']);
    payload.extend_from_slice(&[2, 0, 0, 0, b'x', b'y']);
    assert_eq!(&framed[HEADER_LEN..], &payload[..]);
    let (consumed, k, s, _) = decode_record(&framed).unwrap();
    assert_eq!((consumed, k, s), (framed.len(), key, state));
}

/// A key that is not UTF-8 does not decode, even under a valid checksum.
#[test]
fn a_record_whose_key_is_not_text_decodes_to_none() {
    let mut framed = encode_record(&IdempotencyKey("k".into()), &completed(200, b""), &GENESIS);
    framed[HEADER_LEN + 4] = 0xFF;
    let crc = crc32(&framed[HEADER_LEN..]);
    framed[4..8].copy_from_slice(&crc.to_le_bytes());
    assert!(decode_record(&framed).is_none());
}

/// The headline durability guarantee: a key written in one process lifetime is
/// recovered after a simulated crash (drop without clean shutdown).
#[test]
fn a_completed_key_survives_a_simulated_crash() {
    let mut disk: Vec<u8> = Vec::new();
    let key = IdempotencyKey("charge-1".into());
    let state = completed(201, b"charged");

    // Lifetime 1: persist, then "crash" by dropping the store.
    {
        let mut store = WalStore::open(&disk).expect("open fresh wal");
        store.put(key.clone(), state.clone());
        sync(&mut disk, &mut store);
    }

    // Lifetime 2: reopen the same file and the record must be present.
    let store = WalStore::open(&disk).expect("reopen wal");
    assert_eq!(store.get(&key), Some(&state));
}

/// Group-commit durability contract: a buffered `put` is NOT durable until
/// `flush`. A crash (drop) before flush correctly loses it; a flush makes it
/// durable.
#[test]
fn a_buffered_put_is_durable_only_after_flush() {
    let mut disk: Vec<u8> = Vec::new();
    let key = IdempotencyKey("charge-b".into());
    let state = completed(201, b"charged");

    // Buffer a put, then "crash" without flushing: it must be lost.
    {
        let mut store = WalStore::open_buffered(&disk).expect("open buffered");
        store.put(key.clone(), state.clone());
        // get() sees it within this process lifetime...
        assert_eq!(store.get(&key), Some(&state));
        sync(&mut disk, &mut store);
    }
    let store = WalStore::open(&disk).expect("reopen");
    assert_eq!(
        store.get(&key),
        None,
        "an un-flushed put must not survive a crash"
    );

    // Now buffer, flush, then crash: it must survive.
    {
        let mut store = WalStore::open_buffered(&disk).expect("open buffered");
        store.put(key.clone(), state.clone());
        store.flush();
        sync(&mut disk, &mut store);
    }
    let store = WalStore::open(&disk).expect("reopen after flush");
    assert_eq!(store.get(&key), Some(&state), "a flushed put must survive");
}

/// Group commit amortizes one commit over a whole batch: many buffered puts
/// followed by a single flush all recover.
#[test]
fn a_whole_batch_recovers_after_one_flush() {
    let mut disk: Vec<u8> = Vec::new();
    let states: Vec<(IdempotencyKey, KeyState)> = (0..100)
        .map(|i| {
            (
                IdempotencyKey(format!("k{i}")),
                completed(200, format!("body-{i}").as_bytes()),
            )
        })
        .collect();

    {
        let mut store = WalStore::open_buffered(&disk).expect("open buffered");
        let _ = store.take_writes();
        for (k, s) in &states {
            store.put(k.clone(), s.clone());
        }
        store.flush();
        // One append for the whole batch.
        assert_eq!(store.writes().len(), 1);
        assert!(matches!(store.writes()[0], LogWrite::Append(_)));
        sync(&mut disk, &mut store);
    }

    let store = WalStore::open(&disk).expect("reopen");
    for (k, s) in &states {
        assert_eq!(store.get(k), Some(s));
    }
}

/// A torn tail left by a crash mid-append is discarded on reopen, and the last
/// fully-durable record is preserved.
#[test]
fn a_torn_tail_is_discarded_on_reopen() {
    let mut disk: Vec<u8> = Vec::new();
    let good = IdempotencyKey("good".into());
    let state = completed(200, b"ok");

    {
        let mut store = WalStore::open(&disk).expect("open fresh wal");
        store.put(good.clone(), state.clone());
        sync(&mut disk, &mut store);
    }
    let whole = disk.len();
    // Simulate a partial write: append a few bytes that cannot form a frame.
    disk.extend_from_slice(&[0xFF, 0x00, 0x12, 0x34, 0xAB]);

    let mut store = WalStore::open(&disk).expect("reopen after torn write");
    assert_eq!(store.get(&good), Some(&state));
    // The torn bytes are cut off before anything is appended.
    sync(&mut disk, &mut store);
    assert_eq!(disk.len(), whole);
}

/// After a crash mid-flight, recovery must keep minting fences *above* the
/// recovered in-progress lease. Otherwise a takeover reuses the dead worker's fence
/// and would wrongly accept its stale, pre-crash token.
#[test]
fn a_recovered_in_progress_lease_invalidates_the_pre_crash_token() {
    let mut disk: Vec<u8> = Vec::new();
    let key = IdempotencyKey("charge-x".into());
    let fingerprint = RequestFingerprint([5u8; 32]);
    let lease_ms = 30_000u64;

    // Lifetime 1: begin (InProgress persisted), then crash mid-flight.
    let pre_crash_token = {
        let mut engine = Engine::new(WalStore::open(&disk).unwrap(), lease_ms);
        let token = match engine.begin(key.clone(), fingerprint, 1_000) {
            Begin::Run(token) => token,
            other => panic!("expected Run, got {other:?}"),
        };
        disk = synced(&disk, &engine);
        token
    };

    // Lifetime 2: recover and take over the expired lease.
    let mut engine = Engine::new(WalStore::open(&disk).unwrap(), lease_ms);
    let fresh = match engine.begin(key.clone(), fingerprint, 1_000 + lease_ms + 1) {
        Begin::Run(token) => token,
        other => panic!("expired lease should allow takeover, got {other:?}"),
    };

    // The pre-crash token must now be refused...
    assert_eq!(
        engine.complete(
            pre_crash_token,
            CachedOutcome {
                status: 500,
                headers: Headers::new(),
                body: b"stale".to_vec(),
            },
            1_000 + lease_ms + 1,
        ),
        Err(CompleteError::StaleFence),
    );
    // ...and the fresh worker completes cleanly.
    engine
        .complete(
            fresh,
            CachedOutcome {
                status: 201,
                headers: Headers::new(),
                body: b"fresh".to_vec(),
            },
            1_000 + lease_ms + 1,
        )
        .unwrap();
}

fn written(n: u32, body: &[u8]) -> Vec<u8> {
    let mut disk: Vec<u8> = Vec::new();
    let mut store = WalStore::open(&disk).unwrap();
    for i in 0..n {
        store.put(IdempotencyKey(format!("k{i}")), completed(200, body));
    }
    sync(&mut disk, &mut store);
    disk
}

/// Interior corruption, a flipped byte in the *middle* of the log with
/// fully-durable records after it, must be surfaced, never silently truncated.
#[test]
fn interior_corruption_is_surfaced_not_silently_truncated() {
    let mut bytes = written(6, b"x");

    // Flip a byte inside the first record's payload (past the full header).
    // Records after it remain intact, so this is interior corruption.
    bytes[HEADER_LEN + 1] ^= 0xFF;

    let result = WalStore::open(&bytes);
    assert!(
        result.is_err(),
        "interior corruption must be surfaced as an error, not silently truncated"
    );
    assert_eq!(result.err(), Some(WalError::Corrupt(0)));
}

/// The checksum is exactly IEEE 802.3 CRC-32, pinned against the standard
/// published check values.
#[test]
fn crc32_matches_known_ieee_vectors() {
    assert_eq!(crc32(b""), 0x0000_0000);
    assert_eq!(crc32(b"123456789"), 0xCBF4_3926);
    assert_eq!(
        crc32(b"The quick brown fox jumps over the lazy dog"),
        0x414F_A339
    );
}

/// `Engine::flush` must actually make buffered (group-commit) writes durable:
/// without the flush, a drop loses them.
#[test]
fn engine_flush_persists_buffered_writes() {
    let mut disk: Vec<u8> = Vec::new();
    let key = IdempotencyKey("k".into());
    let outcome = CachedOutcome {
        status: 200,
        headers: Headers::new(),
        body: b"ok".to_vec(),
    };
    {
        let mut engine = Engine::new(WalStore::open_buffered(&disk).unwrap(), 30_000);
        let token = match engine.begin(key.clone(), RequestFingerprint([1u8; 32]), 1) {
            Begin::Run(token) => token,
            other => panic!("expected Run, got {other:?}"),
        };
        engine.complete(token, outcome.clone(), 1).unwrap();
        engine.flush();
        disk = synced(&disk, &engine);
    }
    let store = WalStore::open(&disk).unwrap();
    assert!(
        matches!(store.get(&key), Some(KeyState::Completed { .. })),
        "engine.flush must persist buffered writes"
    );
}

const TTL: u64 = 10_000;

/// The disk after a key was completed at 1_000 and the engine was pruned at `now`.
fn pruned_at(name: &str, now: u64) -> Vec<u8> {
    let disk: Vec<u8> = Vec::new();
    let key = IdempotencyKey(name.into());
    let mut engine = Engine::with_ttl(WalStore::open(&disk).unwrap(), 30_000, TTL);
    let token = match engine.begin(key, RequestFingerprint([1u8; 32]), 1_000) {
        Begin::Run(token) => token,
        other => panic!("expected Run, got {other:?}"),
    };
    engine
        .complete(
            token,
            CachedOutcome {
                status: 200,
                headers: Headers::new(),
                body: b"x".to_vec(),
            },
            1_000,
        )
        .unwrap();
    engine.prune_expired(now);
    synced(&disk, &engine)
}

/// `prune_expired` keeps a key whose time-to-live has NOT yet elapsed (boundary:
/// prune just before expiry must not drop it).
#[test]
fn prune_keeps_an_unexpired_key() {
    // Prune strictly before expiry (now < completed_at + ttl): keep it.
    let disk = pruned_at("fresh", 1_000 + TTL - 1);
    let store = WalStore::open(&disk).unwrap();
    assert!(
        store.get(&IdempotencyKey("fresh".into())).is_some(),
        "a key before its TTL must not be pruned"
    );
}

/// `prune_expired` removes a key exactly at its expiry instant (boundary: now ==
/// completed_at + ttl is expired).
#[test]
fn prune_removes_a_key_at_its_expiry_instant() {
    // Prune exactly at expiry (now == completed_at + ttl): expired.
    let disk = pruned_at("edge", 1_000 + TTL);
    let store = WalStore::open(&disk).unwrap();
    assert_eq!(
        store.get(&IdempotencyKey("edge".into())),
        None,
        "a key at its expiry instant must be pruned"
    );
}

/// Compaction collapses the dead, superseded records an append-only log
/// accumulates: hammering one key 200 times then compacting must shrink the log,
/// and the live value must survive a reopen.
#[test]
fn compaction_collapses_superseded_records() {
    let mut disk: Vec<u8> = Vec::new();
    let key = IdempotencyKey("hot".into());

    let mut store = WalStore::open(&disk).unwrap();
    for i in 0..200 {
        store.put(key.clone(), completed(200, format!("v{i}").as_bytes()));
    }
    sync(&mut disk, &mut store);
    let before = disk.len();

    // Keep everything; just collapse history.
    store.compact(&|_: &IdempotencyKey, _: &KeyState| true);
    assert!(matches!(store.writes()[..], [LogWrite::Replace(_)]));
    sync(&mut disk, &mut store);
    let after = disk.len();
    assert!(
        after < before,
        "compaction should shrink the log: {after} !< {before}"
    );

    let reopened = WalStore::open(&disk).unwrap();
    assert_eq!(reopened.get(&key), Some(&completed(200, b"v199")));
}

/// Compaction drops entries the `keep` predicate rejects, and the rest survive a
/// reopen.
#[test]
fn compaction_drops_rejected_entries() {
    let mut disk: Vec<u8> = Vec::new();
    let mut store = WalStore::open(&disk).unwrap();
    for i in 0..10u32 {
        store.put(IdempotencyKey(format!("k{i}")), completed(200, b"x"));
    }

    // Keep only odd-numbered keys.
    store.compact(&|k: &IdempotencyKey, _: &KeyState| {
        k.0.trim_start_matches('k').parse::<u32>().unwrap() % 2 == 1
    });
    sync(&mut disk, &mut store);

    let reopened = WalStore::open(&disk).unwrap();
    for i in 0..10u32 {
        let present = reopened.get(&IdempotencyKey(format!("k{i}"))).is_some();
        assert_eq!(present, i % 2 == 1, "wrong retention for key k{i}");
    }
}

/// `Engine::prune_expired` physically removes an expired completed key from the
/// durable log, not just logically: after a prune, a reopened store does not
/// contain it.
#[test]
fn prune_expired_physically_removes_expired_keys() {
    // Past the key's time-to-live: prune should physically drop it.
    let disk = pruned_at("old", 1_000 + TTL + 1);
    let store = WalStore::open(&disk).unwrap();
    assert_eq!(
        store.get(&IdempotencyKey("old".into())),
        None,
        "expired key must be gone from disk"
    );
    assert!(disk.is_empty());
}

struct Rng(u64);

impl Rng {
    fn next_u64(&mut self) -> u64 {
        let mut x = self.0;
        x ^= x << 13;
        x ^= x >> 7;
        x ^= x << 17;
        self.0 = x;
        x
    }
    fn below(&mut self, n: u64) -> u64 {
        self.next_u64() % n
    }
}

fn random_fingerprint(rng: &mut Rng) -> RequestFingerprint {
    let mut bytes = [0u8; 32];
    for b in bytes.iter_mut() {
        *b = rng.below(256) as u8;
    }
    RequestFingerprint(bytes)
}

fn random_state(rng: &mut Rng) -> KeyState {
    if rng.below(2) == 0 {
        KeyState::InProgress {
            fence: Fence(rng.next_u64()),
            fingerprint: random_fingerprint(rng),
            lease_expires_at_ms: rng.next_u64(),
        }
    } else {
        let body_len = rng.below(8) as usize;
        let body: Vec<u8> = (0..body_len).map(|_| rng.below(256) as u8).collect();
        let mut headers = Headers::new();
        if rng.below(2) == 0 {
            headers.push("x-test".to_string(), format!("v{}", rng.below(1000)));
        }
        KeyState::Completed {
            fingerprint: random_fingerprint(rng),
            outcome: CachedOutcome {
                status: 200 + rng.below(50) as u16,
                headers,
                body,
            },
            completed_at_ms: rng.next_u64(),
        }
    }
}

/// Differential stress test: drive the log with hundreds of random writes and
/// repeated simulated crashes, asserting the durably-recovered state always
/// matches a plain in-memory reference model. Deterministic seed, so any failure
/// reproduces exactly.
#[test]
fn randomized_writes_recover_exactly_across_crashes() {
    let mut disk: Vec<u8> = Vec::new();
    let mut rng = Rng(0x9E37_79B9_7F4A_7C15);
    let mut reference: HashMap<String, KeyState> = HashMap::new();
    let mut store = WalStore::open(&disk).unwrap();

    for i in 0..600u32 {
        // Small key space so the same key is overwritten many times.
        let key = IdempotencyKey(format!("k{}", rng.below(16)));
        let state = random_state(&mut rng);
        reference.insert(key.0.clone(), state.clone());
        store.put(key, state);
        sync(&mut disk, &mut store);

        // Periodically "crash": drop the store and recover from disk.
        if i % 50 == 49 {
            drop(store);
            store = WalStore::open(&disk).unwrap();
            for (k, v) in &reference {
                assert_eq!(
                    store.get(&IdempotencyKey(k.clone())),
                    Some(v),
                    "divergence after reopen at op {i}"
                );
            }
        }
    }

    // Final crash + full recovery must equal the reference exactly.
    drop(store);
    let store = WalStore::open(&disk).unwrap();
    for (k, v) in &reference {
        assert_eq!(store.get(&IdempotencyKey(k.clone())), Some(v));
    }
}

/// The chain root changes with every put and is fully deterministic: two stores
/// fed identical records in the same order reach the same root.
#[test]
fn chain_root_is_deterministic_and_advances_per_put() {
    let mut disk: Vec<u8> = Vec::new();
    let keys_states: Vec<(IdempotencyKey, KeyState)> = (0..5)
        .map(|i| {
            (
                IdempotencyKey(format!("k{i}")),
                completed(200, format!("v{i}").as_bytes()),
            )
        })
        .collect();

    let mut roots1: Vec<[u8; 32]> = Vec::new();
    {
        let mut store = WalStore::open(&disk).unwrap();
        // Genesis root before any puts.
        assert_eq!(store.root(), GENESIS);
        for (k, s) in &keys_states {
            store.put(k.clone(), s.clone());
            roots1.push(store.root());
        }
        sync(&mut disk, &mut store);
    }

    // All roots must be distinct (each put advances the chain).
    for i in 0..roots1.len() {
        for j in (i + 1)..roots1.len() {
            assert_ne!(
                roots1[i], roots1[j],
                "roots at position {i} and {j} must differ"
            );
        }
    }
    // No root should be genesis.
    for r in &roots1 {
        assert_ne!(*r, GENESIS, "root must not be genesis after a put");
    }

    // Second store: same sequence -> same roots.
    let mut roots2: Vec<[u8; 32]> = Vec::new();
    {
        let mut store = WalStore::open(&[]).unwrap();
        for (k, s) in &keys_states {
            store.put(k.clone(), s.clone());
            roots2.push(store.root());
        }
    }

    assert_eq!(roots1, roots2, "deterministic: same records -> same roots");

    // Reopening preserves the root.
    let store = WalStore::open(&disk).unwrap();
    assert_eq!(
        store.root(),
        roots1[roots1.len() - 1],
        "root survives reopen"
    );
}

/// Flipping a byte in an early record's payload is caught on reopen as a chain
/// mismatch, even though later records are intact.
#[test]
fn early_payload_tamper_is_caught_as_chain_mismatch_on_reopen() {
    let mut bytes = written(5, b"intact");
    // Flip a byte of the first record's payload, and patch the checksum so that it
    // passes. The chain hash stored in the record was computed over the OLD
    // (checksum, payload) pair, so opening must fail.
    bytes[HEADER_LEN + 2] ^= 0x01;
    let first_len = u32::from_le_bytes([bytes[0], bytes[1], bytes[2], bytes[3]]) as usize;
    let new_crc = crc32(&bytes[HEADER_LEN..HEADER_LEN + first_len]);
    bytes[4..8].copy_from_slice(&new_crc.to_le_bytes());
    let result = WalStore::open(&bytes);
    assert!(
        result.is_err(),
        "chain mismatch must be caught even when CRC passes"
    );
}

/// A record whose content was exchanged for other valid content, checksum and all,
/// is caught by the chain alone.
#[test]
fn a_forged_record_is_caught_by_the_chain() {
    let mut bytes = written(5, b"intact");
    let first_len = u32::from_le_bytes([bytes[0], bytes[1], bytes[2], bytes[3]]) as usize;
    // The key is `k0`: turn it into `k1`.
    bytes[HEADER_LEN + 5] ^= 0x01;
    let new_crc = crc32(&bytes[HEADER_LEN..HEADER_LEN + first_len]);
    bytes[4..8].copy_from_slice(&new_crc.to_le_bytes());
    assert!(decode_record(&bytes).is_some());
    assert_eq!(
        WalStore::open(&bytes).err(),
        Some(WalError::ChainMismatch(0))
    );
}

/// Swapping two records is caught: each is intact, but neither is in its place.
#[test]
fn reordered_records_are_caught() {
    let bytes = written(2, b"same");
    let first_len = u32::from_le_bytes([bytes[0], bytes[1], bytes[2], bytes[3]]) as usize;
    let cut = HEADER_LEN + first_len;
    let mut swapped = bytes[cut..].to_vec();
    swapped.extend_from_slice(&bytes[..cut]);
    assert_eq!(
        WalStore::open(&swapped).err(),
        Some(WalError::ChainMismatch(0))
    );
}

/// Two stores fed the same records in the same order reach the same root.
#[test]
fn two_stores_same_records_same_root() {
    let records: Vec<(IdempotencyKey, KeyState)> = vec![
        (IdempotencyKey("alpha".into()), completed(200, b"a")),
        (IdempotencyKey("beta".into()), completed(201, b"b")),
        (IdempotencyKey("gamma".into()), completed(202, b"c")),
    ];

    let root_a = {
        let mut store = WalStore::open(&[]).unwrap();
        for (k, s) in &records {
            store.put(k.clone(), s.clone());
        }
        store.root()
    };
    let root_b = {
        let mut store = WalStore::open(&[]).unwrap();
        for (k, s) in &records {
            store.put(k.clone(), s.clone());
        }
        store.root()
    };

    assert_eq!(
        root_a, root_b,
        "identical record sequences must yield identical roots"
    );
}

/// Compaction yields a consistent chain: the compacted log reopens cleanly (no
/// chain error) and the root is stable across the reopen.
#[test]
fn compaction_yields_consistent_chain_that_reopens_cleanly() {
    let mut disk: Vec<u8> = Vec::new();

    // Write many records including duplicates (so compaction has work to do).
    {
        let mut store = WalStore::open(&disk).unwrap();
        for i in 0..20u32 {
            store.put(
                IdempotencyKey(format!("k{}", i % 5)),
                completed(200, format!("v{i}").as_bytes()),
            );
        }
        sync(&mut disk, &mut store);
    }

    // Compact keeping all keys (collapse history).
    let root_after_compact = {
        let mut store = WalStore::open(&disk).unwrap();
        store.compact(&|_: &IdempotencyKey, _: &KeyState| true);
        sync(&mut disk, &mut store);
        store.root()
    };

    // Reopening must succeed and report the same root.
    let store = WalStore::open(&disk).unwrap();
    assert_eq!(
        store.root(),
        root_after_compact,
        "root must be stable across reopen after compaction"
    );

    // The root must be non-genesis (the compacted log is non-empty).
    assert_ne!(
        store.root(),
        GENESIS,
        "root must not be genesis after non-empty compaction"
    );
}

/// Any cut of a log, wherever the crash falls, recovers a prefix of its puts.
#[test]
fn any_cut_of_the_log_recovers_a_prefix() {
    let bytes = written(4, b"body");
    let record = bytes.len() / 4;
    for cut in 0..=bytes.len() {
        let store = WalStore::open(&bytes[..cut]).unwrap();
        let whole = cut / record;
        for i in 0..4 {
            let found = store.get(&IdempotencyKey(format!("k{i}"))).is_some();
            assert_eq!(found, i < whole, "cut at {cut}");
        }
    }
}

/// Records of random states round-trip, reject every truncation, and never decode
/// to another record after a single flipped bit.
#[test]
fn random_records_round_trip_and_notice_damage() {
    let mut rng = Rng(0x1234_5678_9ABC_DEF1);
    for _ in 0..40 {
        let key = IdempotencyKey(format!("key {}", rng.below(1_000_000)));
        let state = random_state(&mut rng);
        let framed = encode_record(&key, &state, &GENESIS);
        let (consumed, k, s, _) = decode_record(&framed).unwrap();
        assert_eq!(consumed, framed.len());
        assert_eq!(k, key);
        assert_eq!(s, state);
        for cut in 0..framed.len() {
            assert!(decode_record(&framed[..cut]).is_none());
        }
        for _ in 0..20 {
            let mut damaged = framed.clone();
            let at = rng.below(framed.len() as u64) as usize;
            damaged[at] ^= 1 << rng.below(8);
            if let Some((_, k, s, _)) = decode_record(&damaged) {
                assert!(k == key && s == state);
            }
        }
    }
}

/// Arbitrary bytes are read without fault, and no more of them than there are.
#[test]
fn arbitrary_bytes_decode_within_bounds() {
    let mut rng = Rng(77);
    for _ in 0..500 {
        let n = rng.below(200) as usize;
        let mut bytes: Vec<u8> = (0..n).map(|_| rng.below(256) as u8).collect();
        if n > 4 && rng.below(2) == 0 {
            bytes[1] = 0;
            bytes[2] = 0;
            bytes[3] = 0;
        }
        if let Some((consumed, _, _, _)) = decode_record(&bytes) {
            assert!(consumed <= bytes.len());
        }
        let _ = WalStore::open(&bytes);
    }
}

/// A disk that outlives the store on it.
struct SharedDisk(Rc<RefCell<MemoryKeeper>>);

impl LogKeeper for SharedDisk {
    fn carry_out(&mut self, write: &LogWrite) {
        self.0.borrow_mut().carry_out(write);
    }
}

/// A store with a keeper has everything on the medium by the time an operation
/// returns.
#[test]
fn a_kept_store_is_on_the_medium_when_it_returns() {
    let disk = Rc::new(RefCell::new(MemoryKeeper::new()));
    let opened = |strict: bool| {
        let held = disk.borrow().clone();
        let wal = WalStore::open_with(held.log(), held.floor(), strict);
        KeptStore::new(wal.unwrap(), SharedDisk(Rc::clone(&disk)))
    };
    let key = |i: u32| IdempotencyKey(format!("k{i}"));

    let mut store = opened(true);
    for i in 0..5 {
        store.put(key(i), completed(200, b"x"));
        assert!(opened(true).get(&key(i)).is_some());
    }
    let torn = [disk.borrow().log(), &[1, 2, 3]].concat();
    *disk.borrow_mut() = MemoryKeeper::holding(torn, 0);

    // A torn tail is cut off as soon as the medium is kept again.
    let mut store = opened(false);
    store.put(key(5), completed(200, b"x"));
    assert!(opened(true).get(&key(5)).is_none());
    store.flush();
    assert!(opened(true).get(&key(5)).is_some());

    let before = disk.borrow().log().len();
    store.compact(&|k: &IdempotencyKey, _: &KeyState| k.0 != "k0");
    assert!(disk.borrow().log().len() < before);
    assert!(opened(true).get(&key(0)).is_none());
    assert!(opened(true).get(&key(1)).is_some());
    assert_eq!(opened(true).root(), store.root());
    assert_eq!(store.keeper().0.borrow().floor(), 0);
}

/// A strict `put` and a `flush` each issue one append of just what is new; a flush
/// with nothing buffered issues nothing.
#[test]
fn every_batch_is_issued_once() {
    let key = |i: u32| IdempotencyKey(format!("k{i}"));
    let mut strict = WalStore::open(&[]).unwrap();
    let _ = strict.take_writes();
    let first = encode_record(&key(0), &completed(200, b"x"), &GENESIS);
    strict.put(key(0), completed(200, b"x"));
    assert_eq!(strict.writes()[..], [LogWrite::Append(first.clone())]);
    strict.flush();
    assert_eq!(strict.writes().len(), 1);

    let mut grouped = WalStore::open_buffered(&[]).unwrap();
    let _ = grouped.take_writes();
    grouped.put(key(0), completed(200, b"x"));
    grouped.put(key(1), completed(200, b"y"));
    assert!(grouped.writes().is_empty());
    let chain: [u8; 32] = first[8..40].try_into().unwrap();
    let second = encode_record(&key(1), &completed(200, b"y"), &chain);
    grouped.flush();
    assert_eq!(
        grouped.writes()[..],
        [LogWrite::Append([first, second].concat())]
    );
    grouped.flush();
    assert_eq!(grouped.writes().len(), 1);
}

/// Any bytes that do not make up a whole frame are cut off as a torn tail.
#[test]
fn any_incomplete_frame_is_a_torn_tail() {
    let mut log = encode_record(&IdempotencyKey("a".into()), &completed(200, b"x"), &GENESIS);
    let whole = log.len();
    let mut tail = vec![200u8, 0, 0, 0];
    tail.extend_from_slice(&[7u8; 100]);
    log.extend_from_slice(&tail);
    let store = WalStore::open(&log).unwrap();
    assert_eq!(store.writes()[..], [LogWrite::Truncate(whole)]);
    assert!(store.get(&IdempotencyKey("a".into())).is_some());
}

fn attempt(fence: u64) -> KeyState {
    KeyState::InProgress {
        fence: Fence(fence),
        fingerprint: RequestFingerprint([1u8; 32]),
        lease_expires_at_ms: 9,
    }
}

/// Fences go on above the highest one in the log, though its record is superseded.
#[test]
fn a_superseded_fence_is_not_minted_again() {
    let key = IdempotencyKey("a".into());
    let mut disk: Vec<u8> = Vec::new();
    let mut store = WalStore::open(&disk).unwrap();
    store.put(key.clone(), attempt(5));
    store.put(key.clone(), completed(200, b"done"));
    sync(&mut disk, &mut store);
    let reopened = WalStore::open(&disk).unwrap();
    assert_eq!(reopened.max_in_progress_fence(), 0);
    assert_eq!(reopened.highest_fence(), 5);
    assert_eq!(
        WalStore::open_with(&disk, 9, true).unwrap().highest_fence(),
        9
    );
    let mut engine = Engine::new(reopened, 30_000);
    assert!(matches!(
        engine.begin(IdempotencyKey("b".into()), RequestFingerprint([2u8; 32]), 1),
        Begin::Run(_)
    ));
    assert_eq!(engine.store().max_in_progress_fence(), 6);
    assert_eq!(engine.store().highest_fence(), 6);
}

/// A compaction keeps the highest fence, though no record that it leaves shows it.
#[test]
fn a_compaction_keeps_the_highest_fence() {
    let mut store = WalStore::open(&[]).unwrap();
    let _ = store.take_writes();
    store.put(IdempotencyKey("a".into()), attempt(5));
    store.compact(&|_: &IdempotencyKey, _: &KeyState| false);
    assert_eq!(store.max_in_progress_fence(), 0);
    assert_eq!(store.highest_fence(), 5);
    assert_eq!(
        store.writes()[1..],
        [LogWrite::Floor(5), LogWrite::Replace(Vec::new())]
    );
    assert_eq!(store.root(), GENESIS);

    // It is remembered once.
    store.compact(&|_: &IdempotencyKey, _: &KeyState| true);
    assert_eq!(store.writes().len(), 4);
    let mut disk = MemoryKeeper::new();
    kept_store::carry_out(&mut disk, store.writes());
    assert_eq!((disk.log(), disk.floor()), (&[][..], 5));
}

/// A worker from before a crash never comes to hold its key again, however long ago
/// its key expired, was swept out and was recycled.
#[test]
fn a_stale_worker_is_refused_after_sweeps_and_crashes() {
    let disk = Rc::new(RefCell::new(MemoryKeeper::new()));
    let restart = || {
        let held = disk.borrow().clone();
        let wal = WalStore::open_with(held.log(), held.floor(), true).unwrap();
        let kept = KeptStore::new(wal, SharedDisk(Rc::clone(&disk)));
        Engine::with_ttl(kept, 10, 100)
    };
    let key = IdempotencyKey("charge".into());
    let print = RequestFingerprint([1u8; 32]);
    let outcome = CachedOutcome {
        status: 200,
        headers: Headers::new(),
        body: b"ok".to_vec(),
    };

    let mut engine = restart();
    let stale = match engine.begin(key.clone(), print, 0) {
        Begin::Run(token) => token,
        other => panic!("expected Run, got {other:?}"),
    };
    let taken = match engine.begin(key.clone(), print, 20) {
        Begin::Run(token) => token,
        other => panic!("expected Run, got {other:?}"),
    };
    engine.complete(taken, outcome.clone(), 21).unwrap();
    engine.prune_expired(200);

    // Recycled after a crash: the new attempt has a fence of its own.
    for round in 0..3u64 {
        let mut engine = restart();
        assert!(matches!(
            engine.begin(key.clone(), print, 300 + round * 50),
            Begin::Run(_)
        ));
        assert_eq!(
            engine.complete(stale.clone(), outcome.clone(), 301 + round * 50),
            Err(CompleteError::StaleFence)
        );
    }
}

/// Where the records of a log end.
fn record_ends(log: &[u8]) -> Vec<usize> {
    let mut ends = Vec::new();
    let mut at = 0;
    while let Some((consumed, _, _, _)) = decode_record(&log[at..]) {
        at += consumed;
        ends.push(at);
    }
    ends
}

/// A changed byte anywhere but in a length field keeps the log from opening.
#[test]
fn a_changed_byte_is_found_on_open() {
    let log = written(4, b"body");
    let mut start = 0;
    for end in record_ends(&log) {
        for at in start + 4..end {
            let mut damaged = log.clone();
            damaged[at] ^= 0x20;
            assert!(WalStore::open(&damaged).is_err(), "byte {at} went unnoticed");
        }
        start = end;
    }
    assert_eq!(start, log.len());
}

/// Dropping, repeating or swapping records before the last keeps the log from
/// opening.
#[test]
fn tampering_before_the_last_record_is_found_on_open() {
    let log = written(4, b"body");
    let ends = record_ends(&log);
    assert_eq!(ends.len(), 4);
    let record = |i: usize| &log[if i == 0 { 0 } else { ends[i - 1] }..ends[i]];
    assert!(WalStore::open(&[record(0), record(1), record(2), record(3)].concat()).is_ok());
    for tampered in [
        vec![1, 2, 3],
        vec![0, 2, 3],
        vec![0, 1, 3],
        vec![1, 0, 2, 3],
        vec![0, 2, 1, 3],
        vec![0, 0, 1, 2, 3],
        vec![3],
    ] {
        let bytes: Vec<u8> = tampered.iter().flat_map(|&i| record(i).to_vec()).collect();
        assert!(WalStore::open(&bytes).is_err(), "{tampered:?} went unnoticed");
    }
}

/// Records that are swapped, dropped or repeated keep the log from opening wherever
/// they stand, the last among them; only a log that is cut short still opens.
#[test]
fn rearranged_records_are_found_on_open() {
    let log = written(3, b"body");
    let ends = record_ends(&log);
    assert_eq!(ends.len(), 3);
    let record = |i: usize| &log[if i == 0 { 0 } else { ends[i - 1] }..ends[i]];
    let mut picks: Vec<Vec<usize>> = vec![Vec::new()];
    for length in 0..4 {
        let longest: Vec<Vec<usize>> = picks.iter().filter(|p| p.len() == length).cloned().collect();
        for pick in longest {
            for next in 0..3 {
                picks.push([pick.clone(), vec![next]].concat());
            }
        }
    }
    for pick in picks {
        let bytes: Vec<u8> = pick.iter().flat_map(|&i| record(i).to_vec()).collect();
        let is_cut = pick.iter().enumerate().all(|(at, &i)| at == i);
        assert_eq!(WalStore::open(&bytes).is_ok(), is_cut, "{pick:?}");
    }
}
