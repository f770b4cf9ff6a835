//! Proof-of-work challenges, and the hashes they rest on.

use onced::hash::{hmac_sha256, sha256};
use onced::pow::{challenge, difficulty_for, leading_zero_bits, verify, Challenge};

const SECRET: &[u8] = b"test-server-secret";
const IDENTITY: &str = "192.168.1.1";
const REQUEST_HASH: &[u8] = &[0xAB; 32];
const WINDOW_MS: u64 = 60_000; // 1 minute
const NOW_MS: u64 = 1_000_000; // arbitrary, mid-window

fn solution(c: &Challenge, nonce: u64) -> [u8; 32] {
    let mut preimage = Vec::with_capacity(40);
    preimage.extend_from_slice(&c.challenge);
    preimage.extend_from_slice(&nonce.to_le_bytes());
    sha256(&preimage)
}

/// Brute-force a valid nonce for small difficulties.
fn find_nonce(c: &Challenge) -> u64 {
    for nonce in 0u64..10_000_000 {
        if leading_zero_bits(&solution(c, nonce)) >= c.difficulty as u32 {
            return nonce;
        }
    }
    panic!("no valid nonce found within 10M iterations (difficulty too high for test?)");
}

/// A nonce found by brute force must pass verify().
#[test]
fn valid_nonce_verifies() {
    let c = challenge(SECRET, IDENTITY, REQUEST_HASH, 8, WINDOW_MS, NOW_MS);
    let nonce = find_nonce(&c);
    assert!(verify(
        SECRET,
        IDENTITY,
        REQUEST_HASH,
        8,
        nonce,
        WINDOW_MS,
        NOW_MS
    ));
}

/// Nonce 0 is (almost certainly) wrong for any meaningful difficulty.
#[test]
fn wrong_nonce_fails() {
    let c = challenge(SECRET, IDENTITY, REQUEST_HASH, 10, WINDOW_MS, NOW_MS);
    if leading_zero_bits(&solution(&c, 0)) < 10 {
        assert!(!verify(
            SECRET,
            IDENTITY,
            REQUEST_HASH,
            10,
            0,
            WINDOW_MS,
            NOW_MS
        ));
    }
}

/// A nonce solved for one request_hash must not verify for a different one.
#[test]
fn different_request_hash_fails() {
    let c = challenge(SECRET, IDENTITY, REQUEST_HASH, 8, WINDOW_MS, NOW_MS);
    let nonce = find_nonce(&c);

    let other_hash = &[0xCD; 32];
    assert!(!verify(
        SECRET, IDENTITY, other_hash, 8, nonce, WINDOW_MS, NOW_MS
    ));
}

/// A nonce solved for one identity must not verify for a different one.
#[test]
fn different_identity_fails() {
    let c = challenge(SECRET, IDENTITY, REQUEST_HASH, 8, WINDOW_MS, NOW_MS);
    let nonce = find_nonce(&c);

    assert!(!verify(
        SECRET,
        "10.0.0.2",
        REQUEST_HASH,
        8,
        nonce,
        WINDOW_MS,
        NOW_MS
    ));
}

/// A nonce from the immediately previous window is accepted (clock skew).
#[test]
fn previous_window_is_accepted() {
    // Solve the challenge at the start of the previous window.
    let prev_now = NOW_MS - WINDOW_MS;
    let c = challenge(SECRET, IDENTITY, REQUEST_HASH, 8, WINDOW_MS, prev_now);
    let nonce = find_nonce(&c);

    // Verify from the current window: should accept the previous window.
    assert!(verify(
        SECRET,
        IDENTITY,
        REQUEST_HASH,
        8,
        nonce,
        WINDOW_MS,
        NOW_MS
    ));
}

/// A nonce from two windows ago (stale) must be rejected.
#[test]
fn stale_window_is_rejected() {
    // Solve the challenge two windows back.
    let stale_now = NOW_MS - 2 * WINDOW_MS;
    let c = challenge(SECRET, IDENTITY, REQUEST_HASH, 8, WINDOW_MS, stale_now);
    let nonce = find_nonce(&c);

    // Verify from the current window: two-window-old nonce must fail.
    assert!(!verify(
        SECRET,
        IDENTITY,
        REQUEST_HASH,
        8,
        nonce,
        WINDOW_MS,
        NOW_MS
    ));
}

/// Difficulty 0 requires zero leading bits: any nonce must pass.
#[test]
fn difficulty_zero_always_passes() {
    assert!(verify(
        SECRET,
        IDENTITY,
        REQUEST_HASH,
        0,
        0,
        WINDOW_MS,
        NOW_MS
    ));
    assert!(verify(
        SECRET,
        IDENTITY,
        REQUEST_HASH,
        0,
        12345,
        WINDOW_MS,
        NOW_MS
    ));
}

/// With difficulty 12 a brute-forced nonce must indeed produce >= 12 leading zero
/// bits in the solution hash.
#[test]
fn higher_difficulty_needs_more_leading_zeros() {
    let c = challenge(SECRET, IDENTITY, REQUEST_HASH, 12, WINDOW_MS, NOW_MS);
    let nonce = find_nonce(&c);
    let digest = solution(&c, nonce);
    assert!(
        leading_zero_bits(&digest) >= 12,
        "found nonce has only {} leading zero bits",
        leading_zero_bits(&digest)
    );
}

#[test]
fn leading_zero_bits_all_zeros() {
    let d = [0u8; 32];
    assert_eq!(leading_zero_bits(&d), 256);
}

#[test]
fn leading_zero_bits_first_byte_nonzero() {
    let mut d = [0u8; 32];
    // 0x80 = 1000_0000 => 0 leading zeros in the byte.
    d[0] = 0x80;
    assert_eq!(leading_zero_bits(&d), 0);
    // 0x40 = 0100_0000 => 1 leading zero in the byte.
    d[0] = 0x40;
    assert_eq!(leading_zero_bits(&d), 1);
    // 0x01 = 0000_0001 => 7 leading zeros in the byte.
    d[0] = 0x01;
    assert_eq!(leading_zero_bits(&d), 7);
}

#[test]
fn leading_zero_bits_first_byte_zero_second_nonzero() {
    let mut d = [0u8; 32];
    d[0] = 0x00;
    // 0x0f = 0000_1111 => 4 leading zeros in this byte.
    d[1] = 0x0f;
    // Total: 8 (first byte) + 4 = 12.
    assert_eq!(leading_zero_bits(&d), 12);
}

#[test]
fn leading_zero_bits_all_ones() {
    let d = [0xFFu8; 32];
    assert_eq!(leading_zero_bits(&d), 0);
}

/// The challenge authenticates identity, window and request hash, in that order.
#[test]
fn a_challenge_is_the_keyed_hash_of_its_context() {
    let c = challenge(SECRET, IDENTITY, REQUEST_HASH, 9, WINDOW_MS, NOW_MS);
    let mut message = IDENTITY.as_bytes().to_vec();
    message.extend_from_slice(&(NOW_MS / WINDOW_MS).to_le_bytes());
    message.extend_from_slice(REQUEST_HASH);
    assert_eq!(c.challenge, hmac_sha256(SECRET, &message));
    assert_eq!(c.difficulty, 9);
}

/// The first window of all has no predecessor.
#[test]
fn the_first_window_accepts_only_itself() {
    let c = challenge(SECRET, IDENTITY, REQUEST_HASH, 6, WINDOW_MS, 5);
    let nonce = find_nonce(&c);
    assert!(verify(
        SECRET,
        IDENTITY,
        REQUEST_HASH,
        6,
        nonce,
        WINDOW_MS,
        WINDOW_MS - 1
    ));
}

/// Four times an overage ratio, rounded down.
fn quarters(overage_ratio: f64) -> u64 {
    if overage_ratio <= 0.0 {
        0
    } else {
        (4.0 * overage_ratio).floor() as u64
    }
}

#[test]
fn difficulty_for_zero_overage_returns_base() {
    assert_eq!(difficulty_for(8, quarters(0.0)), 8);
    assert_eq!(difficulty_for(8, quarters(-1.0)), 8);
}

#[test]
fn difficulty_for_is_monotonic() {
    let base = 8u8;
    let ratios = [0.0, 0.25, 0.5, 1.0, 2.0, 3.0, 5.0, 10.0];
    let difficulties: Vec<u8> = ratios
        .iter()
        .map(|&r| difficulty_for(base, quarters(r)))
        .collect();
    for w in difficulties.windows(2) {
        assert!(
            w[1] >= w[0],
            "difficulty_for is not monotonic: {} then {}",
            w[0],
            w[1]
        );
    }
    assert_eq!(difficulties, vec![8, 9, 10, 12, 16, 20, 28, 28]);
}

#[test]
fn difficulty_for_is_capped() {
    // Extreme overage should not overflow or exceed base + 20.
    let result = difficulty_for(8, quarters(1_000_000.0));
    assert_eq!(result, 8u8.saturating_add(20));
}

#[test]
fn difficulty_for_saturates_on_base_near_max() {
    // base close to u8::MAX should not wrap.
    let result = difficulty_for(250, quarters(100.0));
    assert_eq!(result, 255); // saturating_add stops at 255
}

fn hex(bytes: &[u8]) -> String {
    bytes.iter().map(|b| format!("{b:02x}")).collect()
}

/// The published SHA-256 test vectors.
#[test]
fn sha256_matches_known_vectors() {
    assert_eq!(
        hex(&sha256(b"")),
        "e3b0c44298fc1c149afbf4c8996fb92427ae41e4649b934ca495991b7852b855"
    );
    assert_eq!(
        hex(&sha256(b"abc")),
        "ba7816bf8f01cfea414140de5dae2223b00361a396177a9cb410ff61f20015ad"
    );
    assert_eq!(
        hex(&sha256(
            b"abcdbcdecdefdefgefghfghighijhijkijkljklmklmnlmnomnopnopq"
        )),
        "248d6a61d20638b8e5c026930c3e6039a33ce45964ff2167f6ecedd419db06c1"
    );
    assert_eq!(
        hex(&sha256(&vec![b'a'; 1_000_000])),
        "cdc76e5c9914fb9281a1c7e284d73e67f1809a48a497200e046d39ccc7112cd0"
    );
}

/// The published HMAC-SHA-256 test vectors.
#[test]
fn hmac_sha256_matches_known_vectors() {
    assert_eq!(
        hex(&hmac_sha256(&[0x0b; 20], b"Hi There")),
        "b0344c61d8db38535ca8afceaf0bf12b881dc200c9833da726e9376c2e32cff7"
    );
    assert_eq!(
        hex(&hmac_sha256(b"Jefe", b"what do ya want for nothing?")),
        "5bdcc146bf60754e6a042426089575c75a003f089d2739839dec58b964ec3843"
    );
    // A key longer than a block is hashed first.
    assert_eq!(
        hex(&hmac_sha256(
            &[0xaa; 131],
            b"Test Using Larger Than Block-Size Key - Hash Key First"
        )),
        "60e431591ee0b67f0d8a26aacbf5b77f8e0bc6213728c5140546040f0ee37f54"
    );
}
