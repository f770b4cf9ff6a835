//! Proof-of-work challenges: make an abusive client burn CPU before proceeding.
//!
//! The challenge value is `HMAC-SHA256(server_secret, identity || window_index ||
//! request_hash)`, so any server of a cluster can re-derive it without storing
//! per-client state. Binding the identity and the request into the message keeps
//! a solution from being used for another client or another request, and the
//! window index makes it expire. A nonce is accepted in the window of its
//! challenge and in the one after.

use crate::bytes;
use crate::bytes::{put_raw, put_u64};
use crate::client_laws;
use crate::hash;
use crate::hash::{hmac_sha256, sha256};
use crate::hash_laws;
use crate::text;
use vstd::prelude::*;
use vstd::utf8::*;

verus! {

/// A server-issued proof-of-work challenge, bound to a specific (identity,
/// request) pair and valid for one time window.
#[derive(Debug, Clone, Copy, PartialEq, Eq)]
pub struct Challenge {
    /// The client must find a `nonce: u64` such that `SHA256(challenge ||
    /// nonce_le_bytes)` has at least `difficulty` leading zero bits.
    pub challenge: [u8; 32],
    /// Number of leading zero bits required in the solution hash.
    pub difficulty: u8,
}

/// How many leading zero bits a byte has.
pub open spec fn byte_zero_bits(b: u8) -> nat {
    if b >= 128 {
        0
    } else if b >= 64 {
        1
    } else if b >= 32 {
        2
    } else if b >= 16 {
        3
    } else if b >= 8 {
        4
    } else if b >= 4 {
        5
    } else if b >= 2 {
        6
    } else if b >= 1 {
        7
    } else {
        8
    }
}

/// How many leading zero bits a byte string has.
pub open spec fn zero_bits(digest: Seq<u8>) -> nat
    decreases digest.len(),
{
    if digest.len() == 0 {
        0
    } else if digest[0] != 0 {
        byte_zero_bits(digest[0])
    } else {
        8 + zero_bits(digest.drop_first())
    }
}

/// The challenge value of an identity and request in a window.
pub open spec fn challenge_in(
    secret: Seq<u8>,
    identity: Seq<char>,
    request_hash: Seq<u8>,
    window_index: u64,
) -> Seq<u8> {
    hash::hmac_sha256_tag(
        secret,
        encode_utf8(identity) + bytes::le_u64(window_index) + request_hash,
    )
}

/// Whether `nonce` solves a challenge value at `difficulty`.
pub open spec fn solves(challenge: Seq<u8>, nonce: u64, difficulty: u8) -> bool {
    zero_bits(hash::sha256_digest(challenge + bytes::le_u64(nonce))) >= difficulty
}

/// The window before, or window 0 where there is none.
pub open spec fn window_before(window_index: u64) -> u64 {
    if window_index == 0 {
        0
    } else {
        (window_index - 1) as u64
    }
}

/// Whether `nonce` is accepted in the window `window_index`.
pub open spec fn accepted(
    secret: Seq<u8>,
    identity: Seq<char>,
    request_hash: Seq<u8>,
    difficulty: u8,
    nonce: u64,
    window_index: u64,
) -> bool {
    ||| solves(challenge_in(secret, identity, request_hash, window_index), nonce, difficulty)
    ||| solves(
        challenge_in(secret, identity, request_hash, window_before(window_index)),
        nonce,
        difficulty,
    )
}

/// Issue a challenge for a given (identity, request) pair in the window
/// `now_ms / window_ms`.
pub fn challenge(
    server_secret: &[u8],
    identity: &str,
    request_hash: &[u8],
    difficulty: u8,
    window_ms: u64,
    now_ms: u64,
) -> (r: Challenge)
    requires
        window_ms > 0,
    ensures
        r.challenge@ == challenge_in(
            server_secret@,
            identity@,
            request_hash@,
            now_ms / window_ms,
        ),
        r.difficulty == difficulty,
{
    let value = derive_challenge(server_secret, identity, request_hash, window_ms, now_ms);
    Challenge { challenge: value, difficulty }
}

/// Verify that a client-supplied `nonce` solves the challenge of the current
/// window or of the immediately preceding one (to tolerate clock skew).
pub fn verify(
    server_secret: &[u8],
    identity: &str,
    request_hash: &[u8],
    difficulty: u8,
    nonce: u64,
    window_ms: u64,
    now_ms: u64,
) -> (r: bool)
    requires
        window_ms > 0,
    ensures
        r == accepted(
            server_secret@,
            identity@,
            request_hash@,
            difficulty,
            nonce,
            now_ms / window_ms,
        ),
{
    let current: u64 = now_ms / window_ms;
    let c = derive_challenge_at(server_secret, identity, request_hash, current);
    if check_solution(&c, nonce, difficulty) {
        return true;
    }
    let previous: u64 = current.saturating_sub(1);
    let p = derive_challenge_at(server_secret, identity, request_hash, previous);
    check_solution(&p, nonce, difficulty)
}

/// Count the number of leading zero bits in a 32-byte digest. Each leading zero
/// byte contributes 8 bits; the first non-zero byte contributes its own.
pub fn leading_zero_bits(digest: &[u8; 32]) -> (n: u32)
    ensures
        n == zero_bits(digest@),
        n <= 256,
{
    let mut i: usize = 0;
    assert(digest@.skip(0) =~= digest@);
    while i < 32
        invariant
            i <= 32,
            zero_bits(digest@) == 8 * i + zero_bits(digest@.skip(i as int)),
        decreases 32 - i,
    {
        let b: u8 = digest[i];
        let ghost rest = digest@.skip(i as int);
        assert(rest[0] == b);
        if b != 0 {
            return 8 * (i as u32) + byte_leading_zeros(b);
        }
        assert(rest.drop_first() =~= digest@.skip(i + 1));
        i = i + 1;
    }
    256
}

fn byte_leading_zeros(b: u8) -> (n: u32)
    ensures
        n == byte_zero_bits(b),
        n <= 8,
{
    if b >= 128 {
        0
    } else if b >= 64 {
        1
    } else if b >= 32 {
        2
    } else if b >= 16 {
        3
    } else if b >= 8 {
        4
    } else if b >= 4 {
        5
    } else if b >= 2 {
        6
    } else if b >= 1 {
        7
    } else {
        8
    }
}

/// How far a difficulty may rise above its base.
pub const DIFFICULTY_CAP: u8 = 20;

/// Raise a difficulty with the overage: by one for each whole quarter by which
/// traffic exceeds its limit, up to [`DIFFICULTY_CAP`].
///
/// `overage_quarters` is four times the overage ratio `(actual_rate -
/// allowed_rate) / allowed_rate`, rounded down, and zero below the limit.
pub fn difficulty_for(base: u8, overage_quarters: u64) -> (r: u8)
    ensures
        r == raised(base, overage_quarters),
{
    let delta: u8 = if overage_quarters < DIFFICULTY_CAP as u64 {
        overage_quarters as u8
    } else {
        DIFFICULTY_CAP
    };
    base.saturating_add(delta)
}

/// `base` raised by the overage, but by no more than the cap and never past the
/// largest difficulty there is.
pub open spec fn raised(base: u8, overage_quarters: u64) -> u8 {
    let delta = if overage_quarters < DIFFICULTY_CAP {
        overage_quarters as int
    } else {
        DIFFICULTY_CAP as int
    };
    if base + delta > u8::MAX {
        u8::MAX
    } else {
        (base + delta) as u8
    }
}

/// Build the HMAC message: `identity_bytes || window_index_le || request_hash`.
fn build_hmac_message(identity: &str, window_index: u64, request_hash: &[u8]) -> (msg: Vec<u8>)
    ensures
        msg@ == encode_utf8(identity@) + bytes::le_u64(window_index) + request_hash@,
{
    let mut msg: Vec<u8> = Vec::new();
    put_raw(&mut msg, identity.as_bytes());
    put_u64(&mut msg, window_index);
    put_raw(&mut msg, request_hash);
    assert(msg@ =~= encode_utf8(identity@) + bytes::le_u64(window_index) + request_hash@);
    msg
}

/// Derive the challenge for a specific window index.
fn derive_challenge_at(
    server_secret: &[u8],
    identity: &str,
    request_hash: &[u8],
    window_index: u64,
) -> (c: [u8; 32])
    ensures
        c@ == challenge_in(server_secret@, identity@, request_hash@, window_index),
{
    let msg = build_hmac_message(identity, window_index, request_hash);
    hmac_sha256(server_secret, msg.as_slice())
}

/// Derive the challenge for the current window (`now_ms / window_ms`).
fn derive_challenge(
    server_secret: &[u8],
    identity: &str,
    request_hash: &[u8],
    window_ms: u64,
    now_ms: u64,
) -> (c: [u8; 32])
    requires
        window_ms > 0,
    ensures
        c@ == challenge_in(server_secret@, identity@, request_hash@, now_ms / window_ms),
{
    derive_challenge_at(server_secret, identity, request_hash, now_ms / window_ms)
}

/// Check whether `SHA256(challenge || nonce)` meets `difficulty`.
fn check_solution(c: &[u8; 32], nonce: u64, difficulty: u8) -> (r: bool)
    ensures
        r == solves(c@, nonce, difficulty),
{
    let mut preimage: Vec<u8> = Vec::with_capacity(40);
    put_raw(&mut preimage, c);
    put_u64(&mut preimage, nonce);
    assert(preimage@ =~= c@ + bytes::le_u64(nonce));
    let digest = sha256(preimage.as_slice());
    leading_zero_bits(&digest) >= difficulty as u32
}

/// A nonce that solves a challenge is accepted throughout the window it was
/// issued in and throughout the next one.
pub proof fn a_solution_is_accepted_in_two_windows(
    secret: Seq<u8>,
    identity: Seq<char>,
    request_hash: Seq<u8>,
    difficulty: u8,
    nonce: u64,
    window_ms: u64,
    issued_ms: u64,
    now_ms: u64,
)
    requires
        window_ms > 0,
        issued_ms / window_ms <= now_ms / window_ms <= issued_ms / window_ms + 1,
        solves(
            challenge_in(secret, identity, request_hash, issued_ms / window_ms),
            nonce,
            difficulty,
        ),
    ensures
        accepted(secret, identity, request_hash, difficulty, nonce, now_ms / window_ms),
{
}

/// Difficulty 0 asks for nothing: every nonce is accepted.
pub proof fn difficulty_zero_always_passes(
    secret: Seq<u8>,
    identity: Seq<char>,
    request_hash: Seq<u8>,
    nonce: u64,
    window_index: u64,
)
    ensures
        accepted(secret, identity, request_hash, 0, nonce, window_index),
{
}

/// A nonce that is accepted at some difficulty is accepted at every lower one.
pub proof fn a_lower_difficulty_is_easier(
    secret: Seq<u8>,
    identity: Seq<char>,
    request_hash: Seq<u8>,
    difficulty: u8,
    lower: u8,
    nonce: u64,
    window_index: u64,
)
    requires
        lower <= difficulty,
        accepted(secret, identity, request_hash, difficulty, nonce, window_index),
    ensures
        accepted(secret, identity, request_hash, lower, nonce, window_index),
{
}

/// Difficulty grows with the overage, from `base` up to `base` plus the cap.
pub proof fn difficulty_is_monotonic_and_capped(base: u8, less: u64, more: u64)
    requires
        less <= more,
    ensures
        raised(base, less) <= raised(base, more),
        base <= raised(base, less) <= base + DIFFICULTY_CAP,
        raised(base, 0) == base,
{
}

/// Bit `i` of a byte string is zero, counted from the front, the highest bit of each
/// byte first.
pub open spec fn is_zero_bit(digest: Seq<u8>, i: int) -> bool {
    (digest[i / 8] >> ((7 - i % 8) as u8)) & 1 == 0
}

/// The first `n` bits of a byte string are zero.
pub open spec fn starts_with_zeros(digest: Seq<u8>, n: nat) -> bool {
    &&& n <= 8 * digest.len()
    &&& forall|i: int| 0 <= i < n ==> #[trigger] is_zero_bit(digest, i)
}

/// The first `k` bits of a byte are zero exactly where it is less than `2^(8 - k)`.
proof fn zeros_bound_a_byte(digest: Seq<u8>, k: int)
    requires
        digest.len() > 0,
        0 <= k <= 8,
    ensures
        (forall|i: int| 0 <= i < k ==> #[trigger] is_zero_bit(digest, i)) <==> (digest[0] as u32)
            < (1u32 << ((8 - k) as u32)),
    decreases k,
{
    let b = digest[0];
    if k == 0 {
        assert((b as u32) < (1u32 << 8u32)) by (bit_vector);
    } else {
        zeros_bound_a_byte(digest, k - 1);
        let j = (k - 1) as u8;
        let (low, high) = ((8 - k) as u32, (9 - k) as u32);
        assert(j < 8 && low == 7 - j && high == 8 - j ==> ((b as u32) < (1u32 << low) <==> (
        b as u32) < (1u32 << high) && (b >> ((7 - j) as u8)) & 1 == 0)) by (bit_vector);
        assert(is_zero_bit(digest, k - 1) == ((b >> ((7 - j) as u8)) & 1 == 0));
        if forall|i: int| 0 <= i < k - 1 ==> #[trigger] is_zero_bit(digest, i) {
            if is_zero_bit(digest, k - 1) {
                assert forall|i: int| 0 <= i < k implies #[trigger] is_zero_bit(digest, i) by {}
            }
        } else {
            let i = choose|i: int| 0 <= i < k - 1 && !#[trigger] is_zero_bit(digest, i);
            assert(!is_zero_bit(digest, i));
        }
    }
}

/// The count of leading zeros is what the bits say: it is at least `n` exactly where the
/// first `n` bits are zero.
pub proof fn leading_zeros_are_zero_bits(digest: Seq<u8>, n: nat)
    ensures
        zero_bits(digest) >= n <==> starts_with_zeros(digest, n),
    decreases digest.len(),
{
    if digest.len() > 0 {
        let b = digest[0];
        let rest = digest.drop_first();
        assert(1u32 << 8u32 == 256 && 1u32 << 7u32 == 128 && 1u32 << 6u32 == 64 && 1u32 << 5u32
            == 32 && 1u32 << 4u32 == 16 && 1u32 << 3u32 == 8 && 1u32 << 2u32 == 4 && 1u32 << 1u32
            == 2 && 1u32 << 0u32 == 1) by (bit_vector);
        if b != 0 {
            zeros_bound_a_byte(digest, 8);
            if n <= 8 {
                zeros_bound_a_byte(digest, n as int);
                assert(byte_zero_bits(b) >= n <==> (b as u32) < (1u32 << ((8 - n) as u32)));
            } else {
                let i = choose|i: int| 0 <= i < 8 && !#[trigger] is_zero_bit(digest, i);
                assert(!is_zero_bit(digest, i));
                no_more_zeros_than_bits(digest);
            }
        } else {
            zeros_bound_a_byte(digest, 8);
            if n > 8 * digest.len() {
                no_more_zeros_than_bits(digest);
            } else if n > 8 {
                let m = (n - 8) as nat;
                leading_zeros_are_zero_bits(rest, m);
                assert forall|i: int| 0 <= i < m implies #[trigger] is_zero_bit(rest, i)
                    == is_zero_bit(digest, i + 8) by {
                    assert((i + 8) / 8 == i / 8 + 1 && (i + 8) % 8 == i % 8);
                    assert(rest[i / 8] == digest[i / 8 + 1]);
                }
                if starts_with_zeros(digest, n) {
                    assert forall|i: int| 0 <= i < m implies #[trigger] is_zero_bit(rest, i) by {
                        assert(is_zero_bit(digest, i + 8));
                    }
                }
                if starts_with_zeros(rest, m) {
                    assert forall|i: int| 0 <= i < n implies #[trigger] is_zero_bit(digest, i) by {
                        if i >= 8 {
                            assert(is_zero_bit(rest, i - 8));
                        }
                    }
                }
            } else {
                zeros_bound_a_byte(digest, n as int);
                assert forall|i: int| 0 <= i < n implies #[trigger] is_zero_bit(digest, i) by {}
            }
        }
    }
}

proof fn no_more_zeros_than_bits(digest: Seq<u8>)
    ensures
        zero_bits(digest) <= 8 * digest.len(),
    decreases digest.len(),
{
    if digest.len() > 0 {
        no_more_zeros_than_bits(digest.drop_first());
    }
}

/// `message` is all of the identity, then the window's number, lowest byte first, then
/// all of the request's hash.
pub open spec fn binds(
    message: Seq<u8>,
    identity: Seq<char>,
    request_hash: Seq<u8>,
    window_index: u64,
) -> bool {
    let n = encode_utf8(identity).len() as int;
    &&& message.len() == n + 8 + request_hash.len()
    &&& message.take(n) == encode_utf8(identity)
    &&& message[n] == window_index % 256
    &&& message[n + 1] == window_index / 0x100 % 256
    &&& message[n + 2] == window_index / 0x1_0000 % 256
    &&& message[n + 3] == window_index / 0x100_0000 % 256
    &&& message[n + 4] == window_index / 0x1_0000_0000 % 256
    &&& message[n + 5] == window_index / 0x100_0000_0000 % 256
    &&& message[n + 6] == window_index / 0x1_0000_0000_0000 % 256
    &&& message[n + 7] == window_index / 0x100_0000_0000_0000 % 256
    &&& message.skip(n + 8) == request_hash
}

proof fn a_challenge_is_of_its_message(
    secret: Seq<u8>,
    identity: Seq<char>,
    request_hash: Seq<u8>,
    window_index: u64,
) -> (message: Seq<u8>)
    ensures
        binds(message, identity, request_hash, window_index),
        challenge_in(secret, identity, request_hash, window_index) == hash::hmac_sha256_tag(
            secret,
            message,
        ),
        message == encode_utf8(identity) + bytes::le_u64(window_index) + request_hash,
{
    let message = encode_utf8(identity) + bytes::le_u64(window_index) + request_hash;
    let n = encode_utf8(identity).len() as int;
    hash_laws::little_endian_bytes_are_digits(window_index);
    assert(message.take(n) =~= encode_utf8(identity));
    assert(message.skip(n + 8) =~= request_hash);
    message
}

/// A challenge is bound to the secret, the identity, the request and the window: it is
/// the HMAC under the secret of a message that holds all of them, so that two challenges
/// under one secret are the same only for the same identity, request and window, unless
/// HMAC confuses the two messages. The hashes of requests have one length.
pub proof fn a_challenge_is_bound_to_all_of_it(
    secret: Seq<u8>,
    identity: Seq<char>,
    request_hash: Seq<u8>,
    window_index: u64,
    other_identity: Seq<char>,
    other_hash: Seq<u8>,
    other_window: u64,
)
    requires
        request_hash.len() == other_hash.len(),
        challenge_in(secret, identity, request_hash, window_index) == challenge_in(
            secret,
            other_identity,
            other_hash,
            other_window,
        ),
    ensures
        identity == other_identity && request_hash == other_hash && window_index == other_window
            || exists|x: Seq<u8>, y: Seq<u8>|
            binds(x, identity, request_hash, window_index) && binds(
                y,
                other_identity,
                other_hash,
                other_window,
            ) && #[trigger] client_laws::tag_confuses(secret, x, y),
{
    let x = a_challenge_is_of_its_message(secret, identity, request_hash, window_index);
    let y = a_challenge_is_of_its_message(secret, other_identity, other_hash, other_window);
    if x == y {
        let (a, b) = (encode_utf8(identity), encode_utf8(other_identity));
        let (v, w) = (bytes::le_u64(window_index), bytes::le_u64(other_window));
        let n = a.len() as int;
        assert(a.len() == b.len());
        assert(x.take(n) =~= a && y.take(n) =~= b);
        assert(x.subrange(n, n + 8) =~= v && y.subrange(n, n + 8) =~= w);
        assert(x.skip(n + 8) =~= request_hash && y.skip(n + 8) =~= other_hash);
        text::encoding_is_injective(identity, other_identity);
        hash_laws::little_endian_bytes_are_unambiguous(window_index, other_window);
    } else {
        assert(client_laws::tag_confuses(secret, x, y));
    }
}

/// `nonce` solves a challenge: the SHA-256 digest of the challenge and the nonce, lowest
/// byte first, starts with as many zero bits as the difficulty asks for.
pub open spec fn is_solution(challenge: Seq<u8>, nonce: u64, difficulty: u8) -> bool {
    exists|x: Seq<u8>| #[trigger]
        is_attempt(x, challenge, nonce) && starts_with_zeros(
            hash::sha256_digest(x),
            difficulty as nat,
        )
}

/// `x` is all of the challenge, then the nonce, lowest byte first.
pub open spec fn is_attempt(x: Seq<u8>, challenge: Seq<u8>, nonce: u64) -> bool {
    let n = challenge.len() as int;
    &&& x.len() == n + 8
    &&& x.take(n) == challenge
    &&& x[n] == nonce % 256
    &&& x[n + 1] == nonce / 0x100 % 256
    &&& x[n + 2] == nonce / 0x1_0000 % 256
    &&& x[n + 3] == nonce / 0x100_0000 % 256
    &&& x[n + 4] == nonce / 0x1_0000_0000 % 256
    &&& x[n + 5] == nonce / 0x100_0000_0000 % 256
    &&& x[n + 6] == nonce / 0x1_0000_0000_0000 % 256
    &&& x[n + 7] == nonce / 0x100_0000_0000_0000 % 256
}

/// Solving a challenge takes a digest that starts with enough zero bits.
pub proof fn solving_takes_leading_zeros(challenge: Seq<u8>, nonce: u64, difficulty: u8)
    ensures
        solves(challenge, nonce, difficulty) == is_solution(challenge, nonce, difficulty),
{
    let whole = challenge + bytes::le_u64(nonce);
    let n = challenge.len() as int;
    hash_laws::little_endian_bytes_are_digits(nonce);
    assert(whole.take(n) =~= challenge);
    assert(is_attempt(whole, challenge, nonce));
    leading_zeros_are_zero_bits(hash::sha256_digest(whole), difficulty as nat);
    assert forall|x: Seq<u8>| #[trigger] is_attempt(x, challenge, nonce) implies x == whole by {
        assert forall|i: int| 0 <= i < x.len() implies x[i] == whole[i] by {
            if i < n {
                assert(x.take(n)[i] == challenge[i]);
            }
        }
        assert(x =~= whole);
    }
}

/// A nonce is accepted exactly where it solves the challenge of the same secret, identity
/// and request in the current window or in the one before; so a solution is worth
/// nothing to another client, for another request, or two windows on.
pub proof fn a_nonce_is_accepted_for_what_it_was_issued_for(
    secret: Seq<u8>,
    identity: Seq<char>,
    request_hash: Seq<u8>,
    difficulty: u8,
    nonce: u64,
    window_index: u64,
)
    ensures
        accepted(secret, identity, request_hash, difficulty, nonce, window_index) <==> exists|w: u64|
            #![trigger challenge_in(secret, identity, request_hash, w)]
            (w == window_index || w + 1 == window_index) && is_solution(
                challenge_in(secret, identity, request_hash, w),
                nonce,
                difficulty,
            ),
{
    let now = challenge_in(secret, identity, request_hash, window_index);
    let earlier = challenge_in(secret, identity, request_hash, window_before(window_index));
    solving_takes_leading_zeros(now, nonce, difficulty);
    solving_takes_leading_zeros(earlier, nonce, difficulty);
}

/// Difficulty rises by one for each quarter of overage, until it has risen by twenty or
/// is the highest there is.
pub proof fn difficulty_rises_by_quarters(base: u8, quarters: u64)
    ensures
        raised(base, 0) == base,
        quarters < 20 && raised(base, quarters) < 255 && quarters < u64::MAX ==> raised(
            base,
            (quarters + 1) as u64,
        ) == raised(base, quarters) + 1,
        quarters >= 20 && base <= 235 ==> raised(base, quarters) == base + 20,
        quarters >= 20 && base > 235 ==> raised(base, quarters) == 255,
        quarters < 20 && base + quarters <= 255 ==> raised(base, quarters) == base + quarters,
        quarters < 20 && base + quarters > 255 ==> raised(base, quarters) == 255,
{
}

} // verus!
