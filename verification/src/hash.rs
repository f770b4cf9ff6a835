//! SHA-256 and HMAC-SHA-256.
//!
//! [`sha256`] is stated directly from FIPS 180-4: pad the message to a whole
//! number of 64-byte blocks, expand each block into 64 schedule words, and fold
//! it into eight chaining words with 64 rounds. [`hmac_sha256`] is RFC 2104 over
//! that hash. Both are proved equal to those definitions for every input.

use vstd::prelude::*;

verus! {

/// Bytes in one SHA-256 message block, which is also HMAC's key width.
pub const BLOCK_LEN: usize = 64;

/// The round constants: the first 32 bits of the fractional parts of the cube
/// roots of the first 64 primes.
pub const ROUND_CONSTANTS: [u32; 64] = [
    0x428a2f98, 0x71374491, 0xb5c0fbcf, 0xe9b5dba5, 0x3956c25b, 0x59f111f1, 0x923f82a4, 0xab1c5ed5,
    0xd807aa98, 0x12835b01, 0x243185be, 0x550c7dc3, 0x72be5d74, 0x80deb1fe, 0x9bdc06a7, 0xc19bf174,
    0xe49b69c1, 0xefbe4786, 0x0fc19dc6, 0x240ca1cc, 0x2de92c6f, 0x4a7484aa, 0x5cb0a9dc, 0x76f988da,
    0x983e5152, 0xa831c66d, 0xb00327c8, 0xbf597fc7, 0xc6e00bf3, 0xd5a79147, 0x06ca6351, 0x14292967,
    0x27b70a85, 0x2e1b2138, 0x4d2c6dfc, 0x53380d13, 0x650a7354, 0x766a0abb, 0x81c2c92e, 0x92722c85,
    0xa2bfe8a1, 0xa81a664b, 0xc24b8b70, 0xc76c51a3, 0xd192e819, 0xd6990624, 0xf40e3585, 0x106aa070,
    0x19a4c116, 0x1e376c08, 0x2748774c, 0x34b0bcb5, 0x391c0cb3, 0x4ed8aa4a, 0x5b9cca4f, 0x682e6ff3,
    0x748f82ee, 0x78a5636f, 0x84c87814, 0x8cc70208, 0x90befffa, 0xa4506ceb, 0xbef9a3f7, 0xc67178f2,
];

/// The eight working words of the compression function.
#[derive(Clone, Copy)]
pub struct Words {
    pub a: u32,
    pub b: u32,
    pub c: u32,
    pub d: u32,
    pub e: u32,
    pub f: u32,
    pub g: u32,
    pub h: u32,
}

/// The initial chaining value: the first 32 bits of the fractional parts of the
/// square roots of the first eight primes.
pub open spec fn initial_words() -> Words {
    Words {
        a: 0x6a09e667,
        b: 0xbb67ae85,
        c: 0x3c6ef372,
        d: 0xa54ff53a,
        e: 0x510e527f,
        f: 0x9b05688c,
        g: 0x1f83d9ab,
        h: 0x5be0cd19,
    }
}

/// `x` rotated right by `n` bits, for `0 < n < 32`.
pub open spec fn rotated(x: u32, n: u32) -> u32 {
    (x >> n) | (x << ((32 - n) as u32))
}

pub open spec fn big_sigma0(x: u32) -> u32 {
    rotated(x, 2) ^ rotated(x, 13) ^ rotated(x, 22)
}

pub open spec fn big_sigma1(x: u32) -> u32 {
    rotated(x, 6) ^ rotated(x, 11) ^ rotated(x, 25)
}

pub open spec fn small_sigma0(x: u32) -> u32 {
    rotated(x, 7) ^ rotated(x, 18) ^ (x >> 3)
}

pub open spec fn small_sigma1(x: u32) -> u32 {
    rotated(x, 17) ^ rotated(x, 19) ^ (x >> 10)
}

pub open spec fn choice(x: u32, y: u32, z: u32) -> u32 {
    (x & y) ^ (!x & z)
}

pub open spec fn majority(x: u32, y: u32, z: u32) -> u32 {
    (x & y) ^ (x & z) ^ (y & z)
}

/// The big-endian 32-bit word at byte offset `at`.
pub open spec fn word_at(bytes: Seq<u8>, at: int) -> u32 {
    ((bytes[at] as u32) << 24) | ((bytes[at + 1] as u32) << 16) | ((bytes[at + 2] as u32) << 8) | (
    bytes[at + 3] as u32)
}

/// Word `t` of the message schedule of the block that starts at `at`.
pub open spec fn schedule(bytes: Seq<u8>, at: int, t: nat) -> u32
    decreases t,
{
    if t < 16 {
        word_at(bytes, at + 4 * t)
    } else {
        small_sigma1(schedule(bytes, at, (t - 2) as nat)).wrapping_add(
            schedule(bytes, at, (t - 7) as nat),
        ).wrapping_add(small_sigma0(schedule(bytes, at, (t - 15) as nat))).wrapping_add(
            schedule(bytes, at, (t - 16) as nat),
        )
    }
}

/// One round with schedule word `w` and round constant `k`.
pub open spec fn round(s: Words, w: u32, k: u32) -> Words {
    let t1 = s.h.wrapping_add(big_sigma1(s.e)).wrapping_add(choice(s.e, s.f, s.g)).wrapping_add(
        k,
    ).wrapping_add(w);
    let t2 = big_sigma0(s.a).wrapping_add(majority(s.a, s.b, s.c));
    Words {
        a: t1.wrapping_add(t2),
        b: s.a,
        c: s.b,
        d: s.c,
        e: s.d.wrapping_add(t1),
        f: s.e,
        g: s.f,
        h: s.g,
    }
}

/// The working words after the first `t` rounds over the block at `at`.
pub open spec fn rounds(s: Words, bytes: Seq<u8>, at: int, t: nat) -> Words
    decreases t,
{
    if t == 0 {
        s
    } else {
        round(
            rounds(s, bytes, at, (t - 1) as nat),
            schedule(bytes, at, (t - 1) as nat),
            ROUND_CONSTANTS[t - 1],
        )
    }
}

/// Word-wise sum modulo 2^32.
pub open spec fn added(x: Words, y: Words) -> Words {
    Words {
        a: x.a.wrapping_add(y.a),
        b: x.b.wrapping_add(y.b),
        c: x.c.wrapping_add(y.c),
        d: x.d.wrapping_add(y.d),
        e: x.e.wrapping_add(y.e),
        f: x.f.wrapping_add(y.f),
        g: x.g.wrapping_add(y.g),
        h: x.h.wrapping_add(y.h),
    }
}

/// The chaining value after the first `n` blocks of `bytes`.
pub open spec fn chained(bytes: Seq<u8>, n: nat) -> Words
    decreases n,
{
    if n == 0 {
        initial_words()
    } else {
        let before = chained(bytes, (n - 1) as nat);
        added(before, rounds(before, bytes, 64 * (n - 1), 64))
    }
}

/// How many zero bytes follow the `0x80` marker of a message of `len` bytes.
pub open spec fn zero_fill(len: nat) -> nat {
    ((119 - len % 64) % 64) as nat
}

/// The eight big-endian bytes of `x`.
pub open spec fn be_bytes_u64(x: u64) -> Seq<u8> {
    Seq::new(8, |i: int| ((x >> ((56 - 8 * i) as u64)) & 0xff) as u8)
}

/// The four big-endian bytes of `x`.
pub open spec fn be_bytes_u32(x: u32) -> Seq<u8> {
    Seq::new(4, |i: int| ((x >> ((24 - 8 * i) as u32)) & 0xff) as u8)
}

/// The message followed by `0x80`, zeros, and its length in bits.
pub open spec fn padded(message: Seq<u8>) -> Seq<u8> {
    message.push(0x80) + Seq::new(zero_fill(message.len()), |i: int| 0u8) + be_bytes_u64(
        ((message.len() * 8) % 0x1_0000_0000_0000_0000) as u64,
    )
}

/// The SHA-256 digest of `message`.
pub open spec fn sha256_digest(message: Seq<u8>) -> Seq<u8> {
    let data = padded(message);
    let w = chained(data, data.len() / 64);
    be_bytes_u32(w.a) + be_bytes_u32(w.b) + be_bytes_u32(w.c) + be_bytes_u32(w.d) + be_bytes_u32(
        w.e,
    ) + be_bytes_u32(w.f) + be_bytes_u32(w.g) + be_bytes_u32(w.h)
}

/// HMAC's block-wide key: the key itself when it fits, its digest when it does
/// not, filled up with zeros.
pub open spec fn block_key(key: Seq<u8>) -> Seq<u8> {
    let short = if key.len() > 64 {
        sha256_digest(key)
    } else {
        key
    };
    short + Seq::new((64 - short.len()) as nat, |i: int| 0u8)
}

/// `bytes` with every byte combined with `mask` by exclusive or.
pub open spec fn masked(bytes: Seq<u8>, mask: u8) -> Seq<u8> {
    bytes.map_values(|b: u8| b ^ mask)
}

/// The HMAC-SHA-256 tag of `message` under `key`.
pub open spec fn hmac_sha256_tag(key: Seq<u8>, message: Seq<u8>) -> Seq<u8> {
    let k = block_key(key);
    sha256_digest(masked(k, 0x5c) + sha256_digest(masked(k, 0x36) + message))
}

/// A digest is always 32 bytes.
pub proof fn digest_is_32_bytes(message: Seq<u8>)
    ensures
        sha256_digest(message).len() == 32,
{
}

fn rotate(x: u32, n: u32) -> (r: u32)
    requires
        0 < n < 32,
    ensures
        r == rotated(x, n),
{
    (x >> n) | (x << (32 - n))
}

fn mix_round(s: Words, w: u32, k: u32) -> (r: Words)
    ensures
        r == round(s, w, k),
{
    let sum1: u32 = rotate(s.e, 6) ^ rotate(s.e, 11) ^ rotate(s.e, 25);
    let ch: u32 = (s.e & s.f) ^ (!s.e & s.g);
    let t1: u32 = s.h.wrapping_add(sum1).wrapping_add(ch).wrapping_add(k).wrapping_add(w);
    let sum0: u32 = rotate(s.a, 2) ^ rotate(s.a, 13) ^ rotate(s.a, 22);
    let maj: u32 = (s.a & s.b) ^ (s.a & s.c) ^ (s.b & s.c);
    let t2: u32 = sum0.wrapping_add(maj);
    Words {
        a: t1.wrapping_add(t2),
        b: s.a,
        c: s.b,
        d: s.c,
        e: s.d.wrapping_add(t1),
        f: s.e,
        g: s.f,
        h: s.g,
    }
}

fn expand(bytes: &Vec<u8>, at: usize) -> (w: Vec<u32>)
    requires
        at + 64 <= bytes.len(),
    ensures
        w.len() == 64,
        forall|t: int| 0 <= t < 64 ==> w[t] == schedule(bytes@, at as int, t as nat),
{
    let mut w: Vec<u32> = Vec::with_capacity(64);
    let mut t: usize = 0;
    while t < 16
        invariant
            t <= 16,
            w.len() == t,
            at + 64 <= bytes.len(),
            forall|j: int| 0 <= j < t ==> w[j] == schedule(bytes@, at as int, j as nat),
        decreases 16 - t,
    {
        let p: usize = at + 4 * t;
        let x: u32 = ((bytes[p] as u32) << 24) | ((bytes[p + 1] as u32) << 16) | ((
        bytes[p + 2] as u32) << 8) | (bytes[p + 3] as u32);
        w.push(x);
        t = t + 1;
    }
    while t < 64
        invariant
            16 <= t <= 64,
            w.len() == t,
            forall|j: int| 0 <= j < t ==> w[j] == schedule(bytes@, at as int, j as nat),
        decreases 64 - t,
    {
        let x2: u32 = w[t - 2];
        let x15: u32 = w[t - 15];
        let s1: u32 = rotate(x2, 17) ^ rotate(x2, 19) ^ (x2 >> 10);
        let s0: u32 = rotate(x15, 7) ^ rotate(x15, 18) ^ (x15 >> 3);
        let x: u32 = s1.wrapping_add(w[t - 7]).wrapping_add(s0).wrapping_add(w[t - 16]);
        w.push(x);
        t = t + 1;
    }
    w
}

fn compress(before: Words, bytes: &Vec<u8>, at: usize) -> (r: Words)
    requires
        at + 64 <= bytes.len(),
    ensures
        r == added(before, rounds(before, bytes@, at as int, 64)),
{
    let w = expand(bytes, at);
    let mut s: Words = before;
    let mut t: usize = 0;
    while t < 64
        invariant
            t <= 64,
            w.len() == 64,
            forall|j: int| 0 <= j < 64 ==> w[j] == schedule(bytes@, at as int, j as nat),
            s == rounds(before, bytes@, at as int, t as nat),
        decreases 64 - t,
    {
        s = mix_round(s, w[t], ROUND_CONSTANTS[t]);
        t = t + 1;
    }
    Words {
        a: before.a.wrapping_add(s.a),
        b: before.b.wrapping_add(s.b),
        c: before.c.wrapping_add(s.c),
        d: before.d.wrapping_add(s.d),
        e: before.e.wrapping_add(s.e),
        f: before.f.wrapping_add(s.f),
        g: before.g.wrapping_add(s.g),
        h: before.h.wrapping_add(s.h),
    }
}


fn pad(message: &[u8]) -> (data: Vec<u8>)
    ensures
        data@ == padded(message@),
        data@.len() % 64 == 0,
{
    let len: usize = message.len();
    let bits: u64 = (len as u64).wrapping_mul(8);
    let mut data: Vec<u8> = Vec::new();
    data.extend_from_slice(message);
    data.push(0x80);
    let ghost marked = message@.push(0x80);
    assert(data@ =~= marked);
    let zeros: usize = (119 - len % 64) % 64;
    let mut i: usize = 0;
    while i < zeros
        invariant
            i <= zeros,
            data@ == marked + Seq::new(i as nat, |j: int| 0u8),
        decreases zeros - i,
    {
        data.push(0);
        i = i + 1;
        assert(data@ =~= marked + Seq::new(i as nat, |j: int| 0u8));
    }
    let ghost filled = data@;
    let mut k: u64 = 0;
    while k < 8
        invariant
            k <= 8,
            data@ == filled + be_bytes_u64(bits).take(k as int),
        decreases 8 - k,
    {
        data.push(((bits >> (56 - 8 * k)) & 0xff) as u8);
        k = k + 1;
        assert(data@ =~= filled + be_bytes_u64(bits).take(k as int));
    }
    assert(be_bytes_u64(bits).take(8) =~= be_bytes_u64(bits));
    data
}

fn push_word(out: &mut Vec<u8>, x: u32)
    ensures
        final(out)@ == old(out)@ + be_bytes_u32(x),
{
    let ghost before = out@;
    let mut k: u32 = 0;
    while k < 4
        invariant
            k <= 4,
            out@ == before + be_bytes_u32(x).take(k as int),
        decreases 4 - k,
    {
        out.push(((x >> (24 - 8 * k)) & 0xff) as u8);
        k = k + 1;
        assert(out@ =~= before + be_bytes_u32(x).take(k as int));
    }
    assert(be_bytes_u32(x).take(4) =~= be_bytes_u32(x));
}

/// The first 32 bytes of `bytes` as an array.
pub fn to_array32(bytes: &[u8]) -> (r: [u8; 32])
    requires
        bytes.len() >= 32,
    ensures
        r@ == bytes@.take(32),
{
    let mut out: [u8; 32] = [0; 32];
    let mut i: usize = 0;
    while i < 32
        invariant
            i <= 32,
            bytes.len() >= 32,
            forall|j: int| 0 <= j < i ==> out@[j] == bytes@[j],
        decreases 32 - i,
    {
        out[i] = bytes[i];
        i = i + 1;
    }
    assert(out@ =~= bytes@.take(32));
    out
}

/// SHA-256 of `message`.
pub fn sha256(message: &[u8]) -> (digest: [u8; 32])
    ensures
        digest@ == sha256_digest(message@),
{
    let data = pad(message);
    let blocks: usize = data.len() / 64;
    let mut w = Words {
        a: 0x6a09e667,
        b: 0xbb67ae85,
        c: 0x3c6ef372,
        d: 0xa54ff53a,
        e: 0x510e527f,
        f: 0x9b05688c,
        g: 0x1f83d9ab,
        h: 0x5be0cd19,
    };
    let mut n: usize = 0;
    while n < blocks
        invariant
            n <= blocks,
            blocks * 64 <= data.len(),
            w == chained(data@, n as nat),
        decreases blocks - n,
    {
        w = compress(w, &data, 64 * n);
        n = n + 1;
    }
    let mut out: Vec<u8> = Vec::with_capacity(32);
    push_word(&mut out, w.a);
    push_word(&mut out, w.b);
    push_word(&mut out, w.c);
    push_word(&mut out, w.d);
    push_word(&mut out, w.e);
    push_word(&mut out, w.f);
    push_word(&mut out, w.g);
    push_word(&mut out, w.h);
    assert(out@ =~= sha256_digest(message@));
    let digest = to_array32(out.as_slice());
    assert(out@.take(32) =~= out@);
    digest
}

/// HMAC-SHA-256 of `message` under `key`.
pub fn hmac_sha256(key: &[u8], message: &[u8]) -> (tag: [u8; 32])
    ensures
        tag@ == hmac_sha256_tag(key@, message@),
{
    let mut k: Vec<u8> = Vec::with_capacity(64);
    if key.len() > 64 {
        let digest = sha256(key);
        k.extend_from_slice(&digest);
        assert(k@ =~= sha256_digest(key@));
    } else {
        k.extend_from_slice(key);
        assert(k@ =~= key@);
    }
    let ghost short = k@;
    while k.len() < 64
        invariant
            short.len() <= k.len() <= 64,
            k@ == short + Seq::new((k.len() - short.len()) as nat, |i: int| 0u8),
        decreases 64 - k.len(),
    {
        k.push(0);
        assert(k@ =~= short + Seq::new((k.len() - short.len()) as nat, |i: int| 0u8));
    }
    assert(k@ =~= block_key(key@));
    let mut inner: Vec<u8> = Vec::with_capacity(64);
    let mut outer: Vec<u8> = Vec::with_capacity(96);
    let mut i: usize = 0;
    while i < 64
        invariant
            i <= 64,
            k.len() == 64,
            inner@ == masked(k@, 0x36).take(i as int),
            outer@ == masked(k@, 0x5c).take(i as int),
        decreases 64 - i,
    {
        inner.push(k[i] ^ 0x36);
        outer.push(k[i] ^ 0x5c);
        i = i + 1;
        assert(inner@ =~= masked(k@, 0x36).take(i as int));
        assert(outer@ =~= masked(k@, 0x5c).take(i as int));
    }
    inner.extend_from_slice(message);
    assert(inner@ =~= masked(k@, 0x36) + message@);
    let inner_digest = sha256(inner.as_slice());
    outer.extend_from_slice(&inner_digest);
    assert(outer@ =~= masked(k@, 0x5c) + sha256_digest(inner@));
    sha256(outer.as_slice())
}

} // verus!
