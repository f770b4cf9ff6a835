//! What the hashes take in: all of a message, so that two messages meet only where
//! the compression function, or the hasher, itself sends two inputs to one output.

use crate::bytes;
use crate::hash;
use crate::hash::Words;
use crate::hashing;
use crate::text;
use std::collections::hash_map::DefaultHasher;
use vstd::prelude::*;
use vstd::std_specs::hash::DefaultHasherAdditionalSpecFns;
use vstd::utf8::*;

verus! {

// ---------------------------------------------------------------------------
// Integers as bytes
// ---------------------------------------------------------------------------

/// The eight little-endian bytes of a number are its digits to the base 256, the
/// lowest first.
pub proof fn little_endian_bytes_are_digits(x: u64)
    ensures
        bytes::le_u64(x).len() == 8,
        bytes::le_u64(x)[0] == x % 256,
        bytes::le_u64(x)[1] == x / 0x100 % 256,
        bytes::le_u64(x)[2] == x / 0x1_0000 % 256,
        bytes::le_u64(x)[3] == x / 0x100_0000 % 256,
        bytes::le_u64(x)[4] == x / 0x1_0000_0000 % 256,
        bytes::le_u64(x)[5] == x / 0x100_0000_0000 % 256,
        bytes::le_u64(x)[6] == x / 0x1_0000_0000_0000 % 256,
        bytes::le_u64(x)[7] == x / 0x100_0000_0000_0000 % 256,
{
    assert((x & 0xff) as u8 == x % 256 && ((x >> 8) & 0xff) as u8 == x / 0x100 % 256 && ((x >> 16)
        & 0xff) as u8 == x / 0x1_0000 % 256 && ((x >> 24) & 0xff) as u8 == x / 0x100_0000 % 256
        && ((x >> 32) & 0xff) as u8 == x / 0x1_0000_0000 % 256 && ((x >> 40) & 0xff) as u8 == x
        / 0x100_0000_0000 % 256 && ((x >> 48) & 0xff) as u8 == x / 0x1_0000_0000_0000 % 256 && ((x
        >> 56) & 0xff) as u8 == x / 0x100_0000_0000_0000 % 256) by (bit_vector);
}

/// The bytes of a number tell the number.
pub proof fn little_endian_bytes_are_unambiguous(x: u64, y: u64)
    requires
        bytes::le_u64(x) == bytes::le_u64(y),
    ensures
        x == y,
{
    bytes::u64_reads_back(bytes::le_u64(x), 0, x);
    bytes::u64_reads_back(bytes::le_u64(y), 0, y);
}

// ---------------------------------------------------------------------------
// The hasher
// ---------------------------------------------------------------------------

/// Two different inputs that the hasher sends to one output.
pub open spec fn hasher_confuses(a: Seq<Seq<u8>>, b: Seq<Seq<u8>>) -> bool {
    a != b && DefaultHasher::spec_finish(a) == DefaultHasher::spec_finish(b)
}

/// `input` is all of a text, and the byte that ends it.
pub open spec fn is_whole_text(input: Seq<Seq<u8>>, text: Seq<char>) -> bool {
    &&& input.len() == 2
    &&& input[0] == encode_utf8(text)
    &&& input[1] == seq![0xffu8]
}

/// `input` is the number of a row, and then all of a text and the byte that ends it.
pub open spec fn is_whole_text_in_row(input: Seq<Seq<u8>>, row: u64, text: Seq<char>) -> bool {
    &&& input.len() == 3
    &&& input[0].len() == 8
    &&& input[0][0] == row % 256
    &&& input[0][1] == row / 0x100 % 256
    &&& input[0][2] == row / 0x1_0000 % 256
    &&& input[0][3] == row / 0x100_0000 % 256
    &&& input[0][4] == row / 0x1_0000_0000 % 256
    &&& input[0][5] == row / 0x100_0000_0000 % 256
    &&& input[0][6] == row / 0x1_0000_0000_0000 % 256
    &&& input[0][7] == row / 0x100_0000_0000_0000 % 256
    &&& input[1] == encode_utf8(text)
    &&& input[2] == seq![0xffu8]
}

/// A text is hashed whole: its hash is what the hasher makes of every byte of it. Two
/// texts with the same hash are one text, or the hasher confuses their bytes.
pub proof fn a_text_is_hashed_whole(a: Seq<char>, b: Seq<char>)
    ensures
        exists|input: Seq<Seq<u8>>| #[trigger]
            is_whole_text(input, a) && hashing::text_hash(a) == DefaultHasher::spec_finish(input),
        hashing::text_hash(a) == hashing::text_hash(b) ==> a == b || exists|
            x: Seq<Seq<u8>>,
            y: Seq<Seq<u8>>,
        |
            is_whole_text(x, a) && is_whole_text(y, b) && #[trigger] hasher_confuses(x, y),
{
    let x = seq![encode_utf8(a), seq![0xffu8]];
    let y = seq![encode_utf8(b), seq![0xffu8]];
    assert(is_whole_text(x, a) && is_whole_text(y, b));
    assert(hashing::text_input(a) =~= x && hashing::text_input(b) =~= y);
    assert(hashing::text_hash(a) == DefaultHasher::spec_finish(x));
    if hashing::text_hash(a) == hashing::text_hash(b) && a != b {
        if x == y {
            assert(x[0] == y[0]);
            text::encoding_is_injective(a, b);
        }
        assert(hasher_confuses(x, y));
    }
}

/// In a row, too, a text is hashed whole, with all of the row's number before it; so
/// that no two rows and no two texts meet but where the hasher confuses them.
pub proof fn a_text_in_a_row_is_hashed_whole(row: u64, a: Seq<char>, other: u64, b: Seq<char>)
    ensures
        exists|input: Seq<Seq<u8>>| #[trigger]
            is_whole_text_in_row(input, row, a) && hashing::row_hash(row, a)
                == DefaultHasher::spec_finish(input),
        hashing::row_hash(row, a) == hashing::row_hash(other, b) ==> (row == other && a == b)
            || exists|x: Seq<Seq<u8>>, y: Seq<Seq<u8>>|
            is_whole_text_in_row(x, row, a) && is_whole_text_in_row(y, other, b)
                && #[trigger] hasher_confuses(x, y),
{
    let x = seq![bytes::le_u64(row), encode_utf8(a), seq![0xffu8]];
    let y = seq![bytes::le_u64(other), encode_utf8(b), seq![0xffu8]];
    little_endian_bytes_are_digits(row);
    little_endian_bytes_are_digits(other);
    assert(is_whole_text_in_row(x, row, a) && is_whole_text_in_row(y, other, b));
    assert(seq![bytes::le_u64(row)] + hashing::text_input(a) =~= x);
    assert(seq![bytes::le_u64(other)] + hashing::text_input(b) =~= y);
    assert(hashing::row_hash(row, a) == DefaultHasher::spec_finish(x));
    if hashing::row_hash(row, a) == hashing::row_hash(other, b) && !(row == other && a == b) {
        if x == y {
            assert(x[0] == y[0] && x[1] == y[1]);
            little_endian_bytes_are_unambiguous(row, other);
            text::encoding_is_injective(a, b);
        }
        assert(hasher_confuses(x, y));
    }
}

// ---------------------------------------------------------------------------
// SHA-256
// ---------------------------------------------------------------------------

/// Four big-endian bytes tell the word.
proof fn be_words_are_unambiguous(x: u32, y: u32)
    requires
        hash::be_bytes_u32(x) == hash::be_bytes_u32(y),
    ensures
        x == y,
{
    let (a, b) = (hash::be_bytes_u32(x), hash::be_bytes_u32(y));
    assert(a[0] == b[0] && a[1] == b[1] && a[2] == b[2] && a[3] == b[3]);
    assert(((x >> 24) & 0xff) as u8 == ((y >> 24) & 0xff) as u8 && ((x >> 16) & 0xff) as u8 == ((y
        >> 16) & 0xff) as u8 && ((x >> 8) & 0xff) as u8 == ((y >> 8) & 0xff) as u8 && ((x >> 0)
        & 0xff) as u8 == ((y >> 0) & 0xff) as u8 ==> x == y) by (bit_vector);
}

/// Eight big-endian bytes tell the number.
proof fn be_longs_are_unambiguous(x: u64, y: u64)
    requires
        hash::be_bytes_u64(x) == hash::be_bytes_u64(y),
    ensures
        x == y,
{
    let (a, b) = (hash::be_bytes_u64(x), hash::be_bytes_u64(y));
    assert(a[0] == b[0] && a[1] == b[1] && a[2] == b[2] && a[3] == b[3]);
    assert(a[4] == b[4] && a[5] == b[5] && a[6] == b[6] && a[7] == b[7]);
    assert(((x >> 56) & 0xff) as u8 == ((y >> 56) & 0xff) as u8 && ((x >> 48) & 0xff) as u8 == ((y
        >> 48) & 0xff) as u8 && ((x >> 40) & 0xff) as u8 == ((y >> 40) & 0xff) as u8 && ((x >> 32)
        & 0xff) as u8 == ((y >> 32) & 0xff) as u8 && ((x >> 24) & 0xff) as u8 == ((y >> 24) & 0xff)
        as u8 && ((x >> 16) & 0xff) as u8 == ((y >> 16) & 0xff) as u8 && ((x >> 8) & 0xff) as u8
        == ((y >> 8) & 0xff) as u8 && ((x >> 0) & 0xff) as u8 == ((y >> 0) & 0xff) as u8 ==> x == y)
        by (bit_vector);
}

/// The most bytes that a message can have whose length in bits is a 64-bit number.
pub open spec fn is_countable(message: Seq<u8>) -> bool {
    message.len() < 0x2000_0000_0000_0000
}

/// A message is padded to whole blocks: it stands in front, and the last eight bytes
/// tell its length. So no two messages are padded alike.
pub proof fn padding_keeps_the_message(a: Seq<u8>, b: Seq<u8>)
    requires
        is_countable(a),
        is_countable(b),
    ensures
        hash::padded(a).len() % 64 == 0,
        hash::padded(a).len() >= a.len() + 9,
        hash::padded(a).take(a.len() as int) == a,
        hash::padded(a).skip(hash::padded(a).len() - 8) == hash::padded(b).skip(
            hash::padded(b).len() - 8,
        ) <==> a.len() == b.len(),
        hash::padded(a) == hash::padded(b) ==> a == b,
{
    let (x, y) = (hash::padded(a), hash::padded(b));
    assert(x.take(a.len() as int) =~= a);
    assert(y.take(b.len() as int) =~= b);
    let n = ((a.len() * 8) % 0x1_0000_0000_0000_0000) as u64;
    let m = ((b.len() * 8) % 0x1_0000_0000_0000_0000) as u64;
    assert(x.skip(x.len() - 8) =~= hash::be_bytes_u64(n));
    assert(y.skip(y.len() - 8) =~= hash::be_bytes_u64(m));
    if x.skip(x.len() - 8) == y.skip(y.len() - 8) {
        be_longs_are_unambiguous(n, m);
    }
}

/// The compression function: what one block makes of the chaining words.
pub open spec fn step(state: Words, block: Seq<u8>) -> Words {
    hash::added(state, hash::rounds(state, block, 0, 64))
}

/// Two different inputs that the compression function sends to one output.
pub open spec fn step_confuses(s: Words, x: Seq<u8>, t: Words, y: Seq<u8>) -> bool {
    &&& x.len() == 64
    &&& y.len() == 64
    &&& s != t || x != y
    &&& step(s, x) == step(t, y)
}

/// A block's schedule is made of that block alone.
proof fn a_schedule_is_the_blocks(data: Seq<u8>, at: int, t: nat)
    requires
        0 <= at,
        at + 64 <= data.len(),
        t < 64,
    ensures
        hash::schedule(data, at, t) == hash::schedule(data.subrange(at, at + 64), 0, t),
    decreases t,
{
    let block = data.subrange(at, at + 64);
    if t < 16 {
        assert(block[4 * t as int] == data[at + 4 * t]);
        assert(block[4 * t as int + 1] == data[at + 4 * t + 1]);
        assert(block[4 * t as int + 2] == data[at + 4 * t + 2]);
        assert(block[4 * t as int + 3] == data[at + 4 * t + 3]);
    } else {
        a_schedule_is_the_blocks(data, at, (t - 2) as nat);
        a_schedule_is_the_blocks(data, at, (t - 7) as nat);
        a_schedule_is_the_blocks(data, at, (t - 15) as nat);
        a_schedule_is_the_blocks(data, at, (t - 16) as nat);
    }
}

proof fn rounds_are_the_blocks(s: Words, data: Seq<u8>, at: int, t: nat)
    requires
        0 <= at,
        at + 64 <= data.len(),
        t <= 64,
    ensures
        hash::rounds(s, data, at, t) == hash::rounds(s, data.subrange(at, at + 64), 0, t),
    decreases t,
{
    if t > 0 {
        rounds_are_the_blocks(s, data, at, (t - 1) as nat);
        a_schedule_is_the_blocks(data, at, (t - 1) as nat);
    }
}

/// The `i`-th block of `data`.
pub open spec fn block_at(data: Seq<u8>, i: int) -> Seq<u8> {
    data.subrange(64 * i, 64 * i + 64)
}

/// Each block is folded into the chaining words by one step.
proof fn a_block_is_a_step(data: Seq<u8>, n: nat)
    requires
        n > 0,
        64 * n <= data.len(),
    ensures
        hash::chained(data, n) == step(
            hash::chained(data, (n - 1) as nat),
            block_at(data, n - 1),
        ),
{
    rounds_are_the_blocks(hash::chained(data, (n - 1) as nat), data, 64 * (n - 1), 64);
}

/// Some step over a block of `x` and some step over a block of `y` are confused.
pub open spec fn steps_collide(x: Seq<u8>, y: Seq<u8>) -> bool {
    exists|s: Words, i: int, t: Words, j: int| #[trigger]
        step_confuses(s, block_at(x, i), t, block_at(y, j)) && 0 <= i < x.len() / 64 && 0 <= j
            < y.len() / 64
}

/// Data of one length that is folded into the same words is the same, or steps of its
/// two versions are confused.
proof fn equal_words_mean_equal_blocks(x: Seq<u8>, y: Seq<u8>, n: nat)
    requires
        64 * n <= x.len(),
        64 * n <= y.len(),
        hash::chained(x, n) == hash::chained(y, n),
        !steps_collide(x, y),
    ensures
        x.take(64 * n as int) == y.take(64 * n as int),
    decreases n,
{
    if n == 0 {
        assert(x.take(0) =~= y.take(0));
    } else {
        a_block_is_a_step(x, n);
        a_block_is_a_step(y, n);
        let s = hash::chained(x, (n - 1) as nat);
        let t = hash::chained(y, (n - 1) as nat);
        let (bx, by) = (block_at(x, n - 1), block_at(y, n - 1));
        if s != t || bx != by {
            assert(step_confuses(s, block_at(x, n - 1), t, block_at(y, n - 1)));
        }
        equal_words_mean_equal_blocks(x, y, (n - 1) as nat);
        assert forall|i: int| 0 <= i < 64 * n implies x[i] == y[i] by {
            if i < 64 * (n - 1) {
                assert(x.take(64 * (n - 1))[i] == y.take(64 * (n - 1))[i]);
            } else {
                assert(bx[i - 64 * (n - 1)] == by[i - 64 * (n - 1)]);
            }
        }
        assert(x.take(64 * n as int) =~= y.take(64 * n as int));
    }
}

proof fn equal_digests_mean_equal_words(a: Seq<u8>, b: Seq<u8>)
    requires
        hash::sha256_digest(a) == hash::sha256_digest(b),
    ensures
        ({
            let (x, y) = (hash::padded(a), hash::padded(b));
            hash::chained(x, x.len() / 64) == hash::chained(y, y.len() / 64)
        }),
{
    let (x, y) = (hash::padded(a), hash::padded(b));
    let v = hash::chained(x, x.len() / 64);
    let w = hash::chained(y, y.len() / 64);
    let (d, e) = (hash::sha256_digest(a), hash::sha256_digest(b));
    assert(d.subrange(0, 4) =~= hash::be_bytes_u32(v.a) && e.subrange(0, 4) =~= hash::be_bytes_u32(
        w.a,
    ));
    assert(d.subrange(4, 8) =~= hash::be_bytes_u32(v.b) && e.subrange(4, 8) =~= hash::be_bytes_u32(
        w.b,
    ));
    assert(d.subrange(8, 12) =~= hash::be_bytes_u32(v.c) && e.subrange(8, 12)
        =~= hash::be_bytes_u32(w.c));
    assert(d.subrange(12, 16) =~= hash::be_bytes_u32(v.d) && e.subrange(12, 16)
        =~= hash::be_bytes_u32(w.d));
    assert(d.subrange(16, 20) =~= hash::be_bytes_u32(v.e) && e.subrange(16, 20)
        =~= hash::be_bytes_u32(w.e));
    assert(d.subrange(20, 24) =~= hash::be_bytes_u32(v.f) && e.subrange(20, 24)
        =~= hash::be_bytes_u32(w.f));
    assert(d.subrange(24, 28) =~= hash::be_bytes_u32(v.g) && e.subrange(24, 28)
        =~= hash::be_bytes_u32(w.g));
    assert(d.subrange(28, 32) =~= hash::be_bytes_u32(v.h) && e.subrange(28, 32)
        =~= hash::be_bytes_u32(w.h));
    be_words_are_unambiguous(v.a, w.a);
    be_words_are_unambiguous(v.b, w.b);
    be_words_are_unambiguous(v.c, w.c);
    be_words_are_unambiguous(v.d, w.d);
    be_words_are_unambiguous(v.e, w.e);
    be_words_are_unambiguous(v.f, w.f);
    be_words_are_unambiguous(v.g, w.g);
    be_words_are_unambiguous(v.h, w.h);
}

/// SHA-256 takes in all of a message: two messages with the same digest are the same
/// message, or the compression function confuses two of their blocks.
pub proof fn a_message_is_digested_whole(a: Seq<u8>, b: Seq<u8>)
    requires
        is_countable(a),
        is_countable(b),
        hash::sha256_digest(a) == hash::sha256_digest(b),
    ensures
        a == b || steps_collide(hash::padded(a), hash::padded(b)),
{
    let (x, y) = (hash::padded(a), hash::padded(b));
    padding_keeps_the_message(a, b);
    padding_keeps_the_message(b, a);
    equal_digests_mean_equal_words(a, b);
    if !steps_collide(x, y) {
        let n = x.len() / 64;
        let m = y.len() / 64;
        a_block_is_a_step(x, n);
        a_block_is_a_step(y, m);
        let s = hash::chained(x, (n - 1) as nat);
        let t = hash::chained(y, (m - 1) as nat);
        if block_at(x, n - 1) != block_at(y, m - 1) {
            assert(step_confuses(s, block_at(x, n - 1), t, block_at(y, m - 1)));
        }
        assert(x.skip(x.len() - 8) =~= block_at(x, n - 1).skip(56));
        assert(y.skip(y.len() - 8) =~= block_at(y, m - 1).skip(56));
        assert(a.len() == b.len());
        assert(n == m);
        equal_words_mean_equal_blocks(x, y, n);
        assert(x.take(64 * n as int) =~= x);
        assert(y.take(64 * n as int) =~= y);
    }
}

/// Two different messages with one digest.
pub open spec fn digest_confuses(x: Seq<u8>, y: Seq<u8>) -> bool {
    x != y && hash::sha256_digest(x) == hash::sha256_digest(y)
}

/// `x` is a message with 64 bytes in front.
pub open spec fn is_prefixed(x: Seq<u8>, message: Seq<u8>) -> bool {
    x.len() == 64 + message.len() && x.skip(64) == message
}

/// HMAC takes in all of a message: two messages with the same tag under one key are
/// the same message, or SHA-256 confuses what they become with the key in front, or two
/// messages of 96 bytes.
pub proof fn a_message_is_authenticated_whole(key: Seq<u8>, a: Seq<u8>, b: Seq<u8>)
    requires
        hash::hmac_sha256_tag(key, a) == hash::hmac_sha256_tag(key, b),
    ensures
        a == b || exists|x: Seq<u8>, y: Seq<u8>| #[trigger]
            digest_confuses(x, y) && (is_prefixed(x, a) && is_prefixed(y, b) || x.len() == 96
                && y.len() == 96),
{
    if a != b {
        hash::digest_is_32_bytes(key);
        let k = hash::block_key(key);
        assert(k.len() == 64);
        let x = hash::masked(k, 0x36) + a;
        let y = hash::masked(k, 0x36) + b;
        assert(x.skip(64) =~= a);
        assert(y.skip(64) =~= b);
        if hash::sha256_digest(x) == hash::sha256_digest(y) {
            assert(digest_confuses(x, y));
        } else {
            hash::digest_is_32_bytes(x);
            hash::digest_is_32_bytes(y);
            let u = hash::masked(k, 0x5c) + hash::sha256_digest(x);
            let v = hash::masked(k, 0x5c) + hash::sha256_digest(y);
            assert(u.skip(64) =~= hash::sha256_digest(x));
            assert(v.skip(64) =~= hash::sha256_digest(y));
            assert(digest_confuses(u, v));
        }
    }
}

} // verus!
