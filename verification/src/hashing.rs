//! Keyed placement: the fixed-seed hasher that spreads texts over registers,
//! columns and shards.
//!
//! `DefaultHasher::new()` starts from a fixed state, so the placement is the same
//! in every run of one build. A text is fed as its bytes followed by `0xff`, which
//! keeps consecutive texts apart.

use crate::bytes;
use crate::bytes::put_u64;
use std::collections::hash_map::DefaultHasher;
use std::hash::Hasher;
use vstd::prelude::*;
use vstd::std_specs::hash::DefaultHasherAdditionalSpecFns;
use vstd::utf8::*;

verus! {

/// What feeding a text adds to the hasher's input.
pub open spec fn text_input(text: Seq<char>) -> Seq<Seq<u8>> {
    seq![encode_utf8(text), seq![0xffu8]]
}

/// The hash of a text.
pub open spec fn text_hash(text: Seq<char>) -> u64 {
    DefaultHasher::spec_finish(text_input(text))
}

/// The hash of a text in the `row`-th of a family of hash functions.
pub open spec fn row_hash(row: u64, text: Seq<char>) -> u64 {
    DefaultHasher::spec_finish(seq![bytes::le_u64(row)] + text_input(text))
}

/// Feeds a text to a hasher.
pub fn feed_text(hasher: &mut DefaultHasher, text: &str)
    ensures
        final(hasher)@ == old(hasher)@ + text_input(text@),
{
    let ghost before = hasher@;
    hasher.write(text.as_bytes());
    let end: [u8; 1] = [0xff];
    hasher.write(&end);
    assert(end@ =~= seq![0xffu8]);
    assert(hasher@ =~= before + text_input(text@));
}

/// Feeds a 64-bit integer to a hasher.
pub fn feed_u64(hasher: &mut DefaultHasher, x: u64)
    ensures
        final(hasher)@ == old(hasher)@.push(bytes::le_u64(x)),
{
    let mut raw: Vec<u8> = Vec::with_capacity(8);
    put_u64(&mut raw, x);
    assert(raw@ =~= bytes::le_u64(x));
    hasher.write(raw.as_slice());
}

/// Hashes a text.
pub fn hash_text(text: &str) -> (h: u64)
    ensures
        h == text_hash(text@),
        h == DefaultHasher::spec_finish(seq![encode_utf8(text@), seq![0xffu8]]),
{
    let mut hasher = DefaultHasher::new();
    feed_text(&mut hasher, text);
    assert(hasher@ =~= text_input(text@));
    hasher.finish()
}

/// Hashes a text in the `row`-th hash function of the family.
pub fn hash_in_row(row: u64, text: &str) -> (h: u64)
    ensures
        h == row_hash(row, text@),
        h == DefaultHasher::spec_finish(
            seq![bytes::le_u64(row), encode_utf8(text@), seq![0xffu8]],
        ),
{
    let mut hasher = DefaultHasher::new();
    feed_u64(&mut hasher, row);
    feed_text(&mut hasher, text);
    assert(hasher@ =~= seq![bytes::le_u64(row)] + text_input(text@));
    assert(hasher@ =~= seq![bytes::le_u64(row), encode_utf8(text@), seq![0xffu8]]);
    hasher.finish()
}

} // verus!
