//! HyperLogLog: distinct-count (cardinality) estimation in fixed memory.
//!
//! Each item is hashed; the top `precision` bits pick one of `2^precision`
//! registers, and that register records the longest run of leading zeros seen in
//! the rest of the hash. Long runs are rare, so the longest one observed tells how
//! many distinct items fell there.
//!
//! Turning the registers into an estimate takes a harmonic mean and a logarithm;
//! that is left to the caller, which reads [`HyperLogLog::registers`].

use crate::hash_laws;
use crate::hashing;
use crate::hashing::hash_text;
use std::collections::hash_map::DefaultHasher;
use vstd::arithmetic::power2::pow2;
use vstd::prelude::*;
use vstd::std_specs::hash::DefaultHasherAdditionalSpecFns;
use vstd::utf8::*;

verus! {

/// The register that a hash falls into.
pub open spec fn register_of(hash: u64, precision: u32) -> int {
    (hash >> ((64 - precision) as u64)) as int
}

/// One more than the number of leading zeros after the register bits. A guard bit
/// bounds it by `64 - precision + 1`.
pub open spec fn rank_of(hash: u64, precision: u32) -> int {
    vstd::std_specs::bits::u64_leading_zeros(
        (hash << (precision as u64)) | (1u64 << ((precision - 1) as u64)),
    ) + 1
}

/// The registers after observing `key`.
pub open spec fn observed(registers: Seq<u8>, precision: u32, key: Seq<char>) -> Seq<u8> {
    let hash = hashing::text_hash(key);
    let i = register_of(hash, precision);
    let rank = rank_of(hash, precision);
    if rank > registers[i] {
        registers.update(i, rank as u8)
    } else {
        registers
    }
}

/// `2^precision` registers, all zero.
pub open spec fn empty_registers(precision: u32) -> Seq<u8> {
    Seq::new((1u64 << (precision as u64)) as nat, |i: int| 0u8)
}

/// The precisions a sketch may have.
pub open spec fn is_precision(precision: u32) -> bool {
    4 <= precision <= 16
}

proof fn register_is_in_range(hash: u64, precision: u32)
    requires
        is_precision(precision),
    ensures
        0 <= register_of(hash, precision) < (1u64 << (precision as u64)),
        16 <= (1u64 << (precision as u64)) <= 65536,
        (hash << (precision as u64)) | (1u64 << ((precision - 1) as u64)) != 0,
{
    let p = precision as u64;
    assert(4 <= p && p <= 16 ==> (hash >> ((64 - p) as u64)) < (1u64 << p)) by (bit_vector);
    assert(4 <= p && p <= 16 ==> 16 <= (1u64 << p) && (1u64 << p) <= 65536) by (bit_vector);
    assert(4 <= p && p <= 16 ==> (hash << p) | (1u64 << ((p - 1) as u64)) != 0) by (bit_vector);
}

/// Observing a key twice is observing it once.
pub proof fn observing_again_changes_nothing(registers: Seq<u8>, precision: u32, key: Seq<char>)
    requires
        is_precision(precision),
        registers.len() == 1u64 << (precision as u64),
    ensures
        observed(observed(registers, precision, key), precision, key) == observed(
            registers,
            precision,
            key,
        ),
{
    let hash = hashing::text_hash(key);
    register_is_in_range(hash, precision);
    vstd::std_specs::bits::axiom_u64_leading_zeros(
        (hash << (precision as u64)) | (1u64 << ((precision - 1) as u64)),
    );
}

/// The order in which keys are observed does not matter.
pub proof fn observation_order_does_not_matter(
    registers: Seq<u8>,
    precision: u32,
    a: Seq<char>,
    b: Seq<char>,
)
    requires
        is_precision(precision),
        registers.len() == 1u64 << (precision as u64),
    ensures
        observed(observed(registers, precision, a), precision, b) == observed(
            observed(registers, precision, b),
            precision,
            a,
        ),
{
    let x = hashing::text_hash(a);
    let y = hashing::text_hash(b);
    register_is_in_range(x, precision);
    register_is_in_range(y, precision);
    vstd::std_specs::bits::axiom_u64_leading_zeros(
        (x << (precision as u64)) | (1u64 << ((precision - 1) as u64)),
    );
    vstd::std_specs::bits::axiom_u64_leading_zeros(
        (y << (precision as u64)) | (1u64 << ((precision - 1) as u64)),
    );
    assert(observed(observed(registers, precision, a), precision, b) =~= observed(
        observed(registers, precision, b),
        precision,
        a,
    ));
}

/// The registers of an empty sketch after observing `keys`, in order.
pub open spec fn observed_all(precision: u32, keys: Seq<Seq<char>>) -> Seq<u8>
    decreases keys.len(),
{
    if keys.len() == 0 {
        empty_registers(precision)
    } else {
        observed(observed_all(precision, keys.drop_last()), precision, keys.last())
    }
}

/// `key` falls into register `i`, with this rank.
pub open spec fn falls_into(key: Seq<char>, precision: u32, i: int, rank: int) -> bool {
    &&& register_of(hashing::text_hash(key), precision) == i
    &&& rank_of(hashing::text_hash(key), precision) == rank
}

/// A register holds the highest rank of the keys that fall into it.
proof fn a_register_is_the_highest_rank(precision: u32, keys: Seq<Seq<char>>, i: int)
    requires
        is_precision(precision),
        0 <= i < 1u64 << (precision as u64),
    ensures
        observed_all(precision, keys).len() == 1u64 << (precision as u64),
        forall|key: Seq<char>, rank: int|
            keys.contains(key) && #[trigger] falls_into(key, precision, i, rank) ==> rank
                <= observed_all(precision, keys)[i],
        observed_all(precision, keys)[i] == 0 || exists|key: Seq<char>|
            keys.contains(key) && #[trigger] falls_into(
                key,
                precision,
                i,
                observed_all(precision, keys)[i] as int,
            ),
    decreases keys.len(),
{
    register_is_in_range(0, precision);
    if keys.len() > 0 {
        let init = keys.drop_last();
        let last = keys.last();
        let hash = hashing::text_hash(last);
        let before = observed_all(precision, init);
        let after = observed_all(precision, keys);
        a_register_is_the_highest_rank(precision, init, i);
        register_is_in_range(hash, precision);
        vstd::std_specs::bits::axiom_u64_leading_zeros(
            (hash << (precision as u64)) | (1u64 << ((precision - 1) as u64)),
        );
        assert(keys[keys.len() - 1] == last);
        assert(falls_into(
            last,
            precision,
            register_of(hash, precision),
            rank_of(hash, precision),
        ));
        assert forall|key: Seq<char>, rank: int|
            keys.contains(key) && #[trigger] falls_into(key, precision, i, rank) implies rank
            <= after[i] by {
            if key != last {
                let j = choose|j: int| 0 <= j < keys.len() && keys[j] == key;
                assert(init[j] == key);
                assert(init.contains(key));
            }
        }
        if after[i] != 0 {
            if after[i] == before[i] {
                let key = choose|key: Seq<char>|
                    init.contains(key) && #[trigger] falls_into(
                        key,
                        precision,
                        i,
                        before[i] as int,
                    );
                let j = choose|j: int| 0 <= j < init.len() && init[j] == key;
                assert(keys[j] == key);
                assert(keys.contains(key) && falls_into(key, precision, i, after[i] as int));
            } else {
                assert(keys.contains(last) && falls_into(last, precision, i, after[i] as int));
            }
        }
    }
}

/// A sketch is a function of the set of keys that it observed: neither their order nor
/// how often each came matters.
pub proof fn registers_depend_on_the_set_of_keys(
    precision: u32,
    a: Seq<Seq<char>>,
    b: Seq<Seq<char>>,
)
    requires
        is_precision(precision),
        forall|k: Seq<char>| #[trigger] a.contains(k) <==> b.contains(k),
    ensures
        observed_all(precision, a) == observed_all(precision, b),
{
    register_is_in_range(0, precision);
    a_register_is_the_highest_rank(precision, a, 0);
    a_register_is_the_highest_rank(precision, b, 0);
    let x = observed_all(precision, a);
    let y = observed_all(precision, b);
    assert forall|i: int| 0 <= i < x.len() implies x[i] == y[i] by {
        a_register_is_the_highest_rank(precision, a, i);
        a_register_is_the_highest_rank(precision, b, i);
        if x[i] != 0 {
            let k = choose|k: Seq<char>|
                a.contains(k) && #[trigger] falls_into(k, precision, i, x[i] as int);
            assert(b.contains(k));
        }
        if y[i] != 0 {
            let k = choose|k: Seq<char>|
                b.contains(k) && #[trigger] falls_into(k, precision, i, y[i] as int);
            assert(a.contains(k));
        }
    }
    assert(x =~= y);
}

/// Bit `j` of a hash is set; bit 63 is the highest.
pub open spec fn has_bit(hash: u64, j: int) -> bool {
    (hash >> (j as u64)) & 1 == 1
}

/// Below the `precision` highest bits of the hash comes a run of `rank - 1` zeros, and
/// then a one, or the end.
pub open spec fn is_run(hash: u64, precision: u32, rank: int) -> bool {
    &&& 1 <= rank <= 65 - precision
    &&& forall|j: int| 65 - precision - rank <= j < 64 - precision ==> !#[trigger] has_bit(hash, j)
    &&& rank <= 64 - precision ==> has_bit(hash, 64 - precision - rank)
}

/// `key` lands in register `i` with this rank: the hasher is given all of the key, the
/// highest bits of what it makes of it are `i`, and the run below them has the rank.
pub open spec fn lands_in(key: Seq<char>, precision: u32, i: int, rank: int) -> bool {
    exists|input: Seq<Seq<u8>>| #[trigger]
        hash_laws::is_whole_text(input, key) && DefaultHasher::spec_finish(input) as int / pow2(
            (64 - precision) as nat,
        ) as int == i && is_run(DefaultHasher::spec_finish(input), precision, rank)
}

proof fn bits_move_up(hash: u64, p: u64, k: u64)
    requires
        4 <= p <= 16,
        k < 64,
    ensures
        k >= p ==> (((hash << p) | (1u64 << ((p - 1) as u64))) >> k) & 1 == (hash >> ((k - p)
            as u64)) & 1,
        k == p - 1 ==> (((hash << p) | (1u64 << ((p - 1) as u64))) >> k) & 1 == 1,
{
    assert(4 <= p && p <= 16 && k < 64 && k >= p ==> (((hash << p) | (1u64 << ((p - 1) as u64)))
        >> k) & 1 == (hash >> ((k - p) as u64)) & 1) by (bit_vector);
    assert(4 <= p && p <= 16 && k == p - 1 ==> (((hash << p) | (1u64 << ((p - 1) as u64))) >> k)
        & 1 == 1) by (bit_vector);
}

/// A run has one length.
proof fn a_run_has_one_length(hash: u64, precision: u32, a: int, b: int)
    requires
        is_run(hash, precision, a),
        is_run(hash, precision, b),
    ensures
        a == b,
{
    if a < b {
        assert(!has_bit(hash, 64 - precision - a));
    }
    if b < a {
        assert(!has_bit(hash, 64 - precision - b));
    }
}

/// A hash is split in two: its highest bits pick the register, and the run of zeros
/// below them is the rank.
pub proof fn a_hash_is_register_and_run(hash: u64, precision: u32)
    requires
        is_precision(precision),
    ensures
        register_of(hash, precision) == hash as int / pow2((64 - precision) as nat) as int,
        is_run(hash, precision, rank_of(hash, precision)),
{
    let p = precision as u64;
    let y = (hash << p) | (1u64 << ((p - 1) as u64));
    vstd::bits::lemma_u64_shr_is_div(hash, (64 - p) as u64);
    vstd::std_specs::bits::axiom_u64_leading_zeros(y);
    register_is_in_range(hash, precision);
    let zeros = vstd::std_specs::bits::u64_leading_zeros(y);
    let rank = rank_of(hash, precision);
    assert(rank == zeros + 1);
    let top = (63 - zeros) as u64;
    assert((y >> top) & 1 != 0);
    assert((y >> top) & 1u64 == 0 || (y >> top) & 1u64 == 1) by (bit_vector);
    bits_move_up(hash, p, (p - 1) as u64);
    if top < p - 1 {
        assert((y >> ((p - 1) as u64)) & 1u64 == 0u64);
    }
    if rank <= 64 - precision {
        bits_move_up(hash, p, top);
        assert(has_bit(hash, 64 - precision - rank));
    }
    assert forall|j: int| 65 - precision - rank <= j < 64 - precision implies !#[trigger] has_bit(
        hash,
        j,
    ) by {
        let k = (j + precision) as u64;
        bits_move_up(hash, p, k);
        assert((y >> k) & 1u64 == 0u64);
        assert((k - p) as u64 == j as u64);
    }
}

proof fn falling_into_is_landing_in(key: Seq<char>, precision: u32, i: int, rank: int)
    requires
        is_precision(precision),
    ensures
        falls_into(key, precision, i, rank) == lands_in(key, precision, i, rank),
{
    let hash = hashing::text_hash(key);
    a_hash_is_register_and_run(hash, precision);
    hash_laws::a_text_is_hashed_whole(key, key);
    let whole = seq![encode_utf8(key), seq![0xffu8]];
    assert(hash_laws::is_whole_text(whole, key));
    assert forall|input: Seq<Seq<u8>>| #[trigger]
        hash_laws::is_whole_text(input, key) implies input == whole by {
        assert(input =~= whole);
    }
    if falls_into(key, precision, i, rank) {
        assert(hash_laws::is_whole_text(whole, key) && is_run(
            DefaultHasher::spec_finish(whole),
            precision,
            rank,
        ));
    }
    if lands_in(key, precision, i, rank) {
        a_run_has_one_length(hash, precision, rank, rank_of(hash, precision));
    }
}

/// What a sketch knows of the keys that it has observed: each register holds the highest
/// rank of the keys that land in it, and 0 where none does.
pub proof fn registers_hold_the_longest_runs(precision: u32, keys: Seq<Seq<char>>, i: int)
    requires
        is_precision(precision),
        0 <= i < pow2(precision as nat),
    ensures
        observed_all(precision, keys).len() == pow2(precision as nat),
        forall|key: Seq<char>, rank: int|
            keys.contains(key) && #[trigger] lands_in(key, precision, i, rank) ==> rank
                <= observed_all(precision, keys)[i],
        observed_all(precision, keys)[i] == 0 || exists|key: Seq<char>|
            keys.contains(key) && #[trigger] lands_in(
                key,
                precision,
                i,
                observed_all(precision, keys)[i] as int,
            ),
{
    vstd::bits::lemma_u64_pow2_no_overflow(precision as nat);
    vstd::bits::lemma_u64_shl_is_mul(1, precision as u64);
    assert(1u64 << (precision as u64) == pow2(precision as nat));
    a_register_is_the_highest_rank(precision, keys, i);
    let r = observed_all(precision, keys)[i];
    assert forall|key: Seq<char>, rank: int|
        keys.contains(key) && #[trigger] lands_in(key, precision, i, rank) implies rank <= r by {
        falling_into_is_landing_in(key, precision, i, rank);
    }
    if r != 0 {
        let key = choose|key: Seq<char>|
            keys.contains(key) && #[trigger] falls_into(key, precision, i, r as int);
        falling_into_is_landing_in(key, precision, i, r as int);
        assert(keys.contains(key) && lands_in(key, precision, i, r as int));
    }
}

/// A HyperLogLog distinct-count sketch with `2^precision` registers.
pub struct HyperLogLog {
    precision: u32,
    registers: Vec<u8>,
}

impl View for HyperLogLog {
    type V = Seq<u8>;

    closed spec fn view(&self) -> Seq<u8> {
        self.registers@
    }
}

impl HyperLogLog {
    /// The precision is in range, and there are as many registers as it calls for.
    pub closed spec fn wf(&self) -> bool {
        &&& is_precision(self.precision)
        &&& self.registers@.len() == 1u64 << (self.precision as u64)
    }

    pub closed spec fn precision(&self) -> u32 {
        self.precision
    }

    /// Create a sketch with `2^precision` registers. Precision 4 to 16 trades
    /// memory for accuracy (relative error about `1.04 / sqrt(2^precision)`).
    pub fn new(precision: u8) -> (r: Self)
        requires
            4 <= precision <= 16,
        ensures
            r.wf(),
            r.precision() == precision,
            r@ == empty_registers(precision as u32),
    {
        let precision: u32 = precision as u32;
        proof {
            register_is_in_range(0, precision);
        }
        let m: u64 = 1u64 << (precision as u64);
        let registers: Vec<u8> = vec![0; m as usize];
        let r = HyperLogLog { precision, registers };
        assert(r@ =~= empty_registers(precision));
        r
    }

    /// The registers, for computing an estimate.
    pub fn registers(&self) -> (registers: &[u8])
        ensures
            registers@ == self@,
    {
        self.registers.as_slice()
    }

    /// Observe `key`. Idempotent for a given key: re-adding it changes nothing.
    pub fn add(&mut self, key: &str)
        requires
            old(self).wf(),
        ensures
            final(self).wf(),
            final(self).precision() == old(self).precision(),
            final(self)@ == observed(old(self)@, old(self).precision(), key@),
    {
        let hash: u64 = hash_text(key);
        let p: u64 = self.precision as u64;
        proof {
            register_is_in_range(hash, self.precision);
        }
        let index: usize = (hash >> (64 - p)) as usize;
        let suffix: u64 = (hash << p) | (1u64 << (p - 1));
        proof {
            vstd::std_specs::bits::axiom_u64_leading_zeros(suffix);
        }
        let rank: u8 = suffix.leading_zeros() as u8 + 1;
        if rank > self.registers[index] {
            self.registers[index] = rank;
        }
    }
}

} // verus!
