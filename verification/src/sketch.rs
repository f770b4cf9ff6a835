//! Count-Min Sketch: frequency estimation over a huge key space in fixed memory.
//!
//! The sketch answers "how many times have I seen this key?" in `depth * width`
//! counters however many distinct keys there are. Its error is one-sided: it may
//! over-estimate (colliding keys add up) but never under-estimates, so a heavy
//! hitter cannot hide.

use crate::bytes;
use crate::engine;
use crate::hash_laws;
use crate::hashing;
use crate::hashing::hash_in_row;
use std::collections::hash_map::DefaultHasher;
use vstd::prelude::*;
use vstd::std_specs::hash::DefaultHasherAdditionalSpecFns;
use vstd::utf8::*;

verus! {

/// The column that `key` falls into in `row`.
pub open spec fn column_of(row: int, key: Seq<char>, width: int) -> int {
    hashing::row_hash(row as u64, key) as int % width
}

/// A sketch's counters after `count` more occurrences of `key`: in each row the
/// key's cell grows, up to the largest count there is.
pub open spec fn counted(rows: Seq<Seq<u64>>, key: Seq<char>, count: u64) -> Seq<Seq<u64>> {
    Seq::new(
        rows.len(),
        |r: int|
            {
                let c = column_of(r, key, rows[r].len() as int);
                rows[r].update(c, engine::capped_sum(rows[r][c], count))
            },
    )
}

/// The cell of `key` in `row`.
pub open spec fn cell(rows: Seq<Seq<u64>>, row: int, key: Seq<char>) -> u64 {
    rows[row][column_of(row, key, rows[row].len() as int)]
}

/// `n` is the smallest cell of `key`.
pub open spec fn is_estimate(rows: Seq<Seq<u64>>, key: Seq<char>, n: u64) -> bool {
    &&& forall|r: int| 0 <= r < rows.len() ==> n <= #[trigger] cell(rows, r, key)
    &&& exists|r: int| 0 <= r < rows.len() && n == #[trigger] cell(rows, r, key)
}

/// `depth` rows of `width` zeros.
pub open spec fn empty_rows(depth: nat, width: nat) -> Seq<Seq<u64>> {
    Seq::new(depth, |r: int| Seq::new(width, |c: int| 0u64))
}

/// The counters after a whole stream of additions to an empty sketch.
pub open spec fn counted_all(depth: nat, width: nat, stream: Seq<(Seq<char>, u64)>) -> Seq<Seq<u64>>
    decreases stream.len(),
{
    if stream.len() == 0 {
        empty_rows(depth, width)
    } else {
        counted(
            counted_all(depth, width, stream.drop_last()),
            stream.last().0,
            stream.last().1,
        )
    }
}

/// How often `key` really occurs in a stream.
pub open spec fn true_count(stream: Seq<(Seq<char>, u64)>, key: Seq<char>) -> nat
    decreases stream.len(),
{
    if stream.len() == 0 {
        0
    } else {
        true_count(stream.drop_last(), key) + if stream.last().0 == key {
            stream.last().1 as nat
        } else {
            0
        }
    }
}

proof fn cells_cover_the_count(
    depth: nat,
    width: nat,
    stream: Seq<(Seq<char>, u64)>,
    key: Seq<char>,
    row: int,
)
    requires
        width > 0,
        0 <= row < depth,
    ensures
        counted_all(depth, width, stream).len() == depth,
        counted_all(depth, width, stream)[row].len() == width,
        cell(counted_all(depth, width, stream), row, key) >= true_count(stream, key) || cell(
            counted_all(depth, width, stream),
            row,
            key,
        ) == u64::MAX,
    decreases stream.len(),
{
    let c = column_of(row, key, width as int);
    assert(0 <= c < width) by (nonlinear_arith)
        requires
            width > 0,
            c == hashing::row_hash(row as u64, key) as int % width as int,
    ;
    if stream.len() > 0 {
        let (k, n) = stream.last();
        let before = counted_all(depth, width, stream.drop_last());
        cells_cover_the_count(depth, width, stream.drop_last(), key, row);
        let d = column_of(row, k, width as int);
        assert(0 <= d < width) by (nonlinear_arith)
            requires
                width > 0,
                d == hashing::row_hash(row as u64, k) as int % width as int,
        ;
        assert(counted_all(depth, width, stream)[row] == before[row].update(
            d,
            engine::capped_sum(before[row][d], n),
        ));
    }
}

/// The sketch never under-estimates: whatever the stream and however its keys
/// collide, a key's estimate is at least its true count (or the largest count
/// there is).
pub proof fn never_underestimates(
    depth: nat,
    width: nat,
    stream: Seq<(Seq<char>, u64)>,
    key: Seq<char>,
    estimate: u64,
)
    requires
        depth > 0,
        width > 0,
        is_estimate(counted_all(depth, width, stream), key, estimate),
    ensures
        estimate >= true_count(stream, key) || estimate == u64::MAX,
{
    let rows = counted_all(depth, width, stream);
    cells_cover_the_count(depth, width, stream, key, 0);
    let r = choose|r: int| 0 <= r < rows.len() && estimate == #[trigger] cell(rows, r, key);
    cells_cover_the_count(depth, width, stream, key, r);
}

/// How much was added in all.
pub open spec fn total_count(stream: Seq<(Seq<char>, u64)>) -> nat
    decreases stream.len(),
{
    if stream.len() == 0 {
        0
    } else {
        total_count(stream.drop_last()) + stream.last().1 as nat
    }
}

proof fn no_cell_exceeds_the_total(
    depth: nat,
    width: nat,
    stream: Seq<(Seq<char>, u64)>,
    row: int,
    column: int,
)
    requires
        width > 0,
        0 <= row < depth,
        0 <= column < width,
    ensures
        counted_all(depth, width, stream)[row][column] <= total_count(stream),
    decreases stream.len(),
{
    if stream.len() > 0 {
        let (k, n) = stream.last();
        let init = stream.drop_last();
        no_cell_exceeds_the_total(depth, width, init, row, column);
        cells_cover_the_count(depth, width, init, k, row);
        let d = column_of(row, k, width as int);
        assert(0 <= d < width) by (nonlinear_arith)
            requires
                width > 0,
                d == hashing::row_hash(row as u64, k) as int % width as int,
        ;
        let before = counted_all(depth, width, init);
        assert(counted_all(depth, width, stream)[row] == before[row].update(
            d,
            engine::capped_sum(before[row][d], n),
        ));
    }
}

/// An estimate never exceeds all that was added.
pub proof fn never_exceeds_the_total(
    depth: nat,
    width: nat,
    stream: Seq<(Seq<char>, u64)>,
    key: Seq<char>,
    estimate: u64,
)
    requires
        depth > 0,
        width > 0,
        is_estimate(counted_all(depth, width, stream), key, estimate),
    ensures
        estimate <= total_count(stream),
{
    let rows = counted_all(depth, width, stream);
    cells_cover_the_count(depth, width, stream, key, 0);
    let r = choose|r: int| 0 <= r < rows.len() && estimate == #[trigger] cell(rows, r, key);
    cells_cover_the_count(depth, width, stream, key, r);
    let c = column_of(r, key, width as int);
    assert(0 <= c < width) by (nonlinear_arith)
        requires
            width > 0,
            c == hashing::row_hash(r as u64, key) as int % width as int,
    ;
    no_cell_exceeds_the_total(depth, width, stream, r, c);
}

/// Counting one key alone is exact, and an empty sketch reads zero.
pub proof fn a_lone_key_is_counted_exactly(
    depth: nat,
    width: nat,
    stream: Seq<(Seq<char>, u64)>,
    key: Seq<char>,
    estimate: u64,
)
    requires
        depth > 0,
        width > 0,
        forall|i: int| 0 <= i < stream.len() ==> (#[trigger] stream[i]).0 == key,
        true_count(stream, key) <= u64::MAX,
        is_estimate(counted_all(depth, width, stream), key, estimate),
    ensures
        estimate == true_count(stream, key),
{
    cells_cover_the_count(depth, width, stream, key, 0);
    let rows = counted_all(depth, width, stream);
    let r = choose|r: int| 0 <= r < rows.len() && estimate == #[trigger] cell(rows, r, key);
    lone_cell(depth, width, stream, key, r);
}

proof fn lone_cell(
    depth: nat,
    width: nat,
    stream: Seq<(Seq<char>, u64)>,
    key: Seq<char>,
    row: int,
)
    requires
        width > 0,
        0 <= row < depth,
        forall|i: int| 0 <= i < stream.len() ==> (#[trigger] stream[i]).0 == key,
        true_count(stream, key) <= u64::MAX,
    ensures
        cell(counted_all(depth, width, stream), row, key) == true_count(stream, key),
    decreases stream.len(),
{
    let c = column_of(row, key, width as int);
    assert(0 <= c < width) by (nonlinear_arith)
        requires
            width > 0,
            c == hashing::row_hash(row as u64, key) as int % width as int,
    ;
    if stream.len() > 0 {
        let init = stream.drop_last();
        assert forall|i: int| 0 <= i < init.len() implies (#[trigger] init[i]).0 == key by {
            assert(init[i] == stream[i]);
        }
        assert(stream[stream.len() - 1].0 == key);
        lone_cell(depth, width, init, key, row);
        cells_cover_the_count(depth, width, init, key, row);
    }
}

/// `column` is where `key` belongs in `row`: what the hasher makes of the row's number
/// and all of the key, modulo the width.
pub open spec fn belongs_in(row: int, key: Seq<char>, width: nat, column: int) -> bool {
    exists|input: Seq<Seq<u8>>| #[trigger]
        hash_laws::is_whole_text_in_row(input, row as u64, key) && column
            == DefaultHasher::spec_finish(input) as int % width as int
}

/// Where a key belongs in a row depends on the row and on all of the key, and there is
/// exactly one such column.
pub proof fn a_key_belongs_in_one_column(row: int, key: Seq<char>, width: nat)
    requires
        width > 0,
    ensures
        forall|c: int|
            (column_of(row, key, width as int) == c) == #[trigger] belongs_in(row, key, width, c),
        0 <= column_of(row, key, width as int) < width,
{
    let r = row as u64;
    hash_laws::a_text_in_a_row_is_hashed_whole(r, key, r, key);
    hash_laws::little_endian_bytes_are_digits(r);
    let whole = seq![bytes::le_u64(r), encode_utf8(key), seq![0xffu8]];
    assert(hash_laws::is_whole_text_in_row(whole, r, key));
    assert forall|input: Seq<Seq<u8>>| #[trigger]
        hash_laws::is_whole_text_in_row(input, r, key) implies input == whole by {
        assert(input[0] =~= whole[0]);
        assert(input =~= whole);
    }
    assert(hashing::row_hash(r, key) == DefaultHasher::spec_finish(whole));
    let c = column_of(row, key, width as int);
    assert(0 <= c < width) by (nonlinear_arith)
        requires
            width > 0,
            c == hashing::row_hash(row as u64, key) as int % width as int,
    ;
    assert forall|c: int| (column_of(row, key, width as int) == c) == #[trigger] belongs_in(
        row,
        key,
        width,
        c,
    ) by {
        if column_of(row, key, width as int) == c {
            assert(hash_laws::is_whole_text_in_row(whole, r, key));
        }
    }
}

/// How much was added, in all, for the keys that belong in this column of the row.
pub open spec fn count_in(
    stream: Seq<(Seq<char>, u64)>,
    row: int,
    width: nat,
    column: int,
) -> nat
    decreases stream.len(),
{
    if stream.len() == 0 {
        0
    } else {
        count_in(stream.drop_last(), row, width, column) + if belongs_in(
            row,
            stream.last().0,
            width,
            column,
        ) {
            stream.last().1 as nat
        } else {
            0
        }
    }
}

/// `n`, or the largest count there is where that is less.
pub open spec fn at_most_the_largest(n: nat) -> nat {
    if n <= u64::MAX {
        n
    } else {
        u64::MAX as nat
    }
}

proof fn a_cell_counts_its_column(
    depth: nat,
    width: nat,
    stream: Seq<(Seq<char>, u64)>,
    row: int,
    column: int,
)
    requires
        width > 0,
        0 <= row < depth,
        0 <= column < width,
    ensures
        counted_all(depth, width, stream)[row][column] == at_most_the_largest(
            count_in(stream, row, width, column),
        ),
    decreases stream.len(),
{
    if stream.len() > 0 {
        let (k, n) = stream.last();
        let init = stream.drop_last();
        a_cell_counts_its_column(depth, width, init, row, column);
        cells_cover_the_count(depth, width, init, k, row);
        a_key_belongs_in_one_column(row, k, width);
        let d = column_of(row, k, width as int);
        let before = counted_all(depth, width, init);
        assert(counted_all(depth, width, stream)[row] == before[row].update(
            d,
            engine::capped_sum(before[row][d], n),
        ));
        assert(belongs_in(row, k, width, column) == (d == column));
    }
}

/// What an estimate is: the least, over the rows, of all that was added for the keys
/// that belong in the same column as the key. So a key's count is exact as soon as it
/// shares its column with no other key in one of the rows.
pub proof fn an_estimate_is_the_least_column(
    depth: nat,
    width: nat,
    stream: Seq<(Seq<char>, u64)>,
    key: Seq<char>,
    estimate: u64,
)
    requires
        depth > 0,
        width > 0,
        is_estimate(counted_all(depth, width, stream), key, estimate),
    ensures
        forall|row: int, column: int|
            0 <= row < depth && #[trigger] belongs_in(row, key, width, column) ==> estimate
                <= at_most_the_largest(count_in(stream, row, width, column)),
        exists|row: int, column: int|
            0 <= row < depth && #[trigger] belongs_in(row, key, width, column) && estimate
                == at_most_the_largest(count_in(stream, row, width, column)),
{
    let rows = counted_all(depth, width, stream);
    cells_cover_the_count(depth, width, stream, key, 0);
    assert forall|row: int, column: int|
        0 <= row < depth && #[trigger] belongs_in(row, key, width, column) implies estimate
        <= at_most_the_largest(count_in(stream, row, width, column)) by {
        cells_cover_the_count(depth, width, stream, key, row);
        a_key_belongs_in_one_column(row, key, width);
        a_cell_counts_its_column(depth, width, stream, row, column);
        assert(estimate <= cell(rows, row, key));
    }
    let r = choose|r: int| 0 <= r < rows.len() && estimate == #[trigger] cell(rows, r, key);
    cells_cover_the_count(depth, width, stream, key, r);
    a_key_belongs_in_one_column(r, key, width);
    let c = column_of(r, key, width as int);
    a_cell_counts_its_column(depth, width, stream, r, c);
    assert(belongs_in(r, key, width, c));
}

/// A Count-Min Sketch: `depth` rows of `width` counters. Each key maps to one
/// column per row (by an independent hash); `add` bumps those cells and
/// `estimate` returns the minimum across them.
pub struct CountMinSketch {
    width: usize,
    rows: Vec<Vec<u64>>,
}

impl View for CountMinSketch {
    type V = Seq<Seq<u64>>;

    closed spec fn view(&self) -> Seq<Seq<u64>> {
        self.rows@.map_values(|row: Vec<u64>| row@)
    }
}

impl CountMinSketch {
    /// There is a row, and every row has the same positive width.
    pub closed spec fn wf(&self) -> bool {
        &&& self.width > 0
        &&& self@.len() > 0
        &&& forall|r: int| 0 <= r < self@.len() ==> (#[trigger] self@[r]).len() == self.width
    }

    /// Create a sketch with `depth` rows and `width` counters per row. Larger
    /// `width` lowers the over-estimate per row; larger `depth` lowers the
    /// probability of a large over-estimate.
    pub fn new(depth: usize, width: usize) -> (r: Self)
        requires
            depth > 0,
            width > 0,
        ensures
            r.wf(),
            r@ == empty_rows(depth as nat, width as nat),
    {
        let mut rows: Vec<Vec<u64>> = Vec::new();
        let mut r: usize = 0;
        while r < depth
            invariant
                r <= depth,
                rows@.len() == r,
                forall|i: int|
                    0 <= i < r ==> (#[trigger] rows@[i])@ == Seq::new(width as nat, |c: int| 0u64),
            decreases depth - r,
        {
            let row: Vec<u64> = vec![0; width];
            assert(row@ =~= Seq::new(width as nat, |c: int| 0u64));
            rows.push(row);
            r = r + 1;
        }
        let sketch = CountMinSketch { width, rows };
        assert(sketch@ =~= empty_rows(depth as nat, width as nat)) by {
            assert forall|i: int| 0 <= i < depth implies sketch@[i] == empty_rows(
                depth as nat,
                width as nat,
            )[i] by {
                assert(sketch.rows@[i]@ == Seq::new(width as nat, |c: int| 0u64));
            }
        }
        sketch
    }

    /// The column `key` hashes to in `row`.
    fn column(&self, row: usize, key: &str) -> (c: usize)
        requires
            self.wf(),
        ensures
            c == column_of(row as int, key@, self.width as int),
            c < self.width,
    {
        (hash_in_row(row as u64, key) % self.width as u64) as usize
    }

    /// Record `count` occurrences of `key`.
    pub fn add(&mut self, key: &str, count: u64)
        requires
            old(self).wf(),
        ensures
            final(self).wf(),
            final(self)@ == counted(old(self)@, key@, count),
    {
        let ghost before = self@;
        let ghost width = self.width;
        let ghost want = counted(before, key@, count);
        let mut r: usize = 0;
        while r < self.rows.len()
            invariant
                self.wf(),
                self.width == width,
                r <= self.rows@.len(),
                self@.len() == before.len(),
                before == old(self)@,
                want == counted(before, key@, count),
                forall|i: int| 0 <= i < before.len() ==> (#[trigger] before[i]).len() == width,
                forall|i: int| 0 <= i < r ==> #[trigger] self@[i] == want[i],
                forall|i: int| r <= i < before.len() ==> #[trigger] self@[i] == before[i],
            decreases self.rows@.len() - r,
        {
            let c: usize = self.column(r, key);
            let ghost was = self@;
            assert(was[r as int] == before[r as int]);
            assert(self.rows@[r as int]@ == was[r as int]);
            let bumped: u64 = self.rows[r][c].saturating_add(count);
            self.rows[r][c] = bumped;
            assert(self@ =~= was.update(r as int, was[r as int].update(c as int, bumped)));
            assert(self@[r as int] =~= want[r as int]);
            r = r + 1;
        }
        assert(self@ =~= want);
    }

    /// Estimate the total count recorded for `key`. Never an under-estimate.
    pub fn estimate(&self, key: &str) -> (n: u64)
        requires
            self.wf(),
        ensures
            is_estimate(self@, key@, n),
    {
        let mut n: u64 = u64::MAX;
        let mut r: usize = 0;
        while r < self.rows.len()
            invariant
                self.wf(),
                r <= self.rows@.len(),
                forall|i: int| 0 <= i < r ==> n <= #[trigger] cell(self@, i, key@),
                r == 0 ==> n == u64::MAX,
                r > 0 ==> exists|i: int| 0 <= i < r && n == #[trigger] cell(self@, i, key@),
            decreases self.rows@.len() - r,
        {
            let c: usize = self.column(r, key);
            assert(self.rows@[r as int]@ == self@[r as int]);
            let here: u64 = self.rows[r][c];
            assert(here == cell(self@, r as int, key@));
            if here <= n {
                n = here;
            }
            r = r + 1;
        }
        n
    }
}

} // verus!
