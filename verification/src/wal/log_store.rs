//! A durable [`Store`]: an in-memory index kept in step with an append-only log.
//!
//! The store never touches the medium that holds its log. It is opened on the
//! bytes that the medium holds, and it issues [`LogWrite`]s for the keeper of the
//! medium to carry out, in order and durably, before the operation that issued
//! them is acknowledged.

use crate::bytes::{get_u32, put_raw};
use crate::hash::to_array32;
use crate::store;
use crate::store::{retain, MediumView, Records, Store};
use crate::table::Table;
use crate::text::same_bytes;
use crate::wal::codec;
use crate::wal::codec::{compute_chain, decode_record, encode_record, is_complete_frame};
use crate::wal::codec::{GENESIS, HEADER_LEN};
use crate::wal::codec_laws;
use crate::wal::replay;
use crate::wal::replay::ReplayEnd;
use crate::{IdempotencyKey, KeyState, StateView};
use vstd::prelude::*;
use vstd::slice::slice_subrange;

verus! {

/// A change of the medium that a store asks its keeper for.
#[derive(Debug, PartialEq, Eq)]
pub enum LogWrite {
    /// Cut the log down to this many bytes.
    Truncate(usize),
    /// Append these bytes and make them durable.
    Append(Vec<u8>),
    /// Replace the whole log by these bytes, atomically and durably.
    Replace(Vec<u8>),
    /// Remember durably, beside the log, that fences up to this one were minted.
    Floor(u64),
}

/// The medium after one write.
pub open spec fn after_write(medium: MediumView, write: LogWrite) -> MediumView {
    match write {
        LogWrite::Truncate(n) => if n <= medium.log.len() {
            MediumView { log: medium.log.take(n as int), ..medium }
        } else {
            medium
        },
        LogWrite::Append(b) => MediumView { log: medium.log + b@, ..medium },
        LogWrite::Replace(b) => MediumView { log: b@, ..medium },
        LogWrite::Floor(fence) => MediumView {
            floor: store::higher(medium.floor, fence),
            ..medium
        },
    }
}

/// The medium after a list of writes, carried out in order.
pub open spec fn after_writes(medium: MediumView, writes: Seq<LogWrite>) -> MediumView
    decreases writes.len(),
{
    if writes.len() == 0 {
        medium
    } else {
        after_write(after_writes(medium, writes.drop_last()), writes.last())
    }
}

/// `after` is `before` with one more write, an append of `batch`; or just `before`
/// where there is nothing to append.
pub open spec fn appended(before: Seq<LogWrite>, after: Seq<LogWrite>, batch: Seq<u8>) -> bool {
    if batch.len() == 0 {
        after == before
    } else {
        &&& after.len() == before.len() + 1
        &&& after.drop_last() == before
        &&& after.last() is Append
        &&& after.last()->Append_0@ == batch
    }
}

/// Why a log could not be opened.
#[derive(Clone, Copy, Debug, PartialEq, Eq)]
pub enum WalError {
    /// The record at this offset does not carry the chain hash that its place
    /// calls for: tamper, reorder, or insert.
    ChainMismatch(usize),
    /// The complete frame at this offset does not hold a record: interior
    /// corruption, which is never silently truncated.
    Corrupt(usize),
}

/// One entry per key of `order`, in that order.
pub open spec fn compacted(order: Seq<Seq<char>>, records: Records) -> Seq<(Seq<char>, StateView)> {
    Seq::new(order.len(), |i: int| (order[i], records[order[i]]))
}

/// Setting each key once, in any order, gives the records.
proof fn compacted_leaves_the_records(order: Seq<Seq<char>>, records: Records, n: int)
    requires
        0 <= n <= order.len(),
    ensures
        ({
            let out = replay::outcome_of(compacted(order, records).take(n));
            forall|k: Seq<char>|
                #![trigger out.contains_key(k)]
                (out.contains_key(k) <==> order.take(n).contains(k)) && (out.contains_key(k)
                    ==> out[k] == records[k])
        }),
    decreases n,
{
    let history = compacted(order, records);
    if n > 0 {
        compacted_leaves_the_records(order, records, n - 1);
        assert(history.take(n).drop_last() =~= history.take(n - 1));
        let out = replay::outcome_of(history.take(n));
        let init = replay::outcome_of(history.take(n - 1));
        assert(out == init.insert(order[n - 1], records[order[n - 1]]));
        assert forall|k: Seq<char>|
            #![trigger out.contains_key(k)]
            (out.contains_key(k) <==> order.take(n).contains(k)) && (out.contains_key(k) ==> out[k]
                == records[k]) by {
            assert(init.contains_key(k) <==> order.take(n - 1).contains(k));
            if k == order[n - 1] {
                assert(order.take(n)[n - 1] == k);
            } else if order.take(n).contains(k) {
                let i = choose|i: int| 0 <= i < n && order.take(n)[i] == k;
                assert(order.take(n - 1)[i] == k);
            } else if order.take(n - 1).contains(k) {
                let shorter = order.take(n - 1);
                let i = choose|i: int| 0 <= i < shorter.len() && shorter[i] == k;
                assert(order.take(n)[i] == k);
            }
        }
    }
}

/// A log rewritten with one record per key replays to the same records.
pub proof fn compacted_log_recovers_the_records(order: Seq<Seq<char>>, records: Records)
    requires
        forall|k: Seq<char>| records.contains_key(k) <==> order.contains(k),
        forall|k: Seq<char>| #[trigger]
            records.contains_key(k) ==> codec_laws::encodable(k, records[k]),
    ensures
        replay::is_clean(replay::log_of(compacted(order, records))),
        replay::replay(replay::log_of(compacted(order, records))).records == records,
        replay::replay(replay::log_of(compacted(order, records))).chain == replay::chain_after(
            compacted(order, records),
        ),
        replay::replay(replay::log_of(compacted(order, records))).fence == replay::fence_in(
            compacted(order, records),
        ),
{
    let history = compacted(order, records);
    assert forall|i: int| 0 <= i < history.len() implies codec_laws::encodable(
        (#[trigger] history[i]).0,
        history[i].1,
    ) by {
        assert(order.contains(order[i]));
        assert(records.contains_key(order[i]));
    }
    replay::replay_recovers_what_was_written(history);
    compacted_leaves_the_records(order, records, order.len() as int);
    assert(history.take(order.len() as int) =~= history);
    assert(order.take(order.len() as int) =~= order);
    let out = replay::outcome_of(history);
    assert forall|k: Seq<char>| out.contains_key(k) == records.contains_key(k) by {}
    assert(out =~= records);
}

/// Each key of `records` comes once in `order`, and no other.
pub open spec fn is_order_of(order: Seq<Seq<char>>, records: Records) -> bool {
    &&& order.no_duplicates()
    &&& forall|k: Seq<char>| #[trigger] records.contains_key(k) <==> order.contains(k)
}

/// `log` has one record per key of `records`, in some order, chained from
/// genesis up to `chain`.
pub open spec fn rewritten(log: Seq<u8>, chain: Seq<u8>, records: Records) -> bool {
    exists|order: Seq<Seq<char>>| #[trigger]
        is_order_of(order, records) && log == replay::log_of(compacted(order, records)) && chain
            == replay::chain_after(compacted(order, records))
}

/// A rewritten log is clean and recovers the records that it was written from.
pub proof fn rewritten_log_is_clean(log: Seq<u8>, chain: Seq<u8>, records: Records)
    requires
        rewritten(log, chain, records),
        forall|k: Seq<char>| #[trigger]
            records.contains_key(k) ==> codec_laws::encodable(k, records[k]),
    ensures
        replay::is_clean(log),
        replay::replay(log).records == records,
        replay::replay(log).chain == chain,
        forall|bound: u64| #[trigger]
            store::fences_at_most(records, bound) ==> replay::replay(log).fence <= bound,
{
    let order = choose|order: Seq<Seq<char>>| #[trigger]
        is_order_of(order, records) && log == replay::log_of(compacted(order, records)) && chain
            == replay::chain_after(compacted(order, records));
    compacted_log_recovers_the_records(order, records);
    let history = compacted(order, records);
    assert forall|bound: u64| #[trigger] store::fences_at_most(records, bound) implies
        replay::replay(log).fence <= bound by {
        assert forall|i: int| 0 <= i < history.len() implies store::fence_of(
            (#[trigger] history[i]).1,
        ) <= bound by {
            assert(order.contains(order[i]));
            assert(records.contains_key(order[i]));
        }
        replay::the_highest_fence_is_bounded(history, bound);
    }
}

/// Writes the index as a fresh log, and returns it with its chain root.
fn encode_index(index: &Table<KeyState>) -> (r: (Vec<u8>, [u8; 32]))
    requires
        index.wf(),
    ensures
        rewritten(r.0@, r.1@, store::records_of(index@)),
{
    let ghost records = store::records_of(index@);
    let ghost keys = index.keys();
    let ghost history = compacted(keys, records);
    let mut log: Vec<u8> = Vec::new();
    let mut chain: [u8; 32] = GENESIS;
    let mut i: usize = 0;
    let n: usize = index.len();
    assert(history.take(0) =~= Seq::<(Seq<char>, StateView)>::empty());
    while i < n
        invariant
            index.wf(),
            keys == index.keys(),
            records == store::records_of(index@),
            history == compacted(keys, records),
            n == keys.len(),
            i <= n,
            log@ == replay::log_of(history.take(i as int)),
            chain@ == replay::chain_after(history.take(i as int)),
        decreases n - i,
    {
        let key = IdempotencyKey(index.key_at(i).clone());
        let state = index.value_at(i);
        let record = encode_record(&key, state, &chain);
        proof {
            assert(history.take(i + 1).drop_last() =~= history.take(i as int));
            assert(history.take(i + 1).last() == (key@, state@));
            codec_laws::record_chain_position(key@, state@, chain@);
        }
        let stored = slice_subrange(record.as_slice(), 8, 40);
        assert(stored@.take(32) =~= stored@);
        chain = to_array32(stored);
        put_raw(&mut log, record.as_slice());
        i = i + 1;
    }
    proof {
        index.keys_cover();
        assert(history.take(i as int) =~= history);
        assert forall|k: Seq<char>| #[trigger] records.contains_key(k) <==> keys.contains(k) by {
            assert(records.contains_key(k) <==> index@.contains_key(k));
        }
        assert(is_order_of(keys, records));
    }
    (log, chain)
}

/// A durable [`Store`] over an append-only, hash-chained log.
///
/// Two durability disciplines, chosen at open time:
///
/// - **Strict** ([`WalStore::open`]): every `put` issues its append at once.
/// - **Group commit** ([`WalStore::open_buffered`]): `put` only buffers the
///   record; nothing is issued until an explicit [`Store::flush`], which makes a
///   whole batch durable with one append. Anything still in the buffer when the
///   process dies is lost, and, for the idempotency engine, retried.
pub struct WalStore {
    index: Table<KeyState>,
    pending: Vec<u8>,
    writes: Vec<LogWrite>,
    sync_each: bool,
    chain_root: [u8; 32],
    /// The highest fence put or read, superseded and dropped records included.
    highest: u64,
    /// The highest fence that the medium was asked to remember beside the log.
    floor: u64,
    medium: Ghost<MediumView>,
    sound: Ghost<bool>,
}

impl WalStore {
    /// The medium as it is once the issued writes are carried out.
    pub closed spec fn image(&self) -> MediumView {
        after_writes(self.medium@, self.writes@)
    }

    /// The log as it is once the issued writes are carried out.
    pub open spec fn log(&self) -> Seq<u8> {
        self.image().log
    }

    /// The writes issued and not yet handed over.
    pub closed spec fn issued(&self) -> Seq<LogWrite> {
        self.writes@
    }

    /// The records that are buffered and not yet issued, encoded.
    pub closed spec fn buffered(&self) -> Seq<u8> {
        self.pending@
    }

    /// The chain hash of the last record put.
    pub closed spec fn chain(&self) -> Seq<u8> {
        self.chain_root@
    }

    /// The log is clean and, with the buffered records after it, replays to the
    /// index and the chain root.
    spec fn in_step(&self) -> bool {
        let all = replay::replay(self.log() + self.pending@);
        &&& replay::is_clean(self.log())
        &&& replay::is_clean(self.log() + self.pending@)
        &&& all.records == store::records_of(self.index@)
        &&& all.chain == self.chain_root@
        &&& store::higher(self.floor, all.fence) == self.highest
        &&& forall|k: Seq<char>| #[trigger]
            store::records_of(self.index@).contains_key(k) ==> codec_laws::encodable(
                k,
                store::records_of(self.index@)[k],
            )
    }

    /// `self` is `before` after `state` was put under `key`: a strict store has issued
    /// one append of the new record, any other store has only buffered it.
    pub open spec fn follows_put(&self, before: &Self, key: Seq<char>, state: StateView) -> bool {
        let record = codec::record_bytes(key, state, before.chain());
        &&& self.chain() == codec::record_chain(key, state, before.chain())
        &&& self.image().floor == before.image().floor
        &&& if before.strict() {
            &&& self.log() == before.log() + record
            &&& self.buffered().len() == 0
            &&& appended(before.issued(), self.issued(), record)
        } else {
            &&& self.log() == before.log()
            &&& self.buffered() == before.buffered() + record
            &&& self.issued() == before.issued()
        }
    }

    /// `self` is `before` after a flush: one append of all that was buffered was
    /// issued, or nothing where nothing was buffered.
    pub open spec fn follows_flush(&self, before: &Self) -> bool {
        &&& self.chain() == before.chain()
        &&& self.log() == before.log() + before.buffered()
        &&& self.image().floor == before.image().floor
        &&& self.buffered().len() == 0
        &&& appended(before.issued(), self.issued(), before.buffered())
    }

    /// Open in **strict** mode on the bytes of `log`: every `put` issues an
    /// append.
    pub fn open(log: &[u8]) -> (r: Result<Self, WalError>)
        ensures
            opened(store::only_log(log@), true, r),
    {
        Self::open_with(log, 0, true)
    }

    /// Open in **group-commit** mode on the bytes of `log`: `put` buffers, and
    /// `flush` issues the batch.
    pub fn open_buffered(log: &[u8]) -> (r: Result<Self, WalError>)
        ensures
            opened(store::only_log(log@), false, r),
    {
        Self::open_with(log, 0, false)
    }

    /// The current chain root: the chain hash of the last record put, or
    /// [`GENESIS`] for an empty log.
    pub fn root(&self) -> (root: [u8; 32])
        ensures
            root@ == self.chain(),
    {
        self.chain_root
    }

    /// The writes issued since they were last taken, in order.
    pub fn writes(&self) -> (writes: &Vec<LogWrite>)
        ensures
            writes@ == self.issued(),
    {
        &self.writes
    }

    /// The writes issued since they were last taken, for the keeper of the medium
    /// to carry out.
    pub fn take_writes(&mut self) -> (writes: Vec<LogWrite>)
        requires
            old(self).wf(),
        ensures
            final(self).wf(),
            writes@ == old(self).issued(),
            final(self).issued() == Seq::<LogWrite>::empty(),
            final(self).medium() == old(self).image(),
            final(self).image() == old(self).image(),
            final(self).buffered() == old(self).buffered(),
            final(self).chain() == old(self).chain(),
            final(self).strict() == old(self).strict(),
            final(self).intact() == old(self).intact(),
            final(self).records() == old(self).records(),
            final(self).durable() == old(self).durable(),
            final(self).recovered_fence() == old(self).recovered_fence(),
            final(self).durable_fence() == old(self).durable_fence(),
    {
        let ghost image = self.image();
        let mut writes: Vec<LogWrite> = Vec::new();
        std::mem::swap(&mut writes, &mut self.writes);
        self.medium = Ghost(image);
        assert(self.image() == image);
        writes
    }

    /// Open on a medium that holds the bytes of `log` and, beside them, the fence
    /// `floor`: in strict mode where `sync_each` is set, else in group-commit mode.
    pub fn open_with(log: &[u8], floor: u64, sync_each: bool) -> (r: Result<Self, WalError>)
        ensures
            opened((MediumView { log: log@, floor }), sync_each, r),
    {
        let mut index: Table<KeyState> = Table::new();
        let mut highest: u64 = floor;
        let mut offset: usize = 0;
        let mut chain_root: [u8; 32] = GENESIS;
        let ghost whole = replay::replay(log@);
        proof {
            assert(log@.skip(0) =~= log@);
            assert(store::records_of(index@) =~= Records::empty());
        }
        loop
            invariant
                index.wf(),
                offset <= log.len(),
                whole == replay::replay(log@),
                ({
                    let rest = replay::replayed(
                        log@.skip(offset as int),
                        chain_root@,
                        store::records_of(index@),
                    );
                    &&& whole.records == rest.records
                    &&& whole.chain == rest.chain
                    &&& whole.end == rest.end
                    &&& whole.valid == offset + rest.valid
                    &&& store::higher(floor, whole.fence) == store::higher(highest, rest.fence)
                }),
                floor <= highest,
                store::fences_at_most(store::records_of(index@), highest),
                forall|k: Seq<char>| #[trigger]
                    store::records_of(index@).contains_key(k) ==> codec_laws::encodable(
                        k,
                        store::records_of(index@)[k],
                    ),
            ensures
                index.wf(),
                offset <= log.len(),
                whole == replay::replay(log@),
                codec::read_record(log@.skip(offset as int)) is None,
                whole.records == store::records_of(index@),
                whole.chain == chain_root@,
                whole.valid == offset,
                floor <= highest,
                highest == store::higher(floor, whole.fence),
                store::fences_at_most(store::records_of(index@), highest),
                whole.end == (if codec::has_whole_frame(log@.skip(offset as int)) {
                    ReplayEnd::Corrupt
                } else {
                    ReplayEnd::Tail
                }),
                forall|k: Seq<char>| #[trigger]
                    store::records_of(index@).contains_key(k) ==> codec_laws::encodable(
                        k,
                        store::records_of(index@)[k],
                    ),
            decreases log.len() - offset,
        {
            let rest = slice_subrange(log, offset, log.len());
            assert(rest@ =~= log@.skip(offset as int));
            match decode_record(rest) {
                None => {
                    break;
                },
                Some((consumed, key, state, stored_chain)) => {
                    let crc: u32 = get_u32(rest, 4);
                    let payload = slice_subrange(rest, HEADER_LEN, consumed);
                    let expected = compute_chain(&chain_root, crc, payload);
                    if !same_bytes(&expected, &stored_chain) {
                        return Err(WalError::ChainMismatch(offset));
                    }
                    proof {
                        replay::read_records_are_encodable(rest@);
                        assert(log@.skip(offset as int).skip(consumed as int) =~= log@.skip(
                            offset + consumed,
                        ));
                    }
                    chain_root = expected;
                    let ghost before = index@;
                    let fence: u64 = fence_held(&state);
                    if fence > highest {
                        highest = fence;
                    }
                    index.insert(key.0, state);
                    assert(store::records_of(index@) =~= store::records_of(before).insert(
                        key@,
                        state@,
                    ));
                    offset = offset + consumed;
                },
            }
        }
        let remaining = slice_subrange(log, offset, log.len());
        assert(remaining@ =~= log@.skip(offset as int));
        if is_complete_frame(remaining) {
            return Err(WalError::Corrupt(offset));
        }
        let mut writes: Vec<LogWrite> = Vec::new();
        writes.push(LogWrite::Truncate(offset));
        let store = WalStore {
            index,
            pending: Vec::new(),
            writes,
            sync_each,
            chain_root,
            highest,
            floor,
            medium: Ghost(MediumView { log: log@, floor }),
            sound: Ghost(true),
        };
        proof {
            assert(store.writes@.drop_last() =~= Seq::<LogWrite>::empty());
            assert(after_writes(store.medium@, store.writes@.drop_last()) == store.medium@);
            assert(store.image() == (MediumView { log: log@.take(offset as int), floor }));
            replay::replay_of_the_valid_part(log@, GENESIS@, Records::empty());
            assert(store.log() + store.pending@ =~= store.log());
        }
        Ok(store)
    }

    /// Issues a rewritten log in place of the one there is, once the medium
    /// remembers the highest fence that the rewritten log may no longer show.
    fn replace_log(&mut self, log: Vec<u8>, chain: [u8; 32])
        requires
            old(self).index.wf(),
            old(self).floor <= old(self).highest,
            old(self).floor == old(self).image().floor,
            store::fences_at_most(store::records_of(old(self).index@), old(self).highest),
            rewritten(log@, chain@, store::records_of(old(self).index@)),
            old(self).sound@ ==> forall|k: Seq<char>| #[trigger]
                store::records_of(old(self).index@).contains_key(k) ==> codec_laws::encodable(
                    k,
                    store::records_of(old(self).index@)[k],
                ),
        ensures
            final(self).wf(),
            final(self).index == old(self).index,
            final(self).sync_each == old(self).sync_each,
            final(self).medium == old(self).medium,
            final(self).sound == old(self).sound,
            final(self).chain_root == chain,
            final(self).highest == old(self).highest,
            final(self).pending@.len() == 0,
            final(self).writes@ == (if old(self).floor < old(self).highest {
                old(self).writes@.push(LogWrite::Floor(old(self).highest)).push(
                    LogWrite::Replace(log),
                )
            } else {
                old(self).writes@.push(LogWrite::Replace(log))
            }),
            final(self).image() == (MediumView { log: log@, floor: old(self).highest }),
            final(self).sound@ ==> replay::replay(log@).records == store::records_of(
                old(self).index@,
            ) && replay::replay(log@).fence <= old(self).highest,
    {
        let ghost image = log@;
        if self.floor < self.highest {
            self.writes.push(LogWrite::Floor(self.highest));
            self.floor = self.highest;
            proof {
                assert(self.writes@.drop_last() =~= old(self).writes@);
            }
        }
        assert(self.image().floor == self.highest);
        let ghost writes = self.writes@;
        self.writes.push(LogWrite::Replace(log));
        self.pending.clear();
        self.chain_root = chain;
        proof {
            assert(self.writes@.drop_last() =~= writes);
            assert(self.log() == image);
            assert(self.log() + self.pending@ =~= self.log());
            if self.sound@ {
                rewritten_log_is_clean(image, chain@, store::records_of(self.index@));
            }
        }
    }

    /// Puts `state` under `key` in the index, and its record in the buffer.
    fn buffer(&mut self, key: IdempotencyKey, state: KeyState)
        requires
            old(self).wf(),
        ensures
            final(self).index.wf(),
            final(self).sync_each == old(self).sync_each,
            final(self).medium == old(self).medium,
            final(self).writes == old(self).writes,
            final(self).floor == old(self).floor,
            final(self).sound@ == (old(self).sound@ && codec_laws::encodable(key@, state@)),
            final(self).highest == store::higher(old(self).highest, store::fence_of(state@)),
            final(self).chain_root@ == codec::record_chain(key@, state@, old(self).chain_root@),
            final(self).pending@ == old(self).pending@ + codec::record_bytes(
                key@,
                state@,
                old(self).chain_root@,
            ),
            store::records_of(final(self).index@) == store::records_of(old(self).index@).insert(
                key@,
                state@,
            ),
            store::fences_at_most(store::records_of(final(self).index@), final(self).highest),
            final(self).sound@ ==> final(self).in_step(),
    {
        let ghost before = *self;
        let ghost k = key@;
        let ghost s = state@;
        let ghost prev = self.chain_root@;
        let fence: u64 = fence_held(&state);
        if fence > self.highest {
            self.highest = fence;
        }
        let record = encode_record(&key, &state, &self.chain_root);
        proof {
            codec_laws::record_chain_position(k, s, prev);
        }
        let chain = slice_subrange(record.as_slice(), 8, 40);
        assert(chain@.take(32) =~= chain@);
        self.chain_root = to_array32(chain);
        put_raw(&mut self.pending, record.as_slice());
        self.index.insert(key.0, state);
        let ghost sound = before.sound@ && codec_laws::encodable(k, s);
        self.sound = Ghost(sound);
        assert(store::records_of(self.index@) =~= store::records_of(before.index@).insert(k, s));
        assert(store::fences_at_most(store::records_of(self.index@), self.highest)) by {
            assert forall|q: Seq<char>| #[trigger]
                store::records_of(self.index@).contains_key(q) implies store::fence_of(
                store::records_of(self.index@)[q],
            ) <= self.highest by {
                if q != k {
                    assert(store::records_of(before.index@).contains_key(q));
                }
            }
        }
        assert(self.image() == before.image());
        assert(self.sound@ ==> self.in_step()) by {
            let was = before.log() + before.pending@;
            assert(self.log() + self.pending@ =~= was + record@);
            if self.sound@ {
                replay::replay_after_an_append(was, k, s);
            }
        }
    }

    /// Issues the buffered records as one append.
    fn flush_pending(&mut self)
        requires
            old(self).index.wf(),
            old(self).floor <= old(self).highest,
            old(self).floor == old(self).image().floor,
            store::fences_at_most(store::records_of(old(self).index@), old(self).highest),
            old(self).sound@ ==> old(self).in_step(),
        ensures
            final(self).wf(),
            final(self).index == old(self).index,
            final(self).chain_root == old(self).chain_root,
            final(self).sync_each == old(self).sync_each,
            final(self).medium == old(self).medium,
            final(self).sound == old(self).sound,
            final(self).highest == old(self).highest,
            final(self).pending@.len() == 0,
            appended(old(self).writes@, final(self).writes@, old(self).pending@),
            final(self).image() == (MediumView {
                log: old(self).log() + old(self).pending@,
                floor: old(self).floor,
            }),
    {
        if self.pending.is_empty() {
            assert(self.log() + self.pending@ =~= self.log());
            return;
        }
        let mut batch: Vec<u8> = Vec::new();
        std::mem::swap(&mut batch, &mut self.pending);
        self.writes.push(LogWrite::Append(batch));
        proof {
            assert(self.writes@.drop_last() =~= old(self).writes@);
            assert(self.log() == old(self).log() + old(self).pending@);
            assert(self.log() + self.pending@ =~= self.log());
            assert(self.image().floor == old(self).floor);
        }
    }
}

/// What opening a log gives: a store with what replaying the log recovers, which
/// first asks for a torn tail to be cut off; or the error at the offset where the
/// replay stopped.
pub open spec fn opened(
    medium: MediumView,
    strict: bool,
    r: Result<WalStore, WalError>,
) -> bool {
    let found = replay::replay(medium.log);
    match found.end {
        ReplayEnd::Tail => {
            &&& r is Ok
            &&& r->Ok_0.wf()
            &&& r->Ok_0.intact()
            &&& r->Ok_0.strict() == strict
            &&& r->Ok_0.medium() == medium
            &&& r->Ok_0.records() == found.records
            &&& r->Ok_0.durable() == found.records
            &&& r->Ok_0.chain() == found.chain
            &&& r->Ok_0.issued().len() == 1
            &&& r->Ok_0.issued()[0] == LogWrite::Truncate(found.valid as usize)
            &&& r->Ok_0.image() == (MediumView { log: medium.log.take(found.valid), ..medium })
            &&& r->Ok_0.recovered_fence() == store::higher(medium.floor, found.fence)
            &&& r->Ok_0.durable_fence() == store::higher(medium.floor, found.fence)
            &&& r->Ok_0.buffered().len() == 0
        },
        ReplayEnd::ChainMismatch => r is Err && r->Err_0 == WalError::ChainMismatch(
            found.valid as usize,
        ),
        ReplayEnd::Corrupt => r is Err && r->Err_0 == WalError::Corrupt(found.valid as usize),
    }
}

/// Carrying out the issued writes turns the medium into its image.
pub proof fn carrying_out_the_writes_gives_the_image(store: &WalStore)
    ensures
        store.image() == after_writes(store.medium(), store.issued()),
{
}

/// An intact store's log can be reopened, and replays to the durable records.
pub proof fn an_intact_log_replays(store: &WalStore)
    requires
        store.wf(),
        store.intact(),
    ensures
        replay::is_clean(store.log()),
        replay::replay(store.log()).records == store.durable(),
        store::higher(store.image().floor, replay::replay(store.log()).fence)
            == store.durable_fence(),
{
}

/// The durable records are what a reopen recovers: opening the log that a store
/// has issued, in either mode, gives a store with exactly its durable records.
pub proof fn a_reopened_log_holds_the_durable_records(
    before: &WalStore,
    strict: bool,
    r: Result<WalStore, WalError>,
)
    requires
        before.wf(),
        before.intact(),
        opened(before.image(), strict, r),
    ensures
        r is Ok,
        r->Ok_0.records() == before.durable(),
        r->Ok_0.durable() == before.durable(),
        r->Ok_0.recovered_fence() == before.durable_fence(),
        before.buffered().len() == 0 ==> r->Ok_0.chain() == before.chain(),
{
    assert(before.buffered().len() == 0 ==> before.log() + before.pending@ =~= before.log());
}

/// A strict store buffers nothing, and has nothing that is not durable.
pub proof fn a_strict_log_is_always_durable(store: &WalStore)
    requires
        store.wf(),
        store.intact(),
        store.strict(),
    ensures
        store.buffered().len() == 0,
        store.durable() == store.records(),
        store.durable_fence() == store.recovered_fence(),
{
    assert(store.log() + store.pending@ =~= store.log());
}

/// A store with nothing buffered has nothing that is not durable.
pub proof fn a_flushed_log_is_durable(store: &WalStore)
    requires
        store.wf(),
        store.intact(),
        store.buffered().len() == 0,
    ensures
        store.durable() == store.records(),
        store.durable_fence() == store.recovered_fence(),
{
    assert(store.log() + store.pending@ =~= store.log());
}

/// The root is a function of the records put and of their order: each put chains
/// its record to the root before it, so that stores that were given the same
/// records in the same order have the same root.
pub proof fn the_root_chains_every_put(
    history: Seq<(Seq<char>, StateView)>,
    key: Seq<char>,
    state: StateView,
)
    ensures
        replay::chain_after(history.push((key, state))) == codec::record_chain(
            key,
            state,
            replay::chain_after(history),
        ),
        replay::chain_after(Seq::empty()) == GENESIS@,
{
    assert(history.push((key, state)).drop_last() =~= history);
}

/// The fence that a store asks an engine to mint above is at least as high as every
/// fence in its records.
pub proof fn a_recovered_fence_covers_the_records(store: &WalStore)
    requires
        store.wf(),
    ensures
        store::fences_at_most(store.records(), store.recovered_fence()),
{
}

/// Fences keep increasing across a restart: a store that is opened on a log asks for
/// fences above that of every record in the log, though a later record superseded
/// it, and above the floor that is kept beside the log.
pub proof fn a_reopened_log_covers_every_fence_in_it(
    history: Seq<(Seq<char>, StateView)>,
    tail: Seq<u8>,
    floor: u64,
    strict: bool,
    r: Result<WalStore, WalError>,
    i: int,
)
    requires
        replay::all_encodable(history),
        !codec::has_whole_frame(tail),
        opened((MediumView { log: replay::log_of(history) + tail, floor }), strict, r),
        0 <= i < history.len(),
    ensures
        r is Ok,
        r->Ok_0.recovered_fence() >= store::fence_of(history[i].1),
        history[i].1 matches StateView::InProgress { fence, .. } ==> r->Ok_0.recovered_fence()
            >= fence,
        r->Ok_0.recovered_fence() >= floor,
{
    replay::replay_recovers_what_was_written(history);
    replay::replay_with_a_torn_tail(replay::log_of(history), tail);
    replay::no_fence_is_above_the_highest(history, i);
}

/// The fence of an in-progress state; 0 for a completed one.
fn fence_held(state: &KeyState) -> (fence: u64)
    ensures
        fence == store::fence_of(state@),
{
    match state {
        KeyState::InProgress { fence, .. } => fence.0,
        KeyState::Completed { .. } => 0,
    }
}

impl Store for WalStore {
    closed spec fn wf(&self) -> bool {
        &&& self.index.wf()
        &&& self.sync_each ==> self.pending@.len() == 0
        &&& self.floor <= self.highest
        &&& self.floor == self.image().floor
        &&& store::fences_at_most(store::records_of(self.index@), self.highest)
        &&& self.sound@ ==> self.in_step()
    }

    closed spec fn records(&self) -> Records {
        store::records_of(self.index@)
    }

    closed spec fn durable(&self) -> Records {
        replay::replay(self.log()).records
    }

    closed spec fn intact(&self) -> bool {
        self.sound@
    }

    closed spec fn strict(&self) -> bool {
        self.sync_each
    }

    closed spec fn medium(&self) -> MediumView {
        self.medium@
    }

    open spec fn storable(key: Seq<char>, state: StateView) -> bool {
        codec_laws::encodable(key, state)
    }

    closed spec fn recovered_fence(&self) -> u64 {
        self.highest
    }

    closed spec fn durable_fence(&self) -> u64 {
        store::higher(self.floor, replay::replay(self.log()).fence)
    }

    open spec fn fence_after(fence: u64, state: StateView) -> u64 {
        store::higher(fence, store::fence_of(state))
    }

    fn get(&self, key: &IdempotencyKey) -> (state: Option<&KeyState>) {
        self.index.get(key.0.as_str())
    }

    fn put(&mut self, key: IdempotencyKey, state: KeyState)
        ensures
            final(self).follows_put(old(self), key@, state@),
    {
        let ghost prev = self.chain_root@;
        self.buffer(key, state);
        if self.sync_each {
            let ghost ready = *self;
            self.flush_pending();
            proof {
                assert(ready.pending@ =~= codec::record_bytes(key@, state@, prev));
                assert(self.log() + self.pending@ =~= self.log());
            }
        }
    }

    fn max_in_progress_fence(&self) -> (fence: u64)
        ensures
            store::is_highest_fence(self.records(), fence),
    {
        let mut fence: u64 = 0;
        let mut i: usize = 0;
        let n: usize = self.index.len();
        let ghost keys = self.index.keys();
        let ghost records = self.records();
        proof {
            self.index.keys_cover();
        }
        while i < n
            invariant
                self.index.wf(),
                keys == self.index.keys(),
                n == keys.len(),
                records == self.records(),
                i <= n,
                forall|k: Seq<char>| self.index@.contains_key(k) <==> keys.contains(k),
                forall|j: int|
                    0 <= j < i ==> store::fence_of(records[#[trigger] keys[j]]) <= fence,
                fence == 0 || exists|k: Seq<char>| #[trigger]
                    records.contains_key(k) && records[k] is InProgress && store::fence_of(
                        records[k],
                    ) == fence,
            decreases n - i,
        {
            let state = self.index.value_at(i);
            assert(records.contains_key(keys[i as int]) && records[keys[i as int]] == state@);
            match state {
                KeyState::InProgress { fence: held, .. } => {
                    if held.0 > fence {
                        fence = held.0;
                    }
                },
                KeyState::Completed { .. } => {},
            }
            i = i + 1;
        }
        proof {
            assert forall|k: Seq<char>| #[trigger] records.contains_key(k) implies store::fence_of(
                records[k],
            ) <= fence by {
                assert(self.index@.contains_key(k));
                assert(keys.contains(k));
                let j = choose|j: int| 0 <= j < keys.len() && keys[j] == k;
                assert(store::fence_of(records[keys[j]]) <= fence);
            }
        }
        fence
    }

    fn highest_fence(&self) -> (fence: u64)
        ensures
            store::fences_at_most(self.records(), fence),
    {
        self.highest
    }

    fn flush(&mut self)
        ensures
            final(self).follows_flush(old(self)),
    {
        self.flush_pending();
        assert(self.log() + self.pending@ =~= self.log());
    }

    fn compact<F: Fn(&IdempotencyKey, &KeyState) -> bool>(&mut self, keep: &F)
        ensures
            final(self).buffered().len() == 0,
            final(self).image().floor == old(self).recovered_fence(),
            final(self).issued().last() is Replace,
            final(self).issued().drop_last() == (if old(self).image().floor
                < old(self).recovered_fence() {
                old(self).issued().push(LogWrite::Floor(old(self).recovered_fence()))
            } else {
                old(self).issued()
            }),
            rewritten(final(self).log(), final(self).chain(), final(self).records()),
    {
        let ghost before = *self;
        let ghost was = store::records_of(before.index@);
        retain(&mut self.index, keep);
        let (log, chain) = encode_index(&self.index);
        let ghost now = store::records_of(self.index@);
        assert(self.image() == before.image());
        assert(store::fences_at_most(now, self.highest)) by {
            assert forall|k: Seq<char>| #[trigger] now.contains_key(k) implies store::fence_of(
                now[k],
            ) <= self.highest by {
                assert(now.dom().contains(k));
                assert(was.contains_key(k) && was[k] == now[k]);
            }
        }
        assert(self.sound@ ==> forall|k: Seq<char>| #[trigger]
            now.contains_key(k) ==> codec_laws::encodable(k, now[k])) by {
            if self.sound@ {
                assert forall|k: Seq<char>| #[trigger]
                    now.contains_key(k) implies codec_laws::encodable(k, now[k]) by {
                    assert(now.dom().contains(k));
                    assert(was.contains_key(k) && was[k] == now[k]);
                }
            }
        }
        let ghost ready = *self;
        self.replace_log(log, chain);
        assert(self.writes@.drop_last() =~= if ready.floor < ready.highest {
            ready.writes@.push(LogWrite::Floor(ready.highest))
        } else {
            ready.writes@
        });
    }
}

} // verus!
