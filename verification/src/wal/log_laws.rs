//! What a log store guarantees over whole runs: a torn tail is cut off, a batch
//! recovers after one flush, and a compacted log reopens to what was kept.

use crate::store;
use crate::store::{MediumView, Store};
use crate::wal::chain_laws;
use crate::wal::chain_laws::History;
use crate::wal::codec;
use crate::wal::codec::GENESIS;
use crate::wal::codec_laws;
use crate::wal::log_store;
use crate::wal::log_store::{WalError, WalStore};
use crate::wal::replay;
use crate::StateView;
use vstd::prelude::*;

verus! {

/// A torn tail is discarded: a log that ends in any bytes that do not make up a
/// whole frame opens without an error, to the last state of each key that was
/// written before them, and those bytes are cut off.
pub proof fn a_torn_tail_is_cut_off(
    history: History,
    tail: Seq<u8>,
    floor: u64,
    strict: bool,
    r: Result<WalStore, WalError>,
)
    requires
        replay::all_encodable(history),
        !codec::has_whole_frame(tail),
        log_store::opened(
            (MediumView { log: replay::log_of(history) + tail, floor }),
            strict,
            r,
        ),
    ensures
        r is Ok,
        r->Ok_0.records() == replay::outcome_of(history),
        r->Ok_0.chain() == replay::chain_after(history),
        r->Ok_0.log() == replay::log_of(history),
{
    let log = replay::log_of(history);
    replay::replay_recovers_what_was_written(history);
    replay::replay_with_a_torn_tail(log, tail);
    assert((log + tail).take(log.len() as int) =~= log);
}

// ---------------------------------------------------------------------------
// Batches
// ---------------------------------------------------------------------------

/// `after` is `before` once the records of `batch` were put, in order.
pub open spec fn follows_puts(after: &WalStore, before: &WalStore, batch: History) -> bool {
    &&& after.strict() == before.strict()
    &&& after.records() == replay::applied(before.records(), batch)
    &&& after.chain() == replay::chain_from(batch, before.chain())
    &&& after.image().floor == before.image().floor
    &&& if before.strict() {
        &&& after.log() == before.log() + replay::batch_bytes(batch, before.chain())
        &&& batch.len() > 0 ==> after.buffered().len() == 0
    } else {
        &&& after.log() == before.log()
        &&& after.buffered() == before.buffered() + replay::batch_bytes(batch, before.chain())
        &&& after.issued() == before.issued()
    }
}

/// A store to which nothing was put is as it was.
pub proof fn no_puts_change_nothing(store: &WalStore)
    ensures
        follows_puts(store, store, Seq::empty()),
{
    assert(store.log() + Seq::<u8>::empty() =~= store.log());
    assert(store.buffered() + Seq::<u8>::empty() =~= store.buffered());
}

/// Each `put` adds its record to the batch.
pub proof fn a_put_extends_the_batch(
    before: &WalStore,
    filled: &WalStore,
    after: &WalStore,
    batch: History,
    key: Seq<char>,
    state: StateView,
)
    requires
        follows_puts(filled, before, batch),
        after.follows_put(filled, key, state),
        after.strict() == filled.strict(),
        after.records() == filled.records().insert(key, state),
    ensures
        follows_puts(after, before, batch.push((key, state))),
{
    let more = batch.push((key, state));
    assert(more.drop_last() =~= batch);
    let old_bytes = replay::batch_bytes(batch, before.chain());
    let record = codec::record_bytes(key, state, filled.chain());
    assert(replay::batch_bytes(more, before.chain()) == old_bytes + record);
    assert((before.log() + old_bytes) + record =~= before.log() + (old_bytes + record));
    assert((before.buffered() + old_bytes) + record =~= before.buffered() + (old_bytes + record));
}

/// Group commit: a whole batch is durable after one flush. With nothing buffered
/// before the batch, the flush issues one append of exactly the batch's records, or
/// nothing where there are none; it changes neither the records nor the root; and a
/// store that is opened on the medium has those very records and that root.
pub proof fn a_whole_batch_recovers_after_one_flush(
    before: &WalStore,
    filled: &WalStore,
    flushed: &WalStore,
    batch: History,
    strict: bool,
    r: Result<WalStore, WalError>,
)
    requires
        !before.strict(),
        before.buffered().len() == 0,
        follows_puts(filled, before, batch),
        flushed.follows_flush(filled),
        flushed.records() == filled.records(),
        flushed.wf(),
        flushed.intact(),
        log_store::opened(flushed.image(), strict, r),
    ensures
        flushed.log() == before.log() + replay::batch_bytes(batch, before.chain()),
        log_store::appended(
            before.issued(),
            flushed.issued(),
            replay::batch_bytes(batch, before.chain()),
        ),
        flushed.records() == replay::applied(before.records(), batch),
        flushed.chain() == replay::chain_from(batch, before.chain()),
        r is Ok,
        r->Ok_0.records() == flushed.records(),
        r->Ok_0.chain() == flushed.chain(),
{
    let batched = replay::batch_bytes(batch, before.chain());
    assert(before.buffered() + batched =~= batched);
    log_store::a_reopened_log_holds_the_durable_records(flushed, strict, r);
    log_store::a_flushed_log_is_durable(flushed);
}

/// A flush with nothing buffered does nothing.
pub proof fn a_second_flush_does_nothing(
    before: &WalStore,
    flushed: &WalStore,
    again: &WalStore,
)
    requires
        flushed.follows_flush(before),
        again.follows_flush(flushed),
    ensures
        again.log() == flushed.log(),
        again.issued() == flushed.issued(),
        again.chain() == flushed.chain(),
{
    assert(flushed.log() + flushed.buffered() =~= flushed.log());
}

// ---------------------------------------------------------------------------
// Compaction
// ---------------------------------------------------------------------------

/// A compacted log reopens cleanly, to the same records, the same root and the same
/// fence.
pub proof fn a_compacted_log_reopens_to_the_same(
    compacted: &WalStore,
    strict: bool,
    r: Result<WalStore, WalError>,
)
    requires
        compacted.wf(),
        compacted.intact(),
        compacted.durable() == compacted.records(),
        compacted.durable_fence() == compacted.recovered_fence(),
        compacted.buffered().len() == 0,
        log_store::opened(compacted.image(), strict, r),
    ensures
        r is Ok,
        r->Ok_0.records() == compacted.records(),
        r->Ok_0.chain() == compacted.chain(),
        r->Ok_0.recovered_fence() == compacted.recovered_fence(),
{
    log_store::a_reopened_log_holds_the_durable_records(compacted, strict, r);
}

/// `log` is a log of records one of which hits the genesis value.
pub open spec fn shows_a_genesis_preimage(log: Seq<u8>) -> bool {
    exists|history: History, i: int|
        log == replay::log_of(history) && #[trigger] chain_laws::hits_genesis_at(
            chain_laws::frames_of(history),
            i,
        )
}

/// The root of a compacted log is the genesis value exactly where nothing was kept,
/// unless the log shows a SHA-256 preimage of that value.
pub proof fn a_compacted_root_is_genesis_only_when_nothing_is_left(
    log: Seq<u8>,
    chain: Seq<u8>,
    records: store::Records,
)
    requires
        log_store::rewritten(log, chain, records),
        forall|k: Seq<char>| #[trigger]
            records.contains_key(k) ==> codec_laws::encodable(k, records[k]),
    ensures
        records == store::Records::empty() ==> chain == GENESIS@ && log.len() == 0,
        chain == GENESIS@ ==> records == store::Records::empty() || shows_a_genesis_preimage(log),
{
    let order = choose|order: Seq<Seq<char>>| #[trigger]
        log_store::is_order_of(order, records) && log == replay::log_of(
            log_store::compacted(order, records),
        ) && chain == replay::chain_after(log_store::compacted(order, records));
    let history = log_store::compacted(order, records);
    assert forall|i: int| 0 <= i < history.len() implies codec_laws::encodable(
        (#[trigger] history[i]).0,
        history[i].1,
    ) by {
        assert(order.contains(order[i]));
        assert(records.contains_key(order[i]));
    }
    chain_laws::only_an_empty_log_has_the_genesis_root(history);
    if history.len() > 0 {
        assert(order.contains(order[0]));
        assert(records.contains_key(order[0]));
    } else {
        assert(records =~= store::Records::empty()) by {
            assert forall|k: Seq<char>| !#[trigger] records.contains_key(k) by {}
        }
    }
}

/// A log keeps every record that takes less than four gigabytes, whatever its key, its
/// headers and its body are.
pub proof fn a_log_keeps_every_record_that_fits(key: Seq<char>, state: StateView)
    requires
        codec_laws::fingerprint_in(state).len() == 32,
    ensures
        WalStore::storable(key, state) <==> codec_laws::record_size(key, state) <= u32::MAX,
{
    codec_laws::every_record_that_fits_is_encodable(key, state);
}

} // verus!
