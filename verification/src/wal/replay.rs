//! Recovery of a log: what replaying its bytes from the front gives, and how that
//! behaves when the log grows, is cut short, or is rewritten.

use crate::bytes;
use crate::headers::Field;
use crate::store;
use crate::store::Records;
use crate::wal::codec;
use crate::wal::codec::{GENESIS, TAG_COMPLETED};
use crate::wal::codec_laws;
use crate::StateView;
use vstd::prelude::*;
use vstd::utf8::*;

verus! {

/// Why a replay stopped.
pub enum ReplayEnd {
    /// At the end of the log, or at a partially written last record.
    Tail,
    /// At a record whose chain hash is not the one its place calls for.
    ChainMismatch,
    /// At a whole frame that does not hold a record.
    Corrupt,
}

/// What replaying a log gives.
pub struct ReplayView {
    /// The last state that each key was given.
    pub records: Records,
    /// The chain hash of the last good record.
    pub chain: Seq<u8>,
    /// How many bytes the good records take.
    pub valid: int,
    /// The highest fence of any record read, superseded ones included, 0 where
    /// there is none.
    pub fence: u64,
    pub end: ReplayEnd,
}

/// Replays `log` on top of `records`, the last record before it having the chain
/// hash `chain`.
pub open spec fn replayed(log: Seq<u8>, chain: Seq<u8>, records: Records) -> ReplayView
    decreases log.len(),
{
    match codec::read_record(log) {
        Some(record) => {
            if codec::chain_of(chain, bytes::u32_at(log, 4), codec::frame_payload(log))
                != record.chain {
                ReplayView { records, chain, valid: 0, fence: 0, end: ReplayEnd::ChainMismatch }
            } else {
                let rest = replayed(
                    log.skip(record.consumed),
                    record.chain,
                    records.insert(record.key, record.state),
                );
                ReplayView {
                    valid: record.consumed + rest.valid,
                    fence: store::higher(store::fence_of(record.state), rest.fence),
                    ..rest
                }
            }
        },
        None => ReplayView {
            records,
            chain,
            valid: 0,
            fence: 0,
            end: if codec::has_whole_frame(log) {
                ReplayEnd::Corrupt
            } else {
                ReplayEnd::Tail
            },
        },
    }
}

/// Replays a whole log from genesis.
pub open spec fn replay(log: Seq<u8>) -> ReplayView {
    replayed(log, GENESIS@, Records::empty())
}

/// The log is a sequence of good records with nothing after them.
pub open spec fn is_clean(log: Seq<u8>) -> bool {
    replay(log).end is Tail && replay(log).valid == log.len()
}

pub proof fn valid_bytes_are_in_the_log(log: Seq<u8>, chain: Seq<u8>, records: Records)
    ensures
        0 <= replayed(log, chain, records).valid <= log.len(),
    decreases log.len(),
{
    if let Some(record) = codec::read_record(log) {
        if codec::chain_of(chain, bytes::u32_at(log, 4), codec::frame_payload(log))
            == record.chain {
            valid_bytes_are_in_the_log(
                log.skip(record.consumed),
                record.chain,
                records.insert(record.key, record.state),
            );
        }
    }
}

/// Replaying a clean log with more after it is replaying the rest on top.
pub proof fn replay_of_a_grown_log(log: Seq<u8>, more: Seq<u8>, chain: Seq<u8>, records: Records)
    requires
        replayed(log, chain, records).end is Tail,
        replayed(log, chain, records).valid == log.len(),
    ensures
        ({
            let before = replayed(log, chain, records);
            let after = replayed(more, before.chain, before.records);
            replayed(log + more, chain, records) == ReplayView {
                valid: log.len() + after.valid,
                fence: store::higher(before.fence, after.fence),
                ..after
            }
        }),
    decreases log.len(),
{
    match codec::read_record(log) {
        None => {
            assert(log + more =~= more);
        },
        Some(record) => {
            codec_laws::reading_ignores_what_follows(log, more);
            assert((log + more).skip(record.consumed) =~= log.skip(record.consumed) + more);
            replay_of_a_grown_log(
                log.skip(record.consumed),
                more,
                record.chain,
                records.insert(record.key, record.state),
            );
        },
    }
}

/// Cutting a replay back to its good records changes nothing but that it is
/// clean.
pub proof fn replay_of_the_valid_part(log: Seq<u8>, chain: Seq<u8>, records: Records)
    requires
        replayed(log, chain, records).end is Tail,
    ensures
        replayed(log.take(replayed(log, chain, records).valid), chain, records) == replayed(
            log,
            chain,
            records,
        ),
    decreases log.len(),
{
    valid_bytes_are_in_the_log(log, chain, records);
    let valid = replayed(log, chain, records).valid;
    let cut = log.take(valid);
    match codec::read_record(log) {
        None => {},
        Some(record) => {
            let rest = log.skip(record.consumed);
            valid_bytes_are_in_the_log(rest, record.chain, records.insert(record.key, record.state));
            let n = replayed(rest, record.chain, records.insert(record.key, record.state)).valid;
            let frame = log.take(record.consumed);
            assert(bytes::u32_at(frame, 0) == bytes::u32_at(log, 0));
            assert(cut =~= frame + rest.take(n));
            assert(log =~= frame + rest);
            codec_laws::reading_ignores_what_follows(frame, rest);
            codec_laws::reading_ignores_what_follows(frame, rest.take(n));
            replay_of_the_valid_part(
                rest,
                record.chain,
                records.insert(record.key, record.state),
            );
            assert(cut.skip(record.consumed) =~= rest.take(n));
        },
    }
}

/// Replaying one encoded record sets its key and nothing else.
pub proof fn replay_of_one_record(
    key: Seq<char>,
    state: StateView,
    chain: Seq<u8>,
    records: Records,
)
    requires
        codec_laws::encodable(key, state),
    ensures
        replayed(codec::record_bytes(key, state, chain), chain, records) == (ReplayView {
            records: records.insert(key, state),
            chain: codec::record_chain(key, state, chain),
            valid: codec::record_bytes(key, state, chain).len() as int,
            fence: store::fence_of(state),
            end: ReplayEnd::Tail,
        }),
{
    let r = codec::record_bytes(key, state, chain);
    codec_laws::decode_inverts_encode(key, state, chain, Seq::empty());
    assert(r + Seq::<u8>::empty() =~= r);
    codec_laws::record_frame(key, state, chain);
    let rest = r.skip(r.len() as int);
    assert(rest =~= Seq::<u8>::empty());
    reveal_with_fuel(replayed, 2);
}

/// A clean log that grows by one encoded record is clean, and that record's key
/// is set on top.
pub proof fn replay_after_an_append(log: Seq<u8>, key: Seq<char>, state: StateView)
    requires
        is_clean(log),
        codec_laws::encodable(key, state),
    ensures
        is_clean(log + codec::record_bytes(key, state, replay(log).chain)),
        replay(log + codec::record_bytes(key, state, replay(log).chain)).records == replay(
            log,
        ).records.insert(key, state),
        replay(log + codec::record_bytes(key, state, replay(log).chain)).chain
            == codec::record_chain(key, state, replay(log).chain),
        replay(log + codec::record_bytes(key, state, replay(log).chain)).fence == store::higher(
            replay(log).fence,
            store::fence_of(state),
        ),
{
    let r = codec::record_bytes(key, state, replay(log).chain);
    replay_of_a_grown_log(log, r, GENESIS@, Records::empty());
    replay_of_one_record(key, state, replay(log).chain, replay(log).records);
}

/// A torn tail is as if it were not there: a clean log followed by any bytes that do
/// not make up a whole frame recovers exactly what it held, without an error.
pub proof fn replay_with_a_torn_tail(log: Seq<u8>, tail: Seq<u8>)
    requires
        is_clean(log),
        !codec::has_whole_frame(tail),
    ensures
        replay(log + tail) == replay(log),
{
    replay_of_a_grown_log(log, tail, GENESIS@, Records::empty());
    assert(codec::read_record(tail) is None);
}

/// A torn append is as if it had not happened: a clean log followed by a strict
/// prefix of a record recovers exactly what it held, without an error.
pub proof fn replay_after_a_torn_append(log: Seq<u8>, key: Seq<char>, state: StateView, n: int)
    requires
        is_clean(log),
        codec_laws::encodable(key, state),
        0 <= n < codec::record_bytes(key, state, replay(log).chain).len(),
    ensures
        replay(log + codec::record_bytes(key, state, replay(log).chain).take(n)) == replay(log),
{
    let r = codec::record_bytes(key, state, replay(log).chain);
    replay_of_a_grown_log(log, r.take(n), GENESIS@, Records::empty());
    codec_laws::truncation_is_rejected(key, state, replay(log).chain, n);
}

/// The chain hash after the records of `batch`, the last record before them having
/// the chain hash `chain`.
pub open spec fn chain_from(batch: Seq<(Seq<char>, StateView)>, chain: Seq<u8>) -> Seq<u8>
    decreases batch.len(),
{
    if batch.len() == 0 {
        chain
    } else {
        codec::record_chain(
            batch.last().0,
            batch.last().1,
            chain_from(batch.drop_last(), chain),
        )
    }
}

/// The records of `batch`, encoded one after the other, the last record before them
/// having the chain hash `chain`.
pub open spec fn batch_bytes(batch: Seq<(Seq<char>, StateView)>, chain: Seq<u8>) -> Seq<u8>
    decreases batch.len(),
{
    if batch.len() == 0 {
        Seq::empty()
    } else {
        batch_bytes(batch.drop_last(), chain) + codec::record_bytes(
            batch.last().0,
            batch.last().1,
            chain_from(batch.drop_last(), chain),
        )
    }
}

/// What `batch` leaves behind on top of `records`.
pub open spec fn applied(records: Records, batch: Seq<(Seq<char>, StateView)>) -> Records
    decreases batch.len(),
{
    if batch.len() == 0 {
        records
    } else {
        applied(records, batch.drop_last()).insert(batch.last().0, batch.last().1)
    }
}

/// The chain hash after the records of `history`.
pub open spec fn chain_after(history: Seq<(Seq<char>, StateView)>) -> Seq<u8> {
    chain_from(history, GENESIS@)
}

/// A log made by appending the records of `history` one after the other.
pub open spec fn log_of(history: Seq<(Seq<char>, StateView)>) -> Seq<u8> {
    batch_bytes(history, GENESIS@)
}

/// The records that `history` leaves behind.
pub open spec fn outcome_of(history: Seq<(Seq<char>, StateView)>) -> Records {
    applied(Records::empty(), history)
}

/// The last entry of a key is the one that counts, and a key without an entry has
/// no record.
pub proof fn the_last_entry_counts(history: Seq<(Seq<char>, StateView)>, key: Seq<char>)
    ensures
        outcome_of(history).contains_key(key) <==> exists|i: int|
            0 <= i < history.len() && (#[trigger] history[i]).0 == key,
        forall|i: int|
            0 <= i < history.len() && (#[trigger] history[i]).0 == key && (forall|j: int|
                i < j < history.len() ==> (#[trigger] history[j]).0 != key) ==> outcome_of(
                history,
            )[key] == history[i].1,
    decreases history.len(),
{
    if history.len() > 0 {
        let init = history.drop_last();
        let n = history.len() - 1;
        the_last_entry_counts(init, key);
        assert(history[n] == history.last());
        if history.last().0 != key {
            if exists|i: int| 0 <= i < history.len() && (#[trigger] history[i]).0 == key {
                let i = choose|i: int| 0 <= i < history.len() && (#[trigger] history[i]).0 == key;
                assert(init[i].0 == key);
            }
            if exists|i: int| 0 <= i < init.len() && (#[trigger] init[i]).0 == key {
                let i = choose|i: int| 0 <= i < init.len() && (#[trigger] init[i]).0 == key;
                assert(history[i].0 == key);
            }
        }
        assert forall|i: int|
            0 <= i < history.len() && (#[trigger] history[i]).0 == key && (forall|j: int|
                i < j < history.len() ==> (#[trigger] history[j]).0 != key) implies outcome_of(
            history,
        )[key] == history[i].1 by {
            if i < n {
                assert(history[n].0 != key);
                assert(init[i].0 == key);
                assert forall|j: int| i < j < init.len() implies (#[trigger] init[j]).0 != key by {
                    assert(history[j].0 != key);
                }
                assert(outcome_of(init)[key] == init[i].1);
            }
        }
    }
}

/// The highest fence of any entry of `history`, 0 where there is none.
pub open spec fn fence_in(history: Seq<(Seq<char>, StateView)>) -> u64
    decreases history.len(),
{
    if history.len() == 0 {
        0
    } else {
        store::higher(fence_in(history.drop_last()), store::fence_of(history.last().1))
    }
}

/// No entry of a history has a fence above its highest.
pub proof fn no_fence_is_above_the_highest(history: Seq<(Seq<char>, StateView)>, i: int)
    requires
        0 <= i < history.len(),
    ensures
        store::fence_of(history[i].1) <= fence_in(history),
    decreases history.len(),
{
    if i < history.len() - 1 {
        no_fence_is_above_the_highest(history.drop_last(), i);
        assert(history.drop_last()[i] == history[i]);
    }
}

/// The highest fence of a history is no higher than a bound on all its fences.
pub proof fn the_highest_fence_is_bounded(history: Seq<(Seq<char>, StateView)>, bound: u64)
    requires
        forall|i: int| 0 <= i < history.len() ==> store::fence_of((#[trigger] history[i]).1) <= bound,
    ensures
        fence_in(history) <= bound,
    decreases history.len(),
{
    if history.len() > 0 {
        let init = history.drop_last();
        assert forall|i: int| 0 <= i < init.len() implies store::fence_of((#[trigger] init[i]).1)
            <= bound by {
            assert(init[i] == history[i]);
        }
        the_highest_fence_is_bounded(init, bound);
        assert(history[history.len() - 1] == history.last());
    }
}

/// A log replays to what was written to it.
pub proof fn replay_recovers_what_was_written(history: Seq<(Seq<char>, StateView)>)
    requires
        all_encodable(history),
    ensures
        is_clean(log_of(history)),
        replay(log_of(history)).records == outcome_of(history),
        replay(log_of(history)).chain == chain_after(history),
        replay(log_of(history)).fence == fence_in(history),
    decreases history.len(),
{
    if history.len() > 0 {
        let init = history.drop_last();
        assert forall|i: int| 0 <= i < init.len() implies codec_laws::encodable(
            (#[trigger] init[i]).0,
            init[i].1,
        ) by {
            assert(init[i] == history[i]);
        }
        replay_recovers_what_was_written(init);
        assert(codec_laws::encodable(history[history.len() - 1].0, history.last().1));
        replay_after_an_append(log_of(init), history.last().0, history.last().1);
    } else {
        assert(codec::read_record(Seq::<u8>::empty()) is None);
    }
}

/// Replaying `log` runs into no error and gives what the first `m` entries of
/// `history` leave behind.
pub open spec fn recovers(log: Seq<u8>, history: Seq<(Seq<char>, StateView)>, m: int) -> bool {
    &&& 0 <= m <= history.len()
    &&& replay(log).end is Tail
    &&& replay(log).records == outcome_of(history.take(m))
}

/// Every record of `history` fits the format.
pub open spec fn all_encodable(history: Seq<(Seq<char>, StateView)>) -> bool {
    forall|i: int|
        0 <= i < history.len() ==> codec_laws::encodable((#[trigger] history[i]).0, history[i].1)
}

proof fn cut_in_the_last_record(history: Seq<(Seq<char>, StateView)>, n: int)
    requires
        history.len() > 0,
        all_encodable(history),
        log_of(history.drop_last()).len() <= n < log_of(history).len(),
    ensures
        recovers(log_of(history).take(n), history, history.len() - 1),
{
    let init = history.drop_last();
    let before = log_of(init);
    let (k, s) = history.last();
    let chain = replay(before).chain;
    let r = codec::record_bytes(k, s, chain);
    assert forall|i: int| 0 <= i < init.len() implies codec_laws::encodable(
        (#[trigger] init[i]).0,
        init[i].1,
    ) by {
        assert(init[i] == history[i]);
    }
    replay_recovers_what_was_written(init);
    assert(history[history.len() - 1] == history.last());
    assert(log_of(history) == before + r);
    let d = n - before.len();
    assert((before + r).take(n) =~= before + r.take(d));
    replay_after_a_torn_append(before, k, s, d);
    assert(history.take(history.len() - 1) =~= init);
}

/// Cutting a log off at any byte loses a suffix of the history and nothing else:
/// the remainder recovers some prefix of what was written, never an error, and
/// an uncut log recovers all of it.
pub proof fn any_cut_recovers_a_prefix(history: Seq<(Seq<char>, StateView)>, n: int)
    requires
        all_encodable(history),
        0 <= n <= log_of(history).len(),
    ensures
        exists|m: int| #[trigger] recovers(log_of(history).take(n), history, m),
        n == log_of(history).len() ==> recovers(
            log_of(history).take(n),
            history,
            history.len() as int,
        ),
    decreases history.len(),
{
    let log = log_of(history);
    if n == log.len() {
        replay_recovers_what_was_written(history);
        assert(log.take(n) =~= log);
        assert(history.take(history.len() as int) =~= history);
        assert(recovers(log.take(n), history, history.len() as int));
    } else {
        assert(history.len() > 0);
        let init = history.drop_last();
        let before = log_of(init);
        if n < before.len() {
            assert(all_encodable(init)) by {
                assert forall|i: int| 0 <= i < init.len() implies codec_laws::encodable(
                    (#[trigger] init[i]).0,
                    init[i].1,
                ) by {
                    assert(init[i] == history[i]);
                }
            }
            any_cut_recovers_a_prefix(init, n);
            let m = choose|m: int| #[trigger] recovers(before.take(n), init, m);
            assert(log.take(n) =~= before.take(n)) by {
                log_grows(history);
            }
            assert(init.take(m) =~= history.take(m));
            assert(recovers(log.take(n), history, m));
        } else {
            cut_in_the_last_record(history, n);
        }
    }
}

proof fn log_grows(history: Seq<(Seq<char>, StateView)>)
    requires
        history.len() > 0,
    ensures
        log_of(history.drop_last()).is_prefix_of(log_of(history)),
{
}

// ---------------------------------------------------------------------------
// What a log holds can be written again
// ---------------------------------------------------------------------------

/// The bytes that a field takes.
spec fn field_len(f: Field) -> nat {
    codec::sized_text(f.0).len() + codec::sized_text(f.1).len()
}

proof fn one_more_field_adds_its_bytes(fields: Seq<Field>, last: Field)
    ensures
        codec::fields_bytes(fields.push(last)).len() == codec::fields_bytes(fields).len()
            + field_len(last),
    decreases fields.len(),
{
    let all = fields.push(last);
    if fields.len() == 0 {
        assert(all.drop_first() =~= Seq::<Field>::empty());
        assert(codec::fields_bytes(all.drop_first()) =~= Seq::<u8>::empty());
    } else {
        one_more_field_adds_its_bytes(fields.drop_first(), last);
        assert(all.drop_first() =~= fields.drop_first().push(last));
    }
}

proof fn read_text_takes_its_bytes(b: Seq<u8>, at: int)
    requires
        0 <= at,
        codec::read_text(b, at) is Some,
    ensures
        ({
            let (t, end) = codec::read_text(b, at).unwrap();
            at + codec::sized_text(t).len() == end && end <= b.len()
        }),
{
    let n = bytes::u32_at(b, at) as int;
    let raw = b.subrange(at + 4, at + 4 + n);
    decode_utf8_encode_utf8(raw);
}

proof fn read_fields_are_no_longer(b: Seq<u8>, at: int, count: nat, fields: Seq<Field>)
    requires
        0 <= at <= b.len(),
        codec::read_fields(b, at, count, fields) is Some,
    ensures
        ({
            let (out, end) = codec::read_fields(b, at, count, fields).unwrap();
            &&& at <= end <= b.len()
            &&& codec::fields_bytes(out).len() <= codec::fields_bytes(fields).len() + (end - at)
        }),
    decreases count,
{
    if count > 0 {
        let (name, p) = codec::read_text(b, at).unwrap();
        read_text_takes_its_bytes(b, at);
        let (value, q) = codec::read_text(b, p).unwrap();
        read_text_takes_its_bytes(b, p);
        one_more_field_adds_its_bytes(fields, (name, value));
        read_fields_are_no_longer(
            b,
            q,
            (count - 1) as nat,
            fields.push((name, value)),
        );
    }
}

proof fn read_state_is_no_longer(b: Seq<u8>, at: int)
    requires
        0 <= at <= b.len(),
        codec::read_state(b, at) is Some,
    ensures
        ({
            let (state, end) = codec::read_state(b, at).unwrap();
            &&& end <= b.len()
            &&& codec::state_bytes(state).len() <= end - at
            &&& codec_laws::fingerprint_in(state).len() == 32
        }),
{
    if b[at] == TAG_COMPLETED {
        let count = bytes::u32_at(b, at + 43) as nat;
        assert(codec::fields_bytes(Seq::<Field>::empty()) =~= Seq::<u8>::empty());
        read_fields_are_no_longer(b, at + 47, count, Seq::empty());
    }
}

/// A record that was read can be written: what was read fits the format.
pub proof fn read_records_are_encodable(b: Seq<u8>)
    requires
        codec::read_record(b) is Some,
    ensures
        ({
            let record = codec::read_record(b).unwrap();
            codec_laws::encodable(record.key, record.state)
        }),
{
    reveal(codec::read_payload);
    let payload = codec::frame_payload(b);
    read_text_takes_its_bytes(payload, 0);
    let (key, p) = codec::read_text(payload, 0).unwrap();
    read_state_is_no_longer(payload, p);
}

} // verus!
