//! Tamper evidence: a chain root pins down the records that led to it, and a log
//! whose records were tampered with does not open.

use crate::bytes;
use crate::hash;
use crate::store::{MediumView, Records};
use crate::wal::codec;
use crate::wal::codec::{GENESIS, HEADER_LEN};
use crate::wal::codec_laws;
use crate::wal::log_store;
use crate::wal::log_store::{WalError, WalStore};
use crate::wal::replay;
use crate::StateView;
use vstd::prelude::*;

verus! {

/// The records of a log, in order.
pub type History = Seq<(Seq<char>, StateView)>;

/// A log as the list of its frames.
pub type Frames = Seq<Seq<u8>>;

/// The bytes are one whole frame.
pub open spec fn is_frame(f: Seq<u8>) -> bool {
    codec::has_whole_frame(f) && f.len() == HEADER_LEN + bytes::u32_at(f, 0)
}

/// The chain hash that a frame carries.
pub open spec fn stored_chain(f: Seq<u8>) -> Seq<u8> {
    f.subrange(8, 40)
}

/// The chain hash before the `i`-th frame of a log that goes on from `start`.
pub open spec fn chain_before(frames: Frames, start: Seq<u8>, i: int) -> Seq<u8> {
    if i == 0 {
        start
    } else {
        stored_chain(frames[i - 1])
    }
}

/// The root of a log: the chain hash that its last frame carries.
pub open spec fn root_of(frames: Frames) -> Seq<u8> {
    chain_before(frames, GENESIS@, frames.len() as int)
}

/// What a record is hashed with: the root before it, its checksum, its payload.
pub open spec fn chained_message(prev: Seq<u8>, payload: Seq<u8>) -> Seq<u8> {
    prev + bytes::le_u32(codec::crc32_of(payload)) + payload
}

/// The message that the `i`-th frame of a log is hashed as.
pub open spec fn message_at(frames: Frames, start: Seq<u8>, i: int) -> Seq<u8> {
    chained_message(chain_before(frames, start, i), codec::frame_payload(frames[i]))
}

/// Each frame carries the checksum of its payload and the digest of its message.
pub open spec fn is_linked(frames: Frames, start: Seq<u8>) -> bool {
    forall|i: int|
        0 <= i < frames.len() ==> {
            &&& is_frame(#[trigger] frames[i])
            &&& bytes::u32_at(frames[i], 4) == codec::crc32_of(codec::frame_payload(frames[i]))
            &&& stored_chain(frames[i]) == hash::sha256_digest(message_at(frames, start, i))
        }
}

/// Two different messages, one from each log, have the same digest.
pub open spec fn collide_at(a: Frames, i: int, b: Frames, j: int) -> bool {
    &&& 0 <= i < a.len()
    &&& 0 <= j < b.len()
    &&& message_at(a, GENESIS@, i) != message_at(b, GENESIS@, j)
    &&& hash::sha256_digest(message_at(a, GENESIS@, i)) == hash::sha256_digest(
        message_at(b, GENESIS@, j),
    )
}

/// A message of the log has the genesis value for its digest.
pub open spec fn hits_genesis_at(frames: Frames, i: int) -> bool {
    0 <= i < frames.len() && hash::sha256_digest(message_at(frames, GENESIS@, i)) == GENESIS@
}

/// The two logs break SHA-256 between them: messages of theirs collide, or one of
/// them hits the genesis value.
pub open spec fn break_the_hash(a: Frames, b: Frames) -> bool {
    ||| exists|i: int, j: int| #[trigger] collide_at(a, i, b, j)
    ||| exists|i: int| #[trigger] hits_genesis_at(a, i)
    ||| exists|j: int| #[trigger] hits_genesis_at(b, j)
}

/// A log without its last frame has the same messages, and is linked if it was.
proof fn shorter_logs_have_the_same_messages(frames: Frames)
    requires
        frames.len() > 0,
    ensures
        forall|i: int|
            0 <= i < frames.len() - 1 ==> #[trigger] message_at(frames.drop_last(), GENESIS@, i)
                == message_at(frames, GENESIS@, i),
        is_linked(frames, GENESIS@) ==> is_linked(frames.drop_last(), GENESIS@),
        root_of(frames.drop_last()) == chain_before(frames, GENESIS@, frames.len() - 1),
{
    let init = frames.drop_last();
    assert forall|i: int| 0 <= i < frames.len() - 1 implies #[trigger] message_at(
        init,
        GENESIS@,
        i,
    ) == message_at(frames, GENESIS@, i) by {
        assert(init[i] == frames[i]);
        assert(i > 0 ==> init[i - 1] == frames[i - 1]);
    }
    if is_linked(frames, GENESIS@) {
        assert forall|i: int| 0 <= i < init.len() implies {
            &&& is_frame(#[trigger] init[i])
            &&& bytes::u32_at(init[i], 4) == codec::crc32_of(codec::frame_payload(init[i]))
            &&& stored_chain(init[i]) == hash::sha256_digest(message_at(init, GENESIS@, i))
        } by {
            assert(init[i] == frames[i]);
            assert(message_at(init, GENESIS@, i) == message_at(frames, GENESIS@, i));
        }
    }
}

/// Logs that break the hash still do with a frame more each.
proof fn longer_logs_break_the_hash_too(a: Frames, b: Frames)
    requires
        a.len() > 0,
        b.len() > 0,
        break_the_hash(a.drop_last(), b.drop_last()),
    ensures
        break_the_hash(a, b),
{
    let a0 = a.drop_last();
    let b0 = b.drop_last();
    shorter_logs_have_the_same_messages(a);
    shorter_logs_have_the_same_messages(b);
    if exists|i: int, j: int| #[trigger] collide_at(a0, i, b0, j) {
        let (i, j) = choose|i: int, j: int| #[trigger] collide_at(a0, i, b0, j);
        assert(message_at(a0, GENESIS@, i) == message_at(a, GENESIS@, i));
        assert(message_at(b0, GENESIS@, j) == message_at(b, GENESIS@, j));
        assert(collide_at(a, i, b, j));
    } else if exists|i: int| #[trigger] hits_genesis_at(a0, i) {
        let i = choose|i: int| #[trigger] hits_genesis_at(a0, i);
        assert(message_at(a0, GENESIS@, i) == message_at(a, GENESIS@, i));
        assert(hits_genesis_at(a, i));
    } else {
        let j = choose|j: int| #[trigger] hits_genesis_at(b0, j);
        assert(message_at(b0, GENESIS@, j) == message_at(b, GENESIS@, j));
        assert(hits_genesis_at(b, j));
    }
}

/// Every root has 32 bytes.
proof fn roots_have_32_bytes(frames: Frames)
    requires
        is_linked(frames, GENESIS@),
    ensures
        root_of(frames).len() == 32,
{
    if frames.len() > 0 {
        assert(is_frame(frames[frames.len() - 1]));
    }
}

/// Messages with roots of the same length are equal only if their parts are.
proof fn message_parts(a: Seq<u8>, x: Seq<u8>, b: Seq<u8>, y: Seq<u8>)
    requires
        a.len() == 32,
        b.len() == 32,
        chained_message(a, x) == chained_message(b, y),
    ensures
        a == b,
        x == y,
{
    assert(chained_message(a, x).take(32) =~= a);
    assert(chained_message(b, y).take(32) =~= b);
    assert(chained_message(a, x).skip(36) =~= x);
    assert(chained_message(b, y).skip(36) =~= y);
}

/// Frames with the same payload, its checksum, and the same chain hash are equal.
proof fn frames_are_their_parts(f: Seq<u8>, g: Seq<u8>)
    requires
        is_frame(f),
        is_frame(g),
        codec::frame_payload(f) == codec::frame_payload(g),
        bytes::u32_at(f, 4) == bytes::u32_at(g, 4),
        stored_chain(f) == stored_chain(g),
    ensures
        f == g,
{
    assert(codec::frame_payload(f).len() == bytes::u32_at(f, 0));
    assert(codec::frame_payload(g).len() == bytes::u32_at(g, 0));
    bytes::u32_writes_back(f, 0);
    bytes::u32_writes_back(g, 0);
    bytes::u32_writes_back(f, 4);
    bytes::u32_writes_back(g, 4);
    assert(f =~= f.subrange(0, 4) + f.subrange(4, 8) + stored_chain(f) + codec::frame_payload(f));
    assert(g =~= g.subrange(0, 4) + g.subrange(4, 8) + stored_chain(g) + codec::frame_payload(g));
}

/// Two linked logs with the same root are the same, frame by frame, or they break
/// SHA-256 between them.
pub proof fn equal_roots_mean_equal_frames(a: Frames, b: Frames)
    requires
        is_linked(a, GENESIS@),
        is_linked(b, GENESIS@),
        root_of(a) == root_of(b),
    ensures
        a == b || break_the_hash(a, b),
    decreases a.len(),
{
    if a.len() == 0 && b.len() == 0 {
        assert(a =~= b);
    } else if a.len() == 0 {
        assert(is_frame(b[b.len() - 1]));
        assert(hits_genesis_at(b, b.len() - 1));
    } else if b.len() == 0 {
        assert(is_frame(a[a.len() - 1]));
        assert(hits_genesis_at(a, a.len() - 1));
    } else {
        let i = a.len() - 1;
        let j = b.len() - 1;
        assert(is_frame(a[i]) && is_frame(b[j]));
        if message_at(a, GENESIS@, i) != message_at(b, GENESIS@, j) {
            assert(collide_at(a, i, b, j));
        } else {
            shorter_logs_have_the_same_messages(a);
            shorter_logs_have_the_same_messages(b);
            roots_have_32_bytes(a.drop_last());
            roots_have_32_bytes(b.drop_last());
            message_parts(
                chain_before(a, GENESIS@, i),
                codec::frame_payload(a[i]),
                chain_before(b, GENESIS@, j),
                codec::frame_payload(b[j]),
            );
            frames_are_their_parts(a[i], b[j]);
            equal_roots_mean_equal_frames(a.drop_last(), b.drop_last());
            if a.drop_last() == b.drop_last() {
                assert(a =~= a.drop_last().push(a[i]));
                assert(b =~= b.drop_last().push(b[j]));
            } else {
                longer_logs_break_the_hash_too(a, b);
            }
        }
    }
}

// ---------------------------------------------------------------------------
// Logs of records
// ---------------------------------------------------------------------------

/// The frames of a log that holds the records of `history`.
pub open spec fn frames_of(history: History) -> Frames {
    Seq::new(
        history.len(),
        |i: int|
            codec::record_bytes(
                history[i].0,
                history[i].1,
                replay::chain_after(history.take(i)),
            ),
    )
}

/// The bytes of a list of frames.
pub open spec fn joined(frames: Frames) -> Seq<u8>
    decreases frames.len(),
{
    if frames.len() == 0 {
        Seq::empty()
    } else {
        joined(frames.drop_last()) + frames.last()
    }
}

/// One more record is one more frame.
proof fn frames_grow(history: History)
    requires
        history.len() > 0,
    ensures
        frames_of(history) == frames_of(history.drop_last()).push(
            codec::record_bytes(
                history.last().0,
                history.last().1,
                replay::chain_after(history.drop_last()),
            ),
        ),
{
    let init = history.drop_last();
    let n = history.len() - 1;
    assert(history.take(n) =~= init);
    assert forall|i: int| 0 <= i < n implies #[trigger] frames_of(history)[i] == frames_of(
        init,
    )[i] by {
        assert(init.take(i) =~= history.take(i));
    }
    assert(frames_of(history) =~= frames_of(init).push(
        codec::record_bytes(history.last().0, history.last().1, replay::chain_after(init)),
    ));
}

/// A linked log that grows by a frame that carries on from its root is linked.
proof fn one_more_frame_is_linked(frames: Frames, f: Seq<u8>)
    requires
        is_linked(frames, GENESIS@),
        is_frame(f),
        bytes::u32_at(f, 4) == codec::crc32_of(codec::frame_payload(f)),
        stored_chain(f) == hash::sha256_digest(
            chained_message(root_of(frames), codec::frame_payload(f)),
        ),
    ensures
        is_linked(frames.push(f), GENESIS@),
        root_of(frames.push(f)) == stored_chain(f),
{
    let more = frames.push(f);
    assert(more.drop_last() =~= frames);
    shorter_logs_have_the_same_messages(more);
    assert forall|i: int| 0 <= i < more.len() implies {
        &&& is_frame(#[trigger] more[i])
        &&& bytes::u32_at(more[i], 4) == codec::crc32_of(codec::frame_payload(more[i]))
        &&& stored_chain(more[i]) == hash::sha256_digest(message_at(more, GENESIS@, i))
    } by {
        if i < frames.len() {
            assert(more[i] == frames[i]);
            assert(message_at(frames, GENESIS@, i) == message_at(more, GENESIS@, i));
        }
    }
}

/// The frames of a log of records are linked, make up the log, and have its root.
pub proof fn records_make_linked_frames(history: History)
    requires
        replay::all_encodable(history),
    ensures
        is_linked(frames_of(history), GENESIS@),
        joined(frames_of(history)) == replay::log_of(history),
        root_of(frames_of(history)) == replay::chain_after(history),
    decreases history.len(),
{
    if history.len() > 0 {
        let init = history.drop_last();
        assert(replay::all_encodable(init)) by {
            assert forall|i: int| 0 <= i < init.len() implies codec_laws::encodable(
                (#[trigger] init[i]).0,
                init[i].1,
            ) by {
                assert(init[i] == history[i]);
            }
        }
        records_make_linked_frames(init);
        frames_grow(history);
        let prev = replay::chain_after(init);
        let (key, state) = history[history.len() - 1];
        let f = codec::record_bytes(key, state, prev);
        assert(codec_laws::encodable(key, state));
        codec_laws::record_frame(key, state, prev);
        codec_laws::record_chain_position(key, state, prev);
        one_more_frame_is_linked(frames_of(init), f);
        assert(frames_of(history).drop_last() =~= frames_of(init));
    }
}

/// Logs with the same frames hold the same records.
proof fn equal_frames_mean_equal_histories(a: History, b: History)
    requires
        replay::all_encodable(a),
        replay::all_encodable(b),
        frames_of(a) == frames_of(b),
    ensures
        a == b,
{
    assert(a.len() == frames_of(a).len() && b.len() == frames_of(b).len());
    assert forall|i: int| 0 <= i < a.len() implies a[i] == b[i] by {
        assert(codec_laws::encodable(a[i].0, a[i].1));
        assert(codec_laws::encodable(b[i].0, b[i].1));
        assert(frames_of(a)[i] == frames_of(b)[i]);
        codec_laws::record_frame(a[i].0, a[i].1, replay::chain_after(a.take(i)));
        codec_laws::record_frame(b[i].0, b[i].1, replay::chain_after(b.take(i)));
        codec_laws::payload_reads_back(a[i].0, a[i].1);
        codec_laws::payload_reads_back(b[i].0, b[i].1);
    }
    assert(a =~= b);
}

/// Tamper evidence: two logs with the same root hold the same records in the same
/// order. Whoever edits, inserts, drops or reorders a record and keeps the root has
/// found messages that break SHA-256, and the two logs show them.
pub proof fn equal_roots_mean_equal_histories(a: History, b: History)
    requires
        replay::all_encodable(a),
        replay::all_encodable(b),
        replay::chain_after(a) == replay::chain_after(b),
    ensures
        a == b || break_the_hash(frames_of(a), frames_of(b)),
{
    records_make_linked_frames(a);
    records_make_linked_frames(b);
    equal_roots_mean_equal_frames(frames_of(a), frames_of(b));
    if frames_of(a) == frames_of(b) {
        equal_frames_mean_equal_histories(a, b);
    }
}

/// The root of a log is the genesis value where the log is empty, and nowhere else,
/// unless a message of the log hits the genesis value.
pub proof fn only_an_empty_log_has_the_genesis_root(history: History)
    requires
        replay::all_encodable(history),
    ensures
        history.len() == 0 ==> replay::chain_after(history) == GENESIS@,
        history.len() > 0 && replay::chain_after(history) == GENESIS@ ==> hits_genesis_at(
            frames_of(history),
            history.len() - 1,
        ),
{
    if history.len() > 0 {
        records_make_linked_frames(history);
        assert(is_frame(frames_of(history)[history.len() - 1]));
    }
}

// ---------------------------------------------------------------------------
// Opening a log that was tampered with
// ---------------------------------------------------------------------------

/// What a whole frame reads as does not depend on what follows it.
proof fn a_whole_frame_ignores_what_follows(f: Seq<u8>, following: Seq<u8>)
    requires
        is_frame(f),
    ensures
        codec::has_whole_frame(f + following),
        codec::read_record(f + following) == codec::read_record(f),
        codec::frame_payload(f + following) == codec::frame_payload(f),
        bytes::u32_at(f + following, 4) == bytes::u32_at(f, 4),
        (f + following).skip(f.len() as int) == following,
{
    let whole = f + following;
    assert(bytes::u32_at(whole, 0) == bytes::u32_at(f, 0));
    assert(bytes::u32_at(whole, 4) == bytes::u32_at(f, 4));
    assert(codec::frame_payload(whole) =~= codec::frame_payload(f));
    assert(whole.subrange(8, 40) =~= f.subrange(8, 40));
    assert(whole.skip(f.len() as int) =~= following);
}

/// A list of frames is its first one and the others.
proof fn joined_from_the_front(frames: Frames)
    requires
        frames.len() > 0,
    ensures
        joined(frames) == frames[0] + joined(frames.drop_first()),
    decreases frames.len(),
{
    let rest = frames.drop_first();
    if frames.len() == 1 {
        assert(frames.drop_last() =~= Seq::<Seq<u8>>::empty());
        assert(joined(frames.drop_last()) =~= Seq::<u8>::empty());
        assert(joined(rest) =~= Seq::<u8>::empty());
        assert(joined(frames) =~= frames[0] + joined(rest));
    } else {
        joined_from_the_front(frames.drop_last());
        assert(frames.drop_last().drop_first() =~= rest.drop_last());
        assert(rest.last() == frames.last());
        assert(joined(frames) =~= frames[0] + joined(rest));
    }
}

/// Frames that replay without an error are linked.
proof fn accepted_frames_are_linked(frames: Frames, start: Seq<u8>, records: Records)
    requires
        forall|i: int| 0 <= i < frames.len() ==> is_frame(#[trigger] frames[i]),
        replay::replayed(joined(frames), start, records).end is Tail,
    ensures
        is_linked(frames, start),
    decreases frames.len(),
{
    if frames.len() > 0 {
        let f = frames[0];
        let rest = frames.drop_first();
        joined_from_the_front(frames);
        a_whole_frame_ignores_what_follows(f, joined(rest));
        let record = codec::read_record(f).unwrap();
        assert(codec::read_record(joined(frames)) is Some);
        assert forall|i: int| 0 <= i < rest.len() implies is_frame(#[trigger] rest[i]) by {
            assert(rest[i] == frames[i + 1]);
        }
        accepted_frames_are_linked(
            rest,
            record.chain,
            records.insert(record.key, record.state),
        );
        assert forall|i: int| 0 <= i < frames.len() implies {
            &&& is_frame(#[trigger] frames[i])
            &&& bytes::u32_at(frames[i], 4) == codec::crc32_of(codec::frame_payload(frames[i]))
            &&& stored_chain(frames[i]) == hash::sha256_digest(message_at(frames, start, i))
        } by {
            if i > 0 {
                assert(rest[i - 1] == frames[i]);
                assert(i > 1 ==> rest[i - 2] == frames[i - 1]);
                assert(message_at(rest, record.chain, i - 1) == message_at(frames, start, i));
            }
        }
    }
}

/// The first frames of a log have the messages that they have in the log.
proof fn a_prefix_breaks_no_other_hash(frames: Frames, n: int, other: Frames)
    requires
        0 <= n <= frames.len(),
        is_linked(frames, GENESIS@),
    ensures
        is_linked(frames.take(n), GENESIS@),
        break_the_hash(frames.take(n), other) ==> break_the_hash(frames, other),
{
    let first = frames.take(n);
    assert forall|i: int| 0 <= i < n implies #[trigger] message_at(first, GENESIS@, i)
        == message_at(frames, GENESIS@, i) by {
        assert(first[i] == frames[i]);
        assert(i > 0 ==> first[i - 1] == frames[i - 1]);
    }
    assert forall|i: int| 0 <= i < n implies {
        &&& is_frame(#[trigger] first[i])
        &&& bytes::u32_at(first[i], 4) == codec::crc32_of(codec::frame_payload(first[i]))
        &&& stored_chain(first[i]) == hash::sha256_digest(message_at(first, GENESIS@, i))
    } by {
        assert(first[i] == frames[i]);
        assert(message_at(first, GENESIS@, i) == message_at(frames, GENESIS@, i));
    }
    if exists|i: int, j: int| #[trigger] collide_at(first, i, other, j) {
        let (i, j) = choose|i: int, j: int| #[trigger] collide_at(first, i, other, j);
        assert(message_at(first, GENESIS@, i) == message_at(frames, GENESIS@, i));
        assert(collide_at(frames, i, other, j));
    } else if exists|i: int| #[trigger] hits_genesis_at(first, i) {
        let i = choose|i: int| #[trigger] hits_genesis_at(first, i);
        assert(message_at(first, GENESIS@, i) == message_at(frames, GENESIS@, i));
        assert(hits_genesis_at(frames, i));
    }
}

/// Tampering is found on the next open: where the records of a log are edited,
/// dropped, inserted, repeated or reordered in any way that leaves whole frames, and
/// the last frame then carries the chain hash of some record of the log, opening fails
/// unless what is left is the log up to that record; or else the two logs break
/// SHA-256 between them.
pub proof fn tampering_is_found_unless_the_log_is_cut(
    history: History,
    tampered: Frames,
    kept: int,
    floor: u64,
    strict: bool,
    r: Result<WalStore, WalError>,
)
    requires
        replay::all_encodable(history),
        0 < kept <= history.len(),
        forall|i: int| 0 <= i < tampered.len() ==> is_frame(#[trigger] tampered[i]),
        tampered.len() > 0,
        stored_chain(tampered.last()) == stored_chain(frames_of(history)[kept - 1]),
        tampered != frames_of(history).take(kept),
        log_store::opened((MediumView { log: joined(tampered), floor }), strict, r),
    ensures
        r is Err || break_the_hash(frames_of(history), tampered),
{
    if r is Ok {
        let frames = frames_of(history);
        records_make_linked_frames(history);
        accepted_frames_are_linked(tampered, GENESIS@, Records::empty());
        a_prefix_breaks_no_other_hash(frames, kept, tampered);
        assert(frames.take(kept)[kept - 1] == frames[kept - 1]);
        equal_roots_mean_equal_frames(frames.take(kept), tampered);
    }
}

/// Where the last record is left as it was, no tampering before it goes unnoticed.
pub proof fn tampering_is_found_on_open(
    history: History,
    tampered: Frames,
    floor: u64,
    strict: bool,
    r: Result<WalStore, WalError>,
)
    requires
        replay::all_encodable(history),
        history.len() > 0,
        forall|i: int| 0 <= i < tampered.len() ==> is_frame(#[trigger] tampered[i]),
        tampered.len() > 0,
        tampered.last() == frames_of(history).last(),
        tampered != frames_of(history),
        log_store::opened((MediumView { log: joined(tampered), floor }), strict, r),
    ensures
        r is Err || break_the_hash(frames_of(history), tampered),
{
    let n = history.len() as int;
    assert(frames_of(history).take(n) =~= frames_of(history));
    tampering_is_found_unless_the_log_is_cut(history, tampered, n, floor, strict, r);
}

/// A log whose records are swapped, dropped or repeated, with none from elsewhere, is
/// found on the next open, unless records are only missing at its end.
pub proof fn rearranged_records_are_found_on_open(
    history: History,
    picked: Seq<int>,
    floor: u64,
    strict: bool,
    r: Result<WalStore, WalError>,
)
    requires
        replay::all_encodable(history),
        picked.len() > 0,
        forall|i: int| 0 <= i < picked.len() ==> 0 <= #[trigger] picked[i] < history.len(),
        log_store::opened(
            (MediumView { log: joined(picked_frames(history, picked)), floor }),
            strict,
            r,
        ),
    ensures
        r is Err || break_the_hash(frames_of(history), picked_frames(history, picked))
            || picked_frames(history, picked).is_prefix_of(frames_of(history)),
{
    let frames = frames_of(history);
    let tampered = picked_frames(history, picked);
    records_make_linked_frames(history);
    assert forall|i: int| 0 <= i < tampered.len() implies is_frame(#[trigger] tampered[i]) by {
        assert(0 <= picked[i] < history.len());
        assert(is_frame(frames[picked[i]]));
    }
    let kept = picked.last() + 1;
    assert(picked[picked.len() - 1] == picked.last());
    if tampered != frames.take(kept) {
        tampering_is_found_unless_the_log_is_cut(history, tampered, kept, floor, strict, r);
    }
}

/// The frames of a log at the positions in `picked`.
pub open spec fn picked_frames(history: History, picked: Seq<int>) -> Frames {
    Seq::new(picked.len(), |i: int| frames_of(history)[picked[i]])
}

/// Damage is never silently cut off: where one byte of a record is changed, anywhere
/// but in its length field, opening the log fails, whatever follows the record.
pub proof fn a_changed_byte_is_found_on_open(
    before: History,
    key: Seq<char>,
    state: StateView,
    damaged: Seq<u8>,
    at: int,
    following: Seq<u8>,
    floor: u64,
    strict: bool,
    r: Result<WalStore, WalError>,
)
    requires
        replay::all_encodable(before),
        codec_laws::encodable(key, state),
        ({
            let record = codec::record_bytes(key, state, replay::chain_after(before));
            &&& 4 <= at < record.len()
            &&& damaged.len() == record.len()
            &&& damaged[at] != record[at]
            &&& forall|i: int| 0 <= i < record.len() && i != at ==> damaged[i] == record[i]
        }),
        log_store::opened(
            (MediumView { log: replay::log_of(before) + (damaged + following), floor }),
            strict,
            r,
        ),
    ensures
        r is Err,
{
    let prev = replay::chain_after(before);
    let record = codec::record_bytes(key, state, prev);
    let log = replay::log_of(before);
    codec_laws::a_changed_byte_is_noticed(key, state, prev, damaged, at);
    codec_laws::record_frame(key, state, prev);
    codec_laws::record_chain_position(key, state, prev);
    assert(bytes::u32_at(damaged, 0) == bytes::u32_at(record, 0));
    assert(is_frame(record)) by {
        assert(codec::frame_payload(record).len() == bytes::u32_at(record, 0));
    }
    assert(is_frame(damaged));
    a_whole_frame_ignores_what_follows(damaged, following);
    replay::replay_recovers_what_was_written(before);
    replay::replay_of_a_grown_log(log, damaged + following, GENESIS@, Records::empty());
    if 8 <= at < 40 {
        assert(bytes::u32_at(damaged, 4) == bytes::u32_at(record, 4));
        assert(codec::frame_payload(damaged) =~= codec::frame_payload(record));
        assert(damaged.subrange(8, 40)[at - 8] != record.subrange(8, 40)[at - 8]);
    }
}

} // verus!
