//! What the record format guarantees: every record that fits its length fields
//! reads back exactly, no strict prefix of a record reads as one, and no change
//! of a single byte makes a record read as a different one.

use crate::bytes;
use crate::hash;
use crate::headers::Field;
use crate::wal::codec;
use crate::wal::codec::{RecordView, HEADER_LEN, TAG_COMPLETED, TAG_IN_PROGRESS};
use crate::{OutcomeView, StateView};
use vstd::prelude::*;
use vstd::utf8::*;

verus! {

/// The record fits the format: its payload's length takes 32 bits, and its
/// fingerprint is 32 bytes.
pub open spec fn encodable(key: Seq<char>, state: StateView) -> bool {
    &&& codec::payload_bytes(key, state).len() <= u32::MAX
    &&& fingerprint_in(state).len() == 32
}

/// The fingerprint that a state holds.
pub open spec fn fingerprint_in(state: StateView) -> Seq<u8> {
    match state {
        StateView::InProgress { fingerprint, .. } => fingerprint,
        StateView::Completed { fingerprint, .. } => fingerprint,
    }
}

// ---------------------------------------------------------------------------
// Reading is stable under appending
// ---------------------------------------------------------------------------

proof fn sized_extends(b: Seq<u8>, e: Seq<u8>, at: int)
    requires
        0 <= at,
        codec::read_sized(b, at) is Some,
    ensures
        codec::read_sized(b + e, at) == codec::read_sized(b, at),
        at <= codec::read_sized(b, at).unwrap().1 <= b.len(),
{
    assert(bytes::u32_at(b + e, at) == bytes::u32_at(b, at));
    let n = bytes::u32_at(b, at) as int;
    assert((b + e).subrange(at + 4, at + 4 + n) =~= b.subrange(at + 4, at + 4 + n));
}

proof fn text_extends(b: Seq<u8>, e: Seq<u8>, at: int)
    requires
        0 <= at,
        codec::read_text(b, at) is Some,
    ensures
        codec::read_text(b + e, at) == codec::read_text(b, at),
        at <= codec::read_text(b, at).unwrap().1 <= b.len(),
{
    sized_extends(b, e, at);
}

proof fn fields_extend(b: Seq<u8>, e: Seq<u8>, at: int, count: nat, fields: Seq<Field>)
    requires
        0 <= at <= b.len(),
        codec::read_fields(b, at, count, fields) is Some,
    ensures
        codec::read_fields(b + e, at, count, fields) == codec::read_fields(b, at, count, fields),
        at <= codec::read_fields(b, at, count, fields).unwrap().1 <= b.len(),
    decreases count,
{
    if count > 0 {
        text_extends(b, e, at);
        let (name, p) = codec::read_text(b, at)->0;
        text_extends(b, e, p);
        let (value, q) = codec::read_text(b, p)->0;
        fields_extend(b, e, q, (count - 1) as nat, fields.push((name, value)));
    }
}

proof fn outcome_extends(b: Seq<u8>, e: Seq<u8>, at: int)
    requires
        0 <= at,
        codec::read_outcome(b, at) is Some,
    ensures
        codec::read_outcome(b + e, at) == codec::read_outcome(b, at),
        at <= codec::read_outcome(b, at).unwrap().1 <= b.len(),
{
    assert(bytes::u16_at(b + e, at) == bytes::u16_at(b, at));
    assert(bytes::u32_at(b + e, at + 2) == bytes::u32_at(b, at + 2));
    let count = bytes::u32_at(b, at + 2) as nat;
    fields_extend(b, e, at + 6, count, Seq::empty());
    let (fields, r) = codec::read_fields(b, at + 6, count, Seq::empty())->0;
    sized_extends(b, e, r);
}

proof fn state_extends(b: Seq<u8>, e: Seq<u8>, at: int)
    requires
        0 <= at,
        codec::read_state(b, at) is Some,
    ensures
        codec::read_state(b + e, at) == codec::read_state(b, at),
        at <= codec::read_state(b, at).unwrap().1 <= b.len(),
{
    let x = b + e;
    assert(x[at] == b[at]);
    if b[at] == TAG_IN_PROGRESS {
        assert(bytes::u64_at(x, at + 1) == bytes::u64_at(b, at + 1));
        assert(x.subrange(at + 9, at + 41) =~= b.subrange(at + 9, at + 41));
        assert(bytes::u64_at(x, at + 41) == bytes::u64_at(b, at + 41));
    } else {
        assert(x.subrange(at + 1, at + 33) =~= b.subrange(at + 1, at + 33));
        assert(bytes::u64_at(x, at + 33) == bytes::u64_at(b, at + 33));
        outcome_extends(b, e, at + 41);
    }
}

proof fn payload_extends(b: Seq<u8>, e: Seq<u8>)
    requires
        codec::read_payload(b) is Some,
    ensures
        codec::read_payload(b + e) == codec::read_payload(b),
        0 <= codec::read_payload(b).unwrap().2 <= b.len(),
{
    reveal(codec::read_payload);
    text_extends(b, e, 0);
    state_extends(b, e, codec::read_text(b, 0).unwrap().1);
}

/// What follows a record does not change how it reads.
pub proof fn reading_ignores_what_follows(b: Seq<u8>, e: Seq<u8>)
    requires
        codec::has_whole_frame(b),
    ensures
        codec::has_whole_frame(b + e),
        codec::frame_payload(b + e) == codec::frame_payload(b),
        bytes::u32_at(b + e, 0) == bytes::u32_at(b, 0),
        bytes::u32_at(b + e, 4) == bytes::u32_at(b, 4),
        codec::read_record(b + e) == codec::read_record(b),
{
    let x = b + e;
    assert(bytes::u32_at(x, 0) == bytes::u32_at(b, 0));
    assert(bytes::u32_at(x, 4) == bytes::u32_at(b, 4));
    assert(codec::frame_payload(x) =~= codec::frame_payload(b));
    assert(x.subrange(8, 40) =~= b.subrange(8, 40));
}

// ---------------------------------------------------------------------------
// Encoding reads back
// ---------------------------------------------------------------------------

proof fn sized_reads_back(b: Seq<u8>, at: int, part: Seq<u8>)
    requires
        part.len() <= u32::MAX,
        bytes::stands_at(b, at, codec::sized(part)),
    ensures
        codec::read_sized(b, at) == Some((part, at + 4 + part.len())),
{
    let s = codec::sized(part);
    let n = part.len() as u32;
    assert forall|i: int| 0 <= i < 4 implies b[at + i] == #[trigger] bytes::le_u32(n)[i] by {
        assert(s[i] == bytes::le_u32(n)[i]);
    }
    bytes::u32_reads_back(b, at, n);
    assert forall|i: int| 0 <= i < part.len() implies b[at + 4 + i] == part[i] by {
        assert(s[4 + i] == part[i]);
        assert(b[at + (4 + i)] == s[4 + i]);
    }
    assert(b.subrange(at + 4, at + 4 + part.len()) =~= part);
}

proof fn text_reads_back(b: Seq<u8>, at: int, t: Seq<char>)
    requires
        encode_utf8(t).len() <= u32::MAX,
        bytes::stands_at(b, at, codec::sized_text(t)),
    ensures
        codec::read_text(b, at) == Some((t, at + codec::sized_text(t).len())),
{
    sized_reads_back(b, at, encode_utf8(t));
    encode_utf8_valid_utf8(t);
    encode_utf8_decode_utf8(t);
}

/// A part of a part stands where the offsets add up to.
proof fn part_of_part(b: Seq<u8>, at: int, part: Seq<u8>, inner_at: int, inner: Seq<u8>)
    requires
        bytes::stands_at(b, at, part),
        bytes::stands_at(part, inner_at, inner),
    ensures
        bytes::stands_at(b, at + inner_at, inner),
{
    assert forall|i: int| 0 <= i < inner.len() implies b[(at + inner_at) + i] == #[trigger] inner[i] by {
        assert(part[inner_at + i] == inner[i]);
        assert(b[at + (inner_at + i)] == part[inner_at + i]);
    }
}

/// In `x + y`, `x` stands first and `y` after it.
proof fn parts_of_sum(x: Seq<u8>, y: Seq<u8>)
    ensures
        bytes::stands_at(x + y, 0, x),
        bytes::stands_at(x + y, x.len() as int, y),
{
    assert forall|i: int| 0 <= i < x.len() implies (x + y)[0 + i] == #[trigger] x[i] by {}
    assert forall|i: int| 0 <= i < y.len() implies (x + y)[x.len() as int + i] == #[trigger] y[i] by {}
}

proof fn fields_read_back(b: Seq<u8>, at: int, all: Seq<Field>, done: int)
    requires
        0 <= done <= all.len(),
        codec::fields_bytes(all.skip(done)).len() <= u32::MAX,
        bytes::stands_at(b, at, codec::fields_bytes(all.skip(done))),
    ensures
        codec::read_fields(
            b,
            at,
            (all.len() - done) as nat,
            all.take(done),
        ) == Some((all, at + codec::fields_bytes(all.skip(done)).len())),
    decreases all.len() - done,
{
    let rest = all.skip(done);
    if done == all.len() {
        assert(all.take(done) =~= all);
    } else {
        let f = rest[0];
        let name = codec::sized_text(f.0);
        let value = codec::sized_text(f.1);
        let more = codec::fields_bytes(rest.drop_first());
        let s = codec::fields_bytes(rest);
        assert(s == name + value + more);
        parts_of_sum(name + value, more);
        parts_of_sum(name, value);
        part_of_part(s, 0, name + value, 0, name);
        part_of_part(s, 0, name + value, name.len() as int, value);
        part_of_part(b, at, s, 0, name);
        part_of_part(b, at, s, name.len() as int, value);
        part_of_part(b, at, s, (name + value).len() as int, more);
        text_reads_back(b, at, f.0);
        text_reads_back(b, at + name.len(), f.1);
        assert(rest.drop_first() =~= all.skip(done + 1));
        fields_read_back(b, at + name.len() + value.len(), all, done + 1);
        assert(all.take(done + 1) =~= all.take(done).push(f));
    }
}

proof fn in_progress_reads_back(
    b: Seq<u8>,
    at: int,
    fence: u64,
    fingerprint: Seq<u8>,
    lease_expires_at_ms: u64,
)
    requires
        fingerprint.len() == 32,
        bytes::stands_at(
            b,
            at,
            codec::state_bytes(
                StateView::InProgress { fence, fingerprint, lease_expires_at_ms },
            ),
        ),
    ensures
        codec::read_state(b, at) == Some(
            (StateView::InProgress { fence, fingerprint, lease_expires_at_ms }, at + 49),
        ),
        codec::state_bytes(
            StateView::InProgress { fence, fingerprint, lease_expires_at_ms },
        ).len() == 49,
{
    let s = codec::state_bytes(StateView::InProgress { fence, fingerprint, lease_expires_at_ms });
    let tag = seq![TAG_IN_PROGRESS];
    let p1 = tag + bytes::le_u64(fence);
    let p2 = p1 + fingerprint;
    parts_of_sum(p2, bytes::le_u64(lease_expires_at_ms));
    parts_of_sum(p1, fingerprint);
    parts_of_sum(tag, bytes::le_u64(fence));
    part_of_part(s, 0, p2, 0, p1);
    part_of_part(s, 0, p2, 9, fingerprint);
    part_of_part(s, 0, p1, 1, bytes::le_u64(fence));
    part_of_part(b, at, s, 1, bytes::le_u64(fence));
    part_of_part(b, at, s, 9, fingerprint);
    part_of_part(b, at, s, 41, bytes::le_u64(lease_expires_at_ms));
    assert(b[at + 0] == s[0]);
    bytes::u64_reads_back(b, at + 1, fence);
    bytes::u64_reads_back(b, at + 41, lease_expires_at_ms);
    assert forall|i: int| 0 <= i < 32 implies b[at + 9 + i] == fingerprint[i] by {
        assert(b[(at + 9) + i] == fingerprint[i]);
    }
    assert(b.subrange(at + 9, at + 41) =~= fingerprint);
}

proof fn completed_reads_back(
    b: Seq<u8>,
    at: int,
    fingerprint: Seq<u8>,
    outcome: OutcomeView,
    completed_at_ms: u64,
)
    requires
        fingerprint.len() == 32,
        codec::state_bytes(
            StateView::Completed { fingerprint, outcome, completed_at_ms },
        ).len() <= u32::MAX,
        bytes::stands_at(
            b,
            at,
            codec::state_bytes(StateView::Completed { fingerprint, outcome, completed_at_ms }),
        ),
    ensures
        codec::read_state(b, at) == Some(
            (
                StateView::Completed { fingerprint, outcome, completed_at_ms },
                at + codec::state_bytes(
                    StateView::Completed { fingerprint, outcome, completed_at_ms },
                ).len(),
            ),
        ),
{
    let s = codec::state_bytes(StateView::Completed { fingerprint, outcome, completed_at_ms });
    let tag = seq![TAG_COMPLETED];
    let at_ms = bytes::le_u64(completed_at_ms);
    let status = bytes::le_u16(outcome.status);
    let count = bytes::le_u32(outcome.headers.len() as u32);
    let fields = codec::fields_bytes(outcome.headers);
    let body = codec::sized(outcome.body);
    let p1 = tag + fingerprint;
    let p2 = p1 + at_ms;
    let p3 = p2 + status;
    let p4 = p3 + count;
    let p5 = p4 + fields;
    parts_of_sum(p5, body);
    parts_of_sum(p4, fields);
    parts_of_sum(p3, count);
    parts_of_sum(p2, status);
    parts_of_sum(p1, at_ms);
    parts_of_sum(tag, fingerprint);
    part_of_part(s, 0, p5, 0, p4);
    part_of_part(s, 0, p5, 47, fields);
    part_of_part(s, 0, p4, 0, p3);
    part_of_part(s, 0, p4, 43, count);
    part_of_part(s, 0, p3, 0, p2);
    part_of_part(s, 0, p3, 41, status);
    part_of_part(s, 0, p2, 0, p1);
    part_of_part(s, 0, p2, 33, at_ms);
    part_of_part(s, 0, p1, 1, fingerprint);
    part_of_part(b, at, s, 1, fingerprint);
    part_of_part(b, at, s, 33, at_ms);
    part_of_part(b, at, s, 41, status);
    part_of_part(b, at, s, 43, count);
    part_of_part(b, at, s, 47, fields);
    part_of_part(b, at, s, 47 + fields.len() as int, body);
    assert(b[at + 0] == s[0]);
    assert forall|i: int| 0 <= i < 32 implies b[at + 1 + i] == fingerprint[i] by {
        assert(b[(at + 1) + i] == fingerprint[i]);
    }
    assert(b.subrange(at + 1, at + 33) =~= fingerprint);
    bytes::u64_reads_back(b, at + 33, completed_at_ms);
    bytes::u16_reads_back(b, at + 41, outcome.status);
    fields_are_at_least_as_long_as_many(outcome.headers);
    bytes::u32_reads_back(b, at + 43, outcome.headers.len() as u32);
    assert(outcome.headers.skip(0) =~= outcome.headers);
    assert(outcome.headers.take(0) =~= Seq::<Field>::empty());
    fields_read_back(b, at + 47, outcome.headers, 0);
    sized_reads_back(b, at + 47 + fields.len(), outcome.body);
}

proof fn state_reads_back(b: Seq<u8>, at: int, state: StateView)
    requires
        codec::state_bytes(state).len() <= u32::MAX,
        fingerprint_in(state).len() == 32,
        bytes::stands_at(b, at, codec::state_bytes(state)),
    ensures
        codec::read_state(b, at) == Some((state, at + codec::state_bytes(state).len())),
{
    match state {
        StateView::InProgress { fence, fingerprint, lease_expires_at_ms } => {
            in_progress_reads_back(b, at, fence, fingerprint, lease_expires_at_ms);
        },
        StateView::Completed { fingerprint, outcome, completed_at_ms } => {
            completed_reads_back(b, at, fingerprint, outcome, completed_at_ms);
        },
    }
}

proof fn fields_are_at_least_as_long_as_many(fields: Seq<Field>)
    ensures
        codec::fields_bytes(fields).len() >= fields.len(),
    decreases fields.len(),
{
    if fields.len() > 0 {
        fields_are_at_least_as_long_as_many(fields.drop_first());
    }
}

/// The payload of a record reads back.
pub proof fn payload_reads_back(key: Seq<char>, state: StateView)
    requires
        encodable(key, state),
    ensures
        codec::read_payload(codec::payload_bytes(key, state)) == Some(
            (key, state, codec::payload_bytes(key, state).len() as int),
        ),
{
    let b = codec::payload_bytes(key, state);
    let k = codec::sized_text(key);
    let s = codec::state_bytes(state);
    reveal(codec::read_payload);
    parts_of_sum(k, s);
    text_reads_back(b, 0, key);
    state_reads_back(b, k.len() as int, state);
}

/// How the parts of a frame read.
proof fn frame_parts(payload: Seq<u8>, prev: Seq<u8>)
    requires
        payload.len() <= u32::MAX,
    ensures
        codec::framed(payload, prev).len() == HEADER_LEN + payload.len(),
        bytes::u32_at(codec::framed(payload, prev), 0) == payload.len(),
        bytes::u32_at(codec::framed(payload, prev), 4) == codec::crc32_of(payload),
        codec::framed(payload, prev).subrange(8, 40) == codec::chain_of(
            prev,
            codec::crc32_of(payload),
            payload,
        ),
        codec::has_whole_frame(codec::framed(payload, prev)),
        codec::frame_payload(codec::framed(payload, prev)) == payload,
{
    let crc = codec::crc32_of(payload);
    let chain = codec::chain_of(prev, crc, payload);
    hash::digest_is_32_bytes(prev + bytes::le_u32(crc) + payload);
    let f = codec::framed(payload, prev);
    let n = bytes::le_u32(payload.len() as u32);
    let c = bytes::le_u32(crc);
    parts_of_sum(n + c + chain, payload);
    parts_of_sum(n + c, chain);
    parts_of_sum(n, c);
    part_of_part(f, 0, n + c + chain, 0, n + c);
    part_of_part(f, 0, n + c, 0, n);
    part_of_part(f, 0, n + c, 4, c);
    bytes::u32_reads_back(f, 0, payload.len() as u32);
    bytes::u32_reads_back(f, 4, crc);
    assert(f.subrange(8, 40) =~= chain);
    assert(f.subrange(40, 40 + payload.len() as int) =~= payload);
}

/// A record carries its chain hash in bytes 8 to 40, whatever its size.
pub proof fn record_chain_position(key: Seq<char>, state: StateView, prev: Seq<u8>)
    ensures
        codec::record_bytes(key, state, prev).len() == HEADER_LEN + codec::payload_bytes(
            key,
            state,
        ).len(),
        codec::record_bytes(key, state, prev).subrange(8, 40) == codec::record_chain(
            key,
            state,
            prev,
        ),
{
    let payload = codec::payload_bytes(key, state);
    let crc = codec::crc32_of(payload);
    hash::digest_is_32_bytes(prev + bytes::le_u32(crc) + payload);
    assert(codec::record_bytes(key, state, prev).subrange(8, 40) =~= codec::record_chain(
        key,
        state,
        prev,
    ));
}

/// How the frame of a record reads.
pub proof fn record_frame(key: Seq<char>, state: StateView, prev: Seq<u8>)
    requires
        encodable(key, state),
    ensures
        codec::has_whole_frame(codec::record_bytes(key, state, prev)),
        codec::frame_payload(codec::record_bytes(key, state, prev)) == codec::payload_bytes(
            key,
            state,
        ),
        bytes::u32_at(codec::record_bytes(key, state, prev), 4) == codec::crc32_of(
            codec::payload_bytes(key, state),
        ),
        codec::record_bytes(key, state, prev).subrange(8, 40) == codec::record_chain(
            key,
            state,
            prev,
        ),
{
    frame_parts(codec::payload_bytes(key, state), prev);
}

/// A record reads back exactly, consuming the bytes it takes, whatever follows it.
pub proof fn decode_inverts_encode(
    key: Seq<char>,
    state: StateView,
    prev: Seq<u8>,
    following: Seq<u8>,
)
    requires
        encodable(key, state),
    ensures
        codec::read_record(codec::record_bytes(key, state, prev) + following) == Some(
            RecordView {
                consumed: codec::record_bytes(key, state, prev).len() as int,
                key,
                state,
                chain: codec::record_chain(key, state, prev),
            },
        ),
{
    let payload = codec::payload_bytes(key, state);
    payload_reads_back(key, state);
    frame_parts(payload, prev);
    reading_ignores_what_follows(codec::record_bytes(key, state, prev), following);
}

/// No strict prefix of a record is a whole frame, so none reads as a record: a
/// torn tail is never mistaken for a complete record, nor for a corrupt one.
pub proof fn truncation_is_rejected(key: Seq<char>, state: StateView, prev: Seq<u8>, n: int)
    requires
        encodable(key, state),
        0 <= n < codec::record_bytes(key, state, prev).len(),
    ensures
        !codec::has_whole_frame(codec::record_bytes(key, state, prev).take(n)),
        codec::read_record(codec::record_bytes(key, state, prev).take(n)) is None,
{
    let r = codec::record_bytes(key, state, prev);
    frame_parts(codec::payload_bytes(key, state), prev);
    if n >= HEADER_LEN {
        assert(bytes::u32_at(r.take(n), 0) == bytes::u32_at(r, 0));
    }
}

// ---------------------------------------------------------------------------
// A changed byte is noticed
// ---------------------------------------------------------------------------

proof fn crc_shift_is_injective(a: u32, b: u32)
    by (bit_vector)
    requires
        codec::crc_shift(a) == codec::crc_shift(b),
    ensures
        a == b,
{
}

proof fn crc_shifts_are_injective(a: u32, b: u32, n: nat)
    requires
        codec::crc_shifts(a, n) == codec::crc_shifts(b, n),
    ensures
        a == b,
    decreases n,
{
    if n > 0 {
        crc_shift_is_injective(
            codec::crc_shifts(a, (n - 1) as nat),
            codec::crc_shifts(b, (n - 1) as nat),
        );
        crc_shifts_are_injective(a, b, (n - 1) as nat);
    }
}

proof fn mixing_is_injective(a: u32, b: u32, x: u8, y: u8)
    by (bit_vector)
    ensures
        a ^ (x as u32) == b ^ (x as u32) ==> a == b,
        a ^ (x as u32) == a ^ (y as u32) ==> x == y,
{
}

/// Two byte strings that differ in exactly one place have different checksums.
pub proof fn checksum_notices_a_changed_byte(a: Seq<u8>, b: Seq<u8>, at: int)
    requires
        a.len() == b.len(),
        0 <= at < a.len(),
        a[at] != b[at],
        forall|i: int| 0 <= i < a.len() && i != at ==> a[i] == b[i],
    ensures
        codec::crc32_of(a) != codec::crc32_of(b),
{
    registers_differ(a, b, at);
    let x = codec::crc_register(a);
    let y = codec::crc_register(b);
    assert(x != y ==> !x != !y) by (bit_vector);
}

proof fn registers_differ(a: Seq<u8>, b: Seq<u8>, at: int)
    requires
        a.len() == b.len(),
        0 <= at < a.len(),
        a[at] != b[at],
        forall|i: int| 0 <= i < a.len() && i != at ==> a[i] == b[i],
    ensures
        codec::crc_register(a) != codec::crc_register(b),
    decreases a.len(),
{
    let x = codec::crc_register(a.drop_last());
    let y = codec::crc_register(b.drop_last());
    if at == a.len() - 1 {
        assert(a.drop_last() =~= b.drop_last());
    } else {
        registers_differ(a.drop_last(), b.drop_last(), at);
    }
    if codec::crc_register(a) == codec::crc_register(b) {
        crc_shifts_are_injective(x ^ (a.last() as u32), y ^ (b.last() as u32), 8);
        mixing_is_injective(x, y, a.last(), b.last());
    }
}

/// No strict prefix of a payload holds a record.
proof fn payload_prefix_is_rejected(key: Seq<char>, state: StateView, n: int)
    requires
        encodable(key, state),
        0 <= n < codec::payload_bytes(key, state).len(),
    ensures
        codec::read_payload(codec::payload_bytes(key, state).take(n)) is None,
{
    let b = codec::payload_bytes(key, state);
    payload_reads_back(key, state);
    assert(b.take(n) + b.skip(n) =~= b);
    needed_bytes_are_missed(b.take(n), b.skip(n));
}

/// A payload that needs all of `p + e` is not there in `p` alone.
proof fn needed_bytes_are_missed(p: Seq<u8>, e: Seq<u8>)
    requires
        e.len() > 0,
        codec::read_payload(p + e) matches Some((_, _, end)) && end == (p + e).len(),
    ensures
        codec::read_payload(p) is None,
{
    if codec::read_payload(p) is Some {
        payload_extends(p, e);
    }
}

proof fn u32_differs(a: Seq<u8>, b: Seq<u8>, at: int, i: int)
    requires
        at <= i < at + 4,
        a[i] != b[i],
        forall|j: int| at <= j < at + 4 && j != i ==> a[j] == b[j],
    ensures
        bytes::u32_at(a, at) != bytes::u32_at(b, at),
{
    let (a0, a1, a2, a3) = (a[at], a[at + 1], a[at + 2], a[at + 3]);
    let (b0, b1, b2, b3) = (b[at], b[at + 1], b[at + 2], b[at + 3]);
    assert((a0 as u32) | ((a1 as u32) << 8) | ((a2 as u32) << 16) | ((a3 as u32) << 24) == (
    b0 as u32) | ((b1 as u32) << 8) | ((b2 as u32) << 16) | ((b3 as u32) << 24) ==> a0 == b0 && a1
        == b1 && a2 == b2 && a3 == b3) by (bit_vector);
}

/// A single changed byte never makes a record read as a different one: the damage
/// is noticed, or it lies in the chain hash, which is not part of the record's
/// content and is checked on replay.
pub proof fn a_changed_byte_is_noticed(
    key: Seq<char>,
    state: StateView,
    prev: Seq<u8>,
    damaged: Seq<u8>,
    at: int,
)
    requires
        encodable(key, state),
        damaged.len() == codec::record_bytes(key, state, prev).len(),
        0 <= at < damaged.len(),
        damaged[at] != codec::record_bytes(key, state, prev)[at],
        forall|i: int|
            0 <= i < damaged.len() && i != at ==> damaged[i] == codec::record_bytes(
                key,
                state,
                prev,
            )[i],
    ensures
        match codec::read_record(damaged) {
            None => at < 8 || at >= 40,
            Some(record) => 8 <= at < 40 && record.key == key && record.state == state,
        },
{
    let r = codec::record_bytes(key, state, prev);
    let payload = codec::payload_bytes(key, state);
    frame_parts(payload, prev);
    payload_reads_back(key, state);
    if at < 4 {
        u32_differs(damaged, r, 0, at);
        if codec::has_whole_frame(damaged) {
            let n = bytes::u32_at(damaged, 0) as int;
            assert(codec::frame_payload(damaged) =~= payload.take(n)) by {
                assert forall|i: int| 0 <= i < n implies damaged[40 + i] == payload[i] by {
                    assert(codec::frame_payload(r)[i] == payload[i]);
                }
            }
            payload_prefix_is_rejected(key, state, n);
        }
    } else if at < 8 {
        u32_differs(damaged, r, 4, at);
        assert(bytes::u32_at(damaged, 0) == bytes::u32_at(r, 0));
        assert(codec::frame_payload(damaged) =~= codec::frame_payload(r));
    } else if at < 40 {
        assert(bytes::u32_at(damaged, 0) == bytes::u32_at(r, 0));
        assert(bytes::u32_at(damaged, 4) == bytes::u32_at(r, 4));
        assert(codec::frame_payload(damaged) =~= codec::frame_payload(r));
    } else {
        assert(bytes::u32_at(damaged, 0) == bytes::u32_at(r, 0));
        assert(bytes::u32_at(damaged, 4) == bytes::u32_at(r, 4));
        let d = codec::frame_payload(damaged);
        assert forall|i: int| 0 <= i < payload.len() && i != at - 40 implies d[i] == payload[i] by {
            assert(d[i] == damaged[40 + i]);
            assert(codec::frame_payload(r)[i] == r[40 + i]);
        }
        assert(d[at - 40] == damaged[at]);
        assert(codec::frame_payload(r)[at - 40] == r[at]);
        checksum_notices_a_changed_byte(d, payload, at - 40);
    }
}

/// How many bytes the names and values of headers take, with eight more for each header.
pub open spec fn fields_size(fields: Seq<Field>) -> nat
    decreases fields.len(),
{
    if fields.len() == 0 {
        0
    } else {
        8 + encode_utf8(fields[0].0).len() + encode_utf8(fields[0].1).len() + fields_size(
            fields.drop_first(),
        )
    }
}

/// How many bytes a record's key and state take, with what tells them apart.
pub open spec fn record_size(key: Seq<char>, state: StateView) -> nat {
    encode_utf8(key).len() + match state {
        StateView::InProgress { .. } => 53,
        StateView::Completed { outcome, .. } => 55 + fields_size(outcome.headers)
            + outcome.body.len(),
    }
}

proof fn fields_take_their_size(fields: Seq<Field>)
    ensures
        codec::fields_bytes(fields).len() == fields_size(fields),
    decreases fields.len(),
{
    if fields.len() > 0 {
        fields_take_their_size(fields.drop_first());
    }
}

/// Every record can be written down that takes less than four gigabytes, whatever its
/// key, its headers and its body are.
pub proof fn every_record_that_fits_is_encodable(key: Seq<char>, state: StateView)
    requires
        fingerprint_in(state).len() == 32,
    ensures
        encodable(key, state) <==> record_size(key, state) <= u32::MAX,
        codec::payload_bytes(key, state).len() == record_size(key, state),
{
    if let StateView::Completed { outcome, .. } = state {
        fields_take_their_size(outcome.headers);
    }
}

} // verus!
