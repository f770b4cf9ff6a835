//! The record format of the log.
//!
//! A record is framed as `[payload_len: u32][crc32: u32][chain: 32][payload]`.
//! The checksum detects accidental damage; the chain hash
//! `sha256(previous chain || checksum bytes || payload)` binds a record to its
//! place in the sequence, starting from [`GENESIS`].

use crate::bytes;
use crate::bytes::{get_u16, get_u32, get_u64, put_raw, put_u16, put_u32, put_u64};
use crate::hash;
use crate::hash::{sha256, to_array32};
use crate::headers::{Field, Headers};
use crate::text::{copy_bytes, string_from_utf8};
use crate::{CachedOutcome, Fence, IdempotencyKey, KeyState, OutcomeView, RequestFingerprint, StateView};
use vstd::prelude::*;
use vstd::slice::slice_subrange;
use vstd::utf8::*;

verus! {

/// Marks the payload of an in-progress record.
pub const TAG_IN_PROGRESS: u8 = 0;

/// Marks the payload of a completed record.
pub const TAG_COMPLETED: u8 = 1;

/// The chain value before the very first record.
pub const GENESIS: [u8; 32] = [
    0, 0, 0, 0, 0, 0, 0, 0, 0, 0, 0, 0, 0, 0, 0, 0, 0, 0, 0, 0, 0, 0, 0, 0, 0, 0, 0, 0, 0, 0, 0, 0,
];

/// Number of bytes before the payload: length, checksum and chain hash.
pub const HEADER_LEN: usize = 40;

// ---------------------------------------------------------------------------
// Checksum and chain
// ---------------------------------------------------------------------------

/// One step of the reflected CRC-32 register (polynomial 0xEDB88320).
pub open spec fn crc_shift(c: u32) -> u32 {
    if c & 1 == 1 {
        (c >> 1) ^ 0xEDB8_8320
    } else {
        c >> 1
    }
}

/// `n` steps of the register.
pub open spec fn crc_shifts(c: u32, n: nat) -> u32
    decreases n,
{
    if n == 0 {
        c
    } else {
        crc_shift(crc_shifts(c, (n - 1) as nat))
    }
}

/// The register after all of `data`, starting from all ones.
pub open spec fn crc_register(data: Seq<u8>) -> u32
    decreases data.len(),
{
    if data.len() == 0 {
        0xFFFF_FFFF
    } else {
        crc_shifts(crc_register(data.drop_last()) ^ (data.last() as u32), 8)
    }
}

/// CRC-32 (IEEE 802.3) of `data`.
pub open spec fn crc32_of(data: Seq<u8>) -> u32 {
    !crc_register(data)
}

/// The chain hash of a record with checksum `crc` that follows `prev`.
pub open spec fn chain_of(prev: Seq<u8>, crc: u32, payload: Seq<u8>) -> Seq<u8> {
    hash::sha256_digest(prev + bytes::le_u32(crc) + payload)
}

/// Checksum of `data`.
pub fn crc32(data: &[u8]) -> (crc: u32)
    ensures
        crc == crc32_of(data@),
{
    let mut crc: u32 = 0xFFFF_FFFF;
    let mut i: usize = 0;
    while i < data.len()
        invariant
            i <= data.len(),
            crc == crc_register(data@.take(i as int)),
        decreases data.len() - i,
    {
        crc = crc ^ (data[i] as u32);
        let ghost mixed = crc;
        let mut n: usize = 0;
        while n < 8
            invariant
                n <= 8,
                crc == crc_shifts(mixed, n as nat),
            decreases 8 - n,
        {
            if crc & 1 == 1 {
                crc = (crc >> 1) ^ 0xEDB8_8320;
            } else {
                crc = crc >> 1;
            }
            n = n + 1;
        }
        assert(data@.take(i + 1).drop_last() =~= data@.take(i as int));
        i = i + 1;
    }
    assert(data@.take(i as int) =~= data@);
    !crc
}

/// The chain hash of a record with checksum `crc` that follows `prev_chain`.
pub fn compute_chain(prev_chain: &[u8; 32], crc: u32, payload: &[u8]) -> (chain: [u8; 32])
    ensures
        chain@ == chain_of(prev_chain@, crc, payload@),
{
    let mut input: Vec<u8> = Vec::new();
    put_raw(&mut input, prev_chain);
    put_u32(&mut input, crc);
    put_raw(&mut input, payload);
    assert(input@ =~= prev_chain@ + bytes::le_u32(crc) + payload@);
    sha256(input.as_slice())
}

// ---------------------------------------------------------------------------
// Encoding
// ---------------------------------------------------------------------------

/// A byte string with its length in front. The length takes 32 bits, whatever
/// the string's own.
pub open spec fn sized(b: Seq<u8>) -> Seq<u8> {
    bytes::le_u32(b.len() as u32) + b
}

/// A text with the length of its encoding in front.
pub open spec fn sized_text(t: Seq<char>) -> Seq<u8> {
    sized(encode_utf8(t))
}

/// Header fields, one after the other.
pub open spec fn fields_bytes(fields: Seq<Field>) -> Seq<u8>
    decreases fields.len(),
{
    if fields.len() == 0 {
        Seq::empty()
    } else {
        sized_text(fields[0].0) + sized_text(fields[0].1) + fields_bytes(fields.drop_first())
    }
}

/// What a record says of its key's state.
pub open spec fn state_bytes(state: StateView) -> Seq<u8> {
    match state {
        StateView::InProgress { fence, fingerprint, lease_expires_at_ms } => {
            seq![TAG_IN_PROGRESS] + bytes::le_u64(fence) + fingerprint + bytes::le_u64(
                lease_expires_at_ms,
            )
        },
        StateView::Completed { fingerprint, outcome, completed_at_ms } => {
            seq![TAG_COMPLETED] + fingerprint + bytes::le_u64(completed_at_ms) + bytes::le_u16(
                outcome.status,
            ) + bytes::le_u32(outcome.headers.len() as u32) + fields_bytes(outcome.headers) + sized(
                outcome.body,
            )
        },
    }
}

/// The payload of a record.
pub open spec fn payload_bytes(key: Seq<char>, state: StateView) -> Seq<u8> {
    sized_text(key) + state_bytes(state)
}

/// A payload in its frame, after a record with chain hash `prev`.
pub open spec fn framed(payload: Seq<u8>, prev: Seq<u8>) -> Seq<u8> {
    bytes::le_u32(payload.len() as u32) + bytes::le_u32(crc32_of(payload)) + chain_of(
        prev,
        crc32_of(payload),
        payload,
    ) + payload
}

/// The record of `key` in `state` after a record with chain hash `prev`.
pub open spec fn record_bytes(key: Seq<char>, state: StateView, prev: Seq<u8>) -> Seq<u8> {
    framed(payload_bytes(key, state), prev)
}

/// The chain hash that the record of `key` in `state` carries.
pub open spec fn record_chain(key: Seq<char>, state: StateView, prev: Seq<u8>) -> Seq<u8> {
    let payload = payload_bytes(key, state);
    chain_of(prev, crc32_of(payload), payload)
}

fn put_bytes(buf: &mut Vec<u8>, b: &[u8])
    ensures
        final(buf)@ == old(buf)@ + sized(b@),
{
    let ghost before = buf@;
    put_u32(buf, b.len() as u32);
    put_raw(buf, b);
    assert(buf@ =~= before + sized(b@));
}

fn put_str(buf: &mut Vec<u8>, s: &str)
    ensures
        final(buf)@ == old(buf)@ + sized_text(s@),
{
    put_bytes(buf, s.as_bytes());
}

/// One more field at the end adds its bytes at the end.
proof fn fields_bytes_push(fields: Seq<Field>, last: Field)
    ensures
        fields_bytes(fields.push(last)) == fields_bytes(fields) + sized_text(last.0) + sized_text(
            last.1,
        ),
    decreases fields.len(),
{
    let all = fields.push(last);
    if fields.len() == 0 {
        assert(all.drop_first() =~= Seq::<Field>::empty());
        assert(fields_bytes(all.drop_first()) =~= Seq::<u8>::empty());
        assert(fields_bytes(all) =~= sized_text(last.0) + sized_text(last.1));
        assert(fields_bytes(fields) + sized_text(last.0) + sized_text(last.1) =~= sized_text(last.0)
            + sized_text(last.1));
    } else {
        fields_bytes_push(fields.drop_first(), last);
        assert(all.drop_first() =~= fields.drop_first().push(last));
        assert(fields_bytes(all) =~= fields_bytes(fields) + sized_text(last.0) + sized_text(
            last.1,
        ));
    }
}

fn put_fields(buf: &mut Vec<u8>, fields: &Headers)
    ensures
        final(buf)@ == old(buf)@ + fields_bytes(fields@),
{
    let ghost before = buf@;
    let mut i: usize = 0;
    assert(fields_bytes(fields@.take(0)) =~= Seq::<u8>::empty());
    while i < fields.len()
        invariant
            i <= fields@.len(),
            buf@ == before + fields_bytes(fields@.take(i as int)),
        decreases fields@.len() - i,
    {
        let (name, value) = fields.at(i);
        put_str(buf, name);
        put_str(buf, value);
        proof {
            fields_bytes_push(fields@.take(i as int), fields@[i as int]);
            assert(fields@.take(i + 1) =~= fields@.take(i as int).push(fields@[i as int]));
            assert(buf@ =~= before + fields_bytes(fields@.take(i + 1)));
        }
        i = i + 1;
    }
    assert(fields@.take(i as int) =~= fields@);
}

fn put_state(buf: &mut Vec<u8>, state: &KeyState)
    ensures
        final(buf)@ == old(buf)@ + state_bytes(state@),
{
    let ghost before = buf@;
    match state {
        KeyState::InProgress { fence, fingerprint, lease_expires_at_ms } => {
            buf.push(TAG_IN_PROGRESS);
            put_u64(buf, fence.0);
            put_raw(buf, &fingerprint.0);
            put_u64(buf, *lease_expires_at_ms);
        },
        KeyState::Completed { fingerprint, outcome, completed_at_ms } => {
            buf.push(TAG_COMPLETED);
            put_raw(buf, &fingerprint.0);
            put_u64(buf, *completed_at_ms);
            put_u16(buf, outcome.status);
            put_u32(buf, outcome.headers.len() as u32);
            put_fields(buf, &outcome.headers);
            put_bytes(buf, outcome.body.as_slice());
        },
    }
    assert(buf@ =~= before + state_bytes(state@));
}

/// Serialize one `(key, state)` into a self-describing, length-framed,
/// checksummed, hash-chained record.
///
/// `prev_chain` is the chain hash of the immediately preceding record (or
/// [`GENESIS`] for the first record).
pub fn encode_record(key: &IdempotencyKey, state: &KeyState, prev_chain: &[u8; 32]) -> (record: Vec<
    u8,
>)
    ensures
        record@ == record_bytes(key@, state@, prev_chain@),
{
    let mut payload: Vec<u8> = Vec::new();
    put_str(&mut payload, key.0.as_str());
    put_state(&mut payload, state);
    assert(payload@ =~= payload_bytes(key@, state@));
    let crc: u32 = crc32(payload.as_slice());
    let chain = compute_chain(prev_chain, crc, payload.as_slice());
    let mut record: Vec<u8> = Vec::new();
    put_u32(&mut record, payload.len() as u32);
    put_u32(&mut record, crc);
    put_raw(&mut record, &chain);
    put_raw(&mut record, payload.as_slice());
    assert(record@ =~= framed(payload@, prev_chain@));
    record
}


// ---------------------------------------------------------------------------
// Decoding
// ---------------------------------------------------------------------------

/// The 16-bit integer at `at`, and where it ends.
pub open spec fn read_u16(b: Seq<u8>, at: int) -> Option<(u16, int)> {
    if at + 2 <= b.len() {
        Some((bytes::u16_at(b, at), at + 2))
    } else {
        None
    }
}

/// The 32-bit integer at `at`, and where it ends.
pub open spec fn read_u32(b: Seq<u8>, at: int) -> Option<(u32, int)> {
    if at + 4 <= b.len() {
        Some((bytes::u32_at(b, at), at + 4))
    } else {
        None
    }
}

/// The 64-bit integer at `at`, and where it ends.
pub open spec fn read_u64(b: Seq<u8>, at: int) -> Option<(u64, int)> {
    if at + 8 <= b.len() {
        Some((bytes::u64_at(b, at), at + 8))
    } else {
        None
    }
}

/// The `n` bytes at `at`, and where they end.
pub open spec fn read_raw(b: Seq<u8>, at: int, n: int) -> Option<(Seq<u8>, int)> {
    if at + n <= b.len() {
        Some((b.subrange(at, at + n), at + n))
    } else {
        None
    }
}

/// The byte string whose length stands at `at`, and where it ends.
pub open spec fn read_sized(b: Seq<u8>, at: int) -> Option<(Seq<u8>, int)> {
    match read_u32(b, at) {
        Some((n, p)) => read_raw(b, p, n as int),
        None => None,
    }
}

/// The text whose length stands at `at`, and where it ends.
pub open spec fn read_text(b: Seq<u8>, at: int) -> Option<(Seq<char>, int)> {
    match read_sized(b, at) {
        Some((raw, p)) => if valid_utf8(raw) {
            Some((decode_utf8(raw), p))
        } else {
            None
        },
        None => None,
    }
}

/// `fields` with the `count` fields at `at` after them, and where those end.
pub open spec fn read_fields(b: Seq<u8>, at: int, count: nat, fields: Seq<Field>) -> Option<
    (Seq<Field>, int),
>
    decreases count,
{
    if count == 0 {
        Some((fields, at))
    } else {
        match read_text(b, at) {
            None => None,
            Some((name, p)) => match read_text(b, p) {
                None => None,
                Some((value, q)) => read_fields(
                    b,
                    q,
                    (count - 1) as nat,
                    fields.push((name, value)),
                ),
            },
        }
    }
}

/// The in-progress state whose fields start at `at`, and where they end.
pub open spec fn read_in_progress(b: Seq<u8>, at: int) -> Option<(StateView, int)> {
    match read_u64(b, at) {
        None => None,
        Some((fence, p)) => match read_raw(b, p, 32) {
            None => None,
            Some((fingerprint, q)) => match read_u64(b, q) {
                None => None,
                Some((lease_expires_at_ms, end)) => Some(
                    (StateView::InProgress { fence, fingerprint, lease_expires_at_ms }, end),
                ),
            },
        },
    }
}

/// The outcome that starts at `at`, and where it ends.
pub open spec fn read_outcome(b: Seq<u8>, at: int) -> Option<(OutcomeView, int)> {
    match read_u16(b, at) {
        None => None,
        Some((status, p)) => match read_u32(b, p) {
            None => None,
            Some((count, q)) => match read_fields(b, q, count as nat, Seq::empty()) {
                None => None,
                Some((headers, r)) => match read_sized(b, r) {
                    None => None,
                    Some((body, end)) => Some((OutcomeView { status, headers, body }, end)),
                },
            },
        },
    }
}

/// The completed state whose fields start at `at`, and where they end.
pub open spec fn read_completed(b: Seq<u8>, at: int) -> Option<(StateView, int)> {
    match read_raw(b, at, 32) {
        None => None,
        Some((fingerprint, p)) => match read_u64(b, p) {
            None => None,
            Some((completed_at_ms, q)) => match read_outcome(b, q) {
                None => None,
                Some((outcome, end)) => Some(
                    (StateView::Completed { fingerprint, outcome, completed_at_ms }, end),
                ),
            },
        },
    }
}

/// The state whose tag stands at `at`, and where it ends.
pub open spec fn read_state(b: Seq<u8>, at: int) -> Option<(StateView, int)> {
    if at + 1 > b.len() {
        None
    } else if b[at] == TAG_IN_PROGRESS {
        read_in_progress(b, at + 1)
    } else if b[at] == TAG_COMPLETED {
        read_completed(b, at + 1)
    } else {
        None
    }
}

/// The key and state that a payload holds, and where they end. Bytes after that
/// are ignored.
#[verifier::opaque]
pub open spec fn read_payload(b: Seq<u8>) -> Option<(Seq<char>, StateView, int)> {
    match read_text(b, 0) {
        None => None,
        Some((key, p)) => match read_state(b, p) {
            None => None,
            Some((state, end)) => Some((key, state, end)),
        },
    }
}

/// A decoded record.
pub struct RecordView {
    /// Bytes that the record takes.
    pub consumed: int,
    pub key: Seq<char>,
    pub state: StateView,
    /// The chain hash that the record carries, unverified.
    pub chain: Seq<u8>,
}

/// Whether `b` begins with a whole frame.
pub open spec fn has_whole_frame(b: Seq<u8>) -> bool {
    &&& b.len() >= HEADER_LEN
    &&& b.len() >= HEADER_LEN + bytes::u32_at(b, 0)
}

/// The payload of the whole frame that `b` begins with.
pub open spec fn frame_payload(b: Seq<u8>) -> Seq<u8> {
    b.subrange(HEADER_LEN as int, HEADER_LEN + bytes::u32_at(b, 0))
}

/// The record at the front of `b`: a whole frame with a matching checksum and a
/// well-formed payload.
pub open spec fn read_record(b: Seq<u8>) -> Option<RecordView> {
    if !has_whole_frame(b) || crc32_of(frame_payload(b)) != bytes::u32_at(b, 4) {
        None
    } else {
        match read_payload(frame_payload(b)) {
            None => None,
            Some((key, state, _)) => Some(
                RecordView {
                    consumed: HEADER_LEN + bytes::u32_at(b, 0),
                    key,
                    state,
                    chain: b.subrange(8, 40),
                },
            ),
        }
    }
}

/// A bounds-checked reader over a record payload. Every read returns `None` past
/// the end, so a truncated or corrupt payload never yields a partial record.
struct Reader<'a> {
    buf: &'a [u8],
    pos: usize,
}

impl<'a> Reader<'a> {
    spec fn ok(&self) -> bool {
        self.pos <= self.buf@.len()
    }

    /// The reader moved on to `pos` in the same buffer.
    spec fn moved_to(&self, before: &Self, pos: int) -> bool {
        &&& self.buf@ == before.buf@
        &&& self.pos == pos
        &&& self.ok()
    }

    fn new(buf: &'a [u8]) -> (r: Self)
        ensures
            r.ok(),
            r.buf@ == buf@,
            r.pos == 0,
    {
        Reader { buf, pos: 0 }
    }

    fn take(&mut self, n: usize) -> (r: Option<&'a [u8]>)
        requires
            old(self).ok(),
        ensures
            match read_raw(old(self).buf@, old(self).pos as int, n as int) {
                None => r is None,
                Some((raw, p)) => r matches Some(s) && s@ == raw && final(self).moved_to(
                    old(self),
                    p,
                ),
            },
    {
        if n > self.buf.len() - self.pos {
            return None;
        }
        let end: usize = self.pos + n;
        let slice = slice_subrange(self.buf, self.pos, end);
        self.pos = end;
        Some(slice)
    }

    fn u8(&mut self) -> (r: Option<u8>)
        requires
            old(self).ok(),
        ensures
            match r {
                None => old(self).pos + 1 > old(self).buf@.len(),
                Some(x) => old(self).pos < old(self).buf@.len() && x == old(self).buf@[old(
                    self).pos as int] && final(self).moved_to(old(self), old(self).pos + 1),
            },
    {
        match self.take(1) {
            None => None,
            Some(s) => Some(s[0]),
        }
    }

    fn u16(&mut self) -> (r: Option<u16>)
        requires
            old(self).ok(),
        ensures
            match read_u16(old(self).buf@, old(self).pos as int) {
                None => r is None,
                Some((x, p)) => r == Some(x) && final(self).moved_to(old(self), p),
            },
    {
        match self.take(2) {
            None => None,
            Some(s) => Some(get_u16(s, 0)),
        }
    }

    fn u32(&mut self) -> (r: Option<u32>)
        requires
            old(self).ok(),
        ensures
            match read_u32(old(self).buf@, old(self).pos as int) {
                None => r is None,
                Some((x, p)) => r == Some(x) && final(self).moved_to(old(self), p),
            },
    {
        match self.take(4) {
            None => None,
            Some(s) => Some(get_u32(s, 0)),
        }
    }

    fn u64(&mut self) -> (r: Option<u64>)
        requires
            old(self).ok(),
        ensures
            match read_u64(old(self).buf@, old(self).pos as int) {
                None => r is None,
                Some((x, p)) => r == Some(x) && final(self).moved_to(old(self), p),
            },
    {
        match self.take(8) {
            None => None,
            Some(s) => Some(get_u64(s, 0)),
        }
    }

    fn arr32(&mut self) -> (r: Option<[u8; 32]>)
        requires
            old(self).ok(),
        ensures
            match read_raw(old(self).buf@, old(self).pos as int, 32) {
                None => r is None,
                Some((raw, p)) => r matches Some(a) && a@ == raw && final(self).moved_to(
                    old(self),
                    p,
                ),
            },
    {
        match self.take(32) {
            None => None,
            Some(s) => {
                assert(s@.take(32) =~= s@);
                Some(to_array32(s))
            },
        }
    }

    fn bytes(&mut self) -> (r: Option<Vec<u8>>)
        requires
            old(self).ok(),
        ensures
            match read_sized(old(self).buf@, old(self).pos as int) {
                None => r is None,
                Some((raw, p)) => r matches Some(v) && v@ == raw && final(self).moved_to(
                    old(self),
                    p,
                ),
            },
    {
        match self.u32() {
            None => None,
            Some(n) => match self.take(n as usize) {
                None => None,
                Some(s) => Some(copy_bytes(s)),
            },
        }
    }

    fn string(&mut self) -> (r: Option<String>)
        requires
            old(self).ok(),
        ensures
            match read_text(old(self).buf@, old(self).pos as int) {
                None => r is None,
                Some((t, p)) => r matches Some(s) && s@ == t && final(self).moved_to(old(self), p),
            },
    {
        match self.bytes() {
            None => None,
            Some(v) => string_from_utf8(v),
        }
    }

    fn fields(&mut self, count: u32) -> (r: Option<Headers>)
        requires
            old(self).ok(),
        ensures
            match read_fields(old(self).buf@, old(self).pos as int, count as nat, Seq::empty()) {
                None => r is None,
                Some((fields, p)) => r matches Some(h) && h@ == fields && final(self).moved_to(
                    old(self),
                    p,
                ),
            },
    {
        let ghost b = self.buf@;
        let ghost start = self.pos as int;
        let mut fields = Headers::new();
        let mut left: u32 = count;
        while left > 0
            invariant
                self.ok(),
                self.buf@ == b,
                b == old(self).buf@,
                start == old(self).pos,
                left <= count,
                read_fields(b, start, count as nat, Seq::empty()) == read_fields(
                    b,
                    self.pos as int,
                    left as nat,
                    fields@,
                ),
            decreases left,
        {
            let name = match self.string() {
                None => {
                    return None;
                },
                Some(name) => name,
            };
            let value = match self.string() {
                None => {
                    return None;
                },
                Some(value) => value,
            };
            fields.push(name, value);
            left = left - 1;
        }
        Some(fields)
    }

    fn in_progress(&mut self) -> (r: Option<KeyState>)
        requires
            old(self).ok(),
        ensures
            match read_in_progress(old(self).buf@, old(self).pos as int) {
                None => r is None,
                Some((s, p)) => r matches Some(state) && state@ == s && final(self).moved_to(
                    old(self),
                    p,
                ),
            },
    {
        let fence = match self.u64() {
            None => {
                return None;
            },
            Some(fence) => fence,
        };
        let fingerprint = match self.arr32() {
            None => {
                return None;
            },
            Some(fingerprint) => fingerprint,
        };
        match self.u64() {
            None => None,
            Some(lease_expires_at_ms) => Some(
                KeyState::InProgress {
                    fence: Fence(fence),
                    fingerprint: RequestFingerprint(fingerprint),
                    lease_expires_at_ms,
                },
            ),
        }
    }

    fn outcome(&mut self) -> (r: Option<CachedOutcome>)
        requires
            old(self).ok(),
        ensures
            match read_outcome(old(self).buf@, old(self).pos as int) {
                None => r is None,
                Some((o, p)) => r matches Some(outcome) && outcome@ == o && final(self).moved_to(
                    old(self),
                    p,
                ),
            },
    {
        let status = match self.u16() {
            None => {
                return None;
            },
            Some(status) => status,
        };
        let count = match self.u32() {
            None => {
                return None;
            },
            Some(count) => count,
        };
        let headers = match self.fields(count) {
            None => {
                return None;
            },
            Some(headers) => headers,
        };
        match self.bytes() {
            None => None,
            Some(body) => Some(CachedOutcome { status, headers, body }),
        }
    }

    fn completed(&mut self) -> (r: Option<KeyState>)
        requires
            old(self).ok(),
        ensures
            match read_completed(old(self).buf@, old(self).pos as int) {
                None => r is None,
                Some((s, p)) => r matches Some(state) && state@ == s && final(self).moved_to(
                    old(self),
                    p,
                ),
            },
    {
        let fingerprint = match self.arr32() {
            None => {
                return None;
            },
            Some(fingerprint) => fingerprint,
        };
        let completed_at_ms = match self.u64() {
            None => {
                return None;
            },
            Some(completed_at_ms) => completed_at_ms,
        };
        match self.outcome() {
            None => None,
            Some(outcome) => Some(
                KeyState::Completed {
                    fingerprint: RequestFingerprint(fingerprint),
                    outcome,
                    completed_at_ms,
                },
            ),
        }
    }
}

/// Whether `buf` begins with a complete record frame. If it does and
/// [`decode_record`] still fails, a durable record is corrupt: that is not a
/// partially written tail.
pub fn is_complete_frame(buf: &[u8]) -> (r: bool)
    ensures
        r == has_whole_frame(buf@),
{
    if buf.len() < HEADER_LEN {
        return false;
    }
    let len: usize = get_u32(buf, 0) as usize;
    buf.len() - HEADER_LEN >= len
}

/// Decode one record from the front of `buf`. Returns the number of bytes
/// consumed, the record, and the stored chain hash; or `None` if `buf` does not
/// begin with a complete, checksum-valid record.
///
/// The chain hash is not verified here: that is left to the caller, so that
/// replay can accumulate the chain progressively.
pub fn decode_record(buf: &[u8]) -> (r: Option<(usize, IdempotencyKey, KeyState, [u8; 32])>)
    ensures
        match read_record(buf@) {
            None => r is None,
            Some(record) => r matches Some((consumed, key, state, chain)) && consumed
                == record.consumed && key@ == record.key && state@ == record.state && chain@
                == record.chain,
        },
        r matches Some((consumed, _, _, _)) ==> HEADER_LEN <= consumed <= buf@.len(),
{
    if !is_complete_frame(buf) {
        return None;
    }
    let len: usize = get_u32(buf, 0) as usize;
    let crc: u32 = get_u32(buf, 4);
    assert(HEADER_LEN + len <= buf.len());
    let total: usize = HEADER_LEN + len;
    let payload = slice_subrange(buf, HEADER_LEN, total);
    if crc32(payload) != crc {
        return None;
    }
    proof {
        reveal(read_payload);
    }
    let mut reader = Reader::new(payload);
    let key = match reader.string() {
        None => {
            return None;
        },
        Some(key) => key,
    };
    let tag = match reader.u8() {
        None => {
            return None;
        },
        Some(tag) => tag,
    };
    let state = if tag == TAG_IN_PROGRESS {
        reader.in_progress()
    } else if tag == TAG_COMPLETED {
        reader.completed()
    } else {
        None
    };
    match state {
        None => None,
        Some(state) => {
            let stored = slice_subrange(buf, 8, 40);
            assert(stored@.take(32) =~= stored@);
            Some((total, IdempotencyKey(key), state, to_array32(stored)))
        },
    }
}

} // verus!
