//! # onced
//!
//! The verified core of an idempotency gateway: **exactly-once effect** and
//! **abuse defense**. The crate is pure: no I/O, no clock, no threads and no
//! randomness of its own. Time, bytes read from disk and upstream replies are
//! handed in by the caller, which is what lets every guarantee be stated as a
//! contract.
//!
//! This file holds the shared vocabulary (the persisted key states); the
//! behaviour that operates on it lives in [`engine`], [`store`] and [`wal`].

pub mod abuse;
pub mod abuse_laws;
pub mod bench;
pub mod bytes;
pub mod client_laws;
pub mod config;
pub mod engine;
pub mod engine_laws;
pub mod gateway;
pub mod gateway_laws;
pub mod hash;
pub mod hash_laws;
pub mod hashing;
pub mod headers;
pub mod hll;
pub mod http;
pub mod lex;
pub mod line;
pub mod metrics;
pub mod pow;
pub mod proxy;
pub mod replication;
pub mod router;
pub mod router_laws;
pub mod sim;
pub mod sketch;
pub mod store;
pub mod table;
pub mod text;
pub mod velocity;
pub mod wal;

use crate::headers::Headers;
use crate::text::{copy_bytes, same_bytes};
use vstd::prelude::*;

verus! {

/// A client-supplied idempotency key, such as the value of an `Idempotency-Key`
/// HTTP header. Two requests carrying the same key are meant to produce the same
/// effect exactly once.
#[derive(Debug, PartialEq, Eq, Hash, PartialOrd, Ord)]
pub struct IdempotencyKey(pub String);

impl View for IdempotencyKey {
    type V = Seq<char>;

    open spec fn view(&self) -> Seq<char> {
        self.0@
    }
}

impl Clone for IdempotencyKey {
    fn clone(&self) -> (r: Self)
        ensures
            r@ == self@,
    {
        IdempotencyKey(self.0.clone())
    }
}

/// A 32-byte fingerprint of the meaningful content of a request (method, target
/// and body). A key reused with a different fingerprint is rejected rather than
/// answered with the wrong cached response.
#[derive(Clone, Copy, Debug, PartialEq, Eq, Hash)]
pub struct RequestFingerprint(pub [u8; 32]);

impl View for RequestFingerprint {
    type V = Seq<u8>;

    open spec fn view(&self) -> Seq<u8> {
        self.0@
    }
}

impl RequestFingerprint {
    /// Whether two fingerprints are equal.
    pub fn same(&self, other: &RequestFingerprint) -> (r: bool)
        ensures
            r == (self@ == other@),
    {
        same_bytes(&self.0, &other.0)
    }
}

/// A monotonically increasing fencing token, handed out when a key is locked.
///
/// A worker that stalls and resumes after its lease has expired presents a stale
/// fence, and its writes are rejected.
#[derive(Clone, Copy, Debug, PartialEq, Eq, PartialOrd, Ord, Hash)]
pub struct Fence(pub u64);

/// The cached outcome of the first successful execution for a key: exactly what
/// is replayed, verbatim, to every later request that carries the same key.
#[derive(Debug, PartialEq, Eq)]
pub struct CachedOutcome {
    /// HTTP-style status code of the original response.
    pub status: u16,
    /// Response headers to replay, every one in its place.
    pub headers: Headers,
    /// Response body bytes to replay.
    pub body: Vec<u8>,
}

/// What a [`CachedOutcome`] holds.
#[verifier::ext_equal]
pub struct OutcomeView {
    pub status: u16,
    pub headers: Seq<(Seq<char>, Seq<char>)>,
    pub body: Seq<u8>,
}

impl View for CachedOutcome {
    type V = OutcomeView;

    open spec fn view(&self) -> OutcomeView {
        OutcomeView { status: self.status, headers: self.headers@, body: self.body@ }
    }
}

impl CachedOutcome {
    /// Whether two outcomes are equal.
    pub fn same(&self, other: &CachedOutcome) -> (r: bool)
        ensures
            r == (self@ == other@),
    {
        self.status == other.status && self.headers.same(&other.headers) && same_bytes(
            self.body.as_slice(),
            other.body.as_slice(),
        )
    }
}

impl Clone for CachedOutcome {
    fn clone(&self) -> (r: Self)
        ensures
            r@ == self@,
    {
        CachedOutcome {
            status: self.status,
            headers: self.headers.clone(),
            body: copy_bytes(self.body.as_slice()),
        }
    }
}

/// The persisted state of a single idempotency key.
///
/// The states form a one-directional graph: an `InProgress` key may only advance
/// to `Completed`, and a `Completed` outcome is never overwritten until it
/// expires past its time-to-live and the key is recycled.
#[derive(Debug, PartialEq, Eq)]
pub enum KeyState {
    /// A fenced worker currently holds the lock and is executing the side effect.
    InProgress {
        /// The fence held by the active worker.
        fence: Fence,
        /// Binds this key to the specific request that started it.
        fingerprint: RequestFingerprint,
        /// Injected wall-clock millis after which the lease is presumed dead and
        /// a retry may take over the key with a fresh fence.
        lease_expires_at_ms: u64,
    },
    /// The side effect ran exactly once; `outcome` is replayed to all retries.
    Completed {
        /// Binds the cached outcome to the request that produced it.
        fingerprint: RequestFingerprint,
        /// The response to replay for every future request bearing this key.
        outcome: CachedOutcome,
        /// Injected wall-clock millis at which the key completed. A time-to-live
        /// later the key is expired and may be recycled by a brand-new request.
        completed_at_ms: u64,
    },
}

/// What a [`KeyState`] holds.
#[verifier::ext_equal]
pub enum StateView {
    InProgress { fence: u64, fingerprint: Seq<u8>, lease_expires_at_ms: u64 },
    Completed { fingerprint: Seq<u8>, outcome: OutcomeView, completed_at_ms: u64 },
}

impl View for KeyState {
    type V = StateView;

    open spec fn view(&self) -> StateView {
        match *self {
            KeyState::InProgress { fence, fingerprint, lease_expires_at_ms } => {
                StateView::InProgress {
                    fence: fence.0,
                    fingerprint: fingerprint@,
                    lease_expires_at_ms,
                }
            },
            KeyState::Completed { fingerprint, outcome, completed_at_ms } => {
                StateView::Completed {
                    fingerprint: fingerprint@,
                    outcome: outcome@,
                    completed_at_ms,
                }
            },
        }
    }
}

impl Clone for KeyState {
    fn clone(&self) -> (r: Self)
        ensures
            r@ == self@,
    {
        match self {
            KeyState::InProgress { fence, fingerprint, lease_expires_at_ms } => {
                KeyState::InProgress {
                    fence: *fence,
                    fingerprint: *fingerprint,
                    lease_expires_at_ms: *lease_expires_at_ms,
                }
            },
            KeyState::Completed { fingerprint, outcome, completed_at_ms } => {
                KeyState::Completed {
                    fingerprint: *fingerprint,
                    outcome: outcome.clone(),
                    completed_at_ms: *completed_at_ms,
                }
            },
        }
    }
}

/// The model of an outcome holds what the outcome holds, part by part.
pub proof fn an_outcome_is_modelled_whole(outcome: CachedOutcome)
    ensures
        outcome@.status == outcome.status,
        outcome@.headers == outcome.headers@,
        outcome@.body == outcome.body@,
{
}

/// The model of a state holds what the state holds, part by part.
pub proof fn a_state_is_modelled_whole(state: KeyState)
    ensures
        match (state, state@) {
            (
                KeyState::InProgress { fence, fingerprint, lease_expires_at_ms },
                StateView::InProgress { fence: f, fingerprint: p, lease_expires_at_ms: l },
            ) => f == fence.0 && p == fingerprint.0@ && l == lease_expires_at_ms,
            (
                KeyState::Completed { fingerprint, outcome, completed_at_ms },
                StateView::Completed { fingerprint: p, outcome: o, completed_at_ms: c },
            ) => p == fingerprint.0@ && o == outcome@ && c == completed_at_ms,
            _ => false,
        },
{
}

/// The model of a key is all of its text, and that of a fingerprint all of its bytes.
pub proof fn a_key_is_modelled_whole(key: IdempotencyKey, fingerprint: RequestFingerprint)
    ensures
        key@ == key.0@,
        fingerprint@ == fingerprint.0@,
{
}

} // verus!
