//! The workload of the throughput measurements: requests that differ in their
//! number only.

use crate::headers::Headers;
use crate::http::wire_laws;
use crate::lex;
use crate::lex::TextBuf;
use crate::sim;
use crate::sim::fingerprint_of;
use crate::{CachedOutcome, IdempotencyKey, OutcomeView, RequestFingerprint};
use vstd::prelude::*;

verus! {

/// The key of request `i`.
pub fn key(i: u64) -> (key: IdempotencyKey)
    ensures
        key@ == "k-"@ + lex::decimal_text(i as nat),
{
    let mut text = TextBuf::new();
    text.push("k-");
    text.push_number(i);
    let key = IdempotencyKey(text.into_text());
    assert(key@ =~= "k-"@ + lex::decimal_text(i as nat));
    key
}

/// The fingerprint of request `i`.
pub fn fingerprint(i: u64) -> (fingerprint: RequestFingerprint)
    ensures
        fingerprint@ == sim::model::fingerprint_bytes(i),
{
    fingerprint_of(i)
}

/// The outcome of every request.
pub fn outcome() -> (outcome: CachedOutcome)
    ensures
        outcome@ == (OutcomeView {
            status: 200,
            headers: Seq::empty(),
            body: seq![0x6f, 0x6b],
        }),
{
    let mut body: Vec<u8> = Vec::new();
    body.push(0x6f);
    body.push(0x6b);
    let outcome = CachedOutcome { status: 200, headers: Headers::new(), body };
    assert(outcome@.body =~= seq![0x6f, 0x6b]);
    outcome
}

/// Requests with different numbers have different keys and different fingerprints.
pub proof fn requests_differ_in_their_number(
    i: u64,
    j: u64,
    a: IdempotencyKey,
    b: IdempotencyKey,
    p: RequestFingerprint,
    q: RequestFingerprint,
)
    requires
        call_ensures(key, (i,), a),
        call_ensures(key, (j,), b),
        call_ensures(fingerprint, (i,), p),
        call_ensures(fingerprint, (j,), q),
        i != j,
    ensures
        a@ != b@,
        p@ != q@,
{
    let (s, t) = (lex::decimal_text(i as nat), lex::decimal_text(j as nat));
    let head = "k-"@;
    assert((head + s).skip(head.len() as int) =~= s);
    assert((head + t).skip(head.len() as int) =~= t);
    wire_laws::written_digits_denote_the_number(i as nat);
    wire_laws::written_digits_denote_the_number(j as nat);
    sim::laws::requests_are_told_apart(i, j);
}

} // verus!
