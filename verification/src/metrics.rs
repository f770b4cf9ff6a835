//! Operational counters, and their Prometheus text form.

use crate::engine;
use crate::http::wire_laws;
use crate::lex;
use crate::lex::TextBuf;
use vstd::prelude::*;

verus! {

/// Operational counters the gateway exposes at `/metrics`. A counter stops at the
/// largest value there is.
#[derive(Debug, Clone, Copy, PartialEq, Eq)]
pub struct Metrics {
    /// Proxied requests (excludes the `/healthz` and `/metrics` endpoints).
    pub requests_total: u64,
    /// First attempts that ran the backend once and cached the outcome.
    pub created: u64,
    /// Retries served from cache without touching the backend.
    pub replayed: u64,
    /// Concurrent duplicates told to retry shortly (`409`).
    pub in_progress: u64,
    /// Key reused with a different request (`422`).
    pub mismatch: u64,
    /// Requests denied by an abuse rule (`429`).
    pub denied: u64,
    /// Backend forwarding failures (`502`).
    pub upstream_error: u64,
    /// Requests forwarded straight through (no `Idempotency-Key`).
    pub passthrough: u64,
}

/// All counters at zero.
pub open spec fn no_metrics() -> Metrics {
    Metrics {
        requests_total: 0,
        created: 0,
        replayed: 0,
        in_progress: 0,
        mismatch: 0,
        denied: 0,
        upstream_error: 0,
        passthrough: 0,
    }
}

/// A counter after one more event.
pub open spec fn bumped(n: u64) -> u64 {
    engine::capped_sum(n, 1)
}

/// Two sets of counters added up.
pub open spec fn merged(a: Metrics, b: Metrics) -> Metrics {
    Metrics {
        requests_total: engine::capped_sum(a.requests_total, b.requests_total),
        created: engine::capped_sum(a.created, b.created),
        replayed: engine::capped_sum(a.replayed, b.replayed),
        in_progress: engine::capped_sum(a.in_progress, b.in_progress),
        mismatch: engine::capped_sum(a.mismatch, b.mismatch),
        denied: engine::capped_sum(a.denied, b.denied),
        upstream_error: engine::capped_sum(a.upstream_error, b.upstream_error),
        passthrough: engine::capped_sum(a.passthrough, b.passthrough),
    }
}

/// The line of one outcome in the text form.
pub open spec fn outcome_line(outcome: Seq<char>, n: u64) -> Seq<char> {
    "onced_outcomes_total{outcome=\""@ + outcome + "\"} "@ + lex::decimal_text(n as nat) + "\n"@
}

/// The Prometheus text form.
pub open spec fn metrics_text(m: Metrics) -> Seq<char> {
    "# HELP onced_requests_total Proxied requests handled.\n"@
        + "# TYPE onced_requests_total counter\n"@ + "onced_requests_total "@ + lex::decimal_text(
        m.requests_total as nat,
    ) + "\n"@ + "# HELP onced_outcomes_total Responses by how they were produced.\n"@
        + "# TYPE onced_outcomes_total counter\n"@ + outcome_line("created"@, m.created)
        + outcome_line("replayed"@, m.replayed) + outcome_line("in_progress"@, m.in_progress)
        + outcome_line("mismatch"@, m.mismatch) + outcome_line("denied"@, m.denied) + outcome_line(
        "upstream_error"@,
        m.upstream_error,
    ) + outcome_line("passthrough"@, m.passthrough)
}

fn push_outcome(out: &mut TextBuf, outcome: &str, n: u64)
    requires
        old(out).wf(),
    ensures
        final(out).wf(),
        final(out)@ == old(out)@ + outcome_line(outcome@, n),
{
    let ghost before = out@;
    out.push("onced_outcomes_total{outcome=\"");
    out.push(outcome);
    out.push("\"} ");
    out.push_number(n);
    out.push("\n");
    assert(out@ =~= before + outcome_line(outcome@, n));
}

impl Metrics {
    /// Fold another shard's counters into this one.
    pub fn merge(&mut self, other: &Metrics)
        ensures
            *final(self) == merged(*old(self), *other),
    {
        self.requests_total = self.requests_total.saturating_add(other.requests_total);
        self.created = self.created.saturating_add(other.created);
        self.replayed = self.replayed.saturating_add(other.replayed);
        self.in_progress = self.in_progress.saturating_add(other.in_progress);
        self.mismatch = self.mismatch.saturating_add(other.mismatch);
        self.denied = self.denied.saturating_add(other.denied);
        self.upstream_error = self.upstream_error.saturating_add(other.upstream_error);
        self.passthrough = self.passthrough.saturating_add(other.passthrough);
    }

    /// The text form under construction.
    fn build(&self) -> (out: TextBuf)
        ensures
            out.wf(),
            out@ == metrics_text(*self),
    {
        let mut out = TextBuf::new();
        out.push("# HELP onced_requests_total Proxied requests handled.\n");
        assert(out@ =~= "# HELP onced_requests_total Proxied requests handled.\n"@);
        out.push("# TYPE onced_requests_total counter\n");
        out.push("onced_requests_total ");
        out.push_number(self.requests_total);
        out.push("\n");
        out.push("# HELP onced_outcomes_total Responses by how they were produced.\n");
        out.push("# TYPE onced_outcomes_total counter\n");
        push_outcome(&mut out, "created", self.created);
        push_outcome(&mut out, "replayed", self.replayed);
        push_outcome(&mut out, "in_progress", self.in_progress);
        push_outcome(&mut out, "mismatch", self.mismatch);
        push_outcome(&mut out, "denied", self.denied);
        push_outcome(&mut out, "upstream_error", self.upstream_error);
        push_outcome(&mut out, "passthrough", self.passthrough);
        out
    }

    /// Render as Prometheus text exposition format.
    pub fn render(&self) -> (text: String)
        ensures
            text@ == metrics_text(*self),
    {
        self.build().into_text()
    }

    /// The encoding of [`render`](Metrics::render).
    pub fn render_bytes(&self) -> (bytes: Vec<u8>)
        ensures
            bytes@ == vstd::utf8::encode_utf8(metrics_text(*self)),
    {
        self.build().into_bytes()
    }
}

impl Default for Metrics {
    fn default() -> (r: Self)
        ensures
            r == no_metrics(),
    {
        Metrics {
            requests_total: 0,
            created: 0,
            replayed: 0,
            in_progress: 0,
            mismatch: 0,
            denied: 0,
            upstream_error: 0,
            passthrough: 0,
        }
    }
}

/// Adding up counters does not depend on the order, and adding none changes
/// nothing.
pub proof fn merging_is_order_free(a: Metrics, b: Metrics, c: Metrics)
    ensures
        merged(a, b) == merged(b, a),
        merged(merged(a, b), c) == merged(a, merged(b, c)),
        merged(a, no_metrics()) == a,
{
}

/// The text has a line that starts with `label` and goes on with `n` in decimal digits.
pub open spec fn has_line(text: Seq<char>, label: Seq<char>, n: u64) -> bool {
    exists|before: Seq<char>, digits: Seq<char>, after: Seq<char>| #[trigger]
        is_line_of(text, before, label, digits, after) && wire_laws::denotes(digits, n as nat)
}

/// The text is made of these pieces: `before` ends a line or is nothing, and a line feed
/// stands behind the digits.
pub open spec fn is_line_of(
    text: Seq<char>,
    before: Seq<char>,
    label: Seq<char>,
    digits: Seq<char>,
    after: Seq<char>,
) -> bool {
    &&& text == before + label + digits + seq!['\n'] + after
    &&& before.len() == 0 || before.last() == '\n'
}

/// Every counter is shown under its own name, in decimal digits.
pub open spec fn shows(text: Seq<char>, m: Metrics) -> bool {
    &&& has_line(text, "onced_requests_total "@, m.requests_total)
    &&& has_line(text, "onced_outcomes_total{outcome=\"created\"} "@, m.created)
    &&& has_line(text, "onced_outcomes_total{outcome=\"replayed\"} "@, m.replayed)
    &&& has_line(text, "onced_outcomes_total{outcome=\"in_progress\"} "@, m.in_progress)
    &&& has_line(text, "onced_outcomes_total{outcome=\"mismatch\"} "@, m.mismatch)
    &&& has_line(text, "onced_outcomes_total{outcome=\"denied\"} "@, m.denied)
    &&& has_line(text, "onced_outcomes_total{outcome=\"upstream_error\"} "@, m.upstream_error)
    &&& has_line(text, "onced_outcomes_total{outcome=\"passthrough\"} "@, m.passthrough)
}

/// A line in the middle of a text is one of its lines.
proof fn a_line_in_the_middle(
    text: Seq<char>,
    before: Seq<char>,
    label: Seq<char>,
    n: u64,
    after: Seq<char>,
)
    requires
        text == before + label + lex::decimal_text(n as nat) + seq!['\n'] + after,
        before.len() == 0 || before.last() == '\n',
    ensures
        has_line(text, label, n),
{
    wire_laws::written_digits_denote_the_number(n as nat);
    assert(is_line_of(text, before, label, lex::decimal_text(n as nat), after));
}

/// A line put at the end of a text is one of its lines, and the others stay.
proof fn a_line_is_put_at_the_end(text: Seq<char>, label: Seq<char>, n: u64)
    requires
        text.len() > 0,
        text.last() == '\n',
    ensures
        ({
            let longer = text + (label + lex::decimal_text(n as nat) + seq!['\n']);
            &&& longer.len() > 0
            &&& longer.last() == '\n'
            &&& has_line(longer, label, n)
            &&& forall|other: Seq<char>, k: u64| #[trigger]
                has_line(text, other, k) ==> has_line(longer, other, k)
        }),
{
    let line = label + lex::decimal_text(n as nat) + seq!['\n'];
    let longer = text + line;
    assert(longer =~= text + label + lex::decimal_text(n as nat) + seq!['\n'] + Seq::<
        char,
    >::empty());
    a_line_in_the_middle(longer, text, label, n, Seq::<char>::empty());
    assert forall|other: Seq<char>, k: u64| #[trigger] has_line(text, other, k) implies has_line(
        longer,
        other,
        k,
    ) by {
        let (before, digits, after) = choose|
            before: Seq<char>,
            digits: Seq<char>,
            after: Seq<char>,
        | #[trigger]
            is_line_of(text, before, other, digits, after) && wire_laws::denotes(
                digits,
                k as nat,
            );
        assert(longer =~= before + other + digits + seq!['\n'] + (after + line));
        assert(is_line_of(longer, before, other, digits, after + line));
    }
}

/// An outcome's line is its label, its count and a line feed.
proof fn an_outcome_line_is_labelled(outcome: Seq<char>, label: Seq<char>, n: u64)
    requires
        label == "onced_outcomes_total{outcome=\""@ + outcome + "\"} "@,
    ensures
        outcome_line(outcome, n) == label + lex::decimal_text(n as nat) + seq!['\n'],
{
    reveal_strlit("\n");
    assert("\n"@ =~= seq!['\n']);
    assert(outcome_line(outcome, n) =~= label + lex::decimal_text(n as nat) + seq!['\n']);
}

/// The text form shows every counter under its own name.
pub proof fn the_text_shows_every_counter(m: Metrics)
    ensures
        shows(metrics_text(m), m),
{
    reveal_strlit("\n");
    reveal_strlit("# HELP onced_requests_total Proxied requests handled.\n");
    reveal_strlit("# TYPE onced_requests_total counter\n");
    reveal_strlit("# HELP onced_outcomes_total Responses by how they were produced.\n");
    reveal_strlit("# TYPE onced_outcomes_total counter\n");
    reveal_strlit("onced_outcomes_total{outcome=\"");
    reveal_strlit("\"} ");
    reveal_strlit("created");
    reveal_strlit("replayed");
    reveal_strlit("in_progress");
    reveal_strlit("mismatch");
    reveal_strlit("denied");
    reveal_strlit("upstream_error");
    reveal_strlit("passthrough");
    reveal_strlit("onced_outcomes_total{outcome=\"created\"} ");
    reveal_strlit("onced_outcomes_total{outcome=\"replayed\"} ");
    reveal_strlit("onced_outcomes_total{outcome=\"in_progress\"} ");
    reveal_strlit("onced_outcomes_total{outcome=\"mismatch\"} ");
    reveal_strlit("onced_outcomes_total{outcome=\"denied\"} ");
    reveal_strlit("onced_outcomes_total{outcome=\"upstream_error\"} ");
    reveal_strlit("onced_outcomes_total{outcome=\"passthrough\"} ");
    let l1 = "onced_outcomes_total{outcome=\"created\"} "@;
    let l2 = "onced_outcomes_total{outcome=\"replayed\"} "@;
    let l3 = "onced_outcomes_total{outcome=\"in_progress\"} "@;
    let l4 = "onced_outcomes_total{outcome=\"mismatch\"} "@;
    let l5 = "onced_outcomes_total{outcome=\"denied\"} "@;
    let l6 = "onced_outcomes_total{outcome=\"upstream_error\"} "@;
    let l7 = "onced_outcomes_total{outcome=\"passthrough\"} "@;
    assert(l1 =~= "onced_outcomes_total{outcome=\""@ + "created"@ + "\"} "@);
    assert(l2 =~= "onced_outcomes_total{outcome=\""@ + "replayed"@ + "\"} "@);
    assert(l3 =~= "onced_outcomes_total{outcome=\""@ + "in_progress"@ + "\"} "@);
    assert(l4 =~= "onced_outcomes_total{outcome=\""@ + "mismatch"@ + "\"} "@);
    assert(l5 =~= "onced_outcomes_total{outcome=\""@ + "denied"@ + "\"} "@);
    assert(l6 =~= "onced_outcomes_total{outcome=\""@ + "upstream_error"@ + "\"} "@);
    assert(l7 =~= "onced_outcomes_total{outcome=\""@ + "passthrough"@ + "\"} "@);
    an_outcome_line_is_labelled("created"@, l1, m.created);
    an_outcome_line_is_labelled("replayed"@, l2, m.replayed);
    an_outcome_line_is_labelled("in_progress"@, l3, m.in_progress);
    an_outcome_line_is_labelled("mismatch"@, l4, m.mismatch);
    an_outcome_line_is_labelled("denied"@, l5, m.denied);
    an_outcome_line_is_labelled("upstream_error"@, l6, m.upstream_error);
    an_outcome_line_is_labelled("passthrough"@, l7, m.passthrough);
    let h0 = "# HELP onced_requests_total Proxied requests handled.\n"@
        + "# TYPE onced_requests_total counter\n"@;
    let head = h0 + "onced_requests_total "@ + lex::decimal_text(m.requests_total as nat) + "\n"@
        + "# HELP onced_outcomes_total Responses by how they were produced.\n"@
        + "# TYPE onced_outcomes_total counter\n"@;
    the_lines_of_a_text(
        head,
        outcome_line("created"@, m.created),
        outcome_line("replayed"@, m.replayed),
        outcome_line("in_progress"@, m.in_progress),
        outcome_line("mismatch"@, m.mismatch),
        outcome_line("denied"@, m.denied),
        outcome_line("upstream_error"@, m.upstream_error),
        outcome_line("passthrough"@, m.passthrough),
        l1,
        l2,
        l3,
        l4,
        l5,
        l6,
        l7,
        m,
    );
    let rest = "# HELP onced_outcomes_total Responses by how they were produced.\n"@
        + "# TYPE onced_outcomes_total counter\n"@ + (outcome_line("created"@, m.created)
        + outcome_line("replayed"@, m.replayed) + outcome_line("in_progress"@, m.in_progress)
        + outcome_line("mismatch"@, m.mismatch) + outcome_line("denied"@, m.denied) + outcome_line(
        "upstream_error"@,
        m.upstream_error,
    ) + outcome_line("passthrough"@, m.passthrough));
    assert("\n"@ =~= seq!['\n']);
    assert(metrics_text(m) =~= h0 + "onced_requests_total "@ + lex::decimal_text(
        m.requests_total as nat,
    ) + seq!['\n'] + rest);
    a_line_in_the_middle(
        metrics_text(m),
        h0,
        "onced_requests_total "@,
        m.requests_total,
        rest,
    );
}

/// Seven lines behind a head.
proof fn the_lines_of_a_text(
    head: Seq<char>,
    t1: Seq<char>,
    t2: Seq<char>,
    t3: Seq<char>,
    t4: Seq<char>,
    t5: Seq<char>,
    t6: Seq<char>,
    t7: Seq<char>,
    l1: Seq<char>,
    l2: Seq<char>,
    l3: Seq<char>,
    l4: Seq<char>,
    l5: Seq<char>,
    l6: Seq<char>,
    l7: Seq<char>,
    m: Metrics,
)
    requires
        head.len() > 0,
        head.last() == '\n',
        t1 == l1 + lex::decimal_text(m.created as nat) + seq!['\n'],
        t2 == l2 + lex::decimal_text(m.replayed as nat) + seq!['\n'],
        t3 == l3 + lex::decimal_text(m.in_progress as nat) + seq!['\n'],
        t4 == l4 + lex::decimal_text(m.mismatch as nat) + seq!['\n'],
        t5 == l5 + lex::decimal_text(m.denied as nat) + seq!['\n'],
        t6 == l6 + lex::decimal_text(m.upstream_error as nat) + seq!['\n'],
        t7 == l7 + lex::decimal_text(m.passthrough as nat) + seq!['\n'],
    ensures
        ({
            let text = head + t1 + t2 + t3 + t4 + t5 + t6 + t7;
            &&& has_line(text, l1, m.created)
            &&& has_line(text, l2, m.replayed)
            &&& has_line(text, l3, m.in_progress)
            &&& has_line(text, l4, m.mismatch)
            &&& has_line(text, l5, m.denied)
            &&& has_line(text, l6, m.upstream_error)
            &&& has_line(text, l7, m.passthrough)
        }),
{
    let h1 = head + t1;
    let h2 = h1 + t2;
    let h3 = h2 + t3;
    let h4 = h3 + t4;
    let h5 = h4 + t5;
    let h6 = h5 + t6;
    a_line_is_put_at_the_end(head, l1, m.created);
    a_line_is_put_at_the_end(h1, l2, m.replayed);
    a_line_is_put_at_the_end(h2, l3, m.in_progress);
    a_line_is_put_at_the_end(h3, l4, m.mismatch);
    a_line_is_put_at_the_end(h4, l5, m.denied);
    a_line_is_put_at_the_end(h5, l6, m.upstream_error);
    a_line_is_put_at_the_end(h6, l7, m.passthrough);
}

} // verus!
