//! Synchronous replication: the durability core of distributed mode.
//!
//! A single-node log survives a process crash; it does not survive the machine
//! dying. [`ReplicatedStore`] wraps a primary store and any number of replica
//! stores and writes every record to all of them before the write returns, so an
//! effect that was committed is recovered unchanged from any node.

use crate::engine;
use crate::store;
use crate::store::{MediumView, Records, Store};
use crate::wal::log_store;
use crate::wal::{WalError, WalStore};
use crate::{IdempotencyKey, KeyState, StateView};
use vstd::prelude::*;

verus! {

/// A [`Store`] that writes synchronously to a primary plus replicas, so every
/// committed record is on all of them before the write returns. Reads and the
/// recovered fence come from the primary (node 0); on primary loss, promote any
/// replica, which holds the same records.
pub struct ReplicatedStore<S: Store> {
    replicas: Vec<S>,
}

/// Every node holds the same records, and asks for the same fences.
pub open spec fn in_agreement<S: Store>(nodes: Seq<S>) -> bool {
    forall|i: int|
        0 <= i < nodes.len() ==> (#[trigger] nodes[i]).records() == nodes[0].records()
            && nodes[i].recovered_fence() == nodes[0].recovered_fence()
}

/// `keep` never gives two answers about one entry.
pub open spec fn decided_predicate<F: Fn(&IdempotencyKey, &KeyState) -> bool>(keep: F) -> bool {
    forall|k: Seq<char>, s: StateView|
        !(store::asked(keep, k, s, true) && #[trigger] store::asked(keep, k, s, false))
}

/// Two stores that held the same records and were compacted by one predicate
/// hold the same records.
proof fn retained_alike<F: Fn(&IdempotencyKey, &KeyState) -> bool>(
    before: Records,
    a: Records,
    b: Records,
    keep: F,
)
    requires
        decided_predicate(keep),
        store::retained(before, a, keep),
        store::retained(before, b, keep),
    ensures
        a == b,
{
    assert forall|k: Seq<char>| #[trigger] a.contains_key(k) == b.contains_key(k) by {
        if before.contains_key(k) {
            assert(store::asked(keep, k, before[k], a.contains_key(k)));
            assert(store::asked(keep, k, before[k], b.contains_key(k)));
        } else {
            assert(!a.dom().contains(k) && !b.dom().contains(k));
        }
    }
    assert forall|k: Seq<char>| #[trigger] a.contains_key(k) implies a[k] == b[k] by {
        assert(b.contains_key(k));
        assert(a.dom().contains(k) && b.dom().contains(k) && before.dom().contains(k));
    }
    assert(a =~= b);
}

impl<S: Store> ReplicatedStore<S> {
    /// The nodes, the primary first.
    pub closed spec fn nodes(&self) -> Seq<S> {
        self.replicas@
    }

    /// Build a replicated store. `replicas[0]` is the primary (serves reads);
    /// the rest are synchronous replicas.
    pub fn new(replicas: Vec<S>) -> (r: Self)
        requires
            replicas@.len() > 0,
        ensures
            r.nodes() == replicas@,
            (forall|i: int| 0 <= i < replicas@.len() ==> (#[trigger] replicas@[i]).wf()) ==> r.wf(),
    {
        ReplicatedStore { replicas }
    }

    /// How many nodes (primary and replicas) this store writes to.
    pub fn node_count(&self) -> (n: usize)
        ensures
            n == self.nodes().len(),
    {
        self.replicas.len()
    }

    /// Gives the nodes back, the primary first.
    pub fn into_nodes(self) -> (nodes: Vec<S>)
        ensures
            nodes@ == self.nodes(),
    {
        self.replicas
    }
}

impl<S: Store> Store for ReplicatedStore<S> {
    open spec fn wf(&self) -> bool {
        &&& self.nodes().len() > 0
        &&& forall|i: int| 0 <= i < self.nodes().len() ==> (#[trigger] self.nodes()[i]).wf()
    }

    open spec fn records(&self) -> Records {
        self.nodes()[0].records()
    }

    open spec fn durable(&self) -> Records {
        self.nodes()[0].durable()
    }

    open spec fn intact(&self) -> bool {
        forall|i: int| 0 <= i < self.nodes().len() ==> (#[trigger] self.nodes()[i]).intact()
    }

    open spec fn strict(&self) -> bool {
        self.nodes()[0].strict()
    }

    open spec fn medium(&self) -> MediumView {
        self.nodes()[0].medium()
    }

    open spec fn storable(key: Seq<char>, state: StateView) -> bool {
        S::storable(key, state)
    }

    open spec fn recovered_fence(&self) -> u64 {
        self.nodes()[0].recovered_fence()
    }

    open spec fn durable_fence(&self) -> u64 {
        self.nodes()[0].durable_fence()
    }

    open spec fn fence_after(fence: u64, state: StateView) -> u64 {
        S::fence_after(fence, state)
    }

    fn get(&self, key: &IdempotencyKey) -> (state: Option<&KeyState>) {
        self.replicas[0].get(key)
    }

    fn put(&mut self, key: IdempotencyKey, state: KeyState)
        ensures
            final(self).nodes().len() == old(self).nodes().len(),
            forall|i: int|
                0 <= i < old(self).nodes().len() ==> {
                    &&& (#[trigger] final(self).nodes()[i]).records()
                        == old(self).nodes()[i].records().insert(key@, state@)
                    &&& final(self).nodes()[i].strict() == old(self).nodes()[i].strict()
                    &&& final(self).nodes()[i].medium() == old(self).nodes()[i].medium()
                    &&& final(self).nodes()[i].intact() == (old(self).nodes()[i].intact()
                        && S::storable(key@, state@))
                    &&& final(self).nodes()[i].intact() ==> final(self).nodes()[i].durable()
                        == if old(self).nodes()[i].strict() {
                        final(self).nodes()[i].records()
                    } else {
                        old(self).nodes()[i].durable()
                    }
                    &&& final(self).nodes()[i].recovered_fence() == S::fence_after(
                        old(self).nodes()[i].recovered_fence(),
                        state@,
                    )
                    &&& final(self).nodes()[i].intact() ==> final(self).nodes()[i].durable_fence()
                        == if old(self).nodes()[i].strict() {
                        final(self).nodes()[i].recovered_fence()
                    } else {
                        old(self).nodes()[i].durable_fence()
                    }
                },
            in_agreement(old(self).nodes()) ==> in_agreement(final(self).nodes()),
    {
        let ghost before = self.replicas@;
        let mut i: usize = 0;
        while i < self.replicas.len()
            invariant
                before == old(self).replicas@,
                i <= self.replicas@.len(),
                self.replicas@.len() == before.len(),
                forall|j: int| 0 <= j < before.len() ==> (#[trigger] self.replicas@[j]).wf(),
                forall|j: int| i <= j < before.len() ==> #[trigger] self.replicas@[j] == before[j],
                forall|j: int|
                    0 <= j < i ==> {
                        &&& (#[trigger] self.replicas@[j]).records() == before[j].records().insert(
                            key@,
                            state@,
                        )
                        &&& self.replicas@[j].strict() == before[j].strict()
                        &&& self.replicas@[j].medium() == before[j].medium()
                        &&& self.replicas@[j].intact() == (before[j].intact() && S::storable(
                            key@,
                            state@,
                        ))
                        &&& self.replicas@[j].intact() ==> self.replicas@[j].durable()
                            == if before[j].strict() {
                            self.replicas@[j].records()
                        } else {
                            before[j].durable()
                        }
                        &&& self.replicas@[j].recovered_fence() == S::fence_after(
                            before[j].recovered_fence(),
                            state@,
                        )
                        &&& self.replicas@[j].intact() ==> self.replicas@[j].durable_fence()
                            == if before[j].strict() {
                            self.replicas@[j].recovered_fence()
                        } else {
                            before[j].durable_fence()
                        }
                    },
            decreases self.replicas@.len() - i,
        {
            self.replicas[i].put(key.clone(), state.clone());
            i = i + 1;
        }
        proof {
            if in_agreement(before) {
                a_write_keeps_the_nodes_in_agreement(before, self.replicas@, key@, state@);
            }
        }
        assert(self.intact() == (old(self).intact() && S::storable(key@, state@))) by {
            if self.intact() {
                assert(self.nodes()[0].intact());
                assert forall|j: int| 0 <= j < before.len() implies (#[trigger] before[j]).intact() by {
                    assert(self.nodes()[j].intact());
                }
            }
            if old(self).intact() && S::storable(key@, state@) {
                assert forall|j: int| 0 <= j < before.len() implies (
                #[trigger] self.nodes()[j]).intact() by {
                    assert(old(self).nodes()[j].intact());
                }
            }
        }
    }

    fn max_in_progress_fence(&self) -> (fence: u64)
        ensures
            call_ensures(S::max_in_progress_fence, (&self.nodes()[0],), fence),
    {
        self.replicas[0].max_in_progress_fence()
    }

    fn highest_fence(&self) -> (fence: u64) {
        self.replicas[0].highest_fence()
    }

    fn flush(&mut self)
        ensures
            final(self).nodes().len() == old(self).nodes().len(),
            forall|i: int|
                0 <= i < old(self).nodes().len() ==> {
                    &&& (#[trigger] final(self).nodes()[i]).records()
                        == old(self).nodes()[i].records()
                    &&& final(self).nodes()[i].strict() == old(self).nodes()[i].strict()
                    &&& final(self).nodes()[i].medium() == old(self).nodes()[i].medium()
                    &&& final(self).nodes()[i].intact() == old(self).nodes()[i].intact()
                    &&& final(self).nodes()[i].intact() ==> final(self).nodes()[i].durable()
                        == final(self).nodes()[i].records()
                    &&& final(self).nodes()[i].recovered_fence()
                        == old(self).nodes()[i].recovered_fence()
                    &&& final(self).nodes()[i].intact() ==> final(self).nodes()[i].durable_fence()
                        == final(self).nodes()[i].recovered_fence()
                },
            in_agreement(old(self).nodes()) ==> in_agreement(final(self).nodes()),
    {
        let ghost before = self.replicas@;
        let mut i: usize = 0;
        while i < self.replicas.len()
            invariant
                before == old(self).replicas@,
                i <= self.replicas@.len(),
                self.replicas@.len() == before.len(),
                forall|j: int| 0 <= j < before.len() ==> (#[trigger] self.replicas@[j]).wf(),
                forall|j: int| i <= j < before.len() ==> #[trigger] self.replicas@[j] == before[j],
                forall|j: int|
                    0 <= j < i ==> {
                        &&& (#[trigger] self.replicas@[j]).records() == before[j].records()
                        &&& self.replicas@[j].strict() == before[j].strict()
                        &&& self.replicas@[j].medium() == before[j].medium()
                        &&& self.replicas@[j].intact() == before[j].intact()
                        &&& self.replicas@[j].intact() ==> self.replicas@[j].durable()
                            == self.replicas@[j].records()
                        &&& self.replicas@[j].recovered_fence() == before[j].recovered_fence()
                        &&& self.replicas@[j].intact() ==> self.replicas@[j].durable_fence()
                            == self.replicas@[j].recovered_fence()
                    },
            decreases self.replicas@.len() - i,
        {
            self.replicas[i].flush();
            i = i + 1;
        }
        assert(in_agreement(before) ==> in_agreement(self.replicas@)) by {
            assert forall|j: int| 0 <= j < before.len() implies (#[trigger] self.replicas@[j]).records()
                == before[j].records() && self.replicas@[j].recovered_fence()
                == before[j].recovered_fence() by {}
        }
        assert(self.intact() == old(self).intact()) by {
            assert forall|j: int| 0 <= j < before.len() implies (
            #[trigger] self.nodes()[j]).intact() == old(self).nodes()[j].intact() by {}
            if self.intact() {
                assert forall|j: int| 0 <= j < before.len() implies (
                #[trigger] old(self).nodes()[j]).intact() by {
                    assert(self.nodes()[j].intact());
                }
            }
        }
    }

    fn compact<F: Fn(&IdempotencyKey, &KeyState) -> bool>(&mut self, keep: &F)
        ensures
            final(self).nodes().len() == old(self).nodes().len(),
            forall|i: int|
                0 <= i < old(self).nodes().len() ==> {
                    &&& store::retained(
                        old(self).nodes()[i].records(),
                        (#[trigger] final(self).nodes()[i]).records(),
                        *keep,
                    )
                    &&& final(self).nodes()[i].strict() == old(self).nodes()[i].strict()
                    &&& final(self).nodes()[i].medium() == old(self).nodes()[i].medium()
                    &&& old(self).nodes()[i].intact() ==> final(self).nodes()[i].intact()
                    &&& final(self).nodes()[i].intact() ==> final(self).nodes()[i].durable()
                        == final(self).nodes()[i].records()
                    &&& final(self).nodes()[i].recovered_fence()
                        == old(self).nodes()[i].recovered_fence()
                    &&& final(self).nodes()[i].intact() ==> final(self).nodes()[i].durable_fence()
                        == final(self).nodes()[i].recovered_fence()
                },
            in_agreement(old(self).nodes()) && decided_predicate(*keep) ==> in_agreement(
                final(self).nodes(),
            ),
    {
        let ghost before = self.replicas@;
        let mut i: usize = 0;
        while i < self.replicas.len()
            invariant
                store::total_predicate(*keep),
                before == old(self).replicas@,
                i <= self.replicas@.len(),
                self.replicas@.len() == before.len(),
                forall|j: int| 0 <= j < before.len() ==> (#[trigger] self.replicas@[j]).wf(),
                forall|j: int| i <= j < before.len() ==> #[trigger] self.replicas@[j] == before[j],
                forall|j: int|
                    0 <= j < i ==> {
                        &&& store::retained(
                            before[j].records(),
                            (#[trigger] self.replicas@[j]).records(),
                            *keep,
                        )
                        &&& self.replicas@[j].strict() == before[j].strict()
                        &&& self.replicas@[j].medium() == before[j].medium()
                        &&& before[j].intact() ==> self.replicas@[j].intact()
                        &&& self.replicas@[j].intact() ==> self.replicas@[j].durable()
                            == self.replicas@[j].records()
                        &&& self.replicas@[j].recovered_fence() == before[j].recovered_fence()
                        &&& self.replicas@[j].intact() ==> self.replicas@[j].durable_fence()
                            == self.replicas@[j].recovered_fence()
                    },
            decreases self.replicas@.len() - i,
        {
            self.replicas[i].compact(keep);
            i = i + 1;
        }
        proof {
            if in_agreement(before) && decided_predicate(*keep) {
                a_compaction_keeps_the_nodes_in_agreement(before, self.replicas@, *keep);
            }
        }
        assert(old(self).intact() ==> self.intact()) by {
            if old(self).intact() {
                assert forall|j: int| 0 <= j < before.len() implies (
                #[trigger] self.nodes()[j]).intact() by {
                    assert(old(self).nodes()[j].intact());
                }
            }
        }
    }
}

/// Nodes that agree before a write agree after it: whichever node is lost, any
/// other holds every record.
pub proof fn a_write_keeps_the_nodes_in_agreement<S: Store>(
    before: Seq<S>,
    after: Seq<S>,
    key: Seq<char>,
    state: StateView,
)
    requires
        in_agreement(before),
        before.len() > 0,
        after.len() == before.len(),
        forall|i: int|
            0 <= i < before.len() ==> (#[trigger] after[i]).records()
                == before[i].records().insert(key, state) && after[i].recovered_fence()
                == S::fence_after(before[i].recovered_fence(), state),
    ensures
        in_agreement(after),
{
    assert forall|i: int| 0 <= i < after.len() implies (#[trigger] after[i]).records()
        == after[0].records() && after[i].recovered_fence() == after[0].recovered_fence() by {
        assert(before[i].records() == before[0].records());
    }
}

/// Nodes that agree before a compaction by a decided predicate agree after it.
pub proof fn a_compaction_keeps_the_nodes_in_agreement<
    S: Store,
    F: Fn(&IdempotencyKey, &KeyState) -> bool,
>(before: Seq<S>, after: Seq<S>, keep: F)
    requires
        in_agreement(before),
        decided_predicate(keep),
        before.len() > 0,
        after.len() == before.len(),
        forall|i: int|
            0 <= i < before.len() ==> store::retained(
                before[i].records(),
                (#[trigger] after[i]).records(),
                keep,
            ) && after[i].recovered_fence() == before[i].recovered_fence(),
    ensures
        in_agreement(after),
{
    assert forall|i: int| 0 <= i < after.len() implies (#[trigger] after[i]).records()
        == after[0].records() && after[i].recovered_fence() == after[0].recovered_fence() by {
        assert(before[i].records() == before[0].records());
        retained_alike(before[0].records(), after[i].records(), after[0].records(), keep);
    }
}

/// Exactly-once survives the death of a node: where the nodes are logs in agreement
/// and the survivor has nothing that is not durable, an engine that is opened on the
/// survivor's log alone sees every record that the store held, and so gives every
/// request the same answer; and it mints no fence that the store has seen.
pub proof fn any_node_recovers_every_record(
    nodes: Seq<WalStore>,
    survivor: int,
    strict: bool,
    r: Result<WalStore, WalError>,
    key: Seq<char>,
    fingerprint: Seq<u8>,
    now_ms: u64,
    ttl_ms: u64,
)
    requires
        in_agreement(nodes),
        0 <= survivor < nodes.len(),
        nodes[survivor].wf(),
        nodes[survivor].intact(),
        nodes[survivor].durable() == nodes[survivor].records(),
        nodes[survivor].durable_fence() == nodes[survivor].recovered_fence(),
        log_store::opened(nodes[survivor].image(), strict, r),
    ensures
        r is Ok,
        r->Ok_0.records() == nodes[0].records(),
        r->Ok_0.recovered_fence() == nodes[0].recovered_fence(),
        engine::answer(r->Ok_0.records(), key, fingerprint, now_ms, ttl_ms) == engine::answer(
            nodes[0].records(),
            key,
            fingerprint,
            now_ms,
            ttl_ms,
        ),
{
    log_store::a_reopened_log_holds_the_durable_records(&nodes[survivor], strict, r);
}

} // verus!
