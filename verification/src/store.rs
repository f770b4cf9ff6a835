//! Storage for idempotency-key records.
//!
//! A [`Store`] is driven from a single thread per shard: each shard owns a
//! disjoint set of keys, so implementors need no internal locking.

use crate::table::Table;
use crate::{IdempotencyKey, KeyState, StateView};
use vstd::prelude::*;

verus! {

/// The records of a store: key text to state.
pub type Records = Map<Seq<char>, StateView>;

/// The states in `table`, by their views.
pub open spec fn records_of(table: Map<Seq<char>, KeyState>) -> Records {
    table.map_values(|s: KeyState| s@)
}

/// `after` is `before` without the entries that `keep` rejected: for each entry
/// of `before`, `keep` was asked about that very entry, and the entry is still
/// there, unchanged, exactly when the answer was yes.
pub open spec fn retained<F: Fn(&IdempotencyKey, &KeyState) -> bool>(
    before: Records,
    after: Records,
    keep: F,
) -> bool {
    &&& after.submap_of(before)
    &&& forall|k: Seq<char>| #[trigger]
        before.contains_key(k) ==> asked(keep, k, before[k], after.contains_key(k))
}

/// `keep` can answer `answer` when asked about the entry `k` with state `s`.
pub open spec fn asked<F: Fn(&IdempotencyKey, &KeyState) -> bool>(
    keep: F,
    k: Seq<char>,
    s: StateView,
    answer: bool,
) -> bool {
    exists|key: IdempotencyKey, state: KeyState|
        key@ == k && state@ == s && #[trigger] call_ensures(keep, (&key, &state), answer)
}

/// `keep` may be asked about any entry.
pub open spec fn total_predicate<F: Fn(&IdempotencyKey, &KeyState) -> bool>(keep: F) -> bool {
    forall|key: &IdempotencyKey, state: &KeyState| call_requires(keep, (key, state))
}

/// The fence of an in-progress state; 0 for a completed one.
pub open spec fn fence_of(state: StateView) -> u64 {
    match state {
        StateView::InProgress { fence, .. } => fence,
        StateView::Completed { .. } => 0,
    }
}

/// Every in-progress key of `records` holds a fence of at most `bound`.
pub open spec fn fences_at_most(records: Records, bound: u64) -> bool {
    forall|k: Seq<char>| #[trigger] records.contains_key(k) ==> fence_of(records[k]) <= bound
}

/// `fence` is the highest fence among the in-progress keys of `records`, 0 where
/// there is none.
pub open spec fn is_highest_fence(records: Records, fence: u64) -> bool {
    &&& fences_at_most(records, fence)
    &&& fence == 0 || exists|k: Seq<char>| #[trigger]
        records.contains_key(k) && records[k] is InProgress && fence_of(records[k]) == fence
}

/// The higher of two fences.
pub open spec fn higher(a: u64, b: u64) -> u64 {
    if a > b {
        a
    } else {
        b
    }
}

/// What a medium holds: a log, and beside it the highest fence that the log's
/// records no longer show.
#[verifier::ext_equal]
pub struct MediumView {
    pub log: Seq<u8>,
    pub floor: u64,
}

/// A medium that holds `log` and nothing beside it.
pub open spec fn only_log(log: Seq<u8>) -> MediumView {
    MediumView { log, floor: 0 }
}

/// A shard's worth of idempotency-key records.
///
/// Besides the [`records`](Store::records) that reads see, a store has
/// [`durable`](Store::durable) ones: what reopening its medium recovers once the
/// writes it has issued are carried out.
pub trait Store: Sized {
    /// The store's internal invariant.
    spec fn wf(&self) -> bool;

    /// The records that reads see.
    spec fn records(&self) -> Records;

    /// The records that survive a crash. A store without a medium has no others
    /// than those that reads see.
    spec fn durable(&self) -> Records;

    /// Whether every record put so far could be written down faithfully, so that
    /// [`durable`](Store::durable) is what a reopen gives.
    spec fn intact(&self) -> bool;

    /// Whether a `put` is durable before it returns.
    spec fn strict(&self) -> bool;

    /// What the medium held when its keeper last carried out the store's writes.
    /// No operation of this trait touches the medium itself; a store that has its
    /// own keeper has none for a caller to keep.
    spec fn medium(&self) -> MediumView;

    /// Whether a record can be written down faithfully.
    spec fn storable(key: Seq<char>, state: StateView) -> bool;

    /// The fence above which the store asks an engine to mint.
    spec fn recovered_fence(&self) -> u64;

    /// The fence above which a store reopened after a crash asks an engine to mint.
    spec fn durable_fence(&self) -> u64;

    /// The recovered fence of a store whose recovered fence was `fence` once `state`
    /// has been put.
    spec fn fence_after(fence: u64, state: StateView) -> u64;

    /// Fetch the current state of `key`, if any.
    fn get(&self, key: &IdempotencyKey) -> (state: Option<&KeyState>)
        requires
            self.wf(),
        ensures
            match state {
                Some(s) => self.records().contains_key(key@) && s@ == self.records()[key@],
                None => !self.records().contains_key(key@),
            },
    ;

    /// Insert or overwrite the state of `key`. A strict store has made the change
    /// durable when this returns; any other store leaves that to
    /// [`flush`](Store::flush).
    fn put(&mut self, key: IdempotencyKey, state: KeyState)
        requires
            old(self).wf(),
        ensures
            final(self).wf(),
            final(self).strict() == old(self).strict(),
            final(self).medium() == old(self).medium(),
            final(self).records() == old(self).records().insert(key@, state@),
            final(self).intact() == (old(self).intact() && Self::storable(key@, state@)),
            final(self).intact() ==> final(self).durable() == if old(self).strict() {
                final(self).records()
            } else {
                old(self).durable()
            },
            final(self).recovered_fence() == Self::fence_after(
                old(self).recovered_fence(),
                state@,
            ),
            final(self).intact() ==> final(self).durable_fence() == if old(self).strict() {
                final(self).recovered_fence()
            } else {
                old(self).durable_fence()
            },
    ;

    /// Highest fence currently recorded among in-progress keys (0 if none). A store
    /// that is always constructed empty may answer 0.
    fn max_in_progress_fence(&self) -> (fence: u64)
        requires
            self.wf(),
        ensures
            fence == 0 || is_highest_fence(self.records(), fence),
    ;

    /// Highest fence of any in-progress record that the store was ever given (0 if
    /// none), those included that a later record has superseded or that a
    /// compaction has dropped. An engine seeds its fence counter above this, so a
    /// freshly minted fence never collides with one a live worker might still hold.
    /// A store that is always constructed empty may answer 0.
    fn highest_fence(&self) -> (fence: u64)
        requires
            self.wf(),
        ensures
            fence == self.recovered_fence(),
            fence == 0 || fences_at_most(self.records(), fence),
    ;

    /// Make every preceding [`put`](Store::put) durable. For an in-memory store
    /// this is a no-op; for a group-commit log it commits a whole batch. A caller
    /// that needs durability calls this before acknowledging the operation.
    fn flush(&mut self)
        requires
            old(self).wf(),
        ensures
            final(self).wf(),
            final(self).strict() == old(self).strict(),
            final(self).medium() == old(self).medium(),
            final(self).records() == old(self).records(),
            final(self).intact() == old(self).intact(),
            final(self).intact() ==> final(self).durable() == final(self).records(),
            final(self).recovered_fence() == old(self).recovered_fence(),
            final(self).intact() ==> final(self).durable_fence() == final(self).recovered_fence(),
    ;

    /// Drop every entry for which `keep` returns false, and reclaim any space
    /// that superseded records held. This is a durability point: what is left is
    /// durable when it returns.
    fn compact<F: Fn(&IdempotencyKey, &KeyState) -> bool>(&mut self, keep: &F)
        requires
            old(self).wf(),
            total_predicate(*keep),
        ensures
            final(self).wf(),
            final(self).strict() == old(self).strict(),
            final(self).medium() == old(self).medium(),
            retained(old(self).records(), final(self).records(), *keep),
            old(self).intact() ==> final(self).intact(),
            final(self).intact() ==> final(self).durable() == final(self).records(),
            final(self).recovered_fence() == old(self).recovered_fence(),
            final(self).intact() ==> final(self).durable_fence() == final(self).recovered_fence(),
    ;
}

/// Drops from `table` the entries that `keep` rejects.
pub(crate) fn retain<F: Fn(&IdempotencyKey, &KeyState) -> bool>(
    table: &mut Table<KeyState>,
    keep: &F,
)
    requires
        old(table).wf(),
        total_predicate(*keep),
    ensures
        final(table).wf(),
        retained(records_of(old(table)@), records_of(final(table)@), *keep),
{
    let ghost before = table@;
    let ghost keys = table.keys();
    proof {
        table.keys_cover();
    }
    let mut entries = table.take_entries();
    let ghost all = entries@;
    while entries.len() > 0
        invariant
            total_predicate(*keep),
            table.wf(),
            entries@ == all.take(entries@.len() as int),
            entries@.len() <= all.len() == keys.len(),
            keys.no_duplicates(),
            forall|k: Seq<char>| before.contains_key(k) <==> keys.contains(k),
            forall|i: int|
                0 <= i < all.len() ==> {
                    &&& (#[trigger] all[i]).0@ == keys[i]
                    &&& before.contains_key(all[i].0@)
                    &&& before[all[i].0@] == all[i].1
                },
            forall|k: Seq<char>| #[trigger]
                table@.contains_key(k) ==> before.contains_key(k) && table@[k]@ == before[k]@,
            forall|i: int|
                0 <= i < entries@.len() ==> !table@.contains_key(#[trigger] keys[i]),
            forall|i: int|
                entries@.len() <= i < all.len() ==> asked(
                    *keep,
                    #[trigger] keys[i],
                    before[keys[i]]@,
                    table@.contains_key(keys[i]),
                ),
        decreases entries.len(),
    {
        let ghost n = entries@.len() - 1;
        let ghost was = table@;
        match entries.pop() {
            None => {},
            Some((text, state)) => {
                assert(all[n].0@ == keys[n]);
                assert((text, state) == all[n]);
                let key = IdempotencyKey(text);
                let answer: bool = keep(&key, &state);
                assert(asked(*keep, keys[n], before[keys[n]]@, answer)) by {
                    assert(key@ == keys[n] && state@ == before[keys[n]]@);
                    assert(call_ensures(*keep, (&key, &state), answer));
                }
                if answer {
                    table.insert(key.0, state);
                }
                assert(table@.contains_key(keys[n]) == answer);
                assert forall|i: int| n < i < all.len() implies asked(
                    *keep,
                    #[trigger] keys[i],
                    before[keys[i]]@,
                    table@.contains_key(keys[i]),
                ) by {
                    assert(keys[i] != keys[n]);
                    assert(asked(*keep, keys[i], before[keys[i]]@, was.contains_key(keys[i])));
                }
                assert(entries@ =~= all.take(n));
            },
        }
    }
    proof {
        let b = records_of(before);
        let a = records_of(table@);
        assert forall|k: Seq<char>| #[trigger] b.contains_key(k) implies asked(
            *keep,
            k,
            b[k],
            a.contains_key(k),
        ) by {
            assert(before.contains_key(k));
            assert(keys.contains(k));
            let i = choose|i: int| 0 <= i < keys.len() && keys[i] == k;
            assert(all[i].0@ == keys[i]);
            assert(asked(*keep, keys[i], before[keys[i]]@, table@.contains_key(keys[i])));
        }
        assert(a.submap_of(b)) by {
            assert forall|k: Seq<char>| #[trigger] a.dom().contains(k) implies b.dom().contains(k)
                && a[k] == b[k] by {
                assert(table@.contains_key(k));
            }
        }
    }
}

/// An in-memory [`Store`] for tests and development.
pub struct MemoryStore {
    keys: Table<KeyState>,
}

impl MemoryStore {
    /// Create an empty store.
    pub fn new() -> (r: Self)
        ensures
            r.wf(),
            r.records() == Records::empty(),
            r.durable() == Records::empty(),
    {
        let r = MemoryStore { keys: Table::new() };
        assert(r.records() =~= Records::empty());
        r
    }
}

impl Default for MemoryStore {
    fn default() -> (r: Self)
        ensures
            r.wf(),
            r.records() == Records::empty(),
            r.durable() == Records::empty(),
    {
        MemoryStore::new()
    }
}

impl Store for MemoryStore {
    closed spec fn wf(&self) -> bool {
        self.keys.wf()
    }

    closed spec fn records(&self) -> Records {
        records_of(self.keys@)
    }

    closed spec fn durable(&self) -> Records {
        records_of(self.keys@)
    }

    open spec fn intact(&self) -> bool {
        true
    }

    open spec fn strict(&self) -> bool {
        true
    }

    open spec fn medium(&self) -> MediumView {
        only_log(Seq::empty())
    }

    open spec fn storable(key: Seq<char>, state: StateView) -> bool {
        true
    }

    open spec fn recovered_fence(&self) -> u64 {
        0
    }

    open spec fn durable_fence(&self) -> u64 {
        0
    }

    open spec fn fence_after(fence: u64, state: StateView) -> u64 {
        fence
    }

    fn get(&self, key: &IdempotencyKey) -> (state: Option<&KeyState>) {
        self.keys.get(key.0.as_str())
    }

    fn put(&mut self, key: IdempotencyKey, state: KeyState) {
        let ghost before = self.keys@;
        self.keys.insert(key.0, state);
        assert(records_of(self.keys@) =~= records_of(before).insert(key@, state@));
    }

    fn max_in_progress_fence(&self) -> (fence: u64)
        ensures
            fence == 0,
    {
        0
    }

    fn highest_fence(&self) -> (fence: u64) {
        0
    }

    fn flush(&mut self) {
    }

    fn compact<F: Fn(&IdempotencyKey, &KeyState) -> bool>(&mut self, keep: &F) {
        retain(&mut self.keys, keep);
    }
}

/// An attempt in progress has the fence that it was given; a completed one holds none. Of
/// two fences the higher is the larger number.
pub proof fn an_attempt_has_the_fence_it_was_given(state: StateView, a: u64, b: u64)
    ensures
        match state {
            StateView::InProgress { fence, .. } => fence_of(state) == fence,
            StateView::Completed { .. } => fence_of(state) == 0,
        },
        higher(a, b) >= a,
        higher(a, b) >= b,
        higher(a, b) == a || higher(a, b) == b,
{
}

/// The highest fence is that of some attempt in progress, and no attempt in progress has a
/// higher one.
pub proof fn the_highest_fence_is_an_attempts(records: Records, fence: u64, key: Seq<char>)
    requires
        is_highest_fence(records, fence),
        records.contains_key(key),
    ensures
        records[key] matches StateView::InProgress { fence: held, .. } ==> held <= fence,
        fence > 0 ==> exists|k: Seq<char>| #[trigger]
            records.contains_key(k) && records[k] is InProgress
                && records[k]->InProgress_fence == fence,
{
}

} // verus!
