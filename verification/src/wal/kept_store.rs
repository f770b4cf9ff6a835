//! A log store together with the keeper of its medium.

use crate::bytes::put_raw;
use crate::store;
use crate::store::{MediumView, Records, Store};
use crate::text::copy_bytes;
use crate::wal::codec;
use crate::wal::log_store;
use crate::wal::log_store::{LogWrite, WalStore};
use crate::{IdempotencyKey, KeyState, StateView};
use vstd::prelude::*;

verus! {

/// The keeper of the medium that holds a log.
pub trait LogKeeper: Sized {
    /// What the medium holds. A verified keeper defines it.
    ///
    /// The default is one fixed, unknown value, which no keeper that changes its
    /// medium can keep to what [`carry_out`](LogKeeper::carry_out) promises. It is
    /// there for a keeper that is not verified, because its medium lies outside the
    /// program: what is proved of a [`KeptStore`] speaks of such a keeper only as far
    /// as it does, in fact, what `carry_out` promises.
    open spec fn contents(&self) -> MediumView {
        arbitrary()
    }

    /// Carry out `write` on the medium, durably, before returning. A keeper that
    /// cannot must not return: to go on would be to acknowledge what is not
    /// durable.
    fn carry_out(&mut self, write: &LogWrite)
        ensures
            final(self).contents() == log_store::after_write(old(self).contents(), *write),
    ;
}

/// A [`LogKeeper`] whose medium is memory, for tests, simulation and development.
pub struct MemoryKeeper {
    log: Vec<u8>,
    floor: u64,
}

impl MemoryKeeper {
    /// An empty medium.
    pub fn new() -> (r: Self)
        ensures
            r.contents() == store::only_log(Seq::empty()),
    {
        let r = Self::holding(Vec::new(), 0);
        assert(r.contents() =~= store::only_log(Seq::empty()));
        r
    }

    /// A medium that holds the bytes of `log` and, beside them, the fence `floor`.
    pub fn holding(log: Vec<u8>, floor: u64) -> (r: Self)
        ensures
            r.contents() == (MediumView { log: log@, floor }),
    {
        MemoryKeeper { log, floor }
    }

    /// The bytes of the log.
    pub fn log(&self) -> (log: &[u8])
        ensures
            log@ == self.contents().log,
    {
        self.log.as_slice()
    }

    /// The fence that is kept beside the log.
    pub fn floor(&self) -> (floor: u64)
        ensures
            floor == self.contents().floor,
    {
        self.floor
    }
}

impl Clone for MemoryKeeper {
    fn clone(&self) -> (r: Self)
        ensures
            r.contents() == self.contents(),
    {
        MemoryKeeper { log: copy_bytes(self.log.as_slice()), floor: self.floor }
    }
}

impl LogKeeper for MemoryKeeper {
    closed spec fn contents(&self) -> MediumView {
        MediumView { log: self.log@, floor: self.floor }
    }

    fn carry_out(&mut self, write: &LogWrite) {
        match write {
            LogWrite::Truncate(n) => {
                if *n <= self.log.len() {
                    self.log.truncate(*n);
                }
            },
            LogWrite::Append(b) => {
                put_raw(&mut self.log, b.as_slice());
            },
            LogWrite::Replace(b) => {
                self.log.clear();
                put_raw(&mut self.log, b.as_slice());
                assert(self.log@ =~= b@);
            },
            LogWrite::Floor(fence) => {
                if *fence > self.floor {
                    self.floor = *fence;
                }
            },
        }
    }
}

/// Has `keeper` carry out `writes`, in order.
pub fn carry_out<K: LogKeeper>(keeper: &mut K, writes: &Vec<LogWrite>)
    ensures
        final(keeper).contents() == log_store::after_writes(old(keeper).contents(), writes@),
{
    let mut i: usize = 0;
    assert(writes@.take(0) =~= Seq::<LogWrite>::empty());
    while i < writes.len()
        invariant
            i <= writes.len(),
            keeper.contents() == log_store::after_writes(
                old(keeper).contents(),
                writes@.take(i as int),
            ),
        decreases writes.len() - i,
    {
        assert(writes@.take(i + 1).drop_last() =~= writes@.take(i as int));
        keeper.carry_out(&writes[i]);
        i = i + 1;
    }
    assert(writes@.take(i as int) =~= writes@);
}

/// A [`WalStore`] that has its keeper carry out every write before the operation
/// that issued it returns.
pub struct KeptStore<K: LogKeeper> {
    wal: WalStore,
    keeper: K,
}

impl<K: LogKeeper> KeptStore<K> {
    /// The store whose writes are kept.
    pub closed spec fn wal(&self) -> WalStore {
        self.wal
    }

    /// What the medium holds.
    pub closed spec fn contents(&self) -> MediumView {
        self.keeper.contents()
    }

    /// Keep the medium that `wal` was opened on with `keeper`.
    pub fn new(wal: WalStore, keeper: K) -> (r: Self)
        requires
            wal.wf(),
            keeper.contents() == wal.medium(),
        ensures
            r.wf(),
            r.contents() == wal.image(),
            r.wal().image() == wal.image(),
            r.wal().chain() == wal.chain(),
            r.wal().buffered() == wal.buffered(),
            r.records() == wal.records(),
            r.durable() == wal.durable(),
            r.intact() == wal.intact(),
            r.strict() == wal.strict(),
            r.recovered_fence() == wal.recovered_fence(),
            r.durable_fence() == wal.durable_fence(),
    {
        let mut r = KeptStore { wal, keeper };
        r.hand_over();
        r
    }

    /// The current chain root of the log.
    pub fn root(&self) -> (root: [u8; 32])
        ensures
            root@ == self.wal().chain(),
    {
        self.wal.root()
    }

    /// The keeper of the medium.
    pub fn keeper(&self) -> (keeper: &K)
        ensures
            keeper.contents() == self.contents(),
    {
        &self.keeper
    }

    /// Have the keeper carry out what the store has issued.
    fn hand_over(&mut self)
        requires
            old(self).wal.wf(),
            old(self).keeper.contents() == old(self).wal.medium(),
        ensures
            final(self).wf(),
            final(self).wal.image() == old(self).wal.image(),
            final(self).keeper.contents() == old(self).wal.image(),
            final(self).wal.chain() == old(self).wal.chain(),
            final(self).wal.buffered() == old(self).wal.buffered(),
            final(self).wal.records() == old(self).wal.records(),
            final(self).wal.durable() == old(self).wal.durable(),
            final(self).wal.intact() == old(self).wal.intact(),
            final(self).wal.strict() == old(self).wal.strict(),
            final(self).wal.recovered_fence() == old(self).wal.recovered_fence(),
            final(self).wal.durable_fence() == old(self).wal.durable_fence(),
    {
        proof {
            log_store::carrying_out_the_writes_gives_the_image(&self.wal);
        }
        let writes = self.wal.take_writes();
        carry_out(&mut self.keeper, &writes);
    }
}

impl<K: LogKeeper> Store for KeptStore<K> {
    /// Every write is carried out: the medium holds what the store takes it to hold.
    closed spec fn wf(&self) -> bool {
        &&& self.wal.wf()
        &&& self.wal.issued().len() == 0
        &&& self.keeper.contents() == self.wal.medium()
    }

    closed spec fn records(&self) -> Records {
        self.wal.records()
    }

    closed spec fn durable(&self) -> Records {
        self.wal.durable()
    }

    closed spec fn intact(&self) -> bool {
        self.wal.intact()
    }

    closed spec fn strict(&self) -> bool {
        self.wal.strict()
    }

    /// The keeper has it: there is none left for a caller to keep.
    open spec fn medium(&self) -> MediumView {
        store::only_log(Seq::empty())
    }

    open spec fn storable(key: Seq<char>, state: StateView) -> bool {
        WalStore::storable(key, state)
    }

    closed spec fn recovered_fence(&self) -> u64 {
        self.wal.recovered_fence()
    }

    closed spec fn durable_fence(&self) -> u64 {
        self.wal.durable_fence()
    }

    open spec fn fence_after(fence: u64, state: StateView) -> u64 {
        WalStore::fence_after(fence, state)
    }

    fn get(&self, key: &IdempotencyKey) -> (state: Option<&KeyState>) {
        self.wal.get(key)
    }

    fn put(&mut self, key: IdempotencyKey, state: KeyState)
        ensures
            final(self).contents() == final(self).wal().image(),
            final(self).wal().chain() == codec::record_chain(key@, state@, old(self).wal().chain()),
            final(self).contents() == (if old(self).strict() {
                MediumView {
                    log: old(self).contents().log + codec::record_bytes(
                        key@,
                        state@,
                        old(self).wal().chain(),
                    ),
                    ..old(self).contents()
                }
            } else {
                old(self).contents()
            }),
    {
        proof {
            kept_medium(&*self);
        }
        self.wal.put(key, state);
        self.hand_over();
    }

    fn max_in_progress_fence(&self) -> (fence: u64)
        ensures
            store::is_highest_fence(self.records(), fence),
    {
        self.wal.max_in_progress_fence()
    }

    fn highest_fence(&self) -> (fence: u64) {
        self.wal.highest_fence()
    }

    fn flush(&mut self)
        ensures
            final(self).contents() == final(self).wal().image(),
            final(self).wal().chain() == old(self).wal().chain(),
            final(self).wal().buffered().len() == 0,
            final(self).contents() == (MediumView {
                log: old(self).contents().log + old(self).wal().buffered(),
                ..old(self).contents()
            }),
    {
        proof {
            kept_medium(&*self);
        }
        self.wal.flush();
        self.hand_over();
    }

    fn compact<F: Fn(&IdempotencyKey, &KeyState) -> bool>(&mut self, keep: &F)
        ensures
            final(self).contents() == final(self).wal().image(),
            final(self).wal().buffered().len() == 0,
            final(self).contents().floor == old(self).recovered_fence(),
            log_store::rewritten(
                final(self).contents().log,
                final(self).wal().chain(),
                final(self).records(),
            ),
    {
        self.wal.compact(keep);
        self.hand_over();
    }
}

/// The medium holds what the store takes it to hold.
proof fn kept_medium<K: LogKeeper>(store: &KeptStore<K>)
    requires
        store.wf(),
    ensures
        store.contents() == store.wal().image(),
{
    log_store::carrying_out_the_writes_gives_the_image(&store.wal);
    assert(store.wal.issued() =~= Seq::<LogWrite>::empty());
}

/// What is durable is on the medium: whenever an operation has returned, a store
/// that is opened on what the medium holds then has exactly the durable records,
/// and asks for fences above every one that is durable.
pub proof fn a_kept_medium_recovers_the_durable_records<K: LogKeeper>(
    store: &KeptStore<K>,
    strict: bool,
    r: Result<WalStore, log_store::WalError>,
)
    requires
        store.wf(),
        store.intact(),
        log_store::opened(store.contents(), strict, r),
    ensures
        r is Ok,
        r->Ok_0.records() == store.durable(),
        r->Ok_0.recovered_fence() == store.durable_fence(),
        store.strict() ==> r->Ok_0.records() == store.records(),
        store.strict() ==> r->Ok_0.recovered_fence() == store.recovered_fence(),
{
    kept_medium(store);
    log_store::a_reopened_log_holds_the_durable_records(&store.wal, strict, r);
    if store.strict() {
        log_store::a_strict_log_is_always_durable(&store.wal);
    }
}

} // verus!
