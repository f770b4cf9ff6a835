//! A map from text to values: a dense list of entries with a hashed index of
//! their positions, so lookups are constant-time and a walk over the entries is
//! deterministic.

use vstd::hash_map::StringHashMap;
use vstd::prelude::*;

verus! {

/// A map from text to `V`, walked in a fixed order.
pub struct Table<V> {
    entries: Vec<(String, V)>,
    slots: StringHashMap<usize>,
}

impl<V> View for Table<V> {
    type V = Map<Seq<char>, V>;

    closed spec fn view(&self) -> Map<Seq<char>, V> {
        Map::new(
            |k: Seq<char>| self.slots@.contains_key(k),
            |k: Seq<char>| self.entries@[self.slots@[k] as int].1,
        )
    }
}

impl<V> Table<V> {
    /// Every entry is found through its slot, and every slot leads to the entry
    /// of its key.
    pub closed spec fn wf(&self) -> bool {
        &&& forall|i: int|
            #![trigger self.entries@[i]]
            0 <= i < self.entries@.len() ==> self.slots@.contains_key(self.entries@[i].0@)
                && self.slots@[self.entries@[i].0@] == i
        &&& forall|k: Seq<char>| #[trigger]
            self.slots@.contains_key(k) ==> (self.slots@[k] as int) < self.entries@.len()
                && self.entries@[self.slots@[k] as int].0@ == k
        &&& self.slots@.dom().finite()
        &&& self.slots@.dom().len() == self.entries@.len()
    }

    /// The keys, in the order in which the table is walked.
    pub closed spec fn keys(&self) -> Seq<Seq<char>> {
        self.entries@.map_values(|e: (String, V)| e.0@)
    }

    /// What the walk order has to do with the map: each key comes once.
    pub proof fn keys_cover(&self)
        requires
            self.wf(),
        ensures
            self.keys().no_duplicates(),
            forall|k: Seq<char>| self@.contains_key(k) <==> self.keys().contains(k),
            self@.dom().finite(),
            self@.dom().len() == self.keys().len(),
    {
        assert forall|i: int, j: int|
            0 <= i < self.keys().len() && 0 <= j < self.keys().len() && i != j implies self.keys()[i]
            != self.keys()[j] by {
            assert(self.slots@[self.entries@[i].0@] == i);
            assert(self.slots@[self.entries@[j].0@] == j);
        }
        assert forall|k: Seq<char>| self@.contains_key(k) <==> self.keys().contains(k) by {
            if self@.contains_key(k) {
                assert(self.slots@.contains_key(k));
                assert(self.keys()[self.slots@[k] as int] == k);
            }
            if self.keys().contains(k) {
                let i = self.keys().index_of(k);
                assert(self.slots@.contains_key(self.entries@[i].0@));
            }
        }
        assert(self@.dom() =~= self.slots@.dom());
    }

    /// An empty table.
    pub fn new() -> (r: Self)
        ensures
            r.wf(),
            r@ == Map::<Seq<char>, V>::empty(),
            r.keys() == Seq::<Seq<char>>::empty(),
    {
        let r = Table { entries: Vec::new(), slots: StringHashMap::new() };
        assert(r@ =~= Map::<Seq<char>, V>::empty());
        assert(r.keys() =~= Seq::<Seq<char>>::empty());
        r
    }

    /// How many keys there are.
    pub fn len(&self) -> (n: usize)
        requires
            self.wf(),
        ensures
            n == self@.dom().len(),
            n == self.keys().len(),
    {
        assert(self@.dom() =~= self.slots@.dom());
        self.entries.len()
    }

    /// Where `key` stands in the walk.
    pub fn position(&self, key: &str) -> (at: Option<usize>)
        requires
            self.wf(),
        ensures
            match at {
                Some(i) => i < self.keys().len() && self.keys()[i as int] == key@
                    && self@.contains_key(key@),
                None => !self@.contains_key(key@),
            },
    {
        match self.slots.get(key) {
            Some(i) => Some(*i),
            None => None,
        }
    }

    /// The `i`-th key of the walk.
    pub fn key_at(&self, i: usize) -> (key: &String)
        requires
            self.wf(),
            i < self.keys().len(),
        ensures
            key@ == self.keys()[i as int],
    {
        &self.entries[i].0
    }

    /// The value of the `i`-th key of the walk.
    pub fn value_at(&self, i: usize) -> (value: &V)
        requires
            self.wf(),
            i < self.keys().len(),
        ensures
            self@.contains_key(self.keys()[i as int]),
            *value == self@[self.keys()[i as int]],
    {
        assert(self.slots@.contains_key(self.entries@[i as int].0@));
        &self.entries[i].1
    }

    /// The value under `key`.
    pub fn get(&self, key: &str) -> (value: Option<&V>)
        requires
            self.wf(),
        ensures
            match value {
                Some(v) => self@.contains_key(key@) && *v == self@[key@],
                None => !self@.contains_key(key@),
            },
    {
        match self.slots.get(key) {
            Some(i) => Some(&self.entries[*i].1),
            None => None,
        }
    }

    /// Gives the `i`-th key of the walk a new value and returns the old one.
    pub fn replace_value(&mut self, i: usize, value: V) -> (old_value: V)
        requires
            old(self).wf(),
            i < old(self).keys().len(),
        ensures
            final(self).wf(),
            final(self)@ == old(self)@.insert(old(self).keys()[i as int], value),
            final(self).keys() == old(self).keys(),
            old_value == old(self)@[old(self).keys()[i as int]],
    {
        let ghost before = *self;
        assert(before.slots@.contains_key(before.entries@[i as int].0@));
        let mut v: V = value;
        std::mem::swap(&mut v, &mut self.entries[i].1);
        proof {
            let k = before.keys()[i as int];
            assert(self.keys() =~= before.keys());
            assert forall|j: int|
                #![trigger self.entries@[j]]
                0 <= j < self.entries@.len() implies self.slots@.contains_key(self.entries@[j].0@)
                && self.slots@[self.entries@[j].0@] == j by {
                assert(self.entries@[j].0 == before.entries@[j].0);
            }
            assert forall|q: Seq<char>| #[trigger] self.slots@.contains_key(q) implies (
            self.slots@[q] as int) < self.entries@.len() && self.entries@[self.slots@[q] as int].0@
                == q by {
                assert(before.slots@.contains_key(q));
            }
            assert(self@ =~= before@.insert(k, value));
        }
        v
    }

    /// Sets `key` to `value`. A new key goes to the end of the walk.
    pub fn insert(&mut self, key: String, value: V)
        requires
            old(self).wf(),
        ensures
            final(self).wf(),
            final(self)@ == old(self)@.insert(key@, value),
            final(self).keys() == if old(self)@.contains_key(key@) {
                old(self).keys()
            } else {
                old(self).keys().push(key@)
            },
    {
        let ghost before = *self;
        match self.position(key.as_str()) {
            Some(i) => {
                let _ = self.replace_value(i, value);
            },
            None => {
                let ghost k = key@;
                let n: usize = self.entries.len();
                self.slots.insert(key.clone(), n);
                self.entries.push((key, value));
                proof {
                    assert(self.slots@ =~= before.slots@.insert(k, n));
                    assert(!before.slots@.dom().contains(k));
                    assert(self.slots@.dom() =~= before.slots@.dom().insert(k));
                    assert forall|j: int|
                        #![trigger self.entries@[j]]
                        0 <= j < self.entries@.len() implies self.slots@.contains_key(
                        self.entries@[j].0@,
                    ) && self.slots@[self.entries@[j].0@] == j by {
                        if j < n {
                            assert(self.entries@[j] == before.entries@[j]);
                        }
                    }
                    assert forall|q: Seq<char>| #[trigger] self.slots@.contains_key(q) implies (
                    self.slots@[q] as int) < self.entries@.len()
                        && self.entries@[self.slots@[q] as int].0@ == q by {
                        if q != k {
                            assert(before.slots@.contains_key(q));
                        }
                    }
                    assert forall|q: Seq<char>| #[trigger] before.slots@.contains_key(q) implies
                        self.entries@[before.slots@[q] as int] == before.entries@[before.slots@[q] as int] by {}
                    assert(self@ =~= before@.insert(k, value));
                    assert(self.keys() =~= before.keys().push(k));
                }
            },
        }
    }

    /// Drops the `i`-th key of the walk and puts the new `key` in its place.
    pub fn supplant(&mut self, i: usize, key: String, value: V)
        requires
            old(self).wf(),
            i < old(self).keys().len(),
            !old(self)@.contains_key(key@),
        ensures
            final(self).wf(),
            final(self)@ == old(self)@.remove(old(self).keys()[i as int]).insert(key@, value),
            final(self).keys() == old(self).keys().update(i as int, key@),
    {
        let ghost before = *self;
        let ghost k = key@;
        let ghost gone = before.keys()[i as int];
        assert(before.slots@.contains_key(before.entries@[i as int].0@));
        self.slots.remove(self.entries[i].0.as_str());
        self.slots.insert(key.clone(), i);
        self.entries[i] = (key, value);
        proof {
            assert(self.slots@ =~= before.slots@.remove(gone).insert(k, i));
            assert(!before.slots@.dom().contains(k));
            assert(self.slots@.dom() =~= before.slots@.dom().remove(gone).insert(k));
            assert forall|j: int|
                #![trigger self.entries@[j]]
                0 <= j < self.entries@.len() implies self.slots@.contains_key(self.entries@[j].0@)
                && self.slots@[self.entries@[j].0@] == j by {
                if j != i {
                    assert(self.entries@[j] == before.entries@[j]);
                    assert(before.slots@[before.entries@[j].0@] == j);
                }
            }
            assert forall|q: Seq<char>| #[trigger] self.slots@.contains_key(q) implies (
            self.slots@[q] as int) < self.entries@.len() && self.entries@[self.slots@[q] as int].0@
                == q by {
                if q != k {
                    assert(before.slots@.contains_key(q));
                }
            }
            assert(self@ =~= before@.remove(gone).insert(k, value));
            assert(self.keys() =~= before.keys().update(i as int, k));
        }
    }

    /// Empties the table, handing its entries out in walk order.
    pub fn take_entries(&mut self) -> (entries: Vec<(String, V)>)
        requires
            old(self).wf(),
        ensures
            final(self).wf(),
            final(self)@ == Map::<Seq<char>, V>::empty(),
            final(self).keys() == Seq::<Seq<char>>::empty(),
            entries@.len() == old(self).keys().len(),
            forall|i: int|
                0 <= i < entries@.len() ==> {
                    &&& (#[trigger] entries@[i]).0@ == old(self).keys()[i]
                    &&& old(self)@.contains_key(entries@[i].0@)
                    &&& old(self)@[entries@[i].0@] == entries@[i].1
                },
    {
        let ghost before = *self;
        let mut entries: Vec<(String, V)> = Vec::new();
        std::mem::swap(&mut entries, &mut self.entries);
        self.slots.clear();
        assert(self@ =~= Map::<Seq<char>, V>::empty());
        assert(self.keys() =~= Seq::<Seq<char>>::empty());
        assert forall|i: int| 0 <= i < entries@.len() implies {
            &&& (#[trigger] entries@[i]).0@ == before.keys()[i]
            &&& before@.contains_key(entries@[i].0@)
            &&& before@[entries@[i].0@] == entries@[i].1
        } by {
            assert(before.entries@[i] == entries@[i]);
        }
        entries
    }
}

} // verus!
