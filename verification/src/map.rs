//! The map facade and its entry cursors.
//!
//! The facade owns one key registry and one value store and is the sole
//! mutator of both. The registry owns key existence and iteration order; the
//! value store owns value existence and content; each value entry carries the
//! index of the registry slot holding its key, and the facade keeps that
//! back-reference correct as slots are created, reused and relocated by
//! defragmentation. Where the two structures could desynchronize the
//! invariant proves they cannot.

use vstd::prelude::*;
use crate::key::StorageKey;
use crate::registry::{DefragStep, Stash, MAX_CAPACITY};
use crate::store::{
    lemma_entries_map_contains, lemma_entries_map_dom_len, ValueEntry, ValueStore,
};

verus! {

/// A hash map over expensive storage: a dense key registry plus a sparse,
/// content-addressed value store, kept mutually consistent through the
/// back-reference in each value entry.
pub struct HashMap<K: StorageKey, V> {
    /// The keys of the map.
    keys: Stash<K>,
    /// The values of the map.
    values: ValueStore<K, V>,
}

impl<K: StorageKey, V> View for HashMap<K, V> {
    type V = Map<K::V, V>;

    /// The map as seen by callers: canonical key encodings to values.
    closed spec fn view(&self) -> Map<K::V, V> {
        self.values.spec_map().map_values(|e: ValueEntry<V>| e.value)
    }
}

/// The views of the keys among the first `n` slots, in slot order.
spec fn key_views_below<K: StorageKey>(s: Seq<Option<K>>, n: int) -> Seq<K::V>
    decreases n,
{
    if n <= 0 {
        Seq::empty()
    } else {
        match s[n - 1] {
            Some(k) => key_views_below(s, n - 1).push(k@),
            None => key_views_below(s, n - 1),
        }
    }
}

impl<K: StorageKey, V> HashMap<K, V> {
    /// The identities of the contained keys in registry slot order, which is
    /// the order iteration yields them in.
    pub closed spec fn key_order(self) -> Seq<K::V> {
        key_views_below(self.keys.slot_seq(), self.keys.slot_seq().len() as int)
    }

    /// Number of occupied registry slots, which is the size of the map.
    pub closed spec fn spec_len(self) -> int {
        self.keys.spec_len()
    }

    /// Number of registry slots, occupied or vacant.
    pub closed spec fn spec_capacity(self) -> int {
        self.keys.spec_capacity()
    }

    /// An absent key can be inserted: either a vacant slot can be reused or
    /// the registry may still grow within the range of its `u32` indices.
    pub open spec fn has_room(self) -> bool {
        self.spec_len() < self.spec_capacity() || self.spec_capacity() < MAX_CAPACITY
    }

    /// Well-formedness: both structures are well formed, every occupied
    /// registry slot is backed by a value entry referencing it, and every
    /// value entry's back-reference resolves to the slot holding its key.
    pub closed spec fn wf(self) -> bool {
        &&& self.keys.wf()
        &&& self.values.wf()
        &&& self.keys.spec_len() == self.values.entries@.len()
        &&& forall|i: int|
            0 <= i < self.keys.slot_seq().len() ==> ((#[trigger] self.keys.slot_seq()[i])
                matches Some(k) ==> self.values.spec_map().contains_key(k@)
                && self.values.spec_map()[k@].key_index == i)
        &&& forall|kv: K::V| #[trigger]
            self.values.spec_map().contains_key(kv) ==> {
                let idx = self.values.spec_map()[kv].key_index as int;
                &&& 0 <= idx < self.keys.slot_seq().len()
                &&& self.keys.slot_seq()[idx] matches Some(k2) && k2@ == kv
            }
    }

    /// The logical size equals the number of value-store bindings.
    proof fn lemma_len_is_dom_len(self)
        requires
            self.wf(),
        ensures
            self@.dom().finite(),
            self@.dom().len() == self.spec_len(),
            self@.dom() == self.values.spec_map().dom(),
    {
        lemma_entries_map_dom_len(self.values.entries@);
        assert(self@.dom() =~= self.values.spec_map().dom());
    }

    /// Creates an empty map; no storage slot or entry exists until the first
    /// insertion.
    pub fn new() -> (r: Self)
        ensures
            r.wf(),
            r@ == Map::<K::V, V>::empty(),
            r.spec_len() == 0,
            r.spec_capacity() == 0,
    {
        let r = HashMap { keys: Stash::new(), values: ValueStore::new() };
        proof {
            assert(r@ =~= Map::<K::V, V>::empty());
        }
        r
    }

    /// Returns the number of key-value pairs stored in the map.
    pub fn len(&self) -> (r: u32)
        requires
            self.wf(),
        ensures
            r as int == self.spec_len(),
            r as int == self@.dom().len(),
            self@.dom().finite(),
    {
        proof {
            self.lemma_len_is_dom_len();
        }
        self.keys.len()
    }

    /// Returns `true` if the map holds no pair.
    pub fn is_empty(&self) -> (r: bool)
        requires
            self.wf(),
        ensures
            r == (self.spec_len() == 0),
            r == (self@ == Map::<K::V, V>::empty()),
    {
        proof {
            self.lemma_len_is_dom_len();
            if self.spec_len() == 0 {
                assert(self@ =~= Map::<K::V, V>::empty());
            } else {
                assert(self.values.entries@.len() > 0);
                lemma_entries_map_contains(self.values.entries@, self.values.entries@[0].0@);
                assert(self@.contains_key(self.values.entries@[0].0@));
            }
        }
        self.keys.len() == 0
    }

    /// Returns the number of registry slots currently allocated, occupied or
    /// vacant; vacant slots are reclaimed by [`Self::defrag`].
    pub fn capacity(&self) -> (r: u32)
        requires
            self.wf(),
        ensures
            r as int == self.spec_capacity(),
    {
        self.keys.capacity()
    }

    /// Returns `true` if there is an entry for `key` in the map.
    ///
    /// One value-store probe; the stored key is not compared beyond its
    /// content address, since the addressing scheme is assumed collision-free.
    pub fn contains_key(&self, key: &K) -> (r: bool)
        requires
            self.wf(),
        ensures
            r == self@.contains_key(key@),
    {
        self.values.get(key).is_some()
    }

    /// Returns a reference to the value for `key`, if present; one
    /// value-store probe.
    pub fn get(&self, key: &K) -> (r: Option<&V>)
        requires
            self.wf(),
        ensures
            r is Some <==> self@.contains_key(key@),
            r matches Some(v) ==> *v == self@[key@],
    {
        match self.values.get(key) {
            Some(e) => Some(&e.value),
            None => None,
        }
    }

    /// Returns a mutable reference to the value for `key`, if present; one
    /// value-store probe. However the caller rewrites the value, which keys
    /// exist, the registry and the back-references are unchanged.
    pub fn get_mut(&mut self, key: &K) -> (r: Option<&mut V>)
        requires
            old(self).wf(),
        ensures
            match r {
                Some(v) => {
                    &&& old(self)@.contains_key(key@)
                    &&& *v == old(self)@[key@]
                    &&& final(self).wf()
                    &&& final(self)@ == old(self)@.insert(key@, *final(v))
                    &&& final(self).spec_len() == old(self).spec_len()
                    &&& final(self).spec_capacity() == old(self).spec_capacity()
                    &&& final(self).key_order() == old(self).key_order()
                },
                None => !old(self)@.contains_key(key@) && *final(self) == *old(self),
            },
    {
        proof {
            // However the value behind the reference ends up, the view is
            // the old view with that value under the probed key.
            let oldm = self.values.spec_map();
            if oldm.contains_key(key@) {
                let idx = oldm[key@].key_index;
                assert forall|val: V|
                    (#[trigger] oldm.insert(key@, ValueEntry { value: val, key_index: idx }))
                        .map_values(|e: ValueEntry<V>| e.value) == self@.insert(key@, val) by {
                    assert(oldm.insert(key@, ValueEntry { value: val, key_index: idx }).map_values(
                        |e: ValueEntry<V>| e.value,
                    ) =~= self@.insert(key@, val));
                }
            }
        }
        self.values.value_mut(key)
    }

    /// Inserts a key-value pair into the map, returning the previous value
    /// for the key if any.
    ///
    /// If the key is present the stored value is replaced in place and the
    /// registry slot and stored key are left untouched (an equal but not
    /// identical key is not re-stored). Otherwise a registry slot is
    /// allocated, reusing a vacant one when possible, and a new value entry
    /// referencing it is written.
    pub fn insert(&mut self, key: K, value: V) -> (r: Option<V>)
        requires
            old(self).wf(),
            old(self)@.contains_key(key@) || old(self).has_room(),
        ensures
            final(self).wf(),
            final(self)@ == old(self)@.insert(key@, value),
            old(self)@.contains_key(key@) ==> r == Some(old(self)@[key@])
                && final(self).spec_len() == old(self).spec_len() && final(self).spec_capacity()
                == old(self).spec_capacity() && final(self).key_order() == old(self).key_order(),
            !old(self)@.contains_key(key@) ==> r is None && final(self).spec_len() == old(
                self,
            ).spec_len() + 1,
            !old(self)@.contains_key(key@) && old(self).spec_len() < old(self).spec_capacity()
                ==> final(self).spec_capacity() == old(self).spec_capacity(),
            !old(self)@.contains_key(key@) && old(self).spec_len() == old(self).spec_capacity()
                ==> final(self).spec_capacity() == old(self).spec_capacity() + 1,
    {
        match self.values.replace_value(&key, value) {
            Result::Ok(old_value) => {
                proof {
                    assert(final(self)@ =~= old(self)@.insert(key@, value));
                }
                Some(old_value)
            },
            Result::Err(value) => {
                // The key is absent: register it, then write its value entry.
                let registry_key = key.dup();
                let key_index = self.keys.put(registry_key);
                self.values.put(key, ValueEntry { value, key_index });
                proof {
                    let oldm = old(self).values.spec_map();
                    let newm = self.values.spec_map();
                    assert(newm == oldm.insert(key@, ValueEntry { value, key_index }));
                    assert(final(self)@ =~= old(self)@.insert(key@, value));
                    assert forall|i: int|
                        0 <= i < self.keys.slot_seq().len() && (#[trigger] self.keys.slot_seq()[i])
                            is Some implies {
                        let k = self.keys.slot_seq()[i]->Some_0;
                        newm.contains_key(k@) && newm[k@].key_index == i
                    } by {
                        if i == key_index as int {
                        } else {
                            assert(old(self).keys.slot_seq()[i] == self.keys.slot_seq()[i]);
                            assert(oldm.contains_key(self.keys.slot_seq()[i]->Some_0@));
                        }
                    }
                    assert forall|kv: K::V| #[trigger]
                        newm.contains_key(kv) implies {
                        let idx = newm[kv].key_index as int;
                        &&& 0 <= idx < self.keys.slot_seq().len()
                        &&& self.keys.slot_seq()[idx] matches Some(k2) && k2@ == kv
                    } by {
                        if kv == key@ {
                        } else {
                            assert(oldm.contains_key(kv));
                            let idx = oldm[kv].key_index as int;
                            assert(old(self).keys.slot_seq()[idx] matches Some(k2) && k2@ == kv);
                            assert(idx != key_index as int);
                        }
                    }
                }
                None
            },
        }
    }

    /// Removes the pair for `key` from the map, returning its value if any.
    ///
    /// The value-store entry is cleared in a single lookup-and-clear; its
    /// back-reference must then free an occupied registry slot, which the
    /// invariant proves always succeeds.
    pub fn take(&mut self, key: &K) -> (r: Option<V>)
        requires
            old(self).wf(),
        ensures
            final(self).wf(),
            final(self)@ == old(self)@.remove(key@),
            old(self)@.contains_key(key@) ==> r == Some(old(self)@[key@]) && final(self).spec_len()
                == old(self).spec_len() - 1,
            !old(self)@.contains_key(key@) ==> r is None && final(self).spec_len() == old(
                self,
            ).spec_len(),
            final(self).spec_capacity() == old(self).spec_capacity(),
    {
        match self.values.take_entry(key) {
            None => {
                proof {
                    assert(final(self)@ =~= old(self)@.remove(key@));
                }
                None
            },
            Some(entry) => {
                // The entry's back-reference must resolve to an occupied
                // slot holding this key; anything else would be a fatal
                // desynchronization, proved impossible by the invariant.
                let freed = self.keys.take(entry.key_index);
                proof {
                    assert(old(self).keys.slot_seq()[entry.key_index as int] matches Some(k2)
                        && k2@ == key@);
                    assert(freed is Some);
                    let oldm = old(self).values.spec_map();
                    let newm = self.values.spec_map();
                    assert(final(self)@ =~= old(self)@.remove(key@));
                    assert forall|i: int|
                        0 <= i < self.keys.slot_seq().len() && (#[trigger] self.keys.slot_seq()[i])
                            is Some implies {
                        let k = self.keys.slot_seq()[i]->Some_0;
                        newm.contains_key(k@) && newm[k@].key_index == i
                    } by {
                        assert(old(self).keys.slot_seq()[i] == self.keys.slot_seq()[i]);
                        let k = self.keys.slot_seq()[i]->Some_0;
                        assert(oldm.contains_key(k@) && oldm[k@].key_index == i);
                        if k@ == key@ {
                            assert(i == entry.key_index as int);
                            assert(false);
                        }
                    }
                    assert forall|kv: K::V| #[trigger]
                        newm.contains_key(kv) implies {
                        let idx = newm[kv].key_index as int;
                        &&& 0 <= idx < self.keys.slot_seq().len()
                        &&& self.keys.slot_seq()[idx] matches Some(k2) && k2@ == kv
                    } by {
                        assert(oldm.contains_key(kv) && kv != key@);
                        let idx = oldm[kv].key_index as int;
                        assert(old(self).keys.slot_seq()[idx] matches Some(k2) && k2@ == kv);
                        if idx == entry.key_index as int {
                            assert(kv == key@);
                        }
                    }
                }
                Some(entry.value)
            },
        }
    }

    /// Defragments the registry, relocating keys from the highest occupied
    /// slots into the lowest vacant ones and shrinking the allocated extent;
    /// each relocation rewrites the moved key's back-reference in the value
    /// store. Returns the number of slots freed.
    ///
    /// `max_iterations` bounds the number of slots processed, enabling
    /// incremental reclamation; `None` processes every vacant slot, and
    /// `Some(0)` returns immediately without touching storage.
    pub fn defrag(&mut self, max_iterations: Option<u32>) -> (r: u32)
        requires
            old(self).wf(),
        ensures
            final(self).wf(),
            final(self)@ == old(self)@,
            final(self).spec_len() == old(self).spec_len(),
            final(self).spec_capacity() == old(self).spec_capacity() - r,
            ({
                let vacant = old(self).spec_capacity() - old(self).spec_len();
                match max_iterations {
                    Some(m) => r as int == (if m as int <= vacant {
                        m as int
                    } else {
                        vacant
                    }),
                    None => r as int == vacant,
                }
            }),
    {
        let bound: u32 = match max_iterations {
            Some(m) => {
                if m == 0 {
                    return 0;
                }
                m
            },
            None => self.keys.capacity() - self.keys.len(),
        };
        let mut freed: u32 = 0;
        while freed < bound && self.keys.len() < self.keys.capacity()
            invariant
                self.wf(),
                freed <= bound,
                self@ == old(self)@,
                self.spec_len() == old(self).spec_len(),
                self.spec_capacity() == old(self).spec_capacity() - freed,
                freed <= old(self).spec_capacity() - old(self).spec_len(),
            decreases bound - freed,
        {
            let ghost pre = *self;
            match self.keys.defrag_step() {
                DefragStep::Done => {
                    proof {
                        assert(false);
                    }
                },
                DefragStep::Dropped => {
                    proof {
                        let m = pre.values.spec_map();
                        assert forall|kv: K::V| #[trigger]
                            m.contains_key(kv) implies ((m[kv].key_index as int)
                            < pre.spec_capacity() - 1) by {
                            let idx = m[kv].key_index as int;
                            assert(pre.keys.slot_seq()[idx] is Some);
                        }
                    }
                },
                DefragStep::Moved { old_index, new_index, key } => {
                    proof {
                        assert(pre.keys.slot_seq()[old_index as int] is Some);
                        let k = pre.keys.slot_seq()[old_index as int]->Some_0;
                        assert(pre.values.spec_map().contains_key(k@));
                        assert(key@ == k@);
                        // The moved key's entry still references the old
                        // slot; the relocation rewrites it to the new one.
                        assert(pre.values.spec_map()[key@].key_index == old_index);
                    }
                    self.values.set_index(&key, new_index);
                    proof {
                        let oldm = pre.values.spec_map();
                        let newm = self.values.spec_map();
                        let k = pre.keys.slot_seq()[old_index as int]->Some_0;
                        assert(self.keys.slot_seq() == pre.keys.slot_seq().update(
                            new_index as int,
                            pre.keys.slot_seq().last(),
                        ).drop_last());
                        assert forall|i: int|
                            0 <= i < self.keys.slot_seq().len() && (
                            #[trigger] self.keys.slot_seq()[i]) is Some implies {
                            let k2 = self.keys.slot_seq()[i]->Some_0;
                            newm.contains_key(k2@) && newm[k2@].key_index == i
                        } by {
                            let k2 = self.keys.slot_seq()[i]->Some_0;
                            if i == new_index as int {
                                assert(k2 == k);
                            } else {
                                assert(self.keys.slot_seq()[i] == pre.keys.slot_seq()[i]);
                                assert(oldm.contains_key(k2@) && oldm[k2@].key_index == i);
                                if k2@ == k@ {
                                    assert(oldm[k@].key_index == old_index);
                                    assert(false);
                                }
                            }
                        }
                        assert forall|kv: K::V| #[trigger]
                            newm.contains_key(kv) implies {
                            let idx = newm[kv].key_index as int;
                            &&& 0 <= idx < self.keys.slot_seq().len()
                            &&& self.keys.slot_seq()[idx] matches Some(k2) && k2@ == kv
                        } by {
                            assert(oldm.contains_key(kv));
                            if kv == k@ {
                                assert(newm[kv].key_index == new_index);
                            } else {
                                let idx = oldm[kv].key_index as int;
                                assert(pre.keys.slot_seq()[idx] matches Some(k3) && k3@ == kv);
                                assert(idx != old_index as int);
                                assert(idx != new_index as int);
                            }
                        }
                        assert(self@ =~= pre@);
                    }
                },
            }
            freed = freed + 1;
        }
        freed
    }

    /// Returns the keys of the map, walking the registry (the only
    /// enumerable structure) in slot order and skipping vacant slots.
    ///
    /// The returned keys are exactly those the map contains: each is
    /// contained, no two share an identity, and every contained key appears.
    pub fn keys(&self) -> (r: Vec<K>)
        requires
            self.wf(),
        ensures
            r@.len() == self.spec_len(),
            r@.len() == self.key_order().len(),
            forall|j: int| 0 <= j < r@.len() ==> (#[trigger] r@[j]@) == self.key_order()[j],
            forall|j: int| 0 <= j < r@.len() ==> self@.contains_key(#[trigger] r@[j]@),
            forall|j1: int, j2: int|
                0 <= j1 < j2 < r@.len() ==> (#[trigger] r@[j1]@) != (#[trigger] r@[j2]@),
            forall|kv: K::V| #[trigger]
                self@.contains_key(kv) ==> exists|j: int| 0 <= j < r@.len() && r@[j]@ == kv,
    {
        let mut r: Vec<K> = Vec::new();
        let cap = self.keys.capacity();
        let mut i: u32 = 0;
        while i < cap
            invariant
                self.wf(),
                cap as int == self.spec_capacity(),
                i <= cap,
                Seq::new(r@.len(), |j: int| r@[j]@) == key_views_below(
                    self.keys.slot_seq(),
                    i as int,
                ),
                forall|j: int|
                    0 <= j < r@.len() ==> self.values.spec_map().contains_key(#[trigger] r@[j]@)
                        && self.values.spec_map()[r@[j]@].key_index < i,
                forall|j1: int, j2: int|
                    0 <= j1 < j2 < r@.len() ==> (#[trigger] r@[j1]@) != (#[trigger] r@[j2]@),
                forall|m: int|
                    0 <= m < i ==> ((#[trigger] self.keys.slot_seq()[m]) matches Some(k)
                        ==> exists|j: int| 0 <= j < r@.len() && (#[trigger] r@[j]@) == k@),
            decreases cap - i,
        {
            match self.keys.key_at(i) {
                Some(k) => {
                    let ghost oldr = r@;
                    let k2 = k.dup();
                    r.push(k2);
                    proof {
                        assert(Seq::new(r@.len(), |j: int| r@[j]@) =~= Seq::new(
                            oldr.len(),
                            |j: int| oldr[j]@,
                        ).push(k2@));
                        assert forall|m: int|
                            0 <= m < i + 1 implies ((#[trigger] self.keys.slot_seq()[m])
                            matches Some(km) ==> exists|j: int|
                            0 <= j < r@.len() && (#[trigger] r@[j]@) == km@) by {
                            if self.keys.slot_seq()[m] is Some {
                                let km = self.keys.slot_seq()[m]->Some_0;
                                if m < i {
                                    let j = choose|j: int|
                                        0 <= j < oldr.len() && (#[trigger] oldr[j]@) == km@;
                                    assert(r@[j]@ == km@);
                                } else {
                                    assert(r@[r@.len() - 1]@ == km@);
                                }
                            }
                        }
                    }
                },
                None => {
                    proof {
                        assert(key_views_below(self.keys.slot_seq(), i as int + 1)
                            == key_views_below(self.keys.slot_seq(), i as int));
                    }
                },
            }
            i += 1;
        }
        proof {
            self.lemma_len_is_dom_len();
            let views = Seq::new(r@.len(), |j: int| r@[j]@);
            assert(views.no_duplicates());
            views.unique_seq_to_set();
            assert forall|kv: K::V| #[trigger]
                views.to_set().contains(kv) implies self.values.spec_map().dom().contains(kv) by {
                let j = choose|j: int| 0 <= j < views.len() && views[j] == kv;
                assert(r@[j]@ == kv);
            }
            assert forall|kv: K::V| #[trigger]
                self.values.spec_map().dom().contains(kv) implies views.to_set().contains(
                kv,
            ) by {
                let idx = self.values.spec_map()[kv].key_index as int;
                assert(self.keys.slot_seq()[idx] matches Some(k2) && k2@ == kv);
                let j = choose|j: int| 0 <= j < r@.len() && (#[trigger] r@[j]@) == kv;
                assert(views[j] == kv);
            }
            assert(views.to_set() =~= self.values.spec_map().dom());
        }
        r
    }

    /// Returns the key-value pairs of the map: the keys in registry slot
    /// order, each paired with a reference to its value after one
    /// value-store probe.
    pub fn iter(&self) -> (r: Vec<(K, &V)>)
        requires
            self.wf(),
        ensures
            r@.len() == self.spec_len(),
            r@.len() == self.key_order().len(),
            forall|j: int| 0 <= j < r@.len() ==> (#[trigger] r@[j].0@) == self.key_order()[j],
            forall|j: int|
                0 <= j < r@.len() ==> self@.contains_key(#[trigger] r@[j].0@) && *r@[j].1
                    == self@[r@[j].0@],
            forall|j1: int, j2: int|
                0 <= j1 < j2 < r@.len() ==> (#[trigger] r@[j1].0@) != (#[trigger] r@[j2].0@),
            forall|kv: K::V| #[trigger]
                self@.contains_key(kv) ==> exists|j: int| 0 <= j < r@.len() && r@[j].0@ == kv,
    {
        let mut r: Vec<(K, &V)> = Vec::new();
        let cap = self.keys.capacity();
        let mut i: u32 = 0;
        while i < cap
            invariant
                self.wf(),
                cap as int == self.spec_capacity(),
                i <= cap,
                Seq::new(r@.len(), |j: int| r@[j].0@) == key_views_below(
                    self.keys.slot_seq(),
                    i as int,
                ),
                forall|j: int|
                    0 <= j < r@.len() ==> self.values.spec_map().contains_key(
                        #[trigger] r@[j].0@,
                    ) && self.values.spec_map()[r@[j].0@].key_index < i && *r@[j].1
                        == self@[r@[j].0@],
                forall|j1: int, j2: int|
                    0 <= j1 < j2 < r@.len() ==> (#[trigger] r@[j1].0@) != (#[trigger] r@[j2].0@),
                forall|m: int|
                    0 <= m < i ==> ((#[trigger] self.keys.slot_seq()[m]) matches Some(k)
                        ==> exists|j: int| 0 <= j < r@.len() && (#[trigger] r@[j].0@) == k@),
            decreases cap - i,
        {
            match self.keys.key_at(i) {
                Some(k) => {
                    let ghost oldr = r@;
                    let k2 = k.dup();
                    match self.values.get(k) {
                        Some(e) => {
                            r.push((k2, &e.value));
                        },
                        None => {
                            proof {
                                assert(false);
                            }
                        },
                    }
                    proof {
                        assert(Seq::new(r@.len(), |j: int| r@[j].0@) =~= Seq::new(
                            oldr.len(),
                            |j: int| oldr[j].0@,
                        ).push(k2@));
                        assert forall|m: int|
                            0 <= m < i + 1 implies ((#[trigger] self.keys.slot_seq()[m])
                            matches Some(km) ==> exists|j: int|
                            0 <= j < r@.len() && (#[trigger] r@[j].0@) == km@) by {
                            if self.keys.slot_seq()[m] is Some {
                                let km = self.keys.slot_seq()[m]->Some_0;
                                if m < i {
                                    let j = choose|j: int|
                                        0 <= j < oldr.len() && (#[trigger] oldr[j].0@) == km@;
                                    assert(r@[j].0@ == km@);
                                } else {
                                    assert(r@[r@.len() - 1].0@ == km@);
                                }
                            }
                        }
                    }
                },
                None => {
                    proof {
                        assert(key_views_below(self.keys.slot_seq(), i as int + 1)
                            == key_views_below(self.keys.slot_seq(), i as int));
                    }
                },
            }
            i += 1;
        }
        proof {
            self.lemma_len_is_dom_len();
            let views = Seq::new(r@.len(), |j: int| r@[j].0@);
            assert(views.no_duplicates());
            views.unique_seq_to_set();
            assert forall|kv: K::V| #[trigger]
                views.to_set().contains(kv) implies self.values.spec_map().dom().contains(kv) by {
                let j = choose|j: int| 0 <= j < views.len() && views[j] == kv;
                assert(r@[j].0@ == kv);
            }
            assert forall|kv: K::V| #[trigger]
                self.values.spec_map().dom().contains(kv) implies views.to_set().contains(
                kv,
            ) by {
                let idx = self.values.spec_map()[kv].key_index as int;
                assert(self.keys.slot_seq()[idx] matches Some(k2) && k2@ == kv);
                let j = choose|j: int| 0 <= j < r@.len() && (#[trigger] r@[j].0@) == kv;
                assert(views[j] == kv);
            }
            assert(views.to_set() =~= self.values.spec_map().dom());
        }
        r
    }

    /// Returns references to the values of the map, one per contained key,
    /// in registry slot order.
    pub fn values(&self) -> (r: Vec<&V>)
        requires
            self.wf(),
        ensures
            r@.len() == self.spec_len(),
            r@.len() == self.key_order().len(),
            forall|j: int|
                0 <= j < r@.len() ==> self@.contains_key(#[trigger] self.key_order()[j]) && *r@[j]
                    == self@[self.key_order()[j]],
    {
        let pairs = self.iter();
        let mut r: Vec<&V> = Vec::new();
        let mut j: usize = 0;
        while j < pairs.len()
            invariant
                j <= pairs@.len(),
                r@.len() == j,
                forall|m: int|
                    0 <= m < pairs@.len() ==> self@.contains_key(#[trigger] pairs@[m].0@)
                        && *pairs@[m].1 == self@[pairs@[m].0@],
                forall|m: int| 0 <= m < j ==> r@[m] == pairs@[m].1,
            decreases pairs@.len() - j,
        {
            r.push(pairs[j].1);
            j += 1;
        }
        proof {
            assert forall|m: int|
                0 <= m < r@.len() implies self@.contains_key(#[trigger] self.key_order()[m])
                && *r@[m] == self@[self.key_order()[m]] by {
                assert(pairs@[m].0@ == self.key_order()[m]);
                assert(self@.contains_key(pairs@[m].0@) && *pairs@[m].1 == self@[pairs@[m].0@]);
            }
        }
        r
    }

    /// Rewrites every value in place, walking the registry in slot order and
    /// applying `f` to each present value; which keys exist, the registry
    /// and the back-references are unchanged.
    pub fn values_mut<F: Fn(&V) -> V>(&mut self, f: F)
        requires
            old(self).wf(),
            forall|v: &V| call_requires(f, (v,)),
        ensures
            final(self).wf(),
            final(self)@.dom() == old(self)@.dom(),
            final(self).spec_len() == old(self).spec_len(),
            final(self).spec_capacity() == old(self).spec_capacity(),
            final(self).key_order() == old(self).key_order(),
            forall|kv: K::V| #[trigger]
                old(self)@.contains_key(kv) ==> exists|v: &V|
                    *v == old(self)@[kv] && call_ensures(f, (v,), final(self)@[kv]),
    {
        let cap = self.keys.capacity();
        let mut i: u32 = 0;
        while i < cap
            invariant
                self.wf(),
                cap as int == self.spec_capacity(),
                i <= cap,
                self.keys == old(self).keys,
                self.values.entries@.len() == old(self).values.entries@.len(),
                self.values.spec_map().dom() == old(self).values.spec_map().dom(),
                forall|v: &V| call_requires(f, (v,)),
                forall|kv: K::V| #[trigger]
                    self.values.spec_map().contains_key(kv)
                        ==> self.values.spec_map()[kv].key_index == old(
                        self,
                    ).values.spec_map()[kv].key_index,
                forall|kv: K::V| #[trigger]
                    self.values.spec_map().contains_key(kv) && old(
                        self,
                    ).values.spec_map()[kv].key_index >= i ==> self.values.spec_map()[kv] == old(
                        self,
                    ).values.spec_map()[kv],
                forall|kv: K::V| #[trigger]
                    self.values.spec_map().contains_key(kv) && old(
                        self,
                    ).values.spec_map()[kv].key_index < i ==> exists|v: &V|
                        *v == old(self)@[kv] && call_ensures(f, (v,), self@[kv]),
            decreases cap - i,
        {
            let k2 = match self.keys.key_at(i) {
                Some(k) => Some(k.dup()),
                None => None,
            };
            match k2 {
                Some(k) => {
                    let ghost pre = *self;
                    let new_value = match self.values.get(&k) {
                        Some(e) => f(&e.value),
                        None => {
                            proof {
                                assert(false);
                            }
                            vstd::pervasive::unreached()
                        },
                    };
                    match self.values.replace_value(&k, new_value) {
                        Result::Ok(_) => {},
                        Result::Err(_) => {
                            proof {
                                assert(false);
                            }
                        },
                    }
                    proof {
                        assert(self@ =~= pre@.insert(k@, new_value));
                        assert(self.values.spec_map().dom() =~= pre.values.spec_map().dom());
                        assert forall|kv: K::V| #[trigger]
                            self.values.spec_map().contains_key(kv) && old(
                                self,
                            ).values.spec_map()[kv].key_index < i + 1 implies exists|v: &V|
                            *v == old(self)@[kv] && call_ensures(f, (v,), self@[kv]) by {
                            if kv == k@ {
                                assert(old(self).values.spec_map()[kv].key_index == i);
                                assert(pre.values.spec_map()[kv] == old(
                                    self,
                                ).values.spec_map()[kv]);
                                assert(self@[kv] == new_value);
                            } else {
                                assert(self@[kv] == pre@[kv]);
                            }
                        }
                    }
                },
                None => {
                    proof {
                        assert forall|kv: K::V| #[trigger]
                            self.values.spec_map().contains_key(kv) && old(
                                self,
                            ).values.spec_map()[kv].key_index < i + 1 implies exists|v: &V|
                            *v == old(self)@[kv] && call_ensures(f, (v,), self@[kv]) by {
                            if old(self).values.spec_map()[kv].key_index == i {
                                assert(old(self).keys.slot_seq()[i as int] is Some);
                                assert(false);
                            }
                        }
                    }
                },
            }
            i += 1;
        }
        proof {
            assert(final(self)@.dom() =~= old(self)@.dom());
        }
    }

    /// Rewrites every pair in place, walking the registry in slot order and
    /// applying `f` to each contained key and its present value; which keys
    /// exist, the registry and the back-references are unchanged.
    pub fn iter_mut<F: Fn(&K, &V) -> V>(&mut self, f: F)
        requires
            old(self).wf(),
            forall|k: &K, v: &V| call_requires(f, (k, v)),
        ensures
            final(self).wf(),
            final(self)@.dom() == old(self)@.dom(),
            final(self).spec_len() == old(self).spec_len(),
            final(self).spec_capacity() == old(self).spec_capacity(),
            final(self).key_order() == old(self).key_order(),
            forall|kv: K::V| #[trigger]
                old(self)@.contains_key(kv) ==> exists|k: &K, v: &V|
                    k@ == kv && *v == old(self)@[kv] && call_ensures(f, (k, v), final(self)@[kv]),
    {
        let cap = self.keys.capacity();
        let mut i: u32 = 0;
        while i < cap
            invariant
                self.wf(),
                cap as int == self.spec_capacity(),
                i <= cap,
                self.keys == old(self).keys,
                self.values.entries@.len() == old(self).values.entries@.len(),
                self.values.spec_map().dom() == old(self).values.spec_map().dom(),
                forall|k: &K, v: &V| call_requires(f, (k, v)),
                forall|kv: K::V| #[trigger]
                    self.values.spec_map().contains_key(kv)
                        ==> self.values.spec_map()[kv].key_index == old(
                        self,
                    ).values.spec_map()[kv].key_index,
                forall|kv: K::V| #[trigger]
                    self.values.spec_map().contains_key(kv) && old(
                        self,
                    ).values.spec_map()[kv].key_index >= i ==> self.values.spec_map()[kv] == old(
                        self,
                    ).values.spec_map()[kv],
                forall|kv: K::V| #[trigger]
                    self.values.spec_map().contains_key(kv) && old(
                        self,
                    ).values.spec_map()[kv].key_index < i ==> exists|k: &K, v: &V|
                        k@ == kv && *v == old(self)@[kv] && call_ensures(f, (k, v), self@[kv]),
            decreases cap - i,
        {
            let k2 = match self.keys.key_at(i) {
                Some(k) => Some(k.dup()),
                None => None,
            };
            match k2 {
                Some(k) => {
                    let ghost pre = *self;
                    let new_value = match self.values.get(&k) {
                        Some(e) => f(&k, &e.value),
                        None => {
                            proof {
                                assert(false);
                            }
                            vstd::pervasive::unreached()
                        },
                    };
                    match self.values.replace_value(&k, new_value) {
                        Result::Ok(_) => {},
                        Result::Err(_) => {
                            proof {
                                assert(false);
                            }
                        },
                    }
                    proof {
                        assert(self@ =~= pre@.insert(k@, new_value));
                        assert(self.values.spec_map().dom() =~= pre.values.spec_map().dom());
                        assert forall|kv: K::V| #[trigger]
                            self.values.spec_map().contains_key(kv) && old(
                                self,
                            ).values.spec_map()[kv].key_index < i + 1 implies exists|k3: &K, v: &V|
                            k3@ == kv && *v == old(self)@[kv] && call_ensures(
                            f,
                            (k3, v),
                            self@[kv],
                        ) by {
                            if kv == k@ {
                                assert(old(self).values.spec_map()[kv].key_index == i);
                                assert(pre.values.spec_map()[kv] == old(
                                    self,
                                ).values.spec_map()[kv]);
                                assert(self@[kv] == new_value);
                            } else {
                                assert(self@[kv] == pre@[kv]);
                            }
                        }
                    }
                },
                None => {
                    proof {
                        assert forall|kv: K::V| #[trigger]
                            self.values.spec_map().contains_key(kv) && old(
                                self,
                            ).values.spec_map()[kv].key_index < i + 1 implies exists|k3: &K, v: &V|
                            k3@ == kv && *v == old(self)@[kv] && call_ensures(
                            f,
                            (k3, v),
                            self@[kv],
                        ) by {
                            if old(self).values.spec_map()[kv].key_index == i {
                                assert(old(self).keys.slot_seq()[i as int] is Some);
                                assert(false);
                            }
                        }
                    }
                },
            }
            i += 1;
        }
        proof {
            assert(final(self)@.dom() =~= old(self)@.dom());
        }
    }

    /// Clears every value-store cell reachable from the registry, as part of
    /// tearing the whole map down; the registry itself is left as it is and
    /// the map must not be used afterwards. Skipped entirely if the value
    /// store has never been written to.
    pub fn clear_cells(&mut self)
        requires
            old(self).wf(),
        ensures
            final(self)@ == Map::<K::V, V>::empty(),
            final(self).spec_len() == old(self).spec_len(),
            final(self).spec_capacity() == old(self).spec_capacity(),
            final(self).key_order() == old(self).key_order(),
    {
        if !self.values.is_materialized() {
            // Nothing has ever been written, so there is no cell to clear.
            proof {
                assert(final(self)@ =~= Map::<K::V, V>::empty());
            }
            return ;
        }
        let cap = self.keys.capacity();
        let mut i: u32 = 0;
        while i < cap
            invariant
                self.keys == old(self).keys,
                self.values.wf(),
                old(self).wf(),
                cap as int == self.spec_capacity(),
                i <= cap,
                forall|kv: K::V| #[trigger]
                    self.values.spec_map().contains_key(kv) ==> old(
                        self,
                    ).values.spec_map().contains_key(kv) && old(
                        self,
                    ).values.spec_map()[kv].key_index >= i,
            decreases cap - i,
        {
            match self.keys.key_at(i) {
                Some(k) => {
                    let _ = self.values.take_entry(k);
                    proof {
                        assert forall|kv: K::V| #[trigger]
                            self.values.spec_map().contains_key(kv) implies old(
                            self,
                        ).values.spec_map().contains_key(kv) && old(
                            self,
                        ).values.spec_map()[kv].key_index >= i + 1 by {
                            let kc = self.keys.slot_seq()[i as int]->Some_0;
                            if old(self).values.spec_map()[kv].key_index == i {
                                assert(old(self).keys.slot_seq()[i as int] matches Some(k3)
                                    && k3@ == kv);
                                assert(kv == kc@);
                                assert(false);
                            }
                        }
                    }
                },
                None => {
                    proof {
                        assert forall|kv: K::V| #[trigger]
                            self.values.spec_map().contains_key(kv) implies old(
                            self,
                        ).values.spec_map().contains_key(kv) && old(
                            self,
                        ).values.spec_map()[kv].key_index >= i + 1 by {
                            if old(self).values.spec_map()[kv].key_index == i {
                                assert(old(self).keys.slot_seq()[i as int] is Some);
                                assert(false);
                            }
                        }
                    }
                },
            }
            i += 1;
        }
        proof {
            assert forall|kv: K::V| !(#[trigger] self.values.spec_map().contains_key(kv)) by {
                if self.values.spec_map().contains_key(kv) {
                    assert(old(self).values.spec_map()[kv].key_index >= cap);
                    assert(old(self).values.spec_map().contains_key(kv));
                }
            }
            assert(final(self)@ =~= Map::<K::V, V>::empty());
        }
    }

    /// Gets the entry for `key` for in-place manipulation, deciding
    /// occupancy with a single value-store probe; the cursor lets the caller
    /// branch and mutate without probing again.
    pub fn entry(&self, key: K) -> (r: Entry<K>)
        requires
            self.wf(),
        ensures
            match r {
                Entry::Occupied(o) => self@.contains_key(key@) && o.spec_key() == key
                    && o.admissible(*self),
                Entry::Vacant(v) => !self@.contains_key(key@) && v.spec_key() == key
                    && v.admissible(*self),
            },
    {
        match self.values.get(&key) {
            Some(e) => Entry::Occupied(OccupiedEntry { key_index: e.key_index, key }),
            None => Entry::Vacant(VacantEntry { key }),
        }
    }
}

/// A cursor for a key that was probed and found absent; holds the probed
/// key, ready to insert it without a second probe.
pub struct VacantEntry<K: StorageKey> {
    /// The probed key.
    key: K,
}

/// A cursor for a key that was probed and found present; holds the probed
/// key and the registry index its value entry references.
pub struct OccupiedEntry<K: StorageKey> {
    /// The probed key.
    key: K,
    /// The index of the registry slot holding the stored key.
    key_index: u32,
}

/// The entry for a probed key: occupied or vacant. A cursor is valid for the
/// map state that produced it and is consumed by one terminal operation.
pub enum Entry<K: StorageKey> {
    /// The key was absent.
    Vacant(VacantEntry<K>),
    /// The key was present.
    Occupied(OccupiedEntry<K>),
}

impl<K: StorageKey> VacantEntry<K> {
    /// The probed key held by the cursor.
    pub closed spec fn spec_key(self) -> K {
        self.key
    }

    /// The cursor matches `m`: the map is well formed and does not contain
    /// the probed key.
    pub closed spec fn admissible<V>(self, m: HashMap<K, V>) -> bool {
        &&& m.wf()
        &&& !m@.contains_key(self.key@)
    }

    /// A reference to the key that an insertion through this cursor would
    /// store.
    pub fn key(&self) -> (r: &K)
        ensures
            *r == self.spec_key(),
    {
        &self.key
    }

    /// Takes ownership of the probed key back out of the cursor.
    pub fn into_key(self) -> (r: K)
        ensures
            r == self.spec_key(),
    {
        self.key
    }

    /// Inserts `value` under the cursor's key and returns a mutable
    /// reference to the stored value.
    pub fn insert<'a, V>(self, map: &'a mut HashMap<K, V>, value: V) -> (r: &'a mut V)
        requires
            self.admissible(*old(map)),
            old(map).has_room(),
        ensures
            final(map).wf(),
            *r == value,
            final(map)@ == old(map)@.insert(self.spec_key()@, *final(r)),
            final(map).spec_len() == old(map).spec_len() + 1,
            old(map).spec_len() < old(map).spec_capacity() ==> final(map).spec_capacity() == old(
                map,
            ).spec_capacity(),
    {
        let probe = self.key.dup();
        let _prev = map.insert(self.key, value);
        proof {
            // Rewriting the fresh entry's value is the same as having
            // inserted that value in the first place.
            assert forall|val: V| (#[trigger] map@.insert(probe@, val)) == old(map)@.insert(
                self.spec_key()@,
                val,
            ) by {
                assert(map@.insert(probe@, val) =~= old(map)@.insert(self.spec_key()@, val));
            }
        }
        match map.get_mut(&probe) {
            Some(v) => v,
            None => {
                proof {
                    assert(false);
                }
                vstd::pervasive::unreached()
            },
        }
    }
}

impl<K: StorageKey> OccupiedEntry<K> {
    /// The probed key held by the cursor.
    pub closed spec fn spec_key(self) -> K {
        self.key
    }

    /// The cursor matches `m`: the map is well formed, contains the probed
    /// key, and the value entry references the slot the cursor recorded.
    pub closed spec fn admissible<V>(self, m: HashMap<K, V>) -> bool {
        &&& m.wf()
        &&& m.values.spec_map().contains_key(self.key@)
        &&& m.values.spec_map()[self.key@].key_index == self.key_index
    }

    /// A reference to the probed key.
    pub fn key(&self) -> (r: &K)
        ensures
            *r == self.spec_key(),
    {
        &self.key
    }

    /// A reference to the stored value; one value-store probe.
    pub fn get<'a, V>(&self, map: &'a HashMap<K, V>) -> (r: &'a V)
        requires
            self.admissible(*map),
        ensures
            map@.contains_key(self.spec_key()@),
            *r == map@[self.spec_key()@],
    {
        match map.get(&self.key) {
            Some(v) => v,
            None => {
                proof {
                    assert(false);
                }
                vstd::pervasive::unreached()
            },
        }
    }

    /// Replaces the stored value in place, without touching the registry
    /// slot or the stored key, and returns the previous value.
    pub fn insert<V>(&self, map: &mut HashMap<K, V>, value: V) -> (r: V)
        requires
            self.admissible(*old(map)),
        ensures
            final(map).wf(),
            self.admissible(*final(map)),
            old(map)@.contains_key(self.spec_key()@),
            r == old(map)@[self.spec_key()@],
            final(map)@ == old(map)@.insert(self.spec_key()@, value),
            final(map).spec_len() == old(map).spec_len(),
            final(map).spec_capacity() == old(map).spec_capacity(),
            final(map).key_order() == old(map).key_order(),
    {
        match map.values.replace_value(&self.key, value) {
            Result::Ok(old_value) => {
                proof {
                    assert(final(map)@ =~= old(map)@.insert(self.spec_key()@, value));
                }
                old_value
            },
            Result::Err(_) => {
                proof {
                    assert(false);
                }
                vstd::pervasive::unreached()
            },
        }
    }

    /// Removes the pair from the map, consuming the cursor and returning the
    /// key and the removed value.
    pub fn remove_entry<V>(self, map: &mut HashMap<K, V>) -> (r: (K, V))
        requires
            self.admissible(*old(map)),
        ensures
            final(map).wf(),
            old(map)@.contains_key(self.spec_key()@),
            r.0 == self.spec_key(),
            r.1 == old(map)@[self.spec_key()@],
            final(map)@ == old(map)@.remove(self.spec_key()@),
            final(map).spec_len() == old(map).spec_len() - 1,
            final(map).spec_capacity() == old(map).spec_capacity(),
    {
        match map.take(&self.key) {
            Some(v) => (self.key, v),
            None => {
                proof {
                    assert(false);
                }
                vstd::pervasive::unreached()
            },
        }
    }

    /// Removes the pair from the map, consuming the cursor and returning the
    /// removed value.
    pub fn remove<V>(self, map: &mut HashMap<K, V>) -> (r: V)
        requires
            self.admissible(*old(map)),
        ensures
            final(map).wf(),
            old(map)@.contains_key(self.spec_key()@),
            r == old(map)@[self.spec_key()@],
            final(map)@ == old(map)@.remove(self.spec_key()@),
            final(map).spec_len() == old(map).spec_len() - 1,
            final(map).spec_capacity() == old(map).spec_capacity(),
    {
        let pair = self.remove_entry(map);
        pair.1
    }

    /// A mutable reference to the stored value; one value-store probe.
    /// However the caller rewrites the value, the registry slot and stored
    /// key are untouched and the cursor stays valid.
    pub fn get_mut<'a, V>(&self, map: &'a mut HashMap<K, V>) -> (r: &'a mut V)
        requires
            self.admissible(*old(map)),
        ensures
            final(map).wf(),
            self.admissible(*final(map)),
            old(map)@.contains_key(self.spec_key()@),
            *r == old(map)@[self.spec_key()@],
            final(map)@ == old(map)@.insert(self.spec_key()@, *final(r)),
            final(map).spec_len() == old(map).spec_len(),
            final(map).spec_capacity() == old(map).spec_capacity(),
    {
        proof {
            let oldm = map.values.spec_map();
            let idx = oldm[self.key@].key_index;
            assert forall|val: V|
                (#[trigger] oldm.insert(self.key@, ValueEntry { value: val, key_index: idx }))
                    .map_values(|e: ValueEntry<V>| e.value) == map@.insert(self.key@, val) by {
                assert(oldm.insert(self.key@, ValueEntry { value: val, key_index: idx })
                    .map_values(|e: ValueEntry<V>| e.value) =~= map@.insert(self.key@, val));
            }
        }
        match map.values.value_mut(&self.key) {
            Some(v) => v,
            None => {
                proof {
                    assert(false);
                }
                vstd::pervasive::unreached()
            },
        }
    }

    /// A mutable reference to the stored value, consuming the cursor; one
    /// value-store probe.
    pub fn into_mut<'a, V>(self, map: &'a mut HashMap<K, V>) -> (r: &'a mut V)
        requires
            self.admissible(*old(map)),
        ensures
            final(map).wf(),
            old(map)@.contains_key(self.spec_key()@),
            *r == old(map)@[self.spec_key()@],
            final(map)@ == old(map)@.insert(self.spec_key()@, *final(r)),
            final(map).spec_len() == old(map).spec_len(),
            final(map).spec_capacity() == old(map).spec_capacity(),
    {
        self.get_mut(map)
    }
}

impl<K: StorageKey> Entry<K> {
    /// The probed key held by the cursor, whichever its occupancy.
    pub open spec fn spec_key(self) -> K {
        match self {
            Entry::Occupied(o) => o.spec_key(),
            Entry::Vacant(v) => v.spec_key(),
        }
    }

    /// The cursor matches `m`; see the two variants.
    pub open spec fn admissible<V>(self, m: HashMap<K, V>) -> bool {
        match self {
            Entry::Occupied(o) => o.admissible(m),
            Entry::Vacant(v) => v.admissible(m),
        }
    }

    /// A reference to the probed key.
    pub fn key(&self) -> (r: &K)
        ensures
            *r == self.spec_key(),
    {
        match self {
            Entry::Occupied(o) => o.key(),
            Entry::Vacant(v) => v.key(),
        }
    }

    /// Ensures a value is in the entry, inserting `default` if the key was
    /// absent, and returns a mutable reference to the stored value; the
    /// present value is never overwritten.
    pub fn or_insert<'a, V>(self, map: &'a mut HashMap<K, V>, default: V) -> (r: &'a mut V)
        requires
            self.admissible(*old(map)),
            self is Vacant ==> old(map).has_room(),
        ensures
            final(map).wf(),
            final(map)@ == old(map)@.insert(self.spec_key()@, *final(r)),
            self is Occupied ==> *r == old(map)@[self.spec_key()@] && final(map).spec_len() == old(
                map,
            ).spec_len() && final(map).spec_capacity() == old(map).spec_capacity(),
            self is Vacant ==> *r == default && final(map).spec_len() == old(map).spec_len() + 1,
    {
        match self {
            Entry::Occupied(o) => o.into_mut(map),
            Entry::Vacant(v) => v.insert(map, default),
        }
    }

    /// Ensures a value is in the entry, inserting the default value of the
    /// type if the key was absent, and returns a mutable reference to the
    /// stored value.
    pub fn or_default<'a, V: Default>(self, map: &'a mut HashMap<K, V>) -> (r: &'a mut V)
        requires
            self.admissible(*old(map)),
            self is Vacant ==> old(map).has_room(),
        ensures
            final(map).wf(),
            final(map)@ == old(map)@.insert(self.spec_key()@, *final(r)),
            self is Occupied ==> *r == old(map)@[self.spec_key()@] && final(map).spec_len() == old(
                map,
            ).spec_len() && final(map).spec_capacity() == old(map).spec_capacity(),
            self is Vacant ==> final(map).spec_len() == old(map).spec_len() + 1,
    {
        match self {
            Entry::Occupied(o) => o.into_mut(map),
            Entry::Vacant(v) => {
                let value = V::default();
                v.insert(map, value)
            },
        }
    }

    /// Ensures a value is in the entry, inserting the result of `default`
    /// if the key was absent, and returns a mutable reference to the stored
    /// value. The closure is only invoked for a vacant entry, before the
    /// insertion takes place; if it panics the map is left untouched.
    pub fn or_insert_with<'a, V, F: FnOnce() -> V>(self, map: &'a mut HashMap<K, V>, default: F)
        -> (r: &'a mut V)
        requires
            self.admissible(*old(map)),
            self is Vacant ==> old(map).has_room() && call_requires(
                default,
                (),
            ),
        ensures
            final(map).wf(),
            final(map)@ == old(map)@.insert(self.spec_key()@, *final(r)),
            self is Occupied ==> *r == old(map)@[self.spec_key()@] && final(map).spec_len() == old(
                map,
            ).spec_len() && final(map).spec_capacity() == old(map).spec_capacity(),
            self is Vacant ==> call_ensures(default, (), *r) && final(map).spec_len() == old(
                map,
            ).spec_len() + 1,
    {
        match self {
            Entry::Occupied(o) => o.into_mut(map),
            Entry::Vacant(v) => {
                let value = default();
                v.insert(map, value)
            },
        }
    }

    /// Ensures a value is in the entry, inserting the result of `default`
    /// applied to the key if the key was absent, and returns a mutable
    /// reference to the stored value. The closure is only invoked for a
    /// vacant entry.
    pub fn or_insert_with_key<'a, V, F: FnOnce(&K) -> V>(
        self,
        map: &'a mut HashMap<K, V>,
        default: F,
    ) -> (r: &'a mut V)
        requires
            self.admissible(*old(map)),
            self is Vacant ==> old(map).has_room() && (forall|k: &K|
                k@ == self.spec_key()@ ==> call_requires(default, (k,))),
        ensures
            final(map).wf(),
            final(map)@ == old(map)@.insert(self.spec_key()@, *final(r)),
            self is Occupied ==> *r == old(map)@[self.spec_key()@] && final(map).spec_len() == old(
                map,
            ).spec_len() && final(map).spec_capacity() == old(map).spec_capacity(),
            self is Vacant ==> (exists|k: &K|
                k@ == self.spec_key()@ && call_ensures(default, (k,), *r))
                && final(map).spec_len() == old(map).spec_len() + 1,
    {
        match self {
            Entry::Occupied(o) => o.into_mut(map),
            Entry::Vacant(v) => {
                let value = default(&v.key);
                proof {
                    assert(exists|k: &K|
                        k@ == v.spec_key()@ && #[trigger] call_ensures(default, (k,), value));
                }
                v.insert(map, value)
            },
        }
    }

    /// Applies `f` to the present value in place and returns the cursor for
    /// further chaining; does nothing for a vacant entry. The closure reads
    /// the present value and returns the value to store.
    pub fn and_modify<V, F: FnOnce(&V) -> V>(self, map: &mut HashMap<K, V>, f: F) -> (r: Entry<K>)
        requires
            self.admissible(*old(map)),
            self is Occupied ==> (forall|v: &V|
                *v == old(map)@[self.spec_key()@] ==> call_requires(f, (v,))),
        ensures
            r == self,
            final(map).wf(),
            r.admissible(*final(map)),
            self is Vacant ==> *final(map) == *old(map),
            self is Occupied ==> (exists|v: &V|
                *v == old(map)@[self.spec_key()@] && call_ensures(f, (v,), final(map)@[self.spec_key()@]))
                && final(map)@ == old(map)@.insert(self.spec_key()@, final(map)@[self.spec_key()@])
                && final(map).spec_len() == old(map).spec_len() && final(map).spec_capacity()
                == old(map).spec_capacity(),
    {
        match self {
            Entry::Occupied(o) => {
                let new_value = {
                    let present = o.get(map);
                    f(present)
                };
                let _ = o.insert(map, new_value);
                proof {
                    assert(final(map)@[o.spec_key()@] == new_value);
                }
                Entry::Occupied(o)
            },
            Entry::Vacant(v) => Entry::Vacant(v),
        }
    }
}

} // verus!
