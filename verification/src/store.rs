//! The sparse value store.
//!
//! Maps a key directly to an optional value entry at a content-derived
//! address; entries are reached one at a time and the store cannot be
//! enumerated. The addressing digest is assumed collision-free at the scale
//! used, so a key's canonical encoding (its view) stands in for its address:
//! two keys reach the same entry exactly when their views agree, and no key
//! equality is re-checked beyond that.

use vstd::prelude::*;
use crate::key::StorageKey;

verus! {

/// An entry of the value store: the caller's value together with a
/// back-reference to the registry slot holding the key.
pub(crate) struct ValueEntry<V> {
    /// The value stored in this entry.
    pub(crate) value: V,
    /// The index of the registry slot holding the key of this entry.
    pub(crate) key_index: u32,
}

/// The entries as a map from canonical key encodings to entries.
pub(crate) open spec fn entries_map<K: StorageKey, V>(s: Seq<(K, ValueEntry<V>)>) -> Map<
    K::V,
    ValueEntry<V>,
>
    decreases s.len(),
{
    if s.len() == 0 {
        Map::empty()
    } else {
        entries_map(s.drop_last()).insert(s.last().0@, s.last().1)
    }
}

/// No two entries are stored under the same canonical key encoding.
pub(crate) open spec fn distinct_keys<K: StorageKey, V>(s: Seq<(K, ValueEntry<V>)>) -> bool {
    forall|i: int, j: int| 0 <= i < j < s.len() ==> (#[trigger] s[i].0@) != (#[trigger] s[j].0@)
}

/// A key encoding is in the map exactly when some entry carries it.
pub(crate) proof fn lemma_entries_map_contains<K: StorageKey, V>(
    s: Seq<(K, ValueEntry<V>)>,
    kv: K::V,
)
    ensures
        entries_map(s).contains_key(kv) <==> exists|i: int| 0 <= i < s.len() && (#[trigger] s[i].0@)
            == kv,
    decreases s.len(),
{
    if s.len() > 0 {
        lemma_entries_map_contains(s.drop_last(), kv);
        if s.last().0@ == kv {
            assert(s[s.len() - 1].0@ == kv);
        } else {
            if exists|i: int| 0 <= i < s.len() && (#[trigger] s[i].0@) == kv {
                let i = choose|i: int| 0 <= i < s.len() && (#[trigger] s[i].0@) == kv;
                assert(s.drop_last()[i].0@ == kv);
            }
        }
    }
}

/// Each entry is found in the map under its own key encoding.
pub(crate) proof fn lemma_entries_map_index<K: StorageKey, V>(s: Seq<(K, ValueEntry<V>)>, i: int)
    requires
        distinct_keys(s),
        0 <= i < s.len(),
    ensures
        entries_map(s).contains_key(s[i].0@),
        entries_map(s)[s[i].0@] == s[i].1,
    decreases s.len(),
{
    if i < s.len() - 1 {
        assert(s[i].0@ != s.last().0@);
        lemma_entries_map_index(s.drop_last(), i);
    }
}

/// The map has one binding per entry.
pub(crate) proof fn lemma_entries_map_dom_len<K: StorageKey, V>(s: Seq<(K, ValueEntry<V>)>)
    requires
        distinct_keys(s),
    ensures
        entries_map(s).dom().finite(),
        entries_map(s).dom().len() == s.len(),
    decreases s.len(),
{
    if s.len() > 0 {
        lemma_entries_map_dom_len(s.drop_last());
        lemma_entries_map_contains(s.drop_last(), s.last().0@);
        assert(forall|i: int|
            0 <= i < s.drop_last().len() ==> (#[trigger] s.drop_last()[i].0@) != s.last().0@);
        assert(!entries_map(s.drop_last()).contains_key(s.last().0@));
    }
}

/// Replacing the entry at one position rebinds exactly that key encoding.
pub(crate) proof fn lemma_entries_map_update<K: StorageKey, V>(
    s: Seq<(K, ValueEntry<V>)>,
    i: int,
    e: ValueEntry<V>,
)
    requires
        distinct_keys(s),
        0 <= i < s.len(),
    ensures
        entries_map(s.update(i, (s[i].0, e))) == entries_map(s).insert(s[i].0@, e),
    decreases s.len(),
{
    let t = s.update(i, (s[i].0, e));
    if i == s.len() - 1 {
        assert(t.drop_last() =~= s.drop_last());
        assert(entries_map(t) =~= entries_map(s).insert(s[i].0@, e));
    } else {
        lemma_entries_map_update(s.drop_last(), i, e);
        assert(t.drop_last() =~= s.drop_last().update(i, (s[i].0, e)));
        assert(s[i].0@ != s.last().0@);
        assert(entries_map(t) =~= entries_map(s).insert(s[i].0@, e));
    }
}

/// Removing the entry at one position unbinds exactly that key encoding.
pub(crate) proof fn lemma_entries_map_remove<K: StorageKey, V>(s: Seq<(K, ValueEntry<V>)>, i: int)
    requires
        distinct_keys(s),
        0 <= i < s.len(),
    ensures
        entries_map(s.remove(i)) == entries_map(s).remove(s[i].0@),
    decreases s.len(),
{
    let t = s.remove(i);
    if i == s.len() - 1 {
        assert(t =~= s.drop_last());
        lemma_entries_map_contains(s.drop_last(), s[i].0@);
        assert(forall|j: int|
            0 <= j < s.drop_last().len() ==> (#[trigger] s.drop_last()[j].0@) != s[i].0@);
        assert(!entries_map(s.drop_last()).contains_key(s[i].0@));
        assert(entries_map(t) =~= entries_map(s).remove(s[i].0@));
    } else {
        lemma_entries_map_remove(s.drop_last(), i);
        assert(t.drop_last() =~= s.drop_last().remove(i));
        assert(t.last() == s.last());
        assert(s[i].0@ != s.last().0@);
        assert(entries_map(t) =~= entries_map(s).remove(s[i].0@));
    }
}

/// The sparse value store: entries reachable only through their key's
/// content address, with no enumeration.
pub(crate) struct ValueStore<K: StorageKey, V> {
    /// The stored entries, one per distinct key encoding.
    pub(crate) entries: Vec<(K, ValueEntry<V>)>,
    /// Whether anything has ever been written; until then teardown can skip
    /// the store entirely.
    pub(crate) touched: bool,
}

impl<K: StorageKey, V> ValueStore<K, V> {
    /// The store as a map from canonical key encodings to entries.
    pub(crate) open spec fn spec_map(self) -> Map<K::V, ValueEntry<V>> {
        entries_map(self.entries@)
    }

    /// Whether anything has ever been written to the store.
    pub(crate) open spec fn materialized(self) -> bool {
        self.touched
    }

    /// Well-formedness: one entry per key encoding, and an untouched store is
    /// empty.
    pub(crate) open spec fn wf(self) -> bool {
        &&& distinct_keys(self.entries@)
        &&& !self.touched ==> self.entries@.len() == 0
    }

    /// Creates an empty store; no entry exists and nothing has been written.
    pub(crate) fn new() -> (r: Self)
        ensures
            r.wf(),
            r.spec_map() == Map::<K::V, ValueEntry<V>>::empty(),
            !r.materialized(),
            r.entries@.len() == 0,
    {
        ValueStore { entries: Vec::new(), touched: false }
    }

    /// Finds the position of the entry addressed by `key`, if present.
    fn find(&self, key: &K) -> (r: Option<usize>)
        ensures
            match r {
                Some(i) => i < self.entries@.len() && self.entries@[i as int].0@ == key@,
                None => forall|i: int|
                    0 <= i < self.entries@.len() ==> (#[trigger] self.entries@[i].0@) != key@,
            },
    {
        let mut i: usize = 0;
        while i < self.entries.len()
            invariant
                i <= self.entries@.len(),
                forall|j: int| 0 <= j < i ==> (#[trigger] self.entries@[j].0@) != key@,
            decreases self.entries@.len() - i,
        {
            if self.entries[i].0.key_eq(key) {
                return Some(i);
            }
            i += 1;
        }
        None
    }

    /// One probe: the entry addressed by `key`, if present.
    pub(crate) fn get(&self, key: &K) -> (r: Option<&ValueEntry<V>>)
        requires
            self.wf(),
        ensures
            match r {
                Some(e) => self.spec_map().contains_key(key@) && *e == self.spec_map()[key@],
                None => !self.spec_map().contains_key(key@),
            },
    {
        proof {
            lemma_entries_map_contains(self.entries@, key@);
        }
        match self.find(key) {
            Some(i) => {
                proof {
                    lemma_entries_map_index(self.entries@, i as int);
                }
                Some(&self.entries[i].1)
            },
            None => None,
        }
    }

    /// Writes an entry for `key`, replacing any present one.
    pub(crate) fn put(&mut self, key: K, entry: ValueEntry<V>)
        requires
            old(self).wf(),
        ensures
            final(self).wf(),
            final(self).spec_map() == old(self).spec_map().insert(key@, entry),
            final(self).materialized(),
            final(self).entries@.len() == old(self).entries@.len() + (
            if old(self).spec_map().contains_key(key@) {
                0int
            } else {
                1int
            }),
    {
        proof {
            lemma_entries_map_contains(self.entries@, key@);
        }
        self.touched = true;
        match self.find(&key) {
            Some(i) => {
                // The present entry is rebound; its key is left untouched, so
                // an equal-but-not-identical probe key is not re-stored.
                proof {
                    lemma_entries_map_index(self.entries@, i as int);
                    lemma_entries_map_update(self.entries@, i as int, entry);
                }
                let ghost oldentries = self.entries@;
                let old_pair = self.entries.remove(i);
                self.entries.insert(i, (old_pair.0, entry));
                proof {
                    assert(self.entries@ =~= oldentries.update(
                        i as int,
                        (oldentries[i as int].0, entry),
                    ));
                }
            },
            None => {
                self.entries.push((key, entry));
                proof {
                    assert(self.entries@.drop_last() =~= old(self).entries@);
                }
            },
        }
    }

    /// Atomically clears the entry addressed by `key`, returning it.
    pub(crate) fn take_entry(&mut self, key: &K) -> (r: Option<ValueEntry<V>>)
        requires
            old(self).wf(),
        ensures
            final(self).wf(),
            match r {
                Some(e) => old(self).spec_map().contains_key(key@) && e == old(self).spec_map()[key@]
                    && final(self).spec_map() == old(self).spec_map().remove(key@)
                    && final(self).entries@.len() == old(self).entries@.len() - 1,
                None => !old(self).spec_map().contains_key(key@) && *final(self) == *old(self),
            },
            final(self).materialized() == old(self).materialized(),
    {
        proof {
            lemma_entries_map_contains(self.entries@, key@);
        }
        match self.find(key) {
            Some(i) => {
                proof {
                    lemma_entries_map_index(self.entries@, i as int);
                    lemma_entries_map_remove(self.entries@, i as int);
                }
                let (_, e) = self.entries.remove(i);
                Some(e)
            },
            None => None,
        }
    }

    /// Replaces, in place, the value of the entry addressed by `key`,
    /// leaving the stored key and back-reference untouched, and returns the
    /// previous value; hands the offered value back if no entry is present.
    pub(crate) fn replace_value(&mut self, key: &K, value: V) -> (r: Result<V, V>)
        requires
            old(self).wf(),
        ensures
            final(self).wf(),
            final(self).entries@.len() == old(self).entries@.len(),
            final(self).materialized() == old(self).materialized(),
            match r {
                Result::Ok(v) => old(self).spec_map().contains_key(key@) && v == old(
                    self,
                ).spec_map()[key@].value && final(self).spec_map() == old(self).spec_map().insert(
                    key@,
                    ValueEntry { value, key_index: old(self).spec_map()[key@].key_index },
                ),
                Result::Err(v) => !old(self).spec_map().contains_key(key@) && v == value
                    && *final(self) == *old(self),
            },
    {
        proof {
            lemma_entries_map_contains(self.entries@, key@);
        }
        match self.find(key) {
            Some(i) => {
                proof {
                    lemma_entries_map_index(self.entries@, i as int);
                }
                let ghost oldentries = self.entries@;
                let old_pair = self.entries.remove(i);
                let entry = ValueEntry { value, key_index: old_pair.1.key_index };
                self.entries.insert(i, (old_pair.0, entry));
                proof {
                    assert(self.entries@ =~= oldentries.update(
                        i as int,
                        (oldentries[i as int].0, entry),
                    ));
                    lemma_entries_map_update(oldentries, i as int, entry);
                }
                Result::Ok(old_pair.1.value)
            },
            None => Result::Err(value),
        }
    }

    /// A mutable reference to the value of the entry addressed by `key`, if
    /// present; the stored key and back-reference stay untouched however the
    /// caller rewrites the value.
    pub(crate) fn value_mut(&mut self, key: &K) -> (r: Option<&mut V>)
        requires
            old(self).wf(),
        ensures
            match r {
                Some(v) => {
                    &&& old(self).spec_map().contains_key(key@)
                    &&& *v == old(self).spec_map()[key@].value
                    &&& final(self).wf()
                    &&& final(self).spec_map() == old(self).spec_map().insert(
                        key@,
                        ValueEntry {
                            value: *final(v),
                            key_index: old(self).spec_map()[key@].key_index,
                        },
                    )
                    &&& final(self).entries@.len() == old(self).entries@.len()
                    &&& final(self).materialized() == old(self).materialized()
                },
                None => !old(self).spec_map().contains_key(key@) && *final(self) == *old(self),
            },
    {
        proof {
            lemma_entries_map_contains(self.entries@, key@);
        }
        match self.find(key) {
            Some(i) => {
                proof {
                    lemma_entries_map_index(self.entries@, i as int);
                }
                let ghost oldentries = self.entries@;
                let pair = &mut self.entries[i];
                let v = &mut pair.1.value;
                proof {
                    lemma_entries_map_update(
                        oldentries,
                        i as int,
                        ValueEntry {
                            value: *final(v),
                            key_index: oldentries[i as int].1.key_index,
                        },
                    );
                }
                Some(v)
            },
            None => None,
        }
    }

    /// Whether anything has ever been written to the store.
    pub(crate) fn is_materialized(&self) -> (r: bool)
        ensures
            r == self.materialized(),
    {
        self.touched
    }

    /// Rewrites the back-reference of the entry addressed by `key` to
    /// `key_index`, leaving the value in place.
    pub(crate) fn set_index(&mut self, key: &K, key_index: u32)
        requires
            old(self).wf(),
            old(self).spec_map().contains_key(key@),
        ensures
            final(self).wf(),
            final(self).spec_map() == old(self).spec_map().insert(
                key@,
                ValueEntry { value: old(self).spec_map()[key@].value, key_index },
            ),
            final(self).entries@.len() == old(self).entries@.len(),
            final(self).materialized() == old(self).materialized(),
    {
        proof {
            lemma_entries_map_contains(self.entries@, key@);
        }
        match self.find(key) {
            Some(i) => {
                proof {
                    lemma_entries_map_index(self.entries@, i as int);
                }
                let ghost oldentries = self.entries@;
                let old_pair = self.entries.remove(i);
                let entry = ValueEntry { value: old_pair.1.value, key_index };
                self.entries.insert(i, (old_pair.0, entry));
                proof {
                    assert(self.entries@ =~= oldentries.update(
                        i as int,
                        (oldentries[i as int].0, entry),
                    ));
                    lemma_entries_map_update(oldentries, i as int, entry);
                }
            },
            None => {
                proof {
                    assert(false);
                }
            },
        }
    }
}

} // verus!
