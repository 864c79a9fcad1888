//! The dense key registry.
//!
//! A growable, densely packed sequence of slots, each either occupied (holding
//! a key) or vacant. The vacant slots form a doubly linked free list so that
//! removed slots are reused before the sequence grows. Every occupied slot has
//! a stable index until it is removed or relocated by defragmentation; these
//! indices are the handles the rest of the map holds across operations.

use vstd::prelude::*;
use crate::key::StorageKey;

verus! {

/// Index value that marks the absence of a neighbour in the free list.
pub const NIL: u32 = 0xFFFF_FFFF;

/// Largest number of slots the registry may hold; keeps every slot index
/// strictly below `NIL`.
pub const MAX_CAPACITY: u32 = 0xFFFF_FFFE;

/// One slot of the key registry.
pub(crate) enum Slot<K> {
    /// The slot holds a key.
    Occupied(K),
    /// The slot is vacant; `prev` and `next` are the neighbouring vacant
    /// slots in the free list, or `NIL` at either end.
    Vacant { prev: u32, next: u32 },
}

impl<K> Slot<K> {
    /// The key held by the slot, if it is occupied.
    pub(crate) open spec fn spec_key(self) -> Option<K> {
        match self {
            Slot::Occupied(k) => Some(k),
            Slot::Vacant { .. } => None,
        }
    }
}

/// The outcome of one defragmentation step.
pub(crate) enum DefragStep<K> {
    /// No slot is vacant; nothing to reclaim.
    Done,
    /// The highest slot was vacant and has been dropped.
    Dropped,
    /// The key in the highest slot has been relocated from `old_index` to
    /// `new_index`; `key` identifies it for the caller's bookkeeping.
    Moved { old_index: u32, new_index: u32, key: K },
}

/// The dense key registry with O(1) slot reuse through a free list.
pub(crate) struct Stash<K> {
    /// The slots, occupied or vacant.
    pub(crate) slots: Vec<Slot<K>>,
    /// First vacant slot of the free list, or `NIL` if none is vacant.
    pub(crate) head: u32,
    /// Number of occupied slots.
    pub(crate) count: u32,
    /// The vacant slot indices in free-list order.
    pub(crate) free: Ghost<Seq<u32>>,
}

/// A duplicate-free list of indices below `n` that misses one such index has
/// fewer than `n` entries.
proof fn lemma_free_shorter_than_slots(free: Seq<u32>, n: int, missing: u32)
    requires
        0 <= missing < n,
        n <= 0x1_0000_0000,
        free.no_duplicates(),
        forall|j: int| 0 <= j < free.len() ==> (#[trigger] free[j]) < n,
        !free.contains(missing),
    ensures
        free.len() < n,
{
    broadcast use vstd::seq_lib::seq_to_set_is_finite;

    let all = Seq::new(n as nat, |i: int| i as u32);
    assert(all.no_duplicates());
    all.unique_seq_to_set();
    free.unique_seq_to_set();
    assert(all[missing as int] == missing);
    assert(all.to_set().contains(missing));
    let sup = all.to_set().remove(missing);
    assert forall|x: u32| free.to_set().contains(x) implies sup.contains(x) by {
        let j = choose|j: int| 0 <= j < free.len() && free[j] == x;
        assert(all[free[j] as int] == free[j]);
        assert(all.to_set().contains(x));
    }
    vstd::set_lib::lemma_len_subset(free.to_set(), sup);
}

impl<K> Stash<K> {
    /// The slots as a sequence of optional keys.
    pub(crate) open spec fn slot_seq(self) -> Seq<Option<K>> {
        Seq::new(self.slots@.len(), |i: int| self.slots@[i].spec_key())
    }

    /// Number of slots, occupied or vacant.
    pub(crate) open spec fn spec_capacity(self) -> int {
        self.slots@.len() as int
    }

    /// Number of occupied slots.
    pub(crate) open spec fn spec_len(self) -> int {
        self.count as int
    }

    /// The vacant slot indices in free-list order.
    pub(crate) open spec fn free_seq(self) -> Seq<u32> {
        self.free@
    }

    /// The free list is a doubly linked chain through exactly the indices of
    /// `free`, entered at `head`.
    pub(crate) open spec fn chain_ok(slots: Seq<Slot<K>>, head: u32, free: Seq<u32>) -> bool {
        &&& forall|j: int| 0 <= j < free.len() ==> (#[trigger] free[j]) < slots.len()
        &&& forall|j: int|
            0 <= j < free.len() ==> ((#[trigger] slots[free[j] as int]) matches Slot::Vacant {
                prev,
                next,
            } && prev == (if j == 0 {
                NIL
            } else {
                free[j - 1]
            }) && next == (if j == free.len() - 1 {
                NIL
            } else {
                free[j + 1]
            }))
        &&& head == (if free.len() == 0 {
            NIL
        } else {
            free[0]
        })
        &&& free.no_duplicates()
    }

    /// Well-formedness: the free list threads exactly the vacant slots, and
    /// `count` counts the occupied ones.
    pub(crate) open spec fn wf(self) -> bool {
        &&& self.slots@.len() <= MAX_CAPACITY
        &&& Self::chain_ok(self.slots@, self.head, self.free@)
        &&& forall|i: int|
            0 <= i < self.slots@.len() && !((#[trigger] self.slots@[i]) matches Slot::Occupied(_))
                ==> self.free@.contains(i as u32)
        &&& self.count as int == self.slots@.len() - self.free@.len()
    }

    /// Creates an empty registry; no slot exists until the first insertion.
    pub(crate) fn new() -> (r: Self)
        ensures
            r.wf(),
            r.spec_capacity() == 0,
            r.spec_len() == 0,
    {
        Stash { slots: Vec::new(), head: NIL, count: 0, free: Ghost(Seq::empty()) }
    }

    /// Number of occupied slots.
    pub(crate) fn len(&self) -> (r: u32)
        ensures
            r as int == self.spec_len(),
    {
        self.count
    }

    /// Number of slots, occupied or vacant.
    pub(crate) fn capacity(&self) -> (r: u32)
        requires
            self.wf(),
        ensures
            r as int == self.spec_capacity(),
    {
        self.slots.len() as u32
    }

    /// The key in the slot at `i`, if that slot is occupied.
    pub(crate) fn key_at(&self, i: u32) -> (r: Option<&K>)
        requires
            self.wf(),
            i < self.spec_capacity(),
        ensures
            match r {
                Some(k) => self.slot_seq()[i as int] == Some(*k),
                None => self.slot_seq()[i as int] is None,
            },
    {
        match &self.slots[i as usize] {
            Slot::Occupied(k) => Some(k),
            Slot::Vacant { .. } => None,
        }
    }

    /// Stores `key` in a slot and returns its index: the head of the free
    /// list when one is vacant, a freshly appended slot otherwise.
    pub(crate) fn put(&mut self, key: K) -> (idx: u32)
        requires
            old(self).wf(),
            old(self).spec_len() < old(self).spec_capacity() || old(self).spec_capacity()
                < MAX_CAPACITY,
        ensures
            final(self).wf(),
            final(self).spec_len() == old(self).spec_len() + 1,
            if old(self).spec_len() < old(self).spec_capacity() {
                &&& idx < old(self).spec_capacity()
                &&& old(self).slot_seq()[idx as int] is None
                &&& final(self).slot_seq() == old(self).slot_seq().update(
                    idx as int,
                    Some(key),
                )
                &&& final(self).spec_capacity() == old(self).spec_capacity()
            } else {
                &&& idx as int == old(self).spec_capacity()
                &&& final(self).slot_seq() == old(self).slot_seq().push(Some(key))
            },
    {
        proof {
            // A vacant slot exists exactly when the free list is non-empty,
            // exactly when `head` is a valid index.
            if self.free@.len() > 0 {
                assert(self.free@[0] < self.slots@.len());
            }
        }
        if self.head != NIL {
            let i = self.head;
            let ghost oldfree = self.free@;
            proof {
                assert(oldfree.len() > 0);
                assert(oldfree[0] == i);
            }
            let nxt: u32 = match &self.slots[i as usize] {
                Slot::Vacant { next, .. } => *next,
                Slot::Occupied(_) => 0,
            };
            self.slots[i as usize] = Slot::Occupied(key);
            if nxt != NIL {
                proof {
                    assert(oldfree.len() > 1 && oldfree[1] == nxt);
                }
                let nn: u32 = match &self.slots[nxt as usize] {
                    Slot::Vacant { next, .. } => *next,
                    Slot::Occupied(_) => 0,
                };
                self.slots[nxt as usize] = Slot::Vacant { prev: NIL, next: nn };
            }
            self.head = nxt;
            self.count = self.count + 1;
            proof {
                self.free@ = oldfree.drop_first();
                let newfree = self.free@;
                assert forall|j: int| 0 <= j < newfree.len() implies (
                    (#[trigger] self.slots@[newfree[j] as int]) matches Slot::Vacant { prev, next }
                        && prev == (if j == 0 { NIL } else { newfree[j - 1] })
                        && next == (if j == newfree.len() - 1 { NIL } else { newfree[j + 1] })
                ) by {
                    assert(newfree[j] == oldfree[j + 1]);
                    if j > 0 {
                        assert(newfree[j - 1] == oldfree[j]);
                    }
                }
                assert forall|m: int|
                    0 <= m < self.slots@.len() && !((#[trigger] self.slots@[m])
                        matches Slot::Occupied(_)) implies newfree.contains(m as u32) by {
                    assert(old(self).free@.contains(m as u32));
                    let jm = choose|jm: int|
                        0 <= jm < oldfree.len() && oldfree[jm] == m as u32;
                    assert(jm != 0);
                    assert(newfree[jm - 1] == m as u32);
                }
                assert(final(self).slot_seq() =~= old(self).slot_seq().update(
                    i as int,
                    Some(key),
                ));
            }
            i
        } else {
            let idx = self.slots.len() as u32;
            self.slots.push(Slot::Occupied(key));
            self.count = self.count + 1;
            proof {
                assert(self.free@.len() == 0);
                assert(final(self).slot_seq() =~= old(self).slot_seq().push(Some(key)));
            }
            idx
        }
    }

    /// Frees the slot at `index`, returning its key; the slot joins the free
    /// list at the head. Returns `None` if the slot does not exist or is
    /// already vacant.
    pub(crate) fn take(&mut self, index: u32) -> (r: Option<K>)
        requires
            old(self).wf(),
        ensures
            final(self).wf(),
            if index < old(self).spec_capacity() && old(self).slot_seq()[index as int] is Some {
                &&& r == old(self).slot_seq()[index as int]
                &&& final(self).slot_seq() == old(self).slot_seq().update(index as int, None)
                &&& final(self).spec_len() == old(self).spec_len() - 1
                &&& final(self).spec_capacity() == old(self).spec_capacity()
            } else {
                &&& r is None
                &&& *final(self) == *old(self)
            },
    {
        if index as usize >= self.slots.len() {
            return None;
        }
        let occupied = match &self.slots[index as usize] {
            Slot::Occupied(_) => true,
            Slot::Vacant { .. } => false,
        };
        if !occupied {
            return None;
        }
        let ghost oldfree = self.free@;
        let oldhead = self.head;
        let mut tmp: Slot<K> = Slot::Vacant { prev: NIL, next: oldhead };
        core::mem::swap(&mut tmp, &mut self.slots[index as usize]);
        let k = match tmp {
            Slot::Occupied(k) => k,
            Slot::Vacant { .. } => {
                // The slot was just seen to be occupied.
                proof {
                    assert(false);
                }
                return None;
            },
        };
        if oldhead != NIL {
            proof {
                assert(oldfree.len() > 0 && oldfree[0] == oldhead);
            }
            let hn: u32 = match &self.slots[oldhead as usize] {
                Slot::Vacant { next, .. } => *next,
                Slot::Occupied(_) => 0,
            };
            self.slots[oldhead as usize] = Slot::Vacant { prev: index, next: hn };
        }
        self.head = index;
        proof {
            // `index` was occupied, so it is not on the free list, which is
            // therefore shorter than the slot sequence.
            if oldfree.contains(index) {
                let jx = choose|jx: int| 0 <= jx < oldfree.len() && oldfree[jx] == index;
                assert(old(self).slots@[index as int] matches Slot::Vacant { .. });
                assert(false);
            }
            lemma_free_shorter_than_slots(oldfree, self.slots@.len() as int, index);
        }
        self.count = self.count - 1;
        proof {
            self.free@ = seq![index] + oldfree;
            let newfree = self.free@;
            assert forall|j: int| 0 <= j < newfree.len() implies (
                (#[trigger] self.slots@[newfree[j] as int]) matches Slot::Vacant { prev, next }
                    && prev == (if j == 0 { NIL } else { newfree[j - 1] })
                    && next == (if j == newfree.len() - 1 { NIL } else { newfree[j + 1] })
            ) by {
                if j > 0 {
                    assert(newfree[j] == oldfree[j - 1]);
                    if j > 1 {
                        assert(newfree[j - 1] == oldfree[j - 2]);
                    }
                }
            }
            assert forall|m: int|
                0 <= m < self.slots@.len() && !((#[trigger] self.slots@[m])
                    matches Slot::Occupied(_)) implies newfree.contains(m as u32) by {
                if m == index as int {
                    assert(newfree[0] == index);
                } else {
                    assert(old(self).free@.contains(m as u32));
                    let jm = choose|jm: int|
                        0 <= jm < oldfree.len() && oldfree[jm] == m as u32;
                    assert(newfree[jm + 1] == m as u32);
                }
            }
            assert(final(self).slot_seq() =~= old(self).slot_seq().update(index as int, None));
        }
        Some(k)
    }

    /// Removes the vacant slot `i` from the free list by relinking its
    /// neighbours. The slots keep their occupancy; only `i` is left outside
    /// the chain, for the caller to repurpose at once.
    fn unlink_vacant(&mut self, i: u32)
        requires
            old(self).wf(),
            old(self).free_seq().contains(i),
        ensures
            final(self).slots@.len() == old(self).slots@.len(),
            final(self).slot_seq() == old(self).slot_seq(),
            final(self).count == old(self).count,
            exists|p: int|
                0 <= p < old(self).free_seq().len() && old(self).free_seq()[p] == i
                    && final(self).free_seq() == old(self).free_seq().remove(p),
            Self::chain_ok(final(self).slots@, final(self).head, final(self).free_seq()),
            forall|m: int|
                0 <= m < final(self).slots@.len() && !((#[trigger] final(self).slots@[m])
                    matches Slot::Occupied(_)) && m != i as int
                    ==> final(self).free_seq().contains(m as u32),
    {
        let ghost oldfree = self.free@;
        let ghost p = choose|p: int| 0 <= p < oldfree.len() && oldfree[p] == i;
        let (p_idx, n_idx): (u32, u32) = match &self.slots[i as usize] {
            Slot::Vacant { prev, next } => (*prev, *next),
            Slot::Occupied(_) => (0, 0),
        };
        proof {
            assert(self.slots@[oldfree[p] as int] matches Slot::Vacant { .. });
            assert(p_idx == (if p == 0 { NIL } else { oldfree[p - 1] }));
            assert(n_idx == (if p == oldfree.len() - 1 { NIL } else { oldfree[p + 1] }));
        }
        if p_idx != NIL {
            let pp: u32 = match &self.slots[p_idx as usize] {
                Slot::Vacant { prev, .. } => *prev,
                Slot::Occupied(_) => 0,
            };
            self.slots[p_idx as usize] = Slot::Vacant { prev: pp, next: n_idx };
        } else {
            self.head = n_idx;
        }
        if n_idx != NIL {
            let nn: u32 = match &self.slots[n_idx as usize] {
                Slot::Vacant { next, .. } => *next,
                Slot::Occupied(_) => 0,
            };
            self.slots[n_idx as usize] = Slot::Vacant { prev: p_idx, next: nn };
        }
        proof {
            self.free@ = oldfree.remove(p);
            let newfree = self.free@;
            assert forall|j: int| 0 <= j < newfree.len() implies (
                (#[trigger] self.slots@[newfree[j] as int]) matches Slot::Vacant { prev, next }
                    && prev == (if j == 0 { NIL } else { newfree[j - 1] })
                    && next == (if j == newfree.len() - 1 { NIL } else { newfree[j + 1] })
            ) by {
                if j < p {
                    assert(newfree[j] == oldfree[j]);
                    if j > 0 {
                        assert(newfree[j - 1] == oldfree[j - 1]);
                    }
                    if j < newfree.len() - 1 {
                        if j + 1 < p {
                            assert(newfree[j + 1] == oldfree[j + 1]);
                        } else {
                            assert(newfree[j + 1] == oldfree[j + 2]);
                        }
                    }
                } else {
                    assert(newfree[j] == oldfree[j + 1]);
                    if j > 0 {
                        if j - 1 < p {
                            assert(newfree[j - 1] == oldfree[j - 1]);
                        } else {
                            assert(newfree[j - 1] == oldfree[j]);
                        }
                    }
                    if j < newfree.len() - 1 {
                        assert(newfree[j + 1] == oldfree[j + 2]);
                    }
                }
            }
            assert(final(self).slot_seq() =~= old(self).slot_seq());
            assert forall|m: int|
                0 <= m < self.slots@.len() && !((#[trigger] self.slots@[m])
                    matches Slot::Occupied(_)) && m != i as int implies newfree.contains(
                m as u32,
            ) by {
                assert(old(self).slots@[m] matches Slot::Vacant { .. });
                assert(old(self).free@.contains(m as u32));
                let jm = choose|jm: int| 0 <= jm < oldfree.len() && oldfree[jm] == m as u32;
                assert(jm != p);
                if jm < p {
                    assert(newfree[jm] == m as u32);
                } else {
                    assert(newfree[jm - 1] == m as u32);
                }
            }
        }
    }
}

impl<K: StorageKey> Stash<K> {
    /// Finds the lowest-index vacant slot.
    fn lowest_vacant(&self) -> (d: u32)
        requires
            self.wf(),
            self.spec_len() < self.spec_capacity(),
        ensures
            d < self.spec_capacity(),
            self.slot_seq()[d as int] is None,
            forall|j: int| 0 <= j < d ==> self.slot_seq()[j] is Some,
    {
        proof {
            assert(self.free@.len() > 0);
            assert(self.free@[0] < self.slots@.len());
        }
        let ghost v0 = self.free@[0] as int;
        let mut d: usize = 0;
        while d < self.slots.len()
            invariant
                self.wf(),
                d <= v0,
                0 <= v0 < self.slots@.len(),
                self.slots@[v0] matches Slot::Vacant { .. },
                forall|j: int| 0 <= j < d ==> self.slot_seq()[j] is Some,
            decreases self.slots@.len() - d,
        {
            let vac = match &self.slots[d] {
                Slot::Vacant { .. } => true,
                Slot::Occupied(_) => false,
            };
            if vac {
                return d as u32;
            }
            d += 1;
        }
        proof {
            assert(self.slot_seq()[v0] is Some);
            assert(false);
        }
        0
    }

    /// Performs one defragmentation step: drops the highest slot if vacant,
    /// otherwise relocates its key into the lowest-index vacant slot. Either
    /// way one slot is reclaimed; `Done` reports that none was vacant.
    #[verifier::rlimit(30)]
    pub(crate) fn defrag_step(&mut self) -> (step: DefragStep<K>)
        requires
            old(self).wf(),
        ensures
            final(self).wf(),
            old(self).spec_len() == old(self).spec_capacity() ==> step is Done && *final(self)
                == *old(self),
            old(self).spec_len() < old(self).spec_capacity() ==> {
                &&& final(self).spec_capacity() == old(self).spec_capacity() - 1
                &&& final(self).spec_len() == old(self).spec_len()
                &&& match step {
                    DefragStep::Done => false,
                    DefragStep::Dropped => old(self).slot_seq().last() is None
                        && final(self).slot_seq() == old(self).slot_seq().drop_last(),
                    DefragStep::Moved { old_index, new_index, key } => {
                        &&& old_index as int == old(self).spec_capacity() - 1
                        &&& old(self).slot_seq().last() is Some
                        &&& key@ == old(self).slot_seq().last()->Some_0@
                        &&& new_index < old_index
                        &&& old(self).slot_seq()[new_index as int] is None
                        &&& forall|j: int|
                            0 <= j < new_index ==> old(self).slot_seq()[j] is Some
                        &&& final(self).slot_seq() == old(self).slot_seq().update(
                            new_index as int,
                            old(self).slot_seq().last(),
                        ).drop_last()
                    },
                }
            },
    {
        let cap = self.slots.len();
        if self.count as usize == cap {
            proof {
                assert(self.free@.len() == 0);
            }
            return DefragStep::Done;
        }
        proof {
            assert(self.free@.len() > 0);
        }
        let t = cap - 1;
        let tail_vacant = match &self.slots[t] {
            Slot::Vacant { .. } => true,
            Slot::Occupied(_) => false,
        };
        if tail_vacant {
            proof {
                assert(self.free@.contains(t as u32));
            }
            self.unlink_vacant(t as u32);
            let ghost before_pop = *self;
            let _ = self.slots.pop();
            proof {
                let p = choose|p: int|
                    0 <= p < old(self).free_seq().len() && old(self).free_seq()[p] == t as u32
                        && before_pop.free_seq() == old(self).free_seq().remove(p);
                assert forall|j: int| 0 <= j < self.free@.len() implies (#[trigger] self.free@[j])
                    < self.slots@.len() by {
                    assert(before_pop.free_seq()[j] != t as u32) by {
                        if before_pop.free_seq()[j] == t as u32 {
                            // t occurs once in the old chain, at position p,
                            // which `remove` took out.
                            let jj = if j < p { j } else { j + 1 };
                            assert(old(self).free_seq()[jj] == t as u32);
                            assert(old(self).free_seq().no_duplicates());
                        }
                    }
                }
                assert(final(self).slot_seq() =~= old(self).slot_seq().drop_last());
                assert forall|m: int|
                    0 <= m < self.slots@.len() && !((#[trigger] self.slots@[m])
                        matches Slot::Occupied(_)) implies self.free@.contains(m as u32) by {
                    assert(before_pop.slots@[m] matches Slot::Vacant { .. });
                }
            }
            DefragStep::Dropped
        } else {
            let d = self.lowest_vacant();
            proof {
                assert(self.slots@[d as int] matches Slot::Vacant { .. });
                assert(self.free@.contains(d));
                assert(d as int != t as int);
            }
            self.unlink_vacant(d);
            let ghost before_pop = *self;
            let tail = self.slots.pop();
            let k = match tail {
                Some(Slot::Occupied(k)) => k,
                _ => {
                    // The highest slot was just seen to be occupied.
                    proof {
                        assert(false);
                    }
                    return DefragStep::Done;
                },
            };
            let k2 = k.dup();
            self.slots[d as usize] = Slot::Occupied(k);
            proof {
                let p = choose|p: int|
                    0 <= p < old(self).free_seq().len() && old(self).free_seq()[p] == d
                        && before_pop.free_seq() == old(self).free_seq().remove(p);
                assert forall|j: int| 0 <= j < self.free@.len() implies (#[trigger] self.free@[j])
                    < self.slots@.len() by {
                    assert(before_pop.free_seq()[j] != t as u32) by {
                        if before_pop.free_seq()[j] == t as u32 {
                            let jj = if j < p { j } else { j + 1 };
                            assert(old(self).free_seq()[jj] == t as u32);
                            assert(old(self).slots@[t as int] matches Slot::Vacant { .. });
                        }
                    }
                    assert(before_pop.free_seq()[j] != d);
                }
                assert forall|j: int| 0 <= j < self.free@.len() implies (
                    (#[trigger] self.slots@[self.free@[j] as int]) matches Slot::Vacant {
                        prev,
                        next,
                    } && prev == (if j == 0 { NIL } else { self.free@[j - 1] })
                        && next == (if j == self.free@.len() - 1 {
                        NIL
                    } else {
                        self.free@[j + 1]
                    })
                ) by {
                    assert(before_pop.slots@[before_pop.free_seq()[j] as int]
                        matches Slot::Vacant { .. });
                }
                assert forall|m: int|
                    0 <= m < self.slots@.len() && !((#[trigger] self.slots@[m])
                        matches Slot::Occupied(_)) implies self.free@.contains(m as u32) by {
                    assert(m != d as int);
                    assert(before_pop.slots@[m] matches Slot::Vacant { .. });
                }
                assert(final(self).slot_seq() =~= old(self).slot_seq().update(
                    d as int,
                    old(self).slot_seq().last(),
                ).drop_last());
            }
            DefragStep::Moved { old_index: t as u32, new_index: d, key: k2 }
        }
    }
}

} // verus!
