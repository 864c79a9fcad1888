//! The requirement on key types.
//!
//! Any type used as a key must have a canonical, deterministic encoding (its
//! view), used for content addressing in the value store, and must be cheaply
//! cloneable: a key is duplicated into the registry slot on insertion and is
//! retained by entry cursors. Two keys are the same key exactly when their
//! views agree; the addressing scheme is assumed collision-free at the scale
//! used, so the view stands in for the content address.

use vstd::prelude::*;

verus! {

/// A key of the storage map: comparable and cloneable, with the view as its
/// canonical identity.
pub trait StorageKey: View + Sized {
    /// Decides whether two keys have the same canonical identity.
    fn key_eq(&self, other: &Self) -> (r: bool)
        ensures
            r == (self@ == other@),
    ;

    /// Duplicates the key; the copy has the same canonical identity.
    fn dup(&self) -> (r: Self)
        ensures
            r@ == self@,
    ;
}

impl StorageKey for u64 {
    fn key_eq(&self, other: &Self) -> (r: bool) {
        *self == *other
    }

    fn dup(&self) -> (r: Self) {
        *self
    }
}

impl StorageKey for u32 {
    fn key_eq(&self, other: &Self) -> (r: bool) {
        *self == *other
    }

    fn dup(&self) -> (r: Self) {
        *self
    }
}

impl StorageKey for Vec<u8> {
    fn key_eq(&self, other: &Self) -> (r: bool) {
        if self.len() != other.len() {
            return false;
        }
        let mut i: usize = 0;
        while i < self.len()
            invariant
                i <= self@.len(),
                self@.len() == other@.len(),
                forall|j: int| 0 <= j < i ==> self@[j] == other@[j],
            decreases self@.len() - i,
        {
            if self[i] != other[i] {
                return false;
            }
            i += 1;
        }
        proof {
            assert(self@ =~= other@);
        }
        true
    }

    fn dup(&self) -> (r: Self) {
        let mut r: Vec<u8> = Vec::new();
        let mut i: usize = 0;
        while i < self.len()
            invariant
                i <= self@.len(),
                r@ == self@.take(i as int),
            decreases self@.len() - i,
        {
            r.push(self[i]);
            proof {
                assert(r@ =~= self@.take(i + 1 as int));
            }
            i += 1;
        }
        proof {
            assert(self@.take(self@.len() as int) =~= self@);
        }
        r
    }
}

} // verus!
