//! A storage hash map for substrates where reads and writes are individually
//! expensive and the value store supports no enumeration.
//!
//! The map is the combination of two mutually consistent structures:
//!
//! * a dense, array-like key registry with O(1) slot reuse through a free
//!   list of vacant slots, which owns key existence and iteration order, and
//! * a sparse, content-addressed value store, which owns value existence and
//!   content and cannot be enumerated.
//!
//! The facade ([`HashMap`]) keeps the registry index embedded in each
//! value entry consistent with the registry itself across insertion, removal
//! and defragmentation; that consistency is stated as an invariant and proved
//! for every operation.

pub mod key;
mod registry;
mod store;
pub mod map;
pub mod laws;

pub use key::StorageKey;
pub use map::{Entry, HashMap, OccupiedEntry, VacantEntry};
pub use registry::MAX_CAPACITY;
