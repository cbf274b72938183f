//! A fixed-capacity map with flat storage, an insertion log that drives
//! iteration, and two addressing policies.
//!
//! The capacity, width times height, is fixed when the map is made; nothing
//! grows afterwards. Keys are `u32`. Under direct indexing a key is its own
//! slot and must lie below the capacity; under open addressing a key is placed
//! by linear probing from the key modulo the capacity.
//!
//! Policies worth knowing:
//! - Inserting a key that is already live overwrites its value in place; the
//!   length and the log are unchanged.
//! - Removal marks the slot deleted, so probe chains through it stay intact,
//!   and leaves the key's log position behind, stale.
//! - Stale log positions are reclaimed by the mutable cursor, one swap each,
//!   and all at once when an insertion finds the log full.
use vstd::prelude::*;

pub mod count;
pub mod cursor;
pub mod laws;
pub mod map;
pub mod workload;

pub use cursor::{Iter, IterMut};
pub use map::ArrayMap;

verus! {

/// How a key is resolved to a slot of the value store.
#[derive(Clone, Copy, Debug, PartialEq, Eq, Structural)]
pub enum Addressing {
    /// The key is the slot index; keys must lie below the capacity.
    Direct,
    /// Linear probing with wraparound, starting at the key modulo the capacity.
    Open,
}

/// Why an insertion or a lookup was refused.
#[derive(Clone, Copy, Debug, PartialEq, Eq, Structural)]
pub enum MapError {
    /// Every slot holds a live entry.
    CapacityExceeded,
    /// Under direct indexing, the key is not below the capacity.
    KeyOutOfRange,
}

/// One cell of the value store.
#[derive(Clone, Copy, Debug, PartialEq, Eq)]
pub enum Slot<V> {
    /// Has held no entry since the map was created or cleared.
    Empty,
    /// Held an entry that was removed; probing passes over it.
    Deleted,
    /// Holds a live entry and the log position that records it.
    Full { key: u32, value: V, pos: usize },
}

} // verus!
