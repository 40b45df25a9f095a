//! An insertion-ordered map stored as a vector of nodes, together with the
//! entry API for in-place manipulation of a single key.
//!
//! `model` holds what the contracts speak of: the sequence of nodes, the
//! key-value mapping they describe, and key equality as `==` judges it.
//! `map` holds the map. `entry` holds the entry types; their contracts relate
//! the map as it is when the entry is made to the map as it is once the borrow
//! of the map ends, and `entry::group_entry_resolved` states that an entry that
//! has ended leaves the map as the entry last held it. `laws` states what holds
//! across the operations.

pub mod model;
pub mod map;
pub mod entry;
pub mod laws;

pub use map::OrderedMap;
pub use entry::{Entry, OccupiedEntry, VacantEntry};
