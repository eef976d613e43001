//! A fixed-capacity key-value cache that evicts the least-recently-used entry.
//!
//! Entries live in a flat arena of nodes addressed by position; a hash index
//! maps each key to its position, and a doubly linked recency list threaded
//! through the nodes orders the entries from most to least recently used.
use vstd::prelude::*;

pub mod laws;
pub mod lru;
pub mod recency;

pub use lru::LRUCache;

verus! {

} // verus!
