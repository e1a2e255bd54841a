//! A transactional, in-memory overlay on top of a content-addressed trie.
//!
//! The overlay records per-operation events (updates, removals, emitted logs)
//! in append order, indexes the latest event per key for O(1) lookup, and
//! derives a fresh state root from the underlying trie upon commit. Nested
//! checkpoints allow a caller to revert the overlay to any earlier point, and
//! a Poseidon-based derivation maps `(address, slot)` pairs to trie keys.

use vstd::prelude::*;

pub mod counting;
pub mod index;
pub mod laws;
pub mod journal;
pub mod keys;
pub mod memtrie;
pub mod trie;
pub mod order;
pub mod poseidon;
pub mod syscall;

verus! {

/// Deployment entry hook. The overlay holds no static state, so there is
/// nothing to initialise before the first transaction.
pub fn deploy() {
}

} // verus!
