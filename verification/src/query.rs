//! The incremental query engine: memo bookkeeping, dependency-graph
//! scheduling and value eviction.
use vstd::prelude::*;

pub mod database;
pub mod evict;
pub mod graph;
pub mod laws;
pub mod store;

verus! {

/// Cheaply copyable index of a memoized key.
#[derive(Debug, Clone, Copy, Hash, PartialEq, Eq, Structural)]
pub struct KeyIndex(pub usize);

/// The hash of a memoized value.
#[derive(Debug, Clone, Copy, PartialEq, Eq, Structural)]
pub struct Fingerprint(pub u64);

/// Whether a value has changed or not.
#[derive(Debug, Clone, Copy, PartialEq, Eq, Structural)]
pub enum Difference {
    /// The new value is different from the old value.
    Changed,
    /// The new value is equivalent to the old value.
    Unchanged,
}

} // verus!
