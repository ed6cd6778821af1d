//! Bidirectional bookmark synchronisation between two storage backends.
//!
//! The engine performs a three-way merge of both sides' current listings
//! against the snapshot persisted after the previous run, resolves conflicts
//! by policy, rebinds bookmark ids to the destination side, and emits the
//! change sets to apply together with the next snapshot.

use vstd::prelude::*;

pub mod diff;
pub mod model;
pub mod pair;
pub mod remote;
pub mod storage;
pub mod textfile;
pub mod types;

verus! {

/// How a conflict (the same path affected in the same way on both sides)
/// is resolved during a sync run.
#[derive(Clone, Copy, PartialEq, Eq, Structural, Debug)]
pub enum ConflictResolution {
    /// Abort the run with a conflict error.
    Error,
    /// Side A's version of the entry wins.
    AWins,
    /// Side B's version of the entry wins.
    BWins,
}

impl Default for ConflictResolution {
    /// The default policy refuses to pick a side.
    fn default() -> (r: ConflictResolution)
        ensures
            r == ConflictResolution::Error,
    {
        ConflictResolution::Error
    }
}

} // verus!
