//! The failures that building and reading a skip list can report.

use vstd::prelude::*;

verus! {

/// The step of building or serializing a skip list that a write belonged to.
#[derive(Debug, Clone, Copy, PartialEq, Eq, Structural)]
pub enum WriteStage {
    /// Encoding an entry into the levels.
    Entry,
    /// The header of cumulative level lengths.
    Offsets,
    /// The bytes of the level with this index.
    Level(usize),
}

/// Why an operation on a skip list failed.
#[derive(Debug, Clone, PartialEq, Eq)]
pub enum Error {
    /// The bytes read are malformed or end too early.
    ReadError,
    /// A write was rejected: at which stage, and the cause as reported.
    WriteError { stage: WriteStage, cause: String },
}

} // verus!
