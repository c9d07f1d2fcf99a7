//! Why a topology could not be built.
use vstd::prelude::*;

verus! {

/// Why a topology could not be built from the text it was given.
#[derive(Debug, Clone, Copy, PartialEq, Eq, Structural)]
pub enum TopologyError {
    /// The CPU table is malformed: it cannot be read as rows of four numbers
    /// and a cache descriptor, or a cache descriptor is not four numbers
    /// with colons between them.
    Format,
    /// A row of the CPU table names a node whose size the NUMA report does
    /// not give.
    MissingNode { node: u64 },
}

} // verus!
