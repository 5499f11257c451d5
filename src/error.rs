//! Errors of loading a taxonomy.
use vstd::prelude::*;

verus! {

/// Why a taxonomy could not be loaded.
#[derive(Debug, Clone, Copy, PartialEq, Eq)]
pub enum TaxonomyError {
    /// The binary file does not start with the expected magic tag.
    BadMagic,
    /// The binary file ends before the data its header announces.
    Truncated,
    /// The binary file's node records do not form a compacted tree.
    Malformed,
    /// A node id in the nodes file is not an unsigned integer.
    BadNodeId,
    /// A parent id in the nodes file is not an unsigned integer.
    BadParentId,
}

} // verus!
