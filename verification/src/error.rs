//! Errors reported by the traversal operations.

use vstd::prelude::*;

verus! {

/// Why a traversal was not started.
#[derive(Debug, Clone, Copy, PartialEq, Eq, Structural)]
pub enum Error {
    /// The buffer of node values does not hold exactly one value per node.
    InvalidNodeValues,
    /// The widths of the ranges of a partition do not add up to the node count.
    InvalidPartitioning,
}

} // verus!
