//! The error taxonomy shared by tree construction and proof generation.

use vstd::prelude::*;

verus! {

/// Why a tree could not be built or a proof could not be produced.
#[derive(Debug, Clone, Copy, PartialEq, Eq, Structural)]
pub enum ProofError {
    /// Construction was attempted with zero leaves.
    EmptyTree,
    /// A lookup named a leaf beyond the last one.
    LeafIndexOutOfBounds,
    /// An operation needed leaves and the tree holds none.
    NoLeaves,
    /// An operation needed nodes and the tree holds none.
    NoNodes,
    /// A height does not agree with the number of leaves.
    InvalidHeight,
    /// A proof was requested for `index`, but the tree has only `leaf_count` leaves.
    IndexOutOfBounds { index: usize, leaf_count: usize },
}

} // verus!
