//! Merkle trees over an ordered sequence of byte-string leaves, with
//! inclusion proofs, parameterised by a pluggable hashing strategy.

pub mod error;
pub mod hasher;
pub mod inclusion;
pub mod tree;

pub use error::ProofError;
pub use hasher::{Hasher, Sha256Hasher};
pub use inclusion::{Position, Proof};
pub use tree::{calculate_height, Tree};
