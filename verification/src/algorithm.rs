//! The nearest-neighbor search a classifier uses.
use vstd::prelude::*;

verus! {

/// Search algorithm used to find the nearest neighbors.
#[derive(Debug, Clone, Copy, PartialEq, Eq, Structural)]
pub enum Algorithm {
    /// Linear scan over every training point.
    BruteForce,
    /// KD-tree search, which skips subtrees that cannot hold a nearer point.
    /// Valid for the Euclidean and Manhattan metrics, not for cosine.
    KdTree,
}

} // verus!
