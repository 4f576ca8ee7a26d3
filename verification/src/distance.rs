//! Distance metrics for k-nearest neighbors.
//!
//! The library names the metric; the distances themselves are floating-point
//! values computed outside it and handed in as their bit patterns.
use vstd::prelude::*;

verus! {

/// Distance metric used to compare points.
#[derive(Debug, Clone, Copy, PartialEq, Eq, Structural)]
pub enum Metric {
    /// Euclidean distance, also known as L2 distance: `sqrt(sum((x_i - y_i)^2))`.
    Euclidean,
    /// Manhattan distance, also known as L1 or city-block distance:
    /// `sum(abs(x_i - y_i))`.
    Manhattan,
    /// Cosine distance: `1 - cosine_similarity`, `0.0` for identical
    /// directions, `1.0` for orthogonal vectors and `2.0` for opposite ones.
    Cosine,
}

} // verus!
