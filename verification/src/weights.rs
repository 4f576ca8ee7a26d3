//! Distance-weighted voting for k-nearest neighbors.
//!
//! Each variant defines how a neighbor's distance becomes a vote weight; the
//! weights are floating-point values computed outside the library.
use vstd::prelude::*;

verus! {

/// How a neighbor's distance `d` becomes its vote weight.
#[derive(Debug, Clone, Copy, PartialEq, Eq, Structural)]
pub enum Weighting {
    /// Every neighbor counts equally (weight = 1).
    Uniform,
    /// weight = 1/d, infinite when d = 0; the vote then goes to that neighbor.
    InverseDistance,
    /// weight = 1/(1+d). Always finite, avoids division by zero.
    SmoothedInverse,
    /// weight = exp(-d). Smooth exponential falloff, always finite.
    Gaussian,
}

} // verus!
