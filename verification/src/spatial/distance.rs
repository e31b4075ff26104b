//! Distance metrics.

use vstd::prelude::*;

verus! {

/// Distance metrics for spatial calculations.
#[derive(Debug, Clone, Copy, PartialEq, Eq, Structural)]
pub enum DistanceMetric {
    /// Euclidean distance (straight line).
    Euclidean,
    /// Manhattan distance (taxicab).
    Manhattan,
    /// Chebyshev distance (chessboard).
    Chebyshev,
}

} // verus!
