//! Error type for terrain generation.

use vstd::prelude::*;

verus! {

/// Error types for terrain generation.
#[derive(Debug)]
pub enum Error {
    /// Grid dimensions are invalid.
    InvalidDimensions { width: usize, height: usize },
    /// Algorithm failed to generate valid output.
    GenerationFailed(String),
    /// Constraint validation failed.
    ConstraintViolation(String),
}

} // verus!
