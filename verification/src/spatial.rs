//! Spatial analysis: structuring-element morphology, flow fields and
//! distance metrics.

pub mod distance;
pub mod morphology;
pub mod pathfinding;

pub use distance::DistanceMetric;
pub use morphology::{morphological_transform, MorphologyOp, StructuringElement};
pub use pathfinding::FlowField;
