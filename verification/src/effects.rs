//! Effects and transforms for post-processing generated maps.

pub mod blend;
pub mod connectivity;
pub mod filters;
pub mod morphology;
pub mod spatial;
pub mod transform;
pub mod warp;

pub use transform::{invert, mirror, resize, rotate, scatter};
pub use morphology::{close, dilate, erode, open};
pub use blend::gradient_blend;
pub use warp::edge_detect;
pub use connectivity::{
    bridge_gaps, carve_path, clear_rect, connect_regions_spanning, find_chokepoints, label_regions, remove_dead_ends,
    MarkerConnectMethod,
};
pub use spatial::{dijkstra_map, distance_transform};
pub use filters::{gaussian_blur, median_filter};
