//! Procedural generation of dungeons and terrain on two-dimensional tile grids.

pub mod effects;
pub mod error;
pub mod grid;
pub mod ops;
pub mod pipeline;
pub mod rng;
pub mod semantic;
pub mod semantic_extractor;
pub mod semantic_visualization;
pub mod spatial;
pub mod structures;

pub use error::Error;
pub use grid::{adjacent4, line_points, Cell, Grid, Tile, TileCell};
pub use ops::{combine, CombineMode, OpError};
pub use pipeline::{ParameterMap, PipelineContext, PipelineOperation, StageResult, StringMap};
pub use rng::{Rng, CHANCE_ONE};
pub use semantic::{
    ConnectivityGraph, ConnectivityType, MarkerPlacementConfig, MarkerType, Masks, PlacementStrategy, Region,
    RegionAnalysisConfig, SemanticRequirements, VerticalConnectivity,
};
pub use semantic_visualization::{
    visualize_connectivity_graph, visualize_masks, visualize_region_ids, visualize_regions, VisualizationConfig,
};
pub use spatial::{morphological_transform, DistanceMetric, FlowField, MorphologyOp, StructuringElement};
pub use structures::{
    AgentBased, AgentConfig, Bsp, BspConfig, CellularAutomata, CellularConfig, Dla, DlaConfig, DrunkardConfig,
    DrunkardWalk, Maze, MazeConfig, Mst, Percolation, PercolationConfig, Prefab, PrefabConfig, PrefabPlacer, SimpleRooms,
    SimpleRoomsConfig, Voronoi, VoronoiConfig, Wfc, WfcConfig, WfcRules,
};
