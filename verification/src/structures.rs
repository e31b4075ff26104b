//! Structure generation algorithms for dungeons and maps.

pub mod agent;
pub mod bsp;
pub mod cellular;
pub mod dla;
pub mod drunkard;
pub mod graph;
pub mod maze;
pub mod percolation;
pub mod prefab;
pub mod rooms;
pub mod voronoi;
pub mod wfc;

pub use agent::{AgentBased, AgentConfig};
pub use bsp::{Bsp, BspConfig};
pub use cellular::{CellularAutomata, CellularConfig};
pub use dla::{Dla, DlaConfig};
pub use drunkard::{DrunkardConfig, DrunkardWalk};
pub use graph::Mst;
pub use rooms::{SimpleRooms, SimpleRoomsConfig};
pub use prefab::{Prefab, PrefabConfig, PrefabPlacer};
pub use maze::{Maze, MazeConfig};
pub use voronoi::{Voronoi, VoronoiConfig};
pub use percolation::{Percolation, PercolationConfig};
pub use wfc::{Wfc, WfcConfig, WfcRules};
