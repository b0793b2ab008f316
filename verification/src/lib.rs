//! Procedural generation of a road network between settlements, with a
//! repair pass that leaves the network in one connected piece.
//!
//! The pipeline runs from `generator` over `road_builder` to
//! `connectivity`; `world` puts the three together. Positions are points
//! of the integer grid, so that every comparison of distances is exact.

pub mod components;
pub mod connectivity;
pub mod errors;
pub mod generator;
pub mod graph;
pub mod metric;
pub mod model;
pub mod movement;
pub mod ordering;
pub mod road_builder;
pub mod text;
pub mod traversal;
pub mod world;

pub use connectivity::ensure_connected_network;
pub use errors::{ConfigError, GenerationError, InvariantViolation};
pub use generator::spawn_settlements;
pub use model::{Ratio, Road, RoadNetwork, Settlement, Waypoint, WaypointKind};
pub use road_builder::build_smart_roads;
pub use traversal::dfs;
pub use world::{generate_world, SimulationConfig};
