//! Obstacle placement search on a tile grid: finds every placement of up to a
//! given number of towers that makes the shortest spawn-to-exit walk as long as
//! possible.
pub mod models;
pub mod grid;
pub mod astar;
pub mod cutoff;
pub mod bfs;

pub use models::{MapInfo, TileType};
pub use grid::{Coords, Node, CoordAccess, TileTypeInformation};
pub use cutoff::{BuilderResult, cutoff_builder};
