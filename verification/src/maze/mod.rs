//! Grid types and the recursive-backtracker maze generator.

pub mod generator;
pub mod routes;
pub mod types;

pub use generator::MazeGenerator;
pub use types::{CellType, GridPos, Maze, GRID_SIZE};
