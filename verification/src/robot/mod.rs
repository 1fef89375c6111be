//! The robot's known map and its operational state.

pub mod controller;
pub mod types;

pub use types::{KnownCell, KnownMap, RobotState};
