//! Robot maze exploration and path generation.
//!
//! - [`maze`]: grid representation and procedural maze generation
//! - [`robot`]: the robot's known map and its operational state
//! - [`planner`]: shortest-path planning and frontier-based exploration
//! - [`sensor`]: the grid side of LRF ray casting
//! - [`simulation`]: the planning decisions made on every simulation tick

pub mod maze;
pub mod planner;
pub mod robot;
pub mod sensor;
pub mod simulation;
pub mod args;
