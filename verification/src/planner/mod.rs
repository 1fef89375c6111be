//! Shortest-path planning and frontier-based exploration.

pub mod astar;
pub mod frontier;

pub use astar::Planner;
pub use frontier::FrontierFinder;
