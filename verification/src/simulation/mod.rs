//! The planning decisions made on every simulation tick.

pub mod engine;

pub use engine::{plan_tick, TickPlan};
