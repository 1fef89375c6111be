//! The grid side of LRF (Laser Range Finder) ray casting.

pub mod lrf;

pub use lrf::{Lrf, Probe};
