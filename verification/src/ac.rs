//! The arc-consistency engine.

pub mod solver;
