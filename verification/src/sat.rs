//! The propositional engine.

pub mod solver;
pub mod state;
