//! The linear arithmetic engine.

pub mod ledger;
pub mod solver;
pub mod var;
