//! Reasoning kernel of a hybrid constraint solver: exact numeric primitives,
//! a propositional engine with two-watched-literal propagation, a linear
//! arithmetic engine with bound ledgers, an arc-consistency engine and the
//! modelling layer that multiplexes their variables behind typed objects.

pub mod ac;
pub mod lin;
pub mod riddle;
pub mod sat;
pub mod solver;
pub mod utils;

pub use crate::utils::inf_rational::InfRational;
pub use crate::utils::lin::Lin;
pub use crate::utils::lit::LBool;
pub use crate::utils::lit::Lit;
pub use crate::utils::rational::Rational;
pub use crate::solver::RiddleError;
pub use crate::solver::Solver;

