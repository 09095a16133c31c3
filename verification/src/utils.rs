//! Numeric utilities shared by the engines.

pub mod arith;
pub mod inf_rational;
pub mod lin;
pub mod lin_form;
pub mod lit;
pub mod ratio;
pub mod rational;
pub mod text;
