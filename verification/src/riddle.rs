//! The modelling layer: kinds, fields and typed objects over the engines.

pub mod ast;
pub mod env;
pub mod grammar;
pub mod kind;
pub mod lexer;
pub mod objects;
pub mod parser;
pub mod registry;
pub mod scope;
