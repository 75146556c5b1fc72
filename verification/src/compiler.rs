//! The front end: from the syntax tree to typed constraints.

pub mod assemble;
pub mod common;
pub mod constraint_set;
pub mod definitions;
pub mod eval;
pub mod generator;
pub mod node;
pub mod parser;
pub mod types;
