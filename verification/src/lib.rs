//! A compiler front end and trace evaluator for Corset, a small Lisp-like
//! language that declares arithmetic constraints over columnar execution
//! traces.

pub mod column;
pub mod compiler;
pub mod compute;
pub mod dict;
pub mod errors;
pub mod field;
pub mod integer;
pub mod rows;
pub mod text;
