//! A small ownership and borrow checker for a Rust-like core language, together with an
//! evaluator that runs the programs the checker accepts. Both are specified by spec functions
//! over mathematical views, and `theorems` proves facts that relate them.
pub mod eval;
pub mod theorems;
pub mod types;
pub mod utils;
