//! Decides where `x = value;` reinitialises a variable so thoroughly that a fresh
//! `let x = value;` says the same thing more clearly.

pub mod execution;
pub mod graph;
pub mod hir;
pub mod lint;
pub mod mir;
pub mod samples;
pub mod search;
pub mod span;
pub mod usage;
