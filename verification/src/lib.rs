//! A reduced ordered binary decision diagram (ROBDD) kernel together with a
//! small relational-algebra layer built on top of it.
//!
//! The kernel represents Boolean functions over an ordered set of variables as
//! a hash-consed graph of Shannon-expansion nodes: every function has exactly
//! one node standing for it, so functions are equal exactly when their node
//! handles are equal.  The store behind the graph is an arena owned by a
//! [`manager::Manager`]; a [`node::Node`] is a stable index into that arena.
//!
//! On top of the kernel stand finite binary relations with their algebra,
//! their two textual formats (a line listing and a matrix picture), and the
//! small environment an interactive front end needs.

pub mod node;
pub mod manager;
pub mod ops;
pub mod eval;
pub mod factories;
pub mod shift;
pub mod laws;
pub mod relation;
pub mod display;
pub mod parser;
pub mod ast;
pub mod lang;
pub mod repl_commands;
