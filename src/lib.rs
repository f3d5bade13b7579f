//! Reverse-mode symbolic differentiation of straight-line expressions.
//!
//! - [`tree`]: the expression tree of a forward computation.
//! - [`code`]: the expression language of derivative templates and of the
//!   generated backward code.
//! - [`rules`]: the derivative rule table.
//! - [`solver`]: the gradient solver, which turns a tree, an upstream gradient
//!   and a set of targets into backward code.
//! - [`reader`]: builds the tree from the statements of a forward function.
//! - [`laws`]: properties of the solver.
//! - [`error`]: why a differentiation request fails.
pub mod code;
pub mod error;
pub mod laws;
pub mod reader;
pub mod rules;
pub mod solver;
pub mod tree;
