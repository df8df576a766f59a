//! Monte Carlo tree search over a decision process that the caller supplies.
//!
//! `state` holds what a decision process has to offer, `node` and `tree` the
//! search tree and its iterations, `model` the mathematical value of a tree
//! and what one iteration makes of it, `laws` what holds of every tree, and
//! `select` the choice among priorities.

pub mod laws;
pub mod model;
pub mod node;
pub mod select;
pub mod state;
pub mod tree;
