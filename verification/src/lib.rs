//! Directed graphs of the Collatz map: forward trajectories, bounded inverse
//! trees, and a layered layout of either.

pub mod collatz;
pub mod digraph;
pub mod graph;
pub mod gui;
pub mod inverse;
mod inverse_proof;
pub mod layout;
