//! Exploration of a maze whose rooms may be reached along several corridors.
//!
//! A maze is a directed acyclic graph: a branch has a left and a right child,
//! a leaf has none, and one node may be the child of several parents. Each
//! branch carries an exploration status, so that a walk which arrives at it a
//! second time records the arrival but does not descend again.

pub mod arena;
pub mod drive;
pub mod graph;
pub mod laws;
pub mod phases;
pub mod queue;
pub mod render;
pub mod sample;
pub mod state;
pub mod traverse;
pub mod walk;

pub use arena::{Maze, Node};
pub use sample::maze;
pub use state::Exploration;
