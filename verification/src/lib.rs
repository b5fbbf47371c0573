//! A grid maze engine: a square grid of cells, some of which may be masked
//! out, is carved into a spanning tree of passages, measured by hop distance,
//! and solved between its two farthest cells.
//!
//! The persistent part of a maze (walls and mask) is modelled by
//! [`shape::Shape`]; every contract in this crate is stated over that model.

pub mod binary_tree;
pub mod distance;
pub mod generate;
pub mod growth;
pub mod hunt_kill;
pub mod longest;
pub mod maze;
pub mod metric;
pub mod path;
pub mod random;
pub mod search;
pub mod shape;
pub mod sidewinder;
pub mod tally;
pub mod tree;
pub mod walker;
