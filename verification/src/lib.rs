//! Incremental wave-function-collapse solver for a single square tile in its
//! four rotations.

pub mod domain;
pub mod entropy;
pub mod grid;
pub mod propagate;
pub mod select;
pub mod solver;
pub mod table;
pub mod tile;
