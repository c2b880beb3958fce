//! Tile-grid synthesis by randomized border-constraint propagation with
//! local backtracking.

pub mod atlas;
pub mod catalog;
pub mod constraint;
pub mod frontier;
pub mod generate;
pub mod grid;
pub mod krand;
