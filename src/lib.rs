//! An exact-cover tiling engine: a bounded board, placement rules for
//! piece shapes, a backtracking search that completes a partly filled board
//! and a dispatcher that counts solvable instances in batches.

pub mod shape;
pub mod grid;
pub mod catalog;
pub mod solver;
pub mod dispatch;
pub mod area;

pub use shape::Shape;
pub use grid::{Cell, Grid};
pub use catalog::{Catalog, ConfigError, Piece};
pub use solver::solve;
pub use dispatch::{Outcome, PlacedPiece, Tally, batch_ranges, plan_batches, solve_all, solve_instance, tally};
