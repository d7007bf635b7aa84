//! Verified solvers for a collection of grid, range and digit puzzles.

pub mod battery;
pub mod dial;
pub mod homework;
pub mod inventory;
pub mod manifold;
pub mod paper_rolls;
pub mod product_ids;
pub mod rays;
pub mod sums;
pub mod text;
