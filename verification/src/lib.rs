//! Exhaustive path counting for a dice-merging puzzle on a 3x3 board.
//!
//! A board holds dice valued 1..=6; a move either merges 2..=4 neighbouring
//! dice into an adjacent empty cell or, where no merge is possible at that
//! cell, places a fresh die of value 1 there. The library enumerates every
//! board reachable within a bounded number of moves, counting the distinct
//! move sequences that reach each one, and folds the boards' positional
//! checksums, weighted by those counts, into a single sum modulo 2^30.
//! Reachable boards are deduplicated up to the eight symmetries of the
//! square so the search stays tractable.

pub mod bitboard;
pub mod grid;
pub mod moves;
pub mod search;
pub mod symmetry;

pub use bitboard::Bitboard;
pub use grid::Grid;
pub use search::{add_grid, add_grid_to_sum, compute_sum, LevelMap};
