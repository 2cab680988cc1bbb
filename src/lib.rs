//! A 4x4 sliding-tile game engine with Monte Carlo move selection.
//!
//! Cells hold exponents: 0 is an empty cell, `v > 0` stands for the tile `2^v`.

pub mod line;
pub mod board;
pub mod random;
pub mod clock;
pub mod search;
pub mod laws;
