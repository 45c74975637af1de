//! The tile-merging grid puzzle: the board, its move rules, and the
//! sources of new-tile randomness.

pub mod board;
pub mod game_rng;
