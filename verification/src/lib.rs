//! The sliding-tile board of the game 2048: moves in four directions, merging
//! of equal tiles, the score, new tiles at random, and the test for a board
//! on which nothing moves any more.
//!
//! `line` and `board` say in mathematical terms what a move is and prove what
//! holds of it; `resources::grid` holds the board that a program plays on,
//! with every operation stated over those terms.

pub mod board;
pub mod constants;
pub mod enums;
pub mod line;
mod random;
pub mod resources;
