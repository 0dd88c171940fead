use vstd::prelude::*;

verus! {

/// The side of the board the game is played on.
pub const GRID_SIZE: usize = 4;

/// A new tile is decided by a roll from `0` up to, but not including, this.
pub const SPAWN_ROLLS: usize = 10;

/// Rolls below this give a 2, the others a 4: nine in ten against one in ten.
pub const SPAWN_TWO_ROLLS: usize = 9;

/// How often a cell is drawn blindly for a new tile before the draw is made
/// among the empty cells only.
pub const SPAWN_ATTEMPTS: usize = 64;

} // verus!
