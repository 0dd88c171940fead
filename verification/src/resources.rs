pub mod grid;

use crate::enums::GameState;
use vstd::prelude::*;

verus! {

/// What the player is looking at, kept apart from the board itself.
pub struct Game {
    pub state: GameState,
}

impl Default for Game {
    fn default() -> (game: Self)
        ensures
            game.state == GameState::Play,
    {
        Game { state: GameState::Play }
    }
}

} // verus!
