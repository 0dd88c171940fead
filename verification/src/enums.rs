use vstd::prelude::*;

verus! {

/// The four ways the tiles can be pushed.
#[derive(Debug, Clone, Copy, PartialEq, Eq, Structural)]
pub enum MoveDirection {
    Up,
    Left,
    Down,
    Right,
}

/// Every direction once, in the order in which a board is probed for a move.
pub const DIRECTIONS: [MoveDirection; 4] = [
    MoveDirection::Up,
    MoveDirection::Left,
    MoveDirection::Down,
    MoveDirection::Right,
];

/// The buttons a popup can offer.
#[derive(Debug, Clone, Copy, PartialEq, Eq, Structural)]
pub enum ButtonType {
    Continue,
    Restart,
    Exit,
}

impl ButtonType {
    /// The text a button shows, which is also the name it is found by.
    pub open spec fn label(&self) -> Seq<char> {
        match self {
            ButtonType::Continue => "Continue"@,
            ButtonType::Restart => "Restart"@,
            ButtonType::Exit => "Exit"@,
        }
    }

    pub fn to_string(&self) -> (text: String)
        ensures
            text@ == self.label(),
    {
        match self {
            ButtonType::Continue => "Continue".to_string(),
            ButtonType::Restart => "Restart".to_string(),
            ButtonType::Exit => "Exit".to_string(),
        }
    }
}

/// What the player is looking at.
#[derive(Debug, Clone, Copy, PartialEq, Eq, Structural)]
pub enum GameState {
    Play,
    Menu,
    Gameover,
}

impl Default for GameState {
    fn default() -> (state: Self)
        ensures
            state == GameState::Play,
    {
        GameState::Play
    }
}

} // verus!
