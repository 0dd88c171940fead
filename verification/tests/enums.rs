use grid2048::constants::{GRID_SIZE, SPAWN_ROLLS, SPAWN_TWO_ROLLS};
use grid2048::enums::{ButtonType, GameState, MoveDirection, DIRECTIONS};
use grid2048::resources::Game;

#[test]
fn buttons_are_named_by_their_text() {
    assert_eq!(ButtonType::Continue.to_string(), "Continue");
    assert_eq!(ButtonType::Restart.to_string(), "Restart");
    assert_eq!(ButtonType::Exit.to_string(), "Exit");
}

#[test]
fn a_game_starts_in_play() {
    assert_eq!(GameState::default(), GameState::Play);
    assert_eq!(Game::default().state, GameState::Play);
}

#[test]
fn directions_are_probed_up_left_down_right() {
    assert_eq!(
        DIRECTIONS,
        [MoveDirection::Up, MoveDirection::Left, MoveDirection::Down, MoveDirection::Right]
    );
}

#[test]
fn the_game_is_played_four_by_four_with_one_four_in_ten() {
    assert_eq!(GRID_SIZE, 4);
    assert_eq!(SPAWN_ROLLS, 10);
    assert_eq!(SPAWN_TWO_ROLLS, 9);
}
