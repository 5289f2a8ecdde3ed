use nano_2048::board::Direction;
use nano_2048::game::GameError;
use nano_2048::input::{read_input, read_token};

#[test]
fn w_moves_left() {
    assert_eq!(read_token("w"), Ok(Direction::Left));
}

#[test]
fn s_moves_right() {
    assert_eq!(read_token("s"), Ok(Direction::Right));
}

#[test]
fn a_moves_up() {
    assert_eq!(read_token("a"), Ok(Direction::Up));
}

#[test]
fn d_moves_down() {
    assert_eq!(read_token("d"), Ok(Direction::Down));
}

#[test]
fn x_leaves_the_game() {
    assert_eq!(read_token("x"), Err(GameError::ExitRequested));
}

#[test]
fn other_tokens_are_invalid() {
    for token in ["", "q", "W", "ww", "wa", "up", "left", " ", "1", "w ", " w", "é", "x!"] {
        assert_eq!(read_token(token), Err(GameError::InvalidInput));
    }
}

#[test]
fn line_is_read_without_the_white_space_at_its_ends() {
    assert_eq!(read_input("w\n"), Ok(Direction::Left));
    assert_eq!(read_input("  s \r\n"), Ok(Direction::Right));
    assert_eq!(read_input("\ta"), Ok(Direction::Up));
    assert_eq!(read_input("d"), Ok(Direction::Down));
    assert_eq!(read_input(" x\n"), Err(GameError::ExitRequested));
}

#[test]
fn line_with_white_space_inside_is_invalid() {
    assert_eq!(read_input("w s\n"), Err(GameError::InvalidInput));
}

#[test]
fn empty_line_is_invalid() {
    assert_eq!(read_input(""), Err(GameError::InvalidInput));
    assert_eq!(read_input("\n"), Err(GameError::InvalidInput));
    assert_eq!(read_input("   "), Err(GameError::InvalidInput));
}
