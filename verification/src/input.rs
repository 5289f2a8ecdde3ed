//! The player's input: which token asks for which move.

use vstd::prelude::*;
use vstd::string::StrSliceExecFns;
use crate::board::Direction;
use crate::game::GameError;

verus! {

/// What `str::trim` returns for a line: the line without the white space at its
/// two ends.
pub uninterp spec fn trimmed(line: Seq<char>) -> Seq<char>;

/// The token is the one character `key`.
pub open spec fn is_key(token: Seq<char>, key: char) -> bool {
    token.len() == 1 && token[0] == key
}

/// What a token asks for: `w` moves left, `s` right, `a` up and `d` down, `x`
/// leaves the game, and anything else is no valid input.
pub open spec fn meaning(token: Seq<char>) -> Result<Direction, GameError> {
    if is_key(token, 'w') {
        Ok(Direction::Left)
    } else if is_key(token, 's') {
        Ok(Direction::Right)
    } else if is_key(token, 'a') {
        Ok(Direction::Up)
    } else if is_key(token, 'd') {
        Ok(Direction::Down)
    } else if is_key(token, 'x') {
        Err(GameError::ExitRequested)
    } else {
        Err(GameError::InvalidInput)
    }
}

/// Calls `str::trim` of std, which returns the slice of the line that is left
/// when the white space at its start and at its end is taken away. The contract
/// gives that result its name and says no more of it.
#[verifier::external_body]
fn trim_line<'a>(line: &'a str) -> (token: &'a str)
    ensures
        token@ == trimmed(line@),
{
    line.trim()
}

/// Reads a token: the direction it asks for, the request to leave, or the
/// finding that it is no valid input.
pub fn read_token(token: &str) -> (request: Result<Direction, GameError>)
    ensures
        request == meaning(token@),
{
    if token.unicode_len() != 1 {
        return Err(GameError::InvalidInput);
    }
    let key = token.get_char(0);
    if key == 'w' {
        Ok(Direction::Left)
    } else if key == 's' {
        Ok(Direction::Right)
    } else if key == 'a' {
        Ok(Direction::Up)
    } else if key == 'd' {
        Ok(Direction::Down)
    } else if key == 'x' {
        Err(GameError::ExitRequested)
    } else {
        Err(GameError::InvalidInput)
    }
}

/// Reads a line of input: the token that is left of it without the white space
/// at its ends.
pub fn read_input(line: &str) -> (request: Result<Direction, GameError>)
    ensures
        request == meaning(trimmed(line@)),
{
    read_token(trim_line(line))
}

} // verus!
