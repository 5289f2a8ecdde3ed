//! The turn controller: one turn of the game, from a direction to the new score
//! or to the end of the game.

use vstd::prelude::*;
use rand::rngs::StdRng;
use crate::board::{
    at, board, has_headroom, well_formed, Board, Coord, Direction, Grid, UVal, DIM,
};
use crate::lane::moved;
use crate::merge::takes_effect;
use crate::moves::{can_move, lemma_no_move_leaves_board, step};
use crate::score::{free_count, free_weight, mass, scan_cell, score, total, CELLS};
use crate::spawn::{add_new_cells, free_cells, get_empty_coords, is_selection, with_new_tiles};

verus! {

/// Number of tiles that appear after a move that changed the board.
pub const N_NEW_SQUARES: usize = 1;

/// Why a game does not go on.
#[derive(Clone, Copy, Debug, PartialEq, Eq, Structural)]
pub enum GameError {
    /// The input is none of the accepted tokens.
    InvalidInput,
    /// The board has no free cell left after a move.
    NoValidMoves,
    /// The player asked to leave.
    ExitRequested,
}

/// The game goes on after a move in `direction`: the move leaves a cell free.
pub open spec fn goes_on(board: Board, direction: Direction) -> bool {
    free_count(moved(board, direction)) > 0
}

/// The score after a turn in `direction` that the game survives: the sum of the
/// tiles, and 2 for the new tile if the move was legal.
pub open spec fn score_after(board: Board, direction: Direction) -> nat {
    if can_move(board, direction) {
        mass(board) + 2
    } else {
        mass(board)
    }
}

/// Every cell of the board holds a tile.
pub open spec fn is_full(board: Board) -> bool {
    forall|x: int, y: int| 0 <= x < DIM && 0 <= y < DIM ==> #[trigger] board[x][y] != 0
}

/// No tile of the board has an equal tile next to it, in whatever direction.
pub open spec fn no_equal_neighbors(board: Board) -> bool {
    forall|coord: Coord, direction: Direction|
        coord.is_on_board() && (#[trigger] coord.next_to(direction)).is_on_board() ==> at(
            board,
            coord,
        ) != at(board, coord.next_to(direction))
}

/// A full board has no free cell among its first `n` cells.
pub proof fn lemma_full_board_has_no_free_cell(board: Board, n: nat)
    requires
        is_full(board),
        n <= CELLS,
    ensures
        total(board, |v: UVal| free_weight(v), n) == 0,
    decreases n,
{
    if n > 0 {
        lemma_full_board_has_no_free_cell(board, (n - 1) as nat);
        let cell = scan_cell(n - 1);
        assert(cell.is_on_board());
        assert(board[cell.x as int][cell.y as int] != 0);
    }
}

/// On a full board on which no two equal tiles touch, no move is legal, every
/// move leaves the board as it is, and the game ends whatever the direction.
pub proof fn lemma_crowded_board_ends_game(board: Board, direction: Direction)
    requires
        well_formed(board),
        has_headroom(board),
        is_full(board),
        no_equal_neighbors(board),
    ensures
        !can_move(board, direction),
        moved(board, direction) == board,
        !goes_on(board, direction),
{
    assert forall|coord: Coord| !#[trigger] takes_effect(
        board,
        coord,
        coord.next_to(direction),
    ) by {
        let next = coord.next_to(direction);
        if coord.is_on_board() && next.is_on_board() {
            assert(board[coord.x as int][coord.y as int] != 0);
            assert(board[next.x as int][next.y as int] != 0);
            assert(at(board, coord) != at(board, next));
        }
    }
    lemma_no_move_leaves_board(board, direction);
    lemma_full_board_has_no_free_cell(board, CELLS as nat);
}

/// Plays one turn: makes the move, ends the game if that leaves no cell free,
/// else puts a new tile on a free cell if the move changed the board, and
/// returns the score.
pub fn turn(grid: &mut Grid, direction: &Direction, gen: &mut StdRng) -> (outcome: Result<
    u32,
    GameError,
>)
    requires
        has_headroom(board(*old(grid))),
        goes_on(board(*old(grid)), *direction) ==> score_after(board(*old(grid)), *direction)
            <= u32::MAX,
    ensures
        outcome is Ok == goes_on(board(*old(grid)), *direction),
        outcome is Err ==> outcome == Err::<u32, GameError>(GameError::NoValidMoves) && board(
            *final(grid),
        ) == moved(board(*old(grid)), *direction),
        outcome matches Ok(points) ==> points == score_after(board(*old(grid)), *direction)
            && points == mass(board(*final(grid))) && (if can_move(
            board(*old(grid)),
            *direction,
        ) {
            exists|chosen: Seq<Coord>|
                is_selection(
                    free_cells(moved(board(*old(grid)), *direction)),
                    N_NEW_SQUARES as nat,
                    chosen,
                ) && board(*final(grid)) == with_new_tiles(
                    moved(board(*old(grid)), *direction),
                    chosen,
                )
        } else {
            board(*final(grid)) == board(*old(grid))
        }),
{
    let merged = step(grid, direction);
    if get_empty_coords(grid).is_empty() {
        return Err(GameError::NoValidMoves);
    }
    if merged {
        add_new_cells(grid, N_NEW_SQUARES, gen);
    }
    Ok(score(grid))
}

} // verus!
