//! The sum of the tiles of a board is the same before and after a move: a slide
//! takes nothing away, and a merge puts into one tile what two tiles held.

use vstd::prelude::*;
use crate::board::{has_headroom, well_formed, Board, Direction, UVal, DIM};
use crate::lane::{lane, lemma_lane_len, lemma_lane_moved, moved};
use crate::line;
use crate::line::{free_below, lemma_slid_stays_on_line, lemma_sweep_step, slid, swept};
use crate::moves::lemma_lanes_have_headroom;
use crate::score::{lemma_merge_conserves_value, mass, tile_value, total};

verus! {

/// The sum of the values of the tiles among the first `n` cells of a line.
pub open spec fn line_mass_upto(line: Seq<UVal>, n: nat) -> nat
    decreases n,
{
    if n == 0 {
        0
    } else {
        line_mass_upto(line, (n - 1) as nat) + tile_value(line[n - 1])
    }
}

/// The sum of the values of the tiles of a line.
pub open spec fn line_mass(line: Seq<UVal>) -> nat {
    line_mass_upto(line, line.len())
}

/// Writing a cell of a line changes the sum of its tiles by the difference of
/// the two values.
pub proof fn lemma_line_mass_update(line: Seq<UVal>, i: int, val: UVal, n: nat)
    requires
        0 <= i < line.len(),
        n <= line.len(),
    ensures
        line_mass_upto(line.update(i, val), n) == (if i < n {
            line_mass_upto(line, n) - tile_value(line[i]) + tile_value(val)
        } else {
            line_mass_upto(line, n) as int
        }),
        i < n ==> line_mass_upto(line, n) >= tile_value(line[i]),
    decreases n,
{
    if n > 0 {
        lemma_line_mass_update(line, i, val, (n - 1) as nat);
    }
}

/// The cells that a tile travels over are free.
pub proof fn lemma_free_run(line: Seq<UVal>, i: int, j: int)
    requires
        0 <= i < line.len(),
        i - free_below(line, i) <= j < i,
    ensures
        line[j] == 0,
    decreases i,
{
    if j < i - 1 {
        lemma_free_run(line, i - 1, j);
    }
}

/// A tile that travels takes nothing from the sum of the tiles of its line.
pub proof fn lemma_slid_keeps_mass(line: Seq<UVal>, i: int)
    requires
        0 <= i < line.len(),
        0 < line[i] < UVal::MAX,
    ensures
        line_mass(slid(line, i)) == line_mass(line),
{
    let tile = line[i];
    let rest = i - free_below(line, i);
    let cleared = line.update(i, 0);
    lemma_slid_stays_on_line(line, i);
    lemma_line_mass_update(line, i, 0, line.len());
    if rest > 0 && line[rest - 1] == tile {
        lemma_line_mass_update(cleared, rest - 1, (tile + 1) as UVal, line.len());
        lemma_merge_conserves_value(tile);
    } else {
        if rest < i {
            lemma_free_run(line, i, rest);
        }
        lemma_line_mass_update(cleared, rest, tile, line.len());
    }
}

/// Visiting cells of a line takes nothing from the sum of its tiles.
pub proof fn lemma_swept_keeps_mass(line: Seq<UVal>, n: nat)
    requires
        n <= line.len(),
        line::has_headroom(line),
    ensures
        line_mass(swept(line, n)) == line_mass(line),
    decreases n,
{
    if n == 0 {
        assert(swept(line, 0) =~= line);
    } else {
        let m = (n - 1) as nat;
        lemma_swept_keeps_mass(line, m);
        lemma_sweep_step(line, m);
        line::lemma_packed_tiles(line, m);
        if line[m as int] != 0 {
            assert(swept(line, m)[m as int] == line[m as int]);
            lemma_slid_keeps_mass(swept(line, m), m as int);
        }
    }
}

/// The sum of the tiles of a board is the sum over its lanes, in whatever
/// direction the lanes run.
pub proof fn lemma_mass_by_lanes(board: Board, direction: Direction)
    ensures
        mass(board) == line_mass(lane(board, direction, 0)) + line_mass(lane(board, direction, 1))
            + line_mass(lane(board, direction, 2)) + line_mass(lane(board, direction, 3)),
{
    reveal(lane);
    reveal_with_fuel(total, 17);
    reveal_with_fuel(line_mass_upto, 5);
}

/// A move keeps the sum of the tiles of the board.
pub proof fn lemma_move_keeps_mass(board: Board, direction: Direction)
    requires
        well_formed(board),
        has_headroom(board),
    ensures
        mass(moved(board, direction)) == mass(board),
{
    lemma_lanes_have_headroom(board, direction);
    lemma_mass_by_lanes(board, direction);
    lemma_mass_by_lanes(moved(board, direction), direction);
    assert forall|k: int| 0 <= k < DIM implies line_mass(
        #[trigger] lane(moved(board, direction), direction, k),
    ) == line_mass(lane(board, direction, k)) by {
        lemma_lane_moved(board, direction, k);
        lemma_lane_len(board, direction, k);
        lemma_swept_keeps_mass(lane(board, direction, k), DIM as nat);
    }
}

} // verus!
