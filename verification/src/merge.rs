//! The merge resolver: what happens between a moving cell and its target.

use vstd::prelude::*;
use crate::board::{
    at, board, get_val, lemma_board_well_formed, put, put_val, well_formed, Board, Coord,
    Direction, Grid, UVal, DIM,
};
use crate::lane::{
    depth_of, lane, lane_of, lemma_boards_equal_by_lanes, lemma_lane_at, lemma_lane_put,
    lemma_lane_with_lane, lemma_next_in_lane, lemma_put_well_formed, settled,
};
use crate::line::{free_below, lemma_slid_stays_on_line, slid};
use crate::score::{lemma_mass_put, lemma_merge_conserves_value, mass};

verus! {

/// What a moving cell can do to its target.
#[derive(Clone, Copy, Debug, PartialEq, Eq, Structural)]
pub enum MoveResult {
    /// Both hold tiles, and the tiles differ.
    Blocked,
    /// Both hold the same tile.
    Merged,
    /// The target is free and the mover is not.
    Through,
    /// The mover is free.
    NoEffect,
}

/// The class of the pair of a moving cell and its target, by their values.
pub open spec fn outcome(mover: UVal, target: UVal) -> MoveResult {
    if mover == 0 {
        MoveResult::NoEffect
    } else if target == 0 {
        MoveResult::Through
    } else if mover == target {
        MoveResult::Merged
    } else {
        MoveResult::Blocked
    }
}

/// Resolving the pair changes a cell: both are on the board, and the mover
/// merges into the target or moves onto it.
pub open spec fn takes_effect(board: Board, mover: Coord, target: Coord) -> bool {
    &&& mover.is_on_board()
    &&& target.is_on_board()
    &&& (outcome(at(board, mover), at(board, target)) == MoveResult::Merged || outcome(
        at(board, mover),
        at(board, target),
    ) == MoveResult::Through)
}

/// The board after the pair has been resolved. A mover equal to its target is
/// cleared and the target raised by one; a mover with a free target moves there
/// and travels on in `direction`; nothing else has an effect.
pub open spec fn resolved(board: Board, mover: Coord, target: Coord, direction: Direction) -> Board {
    if !mover.is_on_board() || !target.is_on_board() {
        board
    } else {
        match outcome(at(board, mover), at(board, target)) {
            MoveResult::Merged => put(
                put(board, mover, 0),
                target,
                (at(board, target) + 1) as UVal,
            ),
            MoveResult::Through => settled(
                put(put(board, target, at(board, mover)), mover, 0),
                target,
                direction,
            ),
            _ => board,
        }
    }
}

/// Classifies a moving cell and its target by their values.
pub fn merge_ability(mover: UVal, target: UVal) -> (result: MoveResult)
    ensures
        result == outcome(mover, target),
{
    if mover == 0 {
        MoveResult::NoEffect
    } else if target == 0 {
        MoveResult::Through
    } else if mover == target {
        MoveResult::Merged
    } else {
        MoveResult::Blocked
    }
}

/// The free cells below a position are the same in two lines that agree below it.
pub proof fn lemma_free_below_agrees(a: Seq<UVal>, b: Seq<UVal>, i: int)
    requires
        a.len() == b.len(),
        forall|j: int| 0 <= j < i && j < a.len() ==> a[j] == b[j],
    ensures
        free_below(a, i) == free_below(b, i),
    decreases i,
{
    if 0 < i <= a.len() && a[i - 1] == 0 {
        lemma_free_below_agrees(a, b, i - 1);
    }
}

/// A tile with a free cell below it ends up where it would have, had it first
/// been moved one cell down.
pub proof fn lemma_slide_in_steps(line: Seq<UVal>, i: int)
    requires
        0 < i < line.len(),
        line[i] != 0,
        line[i - 1] == 0,
    ensures
        slid(line.update(i - 1, line[i]).update(i, 0), i - 1) == slid(line, i),
{
    let stepped = line.update(i - 1, line[i]).update(i, 0);
    lemma_free_below_agrees(stepped, line, i - 1);
    lemma_slid_stays_on_line(line, i - 1);
    assert(slid(stepped, i - 1) =~= slid(line, i));
}

/// Resolving a tile against the cell next to it lets the tile travel.
pub proof fn lemma_resolved_next_to(board: Board, coord: Coord, direction: Direction)
    requires
        well_formed(board),
        coord.is_on_board(),
        at(board, coord) != 0,
    ensures
        resolved(board, coord, coord.next_to(direction), direction) == settled(
            board,
            coord,
            direction,
        ),
        well_formed(settled(board, coord, direction)),
{
    let next = coord.next_to(direction);
    let k = lane_of(direction, coord);
    let i = depth_of(direction, coord);
    let line = lane(board, direction, k);
    let tile = at(board, coord);
    let after = settled(board, coord, direction);
    lemma_lane_at(board, direction, coord);
    lemma_next_in_lane(direction, coord);
    lemma_slid_stays_on_line(line, i);
    assert forall|j: int| 0 <= j < DIM implies #[trigger] lane(after, direction, j) == (if j == k {
        slid(line, i)
    } else {
        lane(board, direction, j)
    }) by {
        lemma_lane_with_lane(board, direction, k, slid(line, i), j);
    }
    lemma_lane_with_lane(board, direction, k, slid(line, i), k);
    if !next.is_on_board() {
        assert(slid(line, i) =~= line);
        lemma_boards_equal_by_lanes(after, board, direction);
    } else {
        lemma_lane_at(board, direction, next);
        if line[i - 1] == 0 {
            lemma_through_next_to(board, coord, direction);
        } else if line[i - 1] == tile {
            let cleared = put(board, coord, 0);
            let merged = put(cleared, next, (tile + 1) as UVal);
            lemma_put_well_formed(board, coord, 0);
            lemma_put_well_formed(cleared, next, (tile + 1) as UVal);
            assert(free_below(line, i) == 0);
            assert forall|j: int| 0 <= j < DIM implies #[trigger] lane(merged, direction, j)
                == lane(after, direction, j) by {
                lemma_lane_put(board, direction, coord, 0, j);
                lemma_lane_put(cleared, direction, next, (tile + 1) as UVal, j);
            }
            lemma_boards_equal_by_lanes(merged, after, direction);
        } else {
            assert(free_below(line, i) == 0);
            assert(slid(line, i) =~= line);
            lemma_boards_equal_by_lanes(after, board, direction);
        }
    }
}

/// A tile that moves onto the free cell next to it and travels on from there ends
/// up where it would have by travelling from its own cell.
proof fn lemma_through_next_to(board: Board, coord: Coord, direction: Direction)
    requires
        well_formed(board),
        coord.is_on_board(),
        coord.next_to(direction).is_on_board(),
        at(board, coord) != 0,
        at(board, coord.next_to(direction)) == 0,
    ensures
        settled(
            put(put(board, coord.next_to(direction), at(board, coord)), coord, 0),
            coord.next_to(direction),
            direction,
        ) == settled(board, coord, direction),
{
    let next = coord.next_to(direction);
    let k = lane_of(direction, coord);
    let i = depth_of(direction, coord);
    let line = lane(board, direction, k);
    let tile = at(board, coord);
    let after = settled(board, coord, direction);
    let landed = put(board, next, tile);
    let stepped = put(landed, coord, 0);
    let via = settled(stepped, next, direction);
    lemma_lane_at(board, direction, coord);
    lemma_lane_at(board, direction, next);
    lemma_next_in_lane(direction, coord);
    lemma_put_well_formed(board, next, tile);
    lemma_put_well_formed(landed, coord, 0);
    lemma_slid_stays_on_line(line, i);
    lemma_slide_in_steps(line, i);
    lemma_lane_put(board, direction, next, tile, k);
    lemma_lane_put(landed, direction, coord, 0, k);
    assert(lane(stepped, direction, k) == line.update(i - 1, tile).update(i, 0));
    assert forall|j: int| 0 <= j < DIM implies #[trigger] lane(via, direction, j) == lane(
        after,
        direction,
        j,
    ) by {
        lemma_lane_put(board, direction, next, tile, j);
        lemma_lane_put(landed, direction, coord, 0, j);
        lemma_lane_with_lane(stepped, direction, k, slid(line, i), j);
        lemma_lane_with_lane(board, direction, k, slid(line, i), j);
    }
    lemma_lane_with_lane(stepped, direction, k, slid(line, i), k);
    lemma_lane_with_lane(board, direction, k, slid(line, i), k);
    lemma_boards_equal_by_lanes(via, after, direction);
}

/// Resolves one pair of a moving cell and its target, and lets a tile that moved
/// onto a free target travel on in `direction`. Reports whether the pair itself
/// merged or moved.
pub fn merge_cells(grid: &mut Grid, move_idx: Coord, tgt_idx: Coord, direction: &Direction) -> (occurred:
    bool)
    requires
        move_idx.is_on_board() && tgt_idx.is_on_board() ==> at(board(*old(grid)), move_idx)
            < UVal::MAX,
    ensures
        board(*final(grid)) == resolved(board(*old(grid)), move_idx, tgt_idx, *direction),
        occurred == takes_effect(board(*old(grid)), move_idx, tgt_idx),
        move_idx != tgt_idx ==> mass(board(*final(grid))) == mass(board(*old(grid))),
    decreases
            (if tgt_idx.is_on_board() {
                depth_of(*direction, tgt_idx) + 1
            } else {
                0
            }),
{
    if !move_idx.on_board() || !tgt_idx.on_board() {
        return false;
    }
    let mover_cell: UVal = get_val(grid, &move_idx);
    let target_cell: UVal = get_val(grid, &tgt_idx);
    proof {
        lemma_board_well_formed(*grid);
    }

    match merge_ability(mover_cell, target_cell) {
        MoveResult::Merged => {
            put_val(grid, &move_idx, 0);
            put_val(grid, &tgt_idx, target_cell + 1);
            proof {
                let before = board(*old(grid));
                lemma_mass_put(before, move_idx, 0);
                lemma_mass_put(put(before, move_idx, 0), tgt_idx, (target_cell + 1) as UVal);
                lemma_merge_conserves_value(target_cell);
            }
            true
        },
        MoveResult::Through => {
            put_val(grid, &tgt_idx, mover_cell);
            put_val(grid, &move_idx, 0);
            proof {
                let before = board(*old(grid));
                lemma_mass_put(before, tgt_idx, mover_cell);
                lemma_mass_put(put(before, tgt_idx, mover_cell), move_idx, 0);
                lemma_resolved_next_to(board(*grid), tgt_idx, *direction);
            }
            let new_tgt_idx = tgt_idx.neighbor(direction);
            merge_cells(grid, tgt_idx, new_tgt_idx, direction);
            true
        },
        _ => false,
    }
}

} // verus!
