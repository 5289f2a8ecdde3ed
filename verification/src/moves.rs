//! The move executor: one pass over the board that slides and merges its tiles
//! in a direction.

use vstd::prelude::*;
use crate::board::{
    at, board, has_headroom, lemma_board_well_formed, well_formed, Board, Coord, Direction, Grid,
    UVal, DIM,
};
use crate::lane::{
    cell_on_lane, depth_of, lane, lane_cell, lane_of, lemma_boards_equal_by_lanes, lemma_lane_at,
    lemma_lane_cell, lemma_lane_len, lemma_lane_moved, lemma_lane_with_lane, lemma_next_in_lane,
    moved,
};
use crate::line;
use crate::line::{
    can_leave, lemma_collapsed_unchanged, lemma_first_to_leave, lemma_slid_stays_on_line,
    lemma_sweep_step, movable, movable_upto, slid, swept,
};
use crate::merge::{lemma_resolved_next_to, merge_cells, resolved, takes_effect};
use crate::score::mass;

verus! {

/// A move in `direction` is legal: some tile has a free cell or an equal tile
/// next to it in that direction.
pub open spec fn can_move(board: Board, direction: Direction) -> bool {
    exists|coord: Coord| #[trigger]
        takes_effect(board, coord, coord.next_to(direction))
}

/// Some tile of some lane can leave its cell.
pub open spec fn some_lane_movable(board: Board, direction: Direction) -> bool {
    exists|k: int| 0 <= k < DIM && movable(#[trigger] lane(board, direction, k))
}

/// How many cells of lane `k` a pass has visited when it stands at lane `at_lane`
/// and depth `depth`.
spec fn visited(k: int, at_lane: int, depth: int) -> int {
    if k < at_lane {
        depth + 1
    } else {
        depth
    }
}

/// Among the cells that a pass has visited when it stands at lane `at_lane` and
/// depth `depth`, some tile could leave its cell at the start.
spec fn some_visited_movable(
    board: Board,
    direction: Direction,
    at_lane: int,
    depth: int,
) -> bool {
    exists|k: int|
        0 <= k < DIM && movable_upto(
            #[trigger] lane(board, direction, k),
            visited(k, at_lane, depth),
        )
}

/// A tile can merge into the cell next to it or move onto it exactly if it can
/// leave its cell in its lane.
pub proof fn lemma_leave_in_lane(board: Board, direction: Direction, coord: Coord)
    requires
        coord.is_on_board(),
    ensures
        takes_effect(board, coord, coord.next_to(direction)) == can_leave(
            lane(board, direction, lane_of(direction, coord)),
            depth_of(direction, coord),
        ),
{
    lemma_lane_at(board, direction, coord);
    lemma_next_in_lane(direction, coord);
    if coord.next_to(direction).is_on_board() {
        lemma_lane_at(board, direction, coord.next_to(direction));
    }
}

/// A move is legal exactly if some tile of some lane can leave its cell.
pub proof fn lemma_can_move_by_lanes(board: Board, direction: Direction)
    ensures
        can_move(board, direction) == some_lane_movable(board, direction),
{
    if can_move(board, direction) {
        let coord = choose|coord: Coord| #[trigger]
            takes_effect(board, coord, coord.next_to(direction));
        lemma_leave_in_lane(board, direction, coord);
        lemma_lane_at(board, direction, coord);
        let k = lane_of(direction, coord);
        assert(0 < depth_of(direction, coord) < DIM && can_leave(
            lane(board, direction, k),
            depth_of(direction, coord),
        ));
        assert(movable(lane(board, direction, k)));
    }
    if some_lane_movable(board, direction) {
        let k = choose|k: int| 0 <= k < DIM && movable(#[trigger] lane(board, direction, k));
        let line = lane(board, direction, k);
        let i = choose|i: int| 0 < i < line.len() && #[trigger] can_leave(line, i);
        let coord = lane_cell(direction, k, i);
        lemma_lane_len(board, direction, k);
        lemma_lane_cell(direction, k, i);
        lemma_lane_at(board, direction, coord);
        lemma_leave_in_lane(board, direction, coord);
        assert(takes_effect(board, coord, coord.next_to(direction)));
    }
}

/// The lanes of a board with headroom have headroom.
pub proof fn lemma_lanes_have_headroom(board: Board, direction: Direction)
    requires
        has_headroom(board),
    ensures
        forall|k: int| 0 <= k < DIM ==> line::has_headroom(#[trigger] lane(board, direction, k)),
{
    reveal(lane);
    assert forall|k: int| 0 <= k < DIM implies line::has_headroom(
        #[trigger] lane(board, direction, k),
    ) by {
        let l = lane(board, direction, k);
        assert forall|i: int| 0 <= i < l.len() implies #[trigger] l[i] < UVal::MAX by {
            let c = lane_cell(direction, k, i);
            assert(l[i] == board[c.x as int][c.y as int]);
        }
    }
}

/// A move changes the board exactly if it is legal.
pub proof fn lemma_legal_move_changes_board(board: Board, direction: Direction)
    requires
        well_formed(board),
        has_headroom(board),
    ensures
        (moved(board, direction) != board) == can_move(board, direction),
{
    lemma_can_move_by_lanes(board, direction);
    lemma_lanes_have_headroom(board, direction);
    assert forall|k: int| 0 <= k < DIM implies (#[trigger] lane(moved(board, direction), direction, k)
        == lane(board, direction, k)) == !movable(lane(board, direction, k)) by {
        lemma_lane_moved(board, direction, k);
        lemma_collapsed_unchanged(lane(board, direction, k));
    }
    lemma_lane_moved(board, direction, 0);
    if !some_lane_movable(board, direction) {
        lemma_boards_equal_by_lanes(moved(board, direction), board, direction);
    }
}

/// A move that is not legal leaves the board as it is.
pub proof fn lemma_no_move_leaves_board(board: Board, direction: Direction)
    requires
        well_formed(board),
        has_headroom(board),
        !can_move(board, direction),
    ensures
        moved(board, direction) == board,
{
    lemma_legal_move_changes_board(board, direction);
}

/// What visiting the cell of lane `k` at depth `depth` does to a board on which
/// that lane has been visited up to that depth.
proof fn lemma_visit_cell(start: Board, now: Board, direction: Direction, k: int, depth: int)
    requires
        well_formed(now),
        0 <= k < DIM,
        0 <= depth < DIM,
        line::has_headroom(lane(start, direction, k)),
        lane(now, direction, k) == swept(lane(start, direction, k), depth as nat),
    ensures
        ({
            let coord = lane_cell(direction, k, depth);
            let next = resolved(now, coord, coord.next_to(direction), direction);
            &&& at(now, coord) < UVal::MAX
            &&& well_formed(next)
            &&& lane(next, direction, k) == swept(lane(start, direction, k), (depth + 1) as nat)
            &&& forall|j: int|
                0 <= j < DIM && j != k ==> #[trigger] lane(next, direction, j) == lane(
                    now,
                    direction,
                    j,
                )
            &&& (movable_upto(lane(start, direction, k), depth) || takes_effect(
                now,
                coord,
                coord.next_to(direction),
            )) == movable_upto(lane(start, direction, k), depth + 1)
        }),
{
    let coord = lane_cell(direction, k, depth);
    let first = lane(start, direction, k);
    let line = lane(now, direction, k);
    lemma_lane_at(now, direction, coord);
    lemma_lane_at(start, direction, coord);
    lemma_leave_in_lane(now, direction, coord);
    line::lemma_packed_tiles(first, depth as nat);
    lemma_sweep_step(first, depth as nat);
    lemma_first_to_leave(first, depth as nat);
    assert(line[depth] == first[depth]);
    assert(first[depth] < UVal::MAX);
    if at(now, coord) != 0 {
        lemma_resolved_next_to(now, coord, direction);
        lemma_slid_stays_on_line(line, depth);
        assert forall|j: int| 0 <= j < DIM implies #[trigger] lane(
            resolved(now, coord, coord.next_to(direction), direction),
            direction,
            j,
        ) == (if j == k {
            slid(line, depth)
        } else {
            lane(now, direction, j)
        }) by {
            lemma_lane_with_lane(now, direction, k, slid(line, depth), j);
        }
    }
}

/// Makes a move: visits every cell, from the wall that the tiles travel toward
/// outward and lane by lane at each depth, and resolves it against the cell next
/// to it. Reports whether any cell changed.
pub fn step(grid: &mut Grid, direction: &Direction) -> (merged: bool)
    requires
        has_headroom(board(*old(grid))),
    ensures
        board(*final(grid)) == moved(board(*old(grid)), *direction),
        merged == can_move(board(*old(grid)), *direction),
        merged == (board(*final(grid)) != board(*old(grid))),
        mass(board(*final(grid))) == mass(board(*old(grid))),
{
    let ghost start = board(*grid);
    let mut merged = false;
    let mut depth: usize = 0;
    proof {
        lemma_board_well_formed(*grid);
        lemma_lanes_have_headroom(start, *direction);
        assert forall|k: int| 0 <= k < DIM implies #[trigger] lane(start, *direction, k) == swept(
            lane(start, *direction, k),
            0,
        ) by {
            lemma_lane_len(start, *direction, k);
            assert(swept(lane(start, *direction, k), 0) =~= lane(start, *direction, k));
        }
    }
    while depth < DIM
        invariant
            depth <= DIM,
            well_formed(start),
            forall|k: int|
                0 <= k < DIM ==> line::has_headroom(#[trigger] lane(start, *direction, k)),
            forall|k: int|
                0 <= k < DIM ==> #[trigger] lane(board(*grid), *direction, k) == swept(
                    lane(start, *direction, k),
                    depth as nat,
                ),
            merged == some_visited_movable(start, *direction, 0, depth as int),
            mass(board(*grid)) == mass(start),
        decreases DIM - depth,
    {
        let mut at_lane: usize = 0;
        while at_lane < DIM
            invariant
                depth < DIM,
                at_lane <= DIM,
                well_formed(start),
                forall|k: int|
                    0 <= k < DIM ==> line::has_headroom(#[trigger] lane(start, *direction, k)),
                forall|k: int|
                    0 <= k < DIM ==> #[trigger] lane(board(*grid), *direction, k) == swept(
                        lane(start, *direction, k),
                        visited(k, at_lane as int, depth as int) as nat,
                    ),
                merged == some_visited_movable(start, *direction, at_lane as int, depth as int),
                mass(board(*grid)) == mass(start),
            decreases DIM - at_lane,
        {
            let move_idx = cell_on_lane(direction, at_lane, depth);
            let ghost now = board(*grid);
            proof {
                lemma_board_well_formed(*grid);
                lemma_visit_cell(start, now, *direction, at_lane as int, depth as int);
                lemma_next_in_lane(*direction, move_idx);
            }
            let tgt_idx = move_idx.neighbor(direction);
            let occurred = merge_cells(grid, move_idx, tgt_idx, direction);
            proof {
                lemma_visited_one_more(start, *direction, at_lane as int, depth as int, occurred);
            }
            merged = merged || occurred;
            at_lane += 1;
        }
        proof {
            assert(some_visited_movable(start, *direction, DIM as int, depth as int)
                == some_visited_movable(start, *direction, 0, depth + 1)) by {
                lemma_visited_all_lanes(start, *direction, depth as int);
            }
        }
        depth += 1;
    }
    proof {
        lemma_board_well_formed(*grid);
        assert forall|k: int| 0 <= k < DIM implies #[trigger] lane(board(*grid), *direction, k)
            == lane(moved(start, *direction), *direction, k) by {
            lemma_lane_moved(start, *direction, k);
            lemma_lane_len(start, *direction, k);
        }
        lemma_lane_moved(start, *direction, 0);
        lemma_boards_equal_by_lanes(board(*grid), moved(start, *direction), *direction);
        lemma_visited_whole_board(start, *direction);
        lemma_can_move_by_lanes(start, *direction);
        lemma_legal_move_changes_board(start, *direction);
    }
    merged
}

/// Visiting the cell of lane `at_lane` at depth `depth` adds to the tiles that
/// could leave their cell the one that leaves it now.
proof fn lemma_visited_one_more(
    start: Board,
    direction: Direction,
    at_lane: int,
    depth: int,
    occurred: bool,
)
    requires
        0 <= at_lane < DIM,
        (movable_upto(lane(start, direction, at_lane), depth) || occurred) == movable_upto(
            lane(start, direction, at_lane),
            depth + 1,
        ),
    ensures
        (some_visited_movable(start, direction, at_lane, depth) || occurred)
            == some_visited_movable(start, direction, at_lane + 1, depth),
{
    if some_visited_movable(start, direction, at_lane, depth) {
        let k = choose|k: int|
            0 <= k < DIM && movable_upto(
                #[trigger] lane(start, direction, k),
                visited(k, at_lane, depth),
            );
        if k == at_lane {
            assert(movable_upto(lane(start, direction, k), visited(k, at_lane + 1, depth)));
        } else {
            assert(visited(k, at_lane, depth) == visited(k, at_lane + 1, depth));
        }
    }
    if occurred {
        assert(movable_upto(
            lane(start, direction, at_lane),
            visited(at_lane, at_lane + 1, depth),
        ));
    }
    if some_visited_movable(start, direction, at_lane + 1, depth) {
        let k = choose|k: int|
            0 <= k < DIM && movable_upto(
                #[trigger] lane(start, direction, k),
                visited(k, at_lane + 1, depth),
            );
        if k != at_lane {
            assert(visited(k, at_lane, depth) == visited(k, at_lane + 1, depth));
            assert(movable_upto(lane(start, direction, k), visited(k, at_lane, depth)));
        }
    }
}

/// A pass that has visited all lanes at one depth stands at the first lane of
/// the next depth.
proof fn lemma_visited_all_lanes(start: Board, direction: Direction, depth: int)
    ensures
        some_visited_movable(start, direction, DIM as int, depth) == some_visited_movable(
            start,
            direction,
            0,
            depth + 1,
        ),
{
    if some_visited_movable(start, direction, DIM as int, depth) {
        let k = choose|k: int|
            0 <= k < DIM && movable_upto(
                #[trigger] lane(start, direction, k),
                visited(k, DIM as int, depth),
            );
        assert(movable_upto(lane(start, direction, k), visited(k, 0, depth + 1)));
    }
    if some_visited_movable(start, direction, 0, depth + 1) {
        let k = choose|k: int|
            0 <= k < DIM && movable_upto(
                #[trigger] lane(start, direction, k),
                visited(k, 0, depth + 1),
            );
        assert(movable_upto(lane(start, direction, k), visited(k, DIM as int, depth)));
    }
}

/// A pass that has visited every depth has visited the whole of every lane.
proof fn lemma_visited_whole_board(start: Board, direction: Direction)
    ensures
        some_visited_movable(start, direction, 0, DIM as int) == some_lane_movable(
            start,
            direction,
        ),
{
    if some_visited_movable(start, direction, 0, DIM as int) {
        let k = choose|k: int|
            0 <= k < DIM && movable_upto(
                #[trigger] lane(start, direction, k),
                visited(k, 0, DIM as int),
            );
        lemma_lane_len(start, direction, k);
        assert(movable(lane(start, direction, k)));
    }
    if some_lane_movable(start, direction) {
        let k = choose|k: int| 0 <= k < DIM && movable(#[trigger] lane(start, direction, k));
        lemma_lane_len(start, direction, k);
        assert(movable_upto(lane(start, direction, k), visited(k, 0, DIM as int)));
    }
}

} // verus!
