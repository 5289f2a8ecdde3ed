//! The lines of the board along a direction of travel.
//!
//! A move in some direction splits the board into `DIM` lanes that do not touch
//! each other. Within a lane a cell is known by its depth: its distance from the
//! wall the tiles travel toward.

use vstd::prelude::*;
use crate::board::{at, put, well_formed, Board, Coord, Direction, IVal, UVal, DIM};
use crate::line::{collapsed, slid};

verus! {

/// The lane through `coord` for travel in `direction`.
pub open spec fn lane_of(direction: Direction, coord: Coord) -> int {
    match direction {
        Direction::Up | Direction::Down => coord.x as int,
        Direction::Left | Direction::Right => coord.y as int,
    }
}

/// The distance of `coord` from the wall that tiles travel toward in `direction`.
pub open spec fn depth_of(direction: Direction, coord: Coord) -> int {
    match direction {
        Direction::Up => coord.y as int,
        Direction::Down => DIM - 1 - coord.y,
        Direction::Left => coord.x as int,
        Direction::Right => DIM - 1 - coord.x,
    }
}

/// The cell of lane `lane` at distance `depth` from the wall.
pub open spec fn lane_cell(direction: Direction, lane: int, depth: int) -> Coord {
    match direction {
        Direction::Up => Coord { x: lane as IVal, y: depth as IVal },
        Direction::Down => Coord { x: lane as IVal, y: (DIM - 1 - depth) as IVal },
        Direction::Left => Coord { x: depth as IVal, y: lane as IVal },
        Direction::Right => Coord { x: (DIM - 1 - depth) as IVal, y: lane as IVal },
    }
}

/// The cells of one lane, from the wall outward.
#[verifier::opaque]
pub open spec fn lane(board: Board, direction: Direction, lane: int) -> Seq<UVal> {
    Seq::new(DIM as nat, |depth: int| at(board, lane_cell(direction, lane, depth)))
}

/// The board with the cells of one lane replaced by `line`.
#[verifier::opaque]
pub open spec fn with_lane(board: Board, direction: Direction, lane: int, line: Seq<UVal>) -> Board {
    Seq::new(
        DIM as nat,
        |x: int|
            Seq::new(
                DIM as nat,
                |y: int|
                    {
                        let coord = Coord { x: x as IVal, y: y as IVal };
                        if lane_of(direction, coord) == lane {
                            line[depth_of(direction, coord)]
                        } else {
                            board[x][y]
                        }
                    },
            ),
    )
}

/// The board after the tile at `coord` has travelled in `direction`: over the
/// free cells ahead of it, and into the tile behind those if that one is its equal.
pub open spec fn settled(board: Board, coord: Coord, direction: Direction) -> Board {
    let k = lane_of(direction, coord);
    with_lane(board, direction, k, slid(lane(board, direction, k), depth_of(direction, coord)))
}

/// The board after a move in `direction`: every lane collapsed toward its wall.
#[verifier::opaque]
pub open spec fn moved(board: Board, direction: Direction) -> Board {
    Seq::new(
        DIM as nat,
        |x: int|
            Seq::new(
                DIM as nat,
                |y: int|
                    {
                        let coord = Coord { x: x as IVal, y: y as IVal };
                        collapsed(lane(board, direction, lane_of(direction, coord)))[depth_of(
                            direction,
                            coord,
                        )]
                    },
            ),
    )
}

/// The cell of a lane at a given depth, as a coordinate.
pub fn cell_on_lane(direction: &Direction, lane: usize, depth: usize) -> (coord: Coord)
    requires
        lane < DIM,
        depth < DIM,
    ensures
        coord == lane_cell(*direction, lane as int, depth as int),
        coord.is_on_board(),
        lane_of(*direction, coord) == lane,
        depth_of(*direction, coord) == depth,
{
    match direction {
        Direction::Up => Coord { x: lane as IVal, y: depth as IVal },
        Direction::Down => Coord { x: lane as IVal, y: (DIM - 1 - depth) as IVal },
        Direction::Left => Coord { x: depth as IVal, y: lane as IVal },
        Direction::Right => Coord { x: (DIM - 1 - depth) as IVal, y: lane as IVal },
    }
}

/// The cell of lane `k` at depth `depth` is a cell of the board, in that lane and
/// at that depth.
pub proof fn lemma_lane_cell(direction: Direction, k: int, depth: int)
    requires
        0 <= k < DIM,
        0 <= depth < DIM,
    ensures
        lane_cell(direction, k, depth).is_on_board(),
        lane_of(direction, lane_cell(direction, k, depth)) == k,
        depth_of(direction, lane_cell(direction, k, depth)) == depth,
{
}

/// A lane has `DIM` cells.
pub proof fn lemma_lane_len(board: Board, direction: Direction, k: int)
    ensures
        lane(board, direction, k).len() == DIM,
{
    reveal(lane);
}

/// A lane has `DIM` cells, and a cell of the board is found in its lane at its depth.
pub proof fn lemma_lane_at(board: Board, direction: Direction, coord: Coord)
    requires
        coord.is_on_board(),
    ensures
        0 <= lane_of(direction, coord) < DIM,
        0 <= depth_of(direction, coord) < DIM,
        lane(board, direction, lane_of(direction, coord))[depth_of(direction, coord)] == at(
            board,
            coord,
        ),
        forall|k: int| (#[trigger] lane(board, direction, k)).len() == DIM,
{
    reveal(lane);
}

/// The step in the direction of travel stays in the lane and leads one cell
/// closer to the wall, or off the board from the cell at the wall.
pub proof fn lemma_next_in_lane(direction: Direction, coord: Coord)
    requires
        coord.is_on_board(),
    ensures
        coord.next_to(direction).is_on_board() <==> depth_of(direction, coord) > 0,
        coord.next_to(direction).is_on_board() ==> lane_of(direction, coord.next_to(direction))
            == lane_of(direction, coord) && depth_of(direction, coord.next_to(direction))
            == depth_of(direction, coord) - 1,
        coord.next_to(direction) != coord,
{
}

/// A move collapses every lane.
pub proof fn lemma_lane_moved(board: Board, direction: Direction, k: int)
    requires
        0 <= k < DIM,
    ensures
        well_formed(moved(board, direction)),
        lane(moved(board, direction), direction, k) == collapsed(lane(board, direction, k)),
{
    reveal(lane);
    reveal(moved);
    assert(lane(moved(board, direction), direction, k) =~= collapsed(lane(board, direction, k)));
}

/// Writing a cell of a board gives a board.
pub proof fn lemma_put_well_formed(board: Board, coord: Coord, val: UVal)
    requires
        well_formed(board),
        coord.is_on_board(),
    ensures
        well_formed(put(board, coord, val)),
{
}

/// Writing a cell updates its lane at its depth and leaves the other lanes alone.
pub proof fn lemma_lane_put(board: Board, direction: Direction, coord: Coord, val: UVal, k: int)
    requires
        well_formed(board),
        coord.is_on_board(),
        0 <= k < DIM,
    ensures
        lane(put(board, coord, val), direction, k) == (if k == lane_of(direction, coord) {
            lane(board, direction, k).update(depth_of(direction, coord), val)
        } else {
            lane(board, direction, k)
        }),
{
    reveal(lane);
    assert(lane(put(board, coord, val), direction, k) =~= (if k == lane_of(direction, coord) {
        lane(board, direction, k).update(depth_of(direction, coord), val)
    } else {
        lane(board, direction, k)
    }));
}

/// Replacing a lane by a line of `DIM` cells gives a board with that lane and
/// the other lanes as they were.
pub proof fn lemma_lane_with_lane(board: Board, direction: Direction, k: int, line: Seq<UVal>, j: int)
    requires
        well_formed(board),
        line.len() == DIM,
        0 <= k < DIM,
        0 <= j < DIM,
    ensures
        well_formed(with_lane(board, direction, k, line)),
        lane(with_lane(board, direction, k, line), direction, j) == (if j == k {
            line
        } else {
            lane(board, direction, j)
        }),
{
    reveal(lane);
    reveal(with_lane);
    assert(lane(with_lane(board, direction, k, line), direction, j) =~= (if j == k {
        line
    } else {
        lane(board, direction, j)
    }));
}

/// A board is known by its lanes.
pub proof fn lemma_boards_equal_by_lanes(a: Board, b: Board, direction: Direction)
    requires
        well_formed(a),
        well_formed(b),
        forall|k: int| 0 <= k < DIM ==> #[trigger] lane(a, direction, k) == lane(b, direction, k),
    ensures
        a == b,
{
    assert forall|x: int, y: int| 0 <= x < DIM && 0 <= y < DIM implies #[trigger] a[x][y]
        == b[x][y] by {
        reveal(lane);
        let coord = Coord { x: x as IVal, y: y as IVal };
        let k = lane_of(direction, coord);
        let depth = depth_of(direction, coord);
        assert(lane(a, direction, k)[depth] == at(a, lane_cell(direction, k, depth)));
        assert(lane(b, direction, k)[depth] == at(b, lane_cell(direction, k, depth)));
        assert(lane_cell(direction, k, depth) == coord);
    }
    assert(a =~~= b);
}

} // verus!
