//! The board: cell values, coordinates, directions, the two cell accessors, and
//! the mathematical model of a board that the contracts of this crate speak of.

use vstd::prelude::*;

verus! {

/// Side length of the square board.
pub const DIM: usize = 4;

/// A cell holds an exponent: 0 is a free cell, `v > 0` is the tile `2^v`.
pub type UVal = u8;

/// A coordinate component; signed, so that a step off the board can be represented.
pub type IVal = i8;

/// The board, indexed first by `x`, then by `y`.
pub type Grid = [[UVal; DIM]; DIM];

/// The model of a board: `DIM` columns of `DIM` cells, read as `board[x][y]`.
pub type Board = Seq<Seq<UVal>>;

/// The four directions a move can take.
#[derive(Clone, Copy, Debug, PartialEq, Eq, Structural)]
pub enum Direction {
    Up,
    Down,
    Left,
    Right,
}

/// A position, possibly off the board.
#[derive(Clone, Copy, Debug, PartialEq, Eq, Structural)]
pub struct Coord {
    pub x: IVal,
    pub y: IVal,
}

impl Coord {
    /// Both components lie in `0..DIM`.
    pub open spec fn is_on_board(&self) -> bool {
        0 <= self.x < DIM && 0 <= self.y < DIM
    }

    /// The step in `direction` stays within the range of a coordinate component.
    pub open spec fn can_step(self, direction: Direction) -> bool {
        match direction {
            Direction::Up => self.y > IVal::MIN,
            Direction::Down => self.y < IVal::MAX,
            Direction::Left => self.x > IVal::MIN,
            Direction::Right => self.x < IVal::MAX,
        }
    }

    /// The position one step away: up and down change `y`, left and right change
    /// `x`, up and left toward smaller values.
    pub open spec fn next_to(self, direction: Direction) -> Coord {
        match direction {
            Direction::Up => Coord { x: self.x, y: (self.y - 1) as IVal },
            Direction::Down => Coord { x: self.x, y: (self.y + 1) as IVal },
            Direction::Left => Coord { x: (self.x - 1) as IVal, y: self.y },
            Direction::Right => Coord { x: (self.x + 1) as IVal, y: self.y },
        }
    }

    /// Whether the position is a cell of the board.
    #[verifier::when_used_as_spec(is_on_board)]
    pub fn on_board(self: &Self) -> (on: bool)
        ensures
            on == self.is_on_board(),
    {
        self.x >= 0 && self.x < DIM as IVal && self.y >= 0 && self.y < DIM as IVal
    }

    /// The adjacent position in `direction`, which may lie off the board.
    pub fn neighbor(self: &Self, direction: &Direction) -> (next: Coord)
        requires
            self.can_step(*direction),
        ensures
            next == self.next_to(*direction),
    {
        match direction {
            Direction::Up => Coord { x: self.x, y: self.y - 1 },
            Direction::Down => Coord { x: self.x, y: self.y + 1 },
            Direction::Left => Coord { x: self.x - 1, y: self.y },
            Direction::Right => Coord { x: self.x + 1, y: self.y },
        }
    }
}

/// The model of `grid`.
pub open spec fn board(grid: Grid) -> Board {
    Seq::new(DIM as nat, |x: int| Seq::new(DIM as nat, |y: int| grid[x][y]))
}

/// `board` has the shape of a board.
pub open spec fn well_formed(board: Board) -> bool {
    &&& board.len() == DIM
    &&& forall|x: int| 0 <= x < DIM ==> (#[trigger] board[x]).len() == DIM
}

/// The value of the cell at `coord`.
pub open spec fn at(board: Board, coord: Coord) -> UVal {
    board[coord.x as int][coord.y as int]
}

/// The board with `val` in the cell at `coord` and every other cell as in `board`.
pub open spec fn put(board: Board, coord: Coord, val: UVal) -> Board {
    board.update(coord.x as int, board[coord.x as int].update(coord.y as int, val))
}

/// Every cell is below the largest value a cell can hold, so that a merge of two
/// tiles of the board still fits in a cell.
pub open spec fn has_headroom(board: Board) -> bool {
    forall|x: int, y: int| 0 <= x < DIM && 0 <= y < DIM ==> #[trigger] board[x][y] < UVal::MAX
}

/// The model of a grid has the shape of a board.
pub proof fn lemma_board_well_formed(grid: Grid)
    ensures
        well_formed(board(grid)),
{
}

/// Reads the cell at `coord`.
pub fn get_val(grid: &Grid, coord: &Coord) -> (val: UVal)
    requires
        coord.is_on_board(),
    ensures
        val == at(board(*grid), *coord),
{
    grid[coord.x as usize][coord.y as usize]
}

/// Writes `val` into the cell at `coord` and leaves every other cell as it was.
pub fn put_val(grid: &mut Grid, coord: &Coord, val: UVal)
    requires
        coord.is_on_board(),
    ensures
        board(*final(grid)) == put(board(*old(grid)), *coord, val),
{
    grid[coord.x as usize][coord.y as usize] = val;
    assert(board(*grid) =~~= put(board(*old(grid)), *coord, val));
}

} // verus!
