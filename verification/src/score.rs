//! What a board is worth: the value of a tile, the sum of all tiles, and the
//! number of free cells.

use vstd::prelude::*;
use vstd::arithmetic::power2::{lemma2_to64, lemma_pow2_strictly_increases, lemma_pow2_unfold, pow2};
use crate::board::{
    at, board, has_headroom, lemma_board_well_formed, put, well_formed, Board, Coord, Grid, IVal,
    UVal, DIM,
};

verus! {

/// Number of cells of the board.
pub const CELLS: usize = 16;

/// The value a cell shows: nothing for a free cell, `2^v` for the tile `v`.
pub open spec fn tile_value(v: UVal) -> nat {
    if v == 0 {
        0
    } else {
        pow2(v as nat)
    }
}

/// What a cell counts for among the free cells: 1 if it is free.
pub open spec fn free_weight(v: UVal) -> nat {
    if v == 0 {
        1
    } else {
        0
    }
}

/// The `i`-th cell of the board in scan order: `y` by `y`, and along `x` within
/// one `y`.
pub open spec fn scan_cell(i: int) -> Coord {
    Coord { x: (i % DIM as int) as IVal, y: (i / DIM as int) as IVal }
}

/// The place of `coord` in scan order.
pub open spec fn scan_index(coord: Coord) -> int {
    coord.y * DIM + coord.x
}

/// The sum of `weight` over the first `n` cells in scan order.
pub open spec fn total(board: Board, weight: spec_fn(UVal) -> nat, n: nat) -> nat
    decreases n,
{
    if n == 0 {
        0
    } else {
        total(board, weight, (n - 1) as nat) + weight(at(board, scan_cell(n - 1)))
    }
}

/// The sum of the values of all tiles of the board.
pub open spec fn mass(board: Board) -> nat {
    total(board, |v: UVal| tile_value(v), CELLS as nat)
}

/// The number of free cells of the board.
pub open spec fn free_count(board: Board) -> nat {
    total(board, |v: UVal| free_weight(v), CELLS as nat)
}

/// Two equal tiles are worth as much as the one tile they merge into.
pub proof fn lemma_merge_conserves_value(v: UVal)
    requires
        0 < v < UVal::MAX,
    ensures
        tile_value(v) + tile_value(v) == tile_value((v + 1) as UVal),
{
    lemma_pow2_unfold((v + 1) as nat);
}

/// A new tile is worth 2.
pub proof fn lemma_new_tile_value()
    ensures
        tile_value(1) == 2,
{
    lemma2_to64();
}

/// Writing a cell changes a sum over the first `n` cells by the difference of
/// the two weights, if the cell is among them.
pub proof fn lemma_total_put(board: Board, weight: spec_fn(UVal) -> nat, coord: Coord, val: UVal, n: nat)
    requires
        well_formed(board),
        coord.is_on_board(),
        n <= CELLS,
    ensures
        total(put(board, coord, val), weight, n) == (if scan_index(coord) < n {
            total(board, weight, n) - weight(at(board, coord)) + weight(val)
        } else {
            total(board, weight, n) as int
        }),
        scan_index(coord) < n ==> total(board, weight, n) >= weight(at(board, coord)),
    decreases n,
{
    if n > 0 {
        lemma_total_put(board, weight, coord, val, (n - 1) as nat);
        let c = scan_cell(n - 1);
        assert(c == coord <==> scan_index(coord) == n - 1);
        assert(at(put(board, coord, val), c) == (if c == coord {
            val
        } else {
            at(board, c)
        }));
    }
}

/// Writing a cell changes the sum of the tiles by the difference of the two values.
pub proof fn lemma_mass_put(board: Board, coord: Coord, val: UVal)
    requires
        well_formed(board),
        coord.is_on_board(),
    ensures
        mass(put(board, coord, val)) == mass(board) - tile_value(at(board, coord)) + tile_value(val),
        mass(board) >= tile_value(at(board, coord)),
{
    lemma_total_put(board, |v: UVal| tile_value(v), coord, val, CELLS as nat);
}

/// Writing a cell changes the number of free cells by one where it fills a free
/// cell or frees a filled one.
pub proof fn lemma_free_count_put(board: Board, coord: Coord, val: UVal)
    requires
        well_formed(board),
        coord.is_on_board(),
    ensures
        free_count(put(board, coord, val)) == free_count(board) - free_weight(at(board, coord))
            + free_weight(val),
        free_count(board) >= free_weight(at(board, coord)),
{
    lemma_total_put(board, |v: UVal| free_weight(v), coord, val, CELLS as nat);
}

/// A tile whose value fits in 32 bits has an exponent below 32.
pub proof fn lemma_small_value_small_tile(v: UVal)
    requires
        tile_value(v) <= u32::MAX,
    ensures
        v < 32,
{
    if v >= 32 {
        lemma2_to64();
        if v > 32 {
            lemma_pow2_strictly_increases(32, v as nat);
        }
    }
}

/// The value of the tile `v`, 0 for a free cell.
pub fn tile_score(v: UVal) -> (value: u32)
    requires
        v < 32,
    ensures
        value == tile_value(v),
{
    if v == 0 {
        0
    } else {
        proof {
            lemma_pow2_strictly_increases(v as nat, 32);
            lemma2_to64();
            vstd::bits::lemma_u32_shl_is_mul(1u32, v as u32);
        }
        1u32 << (v as u32)
    }
}

/// What a cell shows: nothing where it is free, else the value of its tile.
pub fn shown_tile(v: UVal) -> (shown: Option<u16>)
    requires
        v < 16,
    ensures
        shown == (if v == 0 {
            None
        } else {
            Some(tile_value(v) as u16)
        }),
        tile_value(v) <= u16::MAX,
{
    if v == 0 {
        None
    } else {
        proof {
            lemma_pow2_strictly_increases(v as nat, 16);
            lemma2_to64();
        }
        Some(tile_score(v) as u16)
    }
}

/// The score of a board: the sum of the values of its tiles.
pub fn score(grid: &Grid) -> (sum: u32)
    requires
        mass(board(*grid)) <= u32::MAX,
    ensures
        sum == mass(board(*grid)),
{
    let mut sum: u32 = 0;
    let mut y: usize = 0;
    while y < DIM
        invariant
            y <= DIM,
            sum == total(board(*grid), |v: UVal| tile_value(v), (y * DIM) as nat),
            mass(board(*grid)) <= u32::MAX,
        decreases DIM - y,
    {
        let mut x: usize = 0;
        while x < DIM
            invariant
                y < DIM,
                x <= DIM,
                sum == total(board(*grid), |v: UVal| tile_value(v), (y * DIM + x) as nat),
                mass(board(*grid)) <= u32::MAX,
            decreases DIM - x,
        {
            let v = grid[x][y];
            proof {
                let n = (y * DIM + x) as nat;
                assert(scan_cell(n as int) == Coord { x: x as IVal, y: y as IVal });
                lemma_total_grows(board(*grid), |v: UVal| tile_value(v), n + 1, CELLS as nat);
                assert(total(board(*grid), |v: UVal| tile_value(v), n + 1) == sum + tile_value(v));
                lemma_small_value_small_tile(v);
            }
            sum = sum + tile_score(v);
            x += 1;
        }
        y += 1;
    }
    sum
}

/// Whether the score still fits its type once one more tile has appeared.
/// Where it does, every tile is far below the largest value a cell can hold.
pub fn has_room_for_new_tile(grid: &Grid) -> (ok: bool)
    ensures
        ok == (mass(board(*grid)) + 2 <= u32::MAX),
        ok ==> has_headroom(board(*grid)),
{
    let mut sum: u64 = 0;
    let mut y: usize = 0;
    proof {
        lemma_board_well_formed(*grid);
    }
    while y < DIM
        invariant
            y <= DIM,
            well_formed(board(*grid)),
            sum == total(board(*grid), |v: UVal| tile_value(v), (y * DIM) as nat),
            sum <= (y * DIM) * 0x8000_0000,
        decreases DIM - y,
    {
        let mut x: usize = 0;
        while x < DIM
            invariant
                y < DIM,
                x <= DIM,
                well_formed(board(*grid)),
                sum == total(board(*grid), |v: UVal| tile_value(v), (y * DIM + x) as nat),
                sum <= (y * DIM + x) * 0x8000_0000,
            decreases DIM - x,
        {
            let v: UVal = grid[x][y];
            proof {
                assert(scan_cell((y * DIM + x) as int) == Coord { x: x as IVal, y: y as IVal });
            }
            if v >= 32 {
                proof {
                    lemma_mass_put(board(*grid), Coord { x: x as IVal, y: y as IVal }, 0);
                    lemma2_to64();
                    if v > 32 {
                        lemma_pow2_strictly_increases(32, v as nat);
                    }
                }
                return false;
            }
            proof {
                lemma_pow2_strictly_increases(v as nat, 32);
                lemma2_to64();
            }
            sum = sum + tile_score(v) as u64;
            x += 1;
        }
        y += 1;
    }
    proof {
        if sum + 2 <= u32::MAX {
            assert forall|x: int, y: int| 0 <= x < DIM && 0 <= y < DIM implies #[trigger] board(
                *grid,
            )[x][y] < UVal::MAX by {
                let coord = Coord { x: x as IVal, y: y as IVal };
                lemma_mass_put(board(*grid), coord, 0);
                lemma_small_value_small_tile(at(board(*grid), coord));
            }
        }
    }
    sum + 2 <= u32::MAX as u64
}

/// A sum over more cells is no smaller.
pub proof fn lemma_total_grows(board: Board, weight: spec_fn(UVal) -> nat, n: nat, m: nat)
    requires
        n <= m,
    ensures
        total(board, weight, n) <= total(board, weight, m),
    decreases m,
{
    if n < m {
        lemma_total_grows(board, weight, n, (m - 1) as nat);
    }
}

} // verus!
