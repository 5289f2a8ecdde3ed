//! The spawner: finds the free cells of the board and puts new tiles on some of
//! them, chosen at random.

use vstd::prelude::*;
use rand::rngs::StdRng;
use rand::seq::SliceRandom;
use crate::board::{
    at, board, get_val, lemma_board_well_formed, put, put_val, well_formed, Board, Coord, Grid,
    IVal, UVal, DIM,
};
use crate::lane::lemma_put_well_formed;
use crate::score::{
    free_count, free_weight, lemma_free_count_put, lemma_mass_put, lemma_new_tile_value, mass,
    scan_cell, scan_index, total, CELLS,
};

verus! {

/// The random number generator that the spawner draws from.
#[verifier::external_type_specification]
#[verifier::external_body]
pub struct ExStdRng(rand::rngs::StdRng);

/// The value of a new tile: the smallest tile there is.
pub const NEW_TILE: UVal = 1;

/// All cells of the board in scan order.
pub open spec fn scan_order() -> Seq<Coord> {
    Seq::new(CELLS as nat, |i: int| scan_cell(i))
}

/// The test for a cell of `board` to be free.
pub open spec fn is_free(board: Board) -> spec_fn(Coord) -> bool {
    |coord: Coord| at(board, coord) == 0
}

/// The free cells among the first `n` cells in scan order, in that order.
pub open spec fn free_cells_upto(board: Board, n: int) -> Seq<Coord> {
    scan_order().take(n).filter(is_free(board))
}

/// The free cells of the board, in scan order.
pub open spec fn free_cells(board: Board) -> Seq<Coord> {
    scan_order().filter(is_free(board))
}

/// `chosen` lists the options at the places `picks`, and no place twice.
pub open spec fn is_picking(options: Seq<Coord>, picks: Seq<int>, chosen: Seq<Coord>) -> bool {
    &&& picks.len() == chosen.len()
    &&& picks.no_duplicates()
    &&& forall|i: int|
        0 <= i < picks.len() ==> 0 <= #[trigger] picks[i] < options.len() && chosen[i]
            == options[picks[i]]
}

/// How many of `available` options a request for `amount` of them gets: all that
/// it asks for, or all that there are.
pub open spec fn granted(available: nat, amount: nat) -> nat {
    if amount <= available {
        amount
    } else {
        available
    }
}

/// `chosen` is a choice of `amount` of the options, or of all of them where
/// there are fewer: options at different places, in any order.
pub open spec fn is_selection(options: Seq<Coord>, amount: nat, chosen: Seq<Coord>) -> bool {
    &&& chosen.len() == granted(options.len(), amount)
    &&& exists|picks: Seq<int>| is_picking(options, picks, chosen)
}

/// The board with a new tile on each of `cells` and every other cell as it was.
pub open spec fn with_new_tiles(board: Board, cells: Seq<Coord>) -> Board {
    Seq::new(
        DIM as nat,
        |x: int|
            Seq::new(
                DIM as nat,
                |y: int|
                    if cells.contains(Coord { x: x as IVal, y: y as IVal }) {
                        NEW_TILE
                    } else {
                        board[x][y]
                    },
            ),
    )
}

/// The free cells among one more cell are those before, and that cell if it is free.
pub proof fn lemma_free_cells_step(board: Board, n: int)
    requires
        0 <= n < CELLS,
    ensures
        free_cells_upto(board, n + 1) == (if at(board, scan_cell(n)) == 0 {
            free_cells_upto(board, n).push(scan_cell(n))
        } else {
            free_cells_upto(board, n)
        }),
{
    let longer = scan_order().take(n + 1);
    reveal(Seq::filter);
    assert(longer.drop_last() =~= scan_order().take(n));
    assert(longer.last() == scan_cell(n));
}

/// What the list of the free cells among the first `n` cells holds: cells of the
/// board that are free, each once and in scan order, all of them, and as many
/// as the free cells counted.
pub proof fn lemma_free_cells_upto(board: Board, n: int)
    requires
        0 <= n <= CELLS,
    ensures
        free_cells_upto(board, n).len() == total(board, |v: UVal| free_weight(v), n as nat),
        forall|i: int|
            0 <= i < free_cells_upto(board, n).len() ==> {
                let coord = #[trigger] free_cells_upto(board, n)[i];
                coord.is_on_board() && at(board, coord) == 0 && scan_index(coord) < n
            },
        forall|i: int, j: int|
            0 <= i < j < free_cells_upto(board, n).len() ==> scan_index(
                #[trigger] free_cells_upto(board, n)[i],
            ) < scan_index(#[trigger] free_cells_upto(board, n)[j]),
        forall|coord: Coord|
            coord.is_on_board() && at(board, coord) == 0 && scan_index(coord) < n
                ==> #[trigger] free_cells_upto(board, n).contains(coord),
    decreases n,
{
    if n == 0 {
        reveal(Seq::filter);
        assert(scan_order().take(0) =~= Seq::<Coord>::empty());
    } else {
        let before = free_cells_upto(board, n - 1);
        let now = free_cells_upto(board, n);
        let cell = scan_cell(n - 1);
        lemma_free_cells_upto(board, n - 1);
        lemma_free_cells_step(board, n - 1);
        assert(cell.is_on_board() && scan_index(cell) == n - 1);
        assert forall|coord: Coord|
            coord.is_on_board() && at(board, coord) == 0 && scan_index(coord) < n implies #[trigger] now.contains(
            coord,
        ) by {
            if scan_index(coord) < n - 1 {
                assert(before.contains(coord));
                let i = choose|i: int| 0 <= i < before.len() && before[i] == coord;
                assert(now[i] == coord);
            } else {
                assert(coord == cell);
                assert(now[now.len() - 1] == coord);
            }
        }
    }
}

/// What the list of the free cells holds: the cells of the board that are free,
/// each once, and as many as the free cells counted.
pub proof fn lemma_free_cells(board: Board)
    ensures
        free_cells(board).len() == free_count(board),
        free_cells(board).no_duplicates(),
        forall|i: int|
            0 <= i < free_cells(board).len() ==> (#[trigger] free_cells(board)[i]).is_on_board()
                && at(board, free_cells(board)[i]) == 0,
        forall|coord: Coord|
            coord.is_on_board() && at(board, coord) == 0 ==> #[trigger] free_cells(board).contains(
                coord,
            ),
{
    assert(scan_order().take(CELLS as int) =~= scan_order());
    lemma_free_cells_upto(board, CELLS as int);
}

/// A choice among the free cells holds cells of the board that are free, each once.
pub proof fn lemma_selection_of_free_cells(board: Board, amount: nat, chosen: Seq<Coord>)
    requires
        is_selection(free_cells(board), amount, chosen),
    ensures
        chosen.len() == granted(free_count(board), amount),
        chosen.no_duplicates(),
        forall|i: int|
            0 <= i < chosen.len() ==> (#[trigger] chosen[i]).is_on_board() && at(board, chosen[i])
                == 0,
{
    let options = free_cells(board);
    lemma_free_cells(board);
    let picks = choose|picks: Seq<int>| is_picking(options, picks, chosen);
    assert forall|i: int| 0 <= i < chosen.len() implies (#[trigger] chosen[i]).is_on_board() && at(
        board,
        chosen[i],
    ) == 0 by {
        assert(chosen[i] == options[picks[i]]);
    }
    assert forall|i: int, j: int| 0 <= i < chosen.len() && 0 <= j < chosen.len() && i != j implies chosen[i]
        != chosen[j] by {
        assert(chosen[i] == options[picks[i]]);
        assert(chosen[j] == options[picks[j]]);
        assert(picks[i] != picks[j]);
    }
}

/// One more new tile is one more cell written.
pub proof fn lemma_new_tiles_step(board: Board, cells: Seq<Coord>, n: int)
    requires
        well_formed(board),
        0 <= n < cells.len(),
        cells[n].is_on_board(),
    ensures
        with_new_tiles(board, cells.take(n + 1)) == put(
            with_new_tiles(board, cells.take(n)),
            cells[n],
            NEW_TILE,
        ),
{
    let before = cells.take(n);
    let now = cells.take(n + 1);
    assert forall|coord: Coord| now.contains(coord) == (before.contains(coord) || coord
        == cells[n]) by {
        if before.contains(coord) {
            let i = choose|i: int| 0 <= i < before.len() && before[i] == coord;
            assert(now[i] == coord);
        }
        if coord == cells[n] {
            assert(now[n] == coord);
        }
        if now.contains(coord) {
            let i = choose|i: int| 0 <= i < now.len() && now[i] == coord;
            if i < n {
                assert(before[i] == coord);
            }
        }
    }
    assert(with_new_tiles(board, now) =~~= put(with_new_tiles(board, before), cells[n], NEW_TILE));
}

/// New tiles on `n` different free cells leave `n` fewer cells free and raise the
/// sum of the tiles by 2 each.
pub proof fn lemma_new_tiles_count(board: Board, cells: Seq<Coord>, n: int)
    requires
        well_formed(board),
        0 <= n <= cells.len(),
        cells.no_duplicates(),
        forall|i: int|
            0 <= i < cells.len() ==> (#[trigger] cells[i]).is_on_board() && at(board, cells[i])
                == 0,
    ensures
        well_formed(with_new_tiles(board, cells.take(n))),
        free_count(with_new_tiles(board, cells.take(n))) == free_count(board) - n,
        mass(with_new_tiles(board, cells.take(n))) == mass(board) + 2 * n,
    decreases n,
{
    if n == 0 {
        assert(cells.take(0) =~= Seq::<Coord>::empty());
        assert(with_new_tiles(board, cells.take(0)) =~~= board);
    } else {
        let before = with_new_tiles(board, cells.take(n - 1));
        let cell = cells[n - 1];
        lemma_new_tiles_count(board, cells, n - 1);
        lemma_new_tiles_step(board, cells, n - 1);
        let prior = cells.take(n - 1);
        assert(!prior.contains(cell)) by {
            if prior.contains(cell) {
                let i = choose|i: int| 0 <= i < prior.len() && prior[i] == cell;
                assert(cells[i] == cells[n - 1]);
            }
        }
        assert(at(before, cell) == 0);
        lemma_put_well_formed(before, cell, NEW_TILE);
        lemma_free_count_put(before, cell, NEW_TILE);
        lemma_mass_put(before, cell, NEW_TILE);
        lemma_new_tile_value();
    }
}

/// New tiles change no cell that is not free, and put the smallest tile where
/// they change one.
pub proof fn lemma_new_tiles_only_on_free_cells(board: Board, cells: Seq<Coord>)
    requires
        well_formed(board),
        forall|i: int| 0 <= i < cells.len() ==> at(board, #[trigger] cells[i]) == 0,
    ensures
        forall|x: int, y: int|
            0 <= x < DIM && 0 <= y < DIM ==> #[trigger] with_new_tiles(board, cells)[x][y]
                == board[x][y] || (board[x][y] == 0 && with_new_tiles(board, cells)[x][y]
                == NEW_TILE),
{
    assert forall|x: int, y: int| 0 <= x < DIM && 0 <= y < DIM implies #[trigger] with_new_tiles(
        board,
        cells,
    )[x][y] == board[x][y] || (board[x][y] == 0 && with_new_tiles(board, cells)[x][y]
        == NEW_TILE) by {
        let coord = Coord { x: x as IVal, y: y as IVal };
        if cells.contains(coord) {
            let i = choose|i: int| 0 <= i < cells.len() && cells[i] == coord;
            assert(at(board, cells[i]) == 0);
        }
    }
}

/// Lists the free cells of the board, `y` by `y` and along `x` within one `y`.
pub fn get_empty_coords(grid: &Grid) -> (coords: Vec<Coord>)
    ensures
        coords@ == free_cells(board(*grid)),
        coords@.len() == free_count(board(*grid)),
{
    let mut coords: Vec<Coord> = Vec::new();
    let mut y: usize = 0;
    proof {
        lemma_free_cells_upto(board(*grid), 0);
        assert(coords@ =~= free_cells_upto(board(*grid), 0));
    }
    while y < DIM
        invariant
            y <= DIM,
            coords@ == free_cells_upto(board(*grid), (y * DIM) as int),
        decreases DIM - y,
    {
        let mut x: usize = 0;
        while x < DIM
            invariant
                y < DIM,
                x <= DIM,
                coords@ == free_cells_upto(board(*grid), (y * DIM + x) as int),
            decreases DIM - x,
        {
            let coord = Coord { x: x as IVal, y: y as IVal };
            proof {
                assert(scan_cell((y * DIM + x) as int) == coord);
                lemma_free_cells_step(board(*grid), (y * DIM + x) as int);
            }
            if get_val(grid, &coord) == 0 {
                coords.push(coord);
            }
            x += 1;
        }
        y += 1;
    }
    proof {
        assert(scan_order().take(CELLS as int) =~= scan_order());
        lemma_free_cells(board(*grid));
    }
    coords
}

/// Calls `SliceRandom::choose_multiple` of rand on the options and collects
/// what it yields. That method picks `amount` places of the slice, or all of
/// them where the slice is shorter, no place twice, and yields the items at
/// those places in the order in which it picked them. Which places it picks
/// depends on the generator and is not stated.
#[verifier::external_body]
fn choose_cells(options: &Vec<Coord>, amount: usize, gen: &mut StdRng) -> (chosen: Vec<Coord>)
    ensures
        is_selection(options@, amount as nat, chosen@),
{
    options.choose_multiple(gen, amount).cloned().collect()
}

/// Puts a new tile on each of `cells`.
pub fn place_new_cells(grid: &mut Grid, cells: &Vec<Coord>)
    requires
        forall|i: int| 0 <= i < cells.len() ==> (#[trigger] cells[i]).is_on_board(),
    ensures
        board(*final(grid)) == with_new_tiles(board(*old(grid)), cells@),
{
    let ghost start = board(*grid);
    let mut n: usize = 0;
    proof {
        lemma_board_well_formed(*grid);
        assert(cells@.take(0) =~= Seq::<Coord>::empty());
        assert(board(*grid) =~~= with_new_tiles(start, cells@.take(0)));
    }
    while n < cells.len()
        invariant
            n <= cells.len(),
            well_formed(start),
            forall|i: int| 0 <= i < cells.len() ==> (#[trigger] cells[i]).is_on_board(),
            board(*grid) == with_new_tiles(start, cells@.take(n as int)),
        decreases cells.len() - n,
    {
        proof {
            lemma_new_tiles_step(start, cells@, n as int);
        }
        put_val(grid, &cells[n], NEW_TILE);
        n += 1;
    }
    proof {
        assert(cells@.take(cells.len() as int) =~= cells@);
    }
}

/// Puts new tiles on `num` free cells chosen at random, or on all free cells
/// where there are fewer.
pub fn add_new_cells(grid: &mut Grid, num: usize, gen: &mut StdRng)
    ensures
        exists|chosen: Seq<Coord>|
            is_selection(free_cells(board(*old(grid))), num as nat, chosen) && board(*final(grid))
                == with_new_tiles(board(*old(grid)), chosen),
        forall|x: int, y: int|
            0 <= x < DIM && 0 <= y < DIM ==> #[trigger] board(*final(grid))[x][y] == board(
                *old(grid),
            )[x][y] || (board(*old(grid))[x][y] == 0 && board(*final(grid))[x][y] == NEW_TILE),
        free_count(board(*final(grid))) == free_count(board(*old(grid))) - granted(
            free_count(board(*old(grid))),
            num as nat,
        ),
        mass(board(*final(grid))) == mass(board(*old(grid))) + 2 * granted(
            free_count(board(*old(grid))),
            num as nat,
        ),
{
    let options = get_empty_coords(grid);
    let chosen = choose_cells(&options, num, gen);
    proof {
        let start = board(*grid);
        lemma_board_well_formed(*grid);
        lemma_selection_of_free_cells(start, num as nat, chosen@);
        lemma_new_tiles_count(start, chosen@, chosen@.len() as int);
        lemma_new_tiles_only_on_free_cells(start, chosen@);
        assert(chosen@.take(chosen@.len() as int) =~= chosen@);
    }
    place_new_cells(grid, &chosen);
}

/// A board for a new game: all cells free but two, which hold a new tile each.
pub fn init_grid(gen: &mut StdRng) -> (grid: Grid)
    ensures
        exists|chosen: Seq<Coord>|
            is_selection(scan_order(), 2, chosen) && board(grid) == with_new_tiles(
                empty_board(),
                chosen,
            ),
        free_count(board(grid)) == CELLS - 2,
        mass(board(grid)) == 4,
{
    let mut grid: Grid = [[0; 4]; 4];
    proof {
        assert(board(grid) =~~= empty_board());
        lemma_empty_board();
    }
    add_new_cells(&mut grid, 2, gen);
    grid
}

/// The board with all cells free.
pub open spec fn empty_board() -> Board {
    Seq::new(DIM as nat, |x: int| Seq::new(DIM as nat, |y: int| 0u8))
}

/// On the board with all cells free, every cell is free and there are no tiles
/// to sum.
pub proof fn lemma_empty_board()
    ensures
        free_cells(empty_board()) == scan_order(),
        free_count(empty_board()) == CELLS,
        mass(empty_board()) == 0,
{
    lemma_all_free(CELLS as int);
    assert(scan_order().take(CELLS as int) =~= scan_order());
    lemma_free_cells(empty_board());
    lemma_no_tiles(CELLS as nat);
}

/// On the board with all cells free, the free cells among the first `n` are
/// those `n` cells.
proof fn lemma_all_free(n: int)
    requires
        0 <= n <= CELLS,
    ensures
        free_cells_upto(empty_board(), n) == scan_order().take(n),
    decreases n,
{
    if n == 0 {
        reveal(Seq::filter);
        assert(scan_order().take(0) =~= Seq::<Coord>::empty());
    } else {
        lemma_all_free(n - 1);
        lemma_free_cells_step(empty_board(), n - 1);
        assert(scan_cell(n - 1).is_on_board());
        assert(scan_order().take(n) =~= scan_order().take(n - 1).push(scan_cell(n - 1)));
    }
}

/// The tiles of the board with all cells free sum to nothing.
proof fn lemma_no_tiles(n: nat)
    requires
        n <= CELLS,
    ensures
        total(empty_board(), |v: UVal| crate::score::tile_value(v), n) == 0,
    decreases n,
{
    if n > 0 {
        lemma_no_tiles((n - 1) as nat);
        assert(scan_cell(n - 1).is_on_board());
    }
}

} // verus!
