use nano_2048::board::{Coord, Grid};
use nano_2048::score::score;
use nano_2048::spawn::{add_new_cells, get_empty_coords, init_grid, place_new_cells, NEW_TILE};
use rand::rngs::StdRng;
use rand::SeedableRng;

fn count_tiles(grid: &Grid) -> usize {
    grid.iter().flatten().filter(|&&v| v != 0).count()
}

#[test]
fn new_tile_is_the_smallest_tile() {
    assert_eq!(NEW_TILE, 1);
}

#[test]
fn empty_board_has_sixteen_free_cells_in_scan_order() {
    let grid: Grid = [[0; 4]; 4];
    let coords = get_empty_coords(&grid);
    assert_eq!(coords.len(), 16);
    let mut n = 0;
    for y in 0..4 {
        for x in 0..4 {
            assert_eq!(coords[n], Coord { x, y });
            n += 1;
        }
    }
}

#[test]
fn full_board_has_no_free_cell() {
    let grid: Grid = [[1; 4]; 4];
    assert!(get_empty_coords(&grid).is_empty());
}

#[test]
fn free_cells_are_listed_y_by_y() {
    let mut grid: Grid = [[5; 4]; 4];
    grid[3][0] = 0;
    grid[0][1] = 0;
    grid[2][1] = 0;
    grid[1][3] = 0;
    let coords = get_empty_coords(&grid);
    assert_eq!(
        coords,
        vec![
            Coord { x: 3, y: 0 },
            Coord { x: 0, y: 1 },
            Coord { x: 2, y: 1 },
            Coord { x: 1, y: 3 },
        ]
    );
}

#[test]
fn place_new_cells_puts_a_tile_on_each_cell() {
    let mut grid: Grid = [[0; 4]; 4];
    grid[2][2] = 6;
    let cells = vec![Coord { x: 0, y: 1 }, Coord { x: 3, y: 3 }];
    place_new_cells(&mut grid, &cells);
    let mut expected: Grid = [[0; 4]; 4];
    expected[2][2] = 6;
    expected[0][1] = 1;
    expected[3][3] = 1;
    assert_eq!(grid, expected);
}

#[test]
fn place_new_cells_with_no_cell_changes_nothing() {
    let mut grid: Grid = [[0, 1, 2, 3]; 4];
    let before = grid;
    place_new_cells(&mut grid, &Vec::new());
    assert_eq!(grid, before);
}

#[test]
fn one_new_tile_fills_one_free_cell() {
    let mut gen = StdRng::seed_from_u64(7);
    let mut grid: Grid = [[0; 4]; 4];
    add_new_cells(&mut grid, 1, &mut gen);
    assert_eq!(count_tiles(&grid), 1);
    assert_eq!(score(&grid), 2);
}

#[test]
fn new_tiles_appear_on_different_cells() {
    for seed in 0..50 {
        let mut gen = StdRng::seed_from_u64(seed);
        let mut grid: Grid = [[0; 4]; 4];
        add_new_cells(&mut grid, 5, &mut gen);
        assert_eq!(count_tiles(&grid), 5);
        assert_eq!(score(&grid), 10);
    }
}

#[test]
fn new_tiles_leave_the_old_tiles_alone() {
    let start: Grid = [[3, 0, 0, 2], [0, 4, 0, 0], [0, 0, 9, 0], [1, 0, 0, 7]];
    for seed in 0..50 {
        let mut gen = StdRng::seed_from_u64(seed);
        let mut grid = start;
        add_new_cells(&mut grid, 3, &mut gen);
        let mut added = 0;
        for x in 0..4 {
            for y in 0..4 {
                if start[x][y] != 0 {
                    assert_eq!(grid[x][y], start[x][y]);
                } else if grid[x][y] != 0 {
                    assert_eq!(grid[x][y], 1);
                    added += 1;
                }
            }
        }
        assert_eq!(added, 3);
        assert_eq!(score(&grid), score(&start) + 6);
    }
}

#[test]
fn asking_for_more_tiles_than_free_cells_fills_them_all() {
    let mut gen = StdRng::seed_from_u64(11);
    let mut grid: Grid = [[2; 4]; 4];
    grid[0][0] = 0;
    grid[1][2] = 0;
    grid[3][3] = 0;
    add_new_cells(&mut grid, 10, &mut gen);
    let mut expected: Grid = [[2; 4]; 4];
    expected[0][0] = 1;
    expected[1][2] = 1;
    expected[3][3] = 1;
    assert_eq!(grid, expected);
}

#[test]
fn asking_for_no_tile_changes_nothing() {
    let mut gen = StdRng::seed_from_u64(3);
    let mut grid: Grid = [[0, 4, 0, 0]; 4];
    let before = grid;
    add_new_cells(&mut grid, 0, &mut gen);
    assert_eq!(grid, before);
}

#[test]
fn full_board_gets_no_new_tile() {
    let mut gen = StdRng::seed_from_u64(3);
    let mut grid: Grid = [[4; 4]; 4];
    add_new_cells(&mut grid, 2, &mut gen);
    assert_eq!(grid, [[4; 4]; 4]);
}

#[test]
fn same_seed_gives_the_same_new_tiles() {
    let start: Grid = [[0, 0, 3, 0], [0, 0, 0, 0], [5, 0, 0, 0], [0, 0, 0, 1]];
    for seed in [0u64, 1, 42, 2048, u64::MAX] {
        let mut first = start;
        let mut second = start;
        add_new_cells(&mut first, 2, &mut StdRng::seed_from_u64(seed));
        add_new_cells(&mut second, 2, &mut StdRng::seed_from_u64(seed));
        assert_eq!(first, second);
    }
}

#[test]
fn same_seed_gives_the_same_run_of_new_tiles() {
    let mut first_gen = StdRng::seed_from_u64(99);
    let mut second_gen = StdRng::seed_from_u64(99);
    let mut first: Grid = [[0; 4]; 4];
    let mut second: Grid = [[0; 4]; 4];
    for _ in 0..16 {
        add_new_cells(&mut first, 1, &mut first_gen);
        add_new_cells(&mut second, 1, &mut second_gen);
        assert_eq!(first, second);
    }
    assert_eq!(first, [[1; 4]; 4]);
}

#[test]
fn new_game_starts_with_two_tiles() {
    for seed in 0..50 {
        let mut gen = StdRng::seed_from_u64(seed);
        let grid = init_grid(&mut gen);
        assert_eq!(count_tiles(&grid), 2);
        assert_eq!(score(&grid), 4);
        assert_eq!(get_empty_coords(&grid).len(), 14);
    }
}

#[test]
fn same_seed_starts_the_same_game() {
    let first = init_grid(&mut StdRng::seed_from_u64(5));
    let second = init_grid(&mut StdRng::seed_from_u64(5));
    assert_eq!(first, second);
}
