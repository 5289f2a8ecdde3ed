use nano_2048::board::{Coord, Direction, Grid};
use nano_2048::merge::{merge_ability, merge_cells, MoveResult};
use nano_2048::score::score;

fn lane_along_x(cells: [u8; 4], y: usize) -> Grid {
    let mut grid: Grid = [[0; 4]; 4];
    for x in 0..4 {
        grid[x][y] = cells[x];
    }
    grid
}

fn cells_along_x(grid: &Grid, y: usize) -> [u8; 4] {
    [grid[0][y], grid[1][y], grid[2][y], grid[3][y]]
}

#[test]
fn free_mover_has_no_effect() {
    assert_eq!(merge_ability(0, 0), MoveResult::NoEffect);
    assert_eq!(merge_ability(0, 3), MoveResult::NoEffect);
}

#[test]
fn free_target_lets_the_mover_through() {
    assert_eq!(merge_ability(1, 0), MoveResult::Through);
    assert_eq!(merge_ability(200, 0), MoveResult::Through);
}

#[test]
fn equal_tiles_merge() {
    assert_eq!(merge_ability(1, 1), MoveResult::Merged);
    assert_eq!(merge_ability(11, 11), MoveResult::Merged);
}

#[test]
fn different_tiles_block() {
    assert_eq!(merge_ability(1, 2), MoveResult::Blocked);
    assert_eq!(merge_ability(2, 1), MoveResult::Blocked);
}

#[test]
fn mover_off_board_changes_nothing() {
    let mut grid = lane_along_x([1, 1, 0, 0], 0);
    let before = grid;
    let occurred = merge_cells(
        &mut grid,
        Coord { x: -1, y: 0 },
        Coord { x: 0, y: 0 },
        &Direction::Right,
    );
    assert!(!occurred);
    assert_eq!(grid, before);
}

#[test]
fn target_off_board_changes_nothing() {
    let mut grid = lane_along_x([1, 1, 0, 0], 0);
    let before = grid;
    let occurred = merge_cells(
        &mut grid,
        Coord { x: 0, y: 0 },
        Coord { x: -1, y: 0 },
        &Direction::Left,
    );
    assert!(!occurred);
    assert_eq!(grid, before);
}

#[test]
fn free_mover_changes_nothing() {
    let mut grid = lane_along_x([2, 0, 0, 0], 1);
    let before = grid;
    let occurred = merge_cells(
        &mut grid,
        Coord { x: 1, y: 1 },
        Coord { x: 0, y: 1 },
        &Direction::Left,
    );
    assert!(!occurred);
    assert_eq!(grid, before);
}

#[test]
fn blocked_mover_changes_nothing() {
    let mut grid = lane_along_x([2, 1, 0, 0], 1);
    let before = grid;
    let occurred = merge_cells(
        &mut grid,
        Coord { x: 1, y: 1 },
        Coord { x: 0, y: 1 },
        &Direction::Left,
    );
    assert!(!occurred);
    assert_eq!(grid, before);
}

#[test]
fn merge_raises_the_target_and_clears_the_mover() {
    let mut grid = lane_along_x([3, 3, 0, 0], 2);
    let occurred = merge_cells(
        &mut grid,
        Coord { x: 1, y: 2 },
        Coord { x: 0, y: 2 },
        &Direction::Left,
    );
    assert!(occurred);
    assert_eq!(cells_along_x(&grid, 2), [4, 0, 0, 0]);
}

#[test]
fn merge_keeps_the_sum_of_the_tiles() {
    let mut grid = lane_along_x([3, 3, 5, 0], 2);
    let before = score(&grid);
    assert_eq!(before, 8 + 8 + 32);
    merge_cells(
        &mut grid,
        Coord { x: 1, y: 2 },
        Coord { x: 0, y: 2 },
        &Direction::Left,
    );
    assert_eq!(score(&grid), before);
}

#[test]
fn tile_slides_over_all_free_cells() {
    let mut grid = lane_along_x([0, 0, 0, 2], 0);
    let occurred = merge_cells(
        &mut grid,
        Coord { x: 3, y: 0 },
        Coord { x: 2, y: 0 },
        &Direction::Left,
    );
    assert!(occurred);
    assert_eq!(cells_along_x(&grid, 0), [2, 0, 0, 0]);
}

#[test]
fn sliding_tile_stops_at_a_different_tile() {
    let mut grid = lane_along_x([5, 0, 0, 2], 3);
    let occurred = merge_cells(
        &mut grid,
        Coord { x: 3, y: 3 },
        Coord { x: 2, y: 3 },
        &Direction::Left,
    );
    assert!(occurred);
    assert_eq!(cells_along_x(&grid, 3), [5, 2, 0, 0]);
}

#[test]
fn sliding_tile_merges_into_an_equal_tile() {
    let mut grid = lane_along_x([2, 0, 0, 2], 3);
    let occurred = merge_cells(
        &mut grid,
        Coord { x: 3, y: 3 },
        Coord { x: 2, y: 3 },
        &Direction::Left,
    );
    assert!(occurred);
    assert_eq!(cells_along_x(&grid, 3), [3, 0, 0, 0]);
}

#[test]
fn merged_tile_does_not_travel_on() {
    let mut grid = lane_along_x([0, 1, 1, 0], 0);
    let occurred = merge_cells(
        &mut grid,
        Coord { x: 2, y: 0 },
        Coord { x: 1, y: 0 },
        &Direction::Left,
    );
    assert!(occurred);
    assert_eq!(cells_along_x(&grid, 0), [0, 2, 0, 0]);
}

#[test]
fn slide_leaves_the_other_lanes_alone() {
    let mut grid = lane_along_x([0, 0, 0, 2], 1);
    grid[0][0] = 4;
    grid[3][2] = 6;
    merge_cells(
        &mut grid,
        Coord { x: 3, y: 1 },
        Coord { x: 2, y: 1 },
        &Direction::Left,
    );
    assert_eq!(cells_along_x(&grid, 0), [4, 0, 0, 0]);
    assert_eq!(cells_along_x(&grid, 1), [2, 0, 0, 0]);
    assert_eq!(cells_along_x(&grid, 2), [0, 0, 0, 6]);
    assert_eq!(cells_along_x(&grid, 3), [0, 0, 0, 0]);
}

#[test]
fn tile_travels_on_in_the_given_direction_from_a_target_anywhere() {
    let mut grid: Grid = [[0; 4]; 4];
    grid[0][0] = 3;
    let occurred = merge_cells(
        &mut grid,
        Coord { x: 0, y: 0 },
        Coord { x: 2, y: 1 },
        &Direction::Down,
    );
    assert!(occurred);
    let mut expected: Grid = [[0; 4]; 4];
    expected[2][3] = 3;
    assert_eq!(grid, expected);
}

#[test]
fn slide_down_and_right_travel_toward_larger_coordinates() {
    let mut grid: Grid = [[0; 4]; 4];
    grid[1][0] = 2;
    let occurred = merge_cells(
        &mut grid,
        Coord { x: 1, y: 0 },
        Coord { x: 1, y: 1 },
        &Direction::Down,
    );
    assert!(occurred);
    assert_eq!(grid[1], [0, 0, 0, 2]);

    let mut grid = lane_along_x([2, 0, 0, 0], 2);
    let occurred = merge_cells(
        &mut grid,
        Coord { x: 0, y: 2 },
        Coord { x: 1, y: 2 },
        &Direction::Right,
    );
    assert!(occurred);
    assert_eq!(cells_along_x(&grid, 2), [0, 0, 0, 2]);
}
