use nano_2048::board::{get_val, put_val, Coord, Direction, Grid, DIM};

#[test]
fn board_has_four_by_four_cells() {
    assert_eq!(DIM, 4);
    let grid: Grid = [[0; 4]; 4];
    assert_eq!(grid.len(), 4);
    assert_eq!(grid[0].len(), 4);
}

#[test]
fn corners_are_on_board() {
    assert!(Coord { x: 0, y: 0 }.on_board());
    assert!(Coord { x: 3, y: 0 }.on_board());
    assert!(Coord { x: 0, y: 3 }.on_board());
    assert!(Coord { x: 3, y: 3 }.on_board());
}

#[test]
fn positions_past_an_edge_are_off_board() {
    assert!(!Coord { x: -1, y: 0 }.on_board());
    assert!(!Coord { x: 0, y: -1 }.on_board());
    assert!(!Coord { x: 4, y: 0 }.on_board());
    assert!(!Coord { x: 0, y: 4 }.on_board());
    assert!(!Coord { x: 4, y: 4 }.on_board());
    assert!(!Coord { x: -128, y: 127 }.on_board());
}

#[test]
fn every_cell_is_on_board() {
    for x in 0..4 {
        for y in 0..4 {
            assert!(Coord { x, y }.on_board());
        }
    }
}

#[test]
fn up_decrements_y() {
    let next = Coord { x: 2, y: 2 }.neighbor(&Direction::Up);
    assert_eq!(next, Coord { x: 2, y: 1 });
}

#[test]
fn down_increments_y() {
    let next = Coord { x: 2, y: 2 }.neighbor(&Direction::Down);
    assert_eq!(next, Coord { x: 2, y: 3 });
}

#[test]
fn left_decrements_x() {
    let next = Coord { x: 2, y: 2 }.neighbor(&Direction::Left);
    assert_eq!(next, Coord { x: 1, y: 2 });
}

#[test]
fn right_increments_x() {
    let next = Coord { x: 2, y: 2 }.neighbor(&Direction::Right);
    assert_eq!(next, Coord { x: 3, y: 2 });
}

#[test]
fn neighbor_of_an_edge_cell_may_be_off_board() {
    let origin = Coord { x: 0, y: 0 };
    assert_eq!(origin.neighbor(&Direction::Up), Coord { x: 0, y: -1 });
    assert_eq!(origin.neighbor(&Direction::Left), Coord { x: -1, y: 0 });
    assert!(!origin.neighbor(&Direction::Up).on_board());
    assert!(!origin.neighbor(&Direction::Left).on_board());
    let far = Coord { x: 3, y: 3 };
    assert_eq!(far.neighbor(&Direction::Down), Coord { x: 3, y: 4 });
    assert_eq!(far.neighbor(&Direction::Right), Coord { x: 4, y: 3 });
    assert!(!far.neighbor(&Direction::Down).on_board());
    assert!(!far.neighbor(&Direction::Right).on_board());
}

#[test]
fn neighbor_there_and_back_is_the_same_cell() {
    let start = Coord { x: 1, y: 2 };
    assert_eq!(start.neighbor(&Direction::Up).neighbor(&Direction::Down), start);
    assert_eq!(start.neighbor(&Direction::Left).neighbor(&Direction::Right), start);
}

#[test]
fn get_val_reads_x_then_y() {
    let mut grid: Grid = [[0; 4]; 4];
    grid[1][2] = 7;
    assert_eq!(get_val(&grid, &Coord { x: 1, y: 2 }), 7);
    assert_eq!(get_val(&grid, &Coord { x: 2, y: 1 }), 0);
}

#[test]
fn put_val_writes_one_cell_only() {
    let mut grid: Grid = [[3; 4]; 4];
    put_val(&mut grid, &Coord { x: 3, y: 0 }, 9);
    for x in 0..4usize {
        for y in 0..4usize {
            let expected = if x == 3 && y == 0 { 9 } else { 3 };
            assert_eq!(grid[x][y], expected);
        }
    }
}

#[test]
fn put_then_get_returns_the_value() {
    let mut grid: Grid = [[0; 4]; 4];
    let coord = Coord { x: 0, y: 3 };
    put_val(&mut grid, &coord, 5);
    assert_eq!(get_val(&grid, &coord), 5);
    put_val(&mut grid, &coord, 0);
    assert_eq!(get_val(&grid, &coord), 0);
}
