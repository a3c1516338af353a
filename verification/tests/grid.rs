use dungeon::grid::{Grid, Location, Tile};

#[test]
fn new_grid_is_all_wall() {
    let grid = Grid::new(3, 5);
    assert_eq!(grid.height(), 3);
    assert_eq!(grid.width(), 5);
    for row in 0..3 {
        for column in 0..5 {
            assert_eq!(grid.get(row, column), Some(Tile::Wall));
        }
    }
}

#[test]
fn get_outside_the_grid_is_none() {
    let grid = Grid::new(3, 5);
    assert_eq!(grid.get(3, 0), None);
    assert_eq!(grid.get(0, 5), None);
    assert_eq!(grid.get(2, 4), Some(Tile::Wall));
    assert_eq!(grid.get(usize::MAX, usize::MAX), None);
}

#[test]
fn empty_grid_has_no_cell() {
    let grid = Grid::new(0, 0);
    assert_eq!(grid.height(), 0);
    assert_eq!(grid.width(), 0);
    assert_eq!(grid.get(0, 0), None);
    let rows_only = Grid::new(4, 0);
    assert_eq!(rows_only.get(0, 0), None);
    assert_eq!(rows_only.height(), 4);
}

#[test]
fn set_writes_one_cell() {
    let mut grid = Grid::new(3, 5);
    assert!(grid.set(1, 4, Tile::Ground));
    for row in 0..3 {
        for column in 0..5 {
            let expected = if row == 1 && column == 4 { Tile::Ground } else { Tile::Wall };
            assert_eq!(grid.get(row, column), Some(expected));
        }
    }
    assert!(grid.set(1, 4, Tile::Wall));
    assert_eq!(grid.get(1, 4), Some(Tile::Wall));
}

#[test]
fn set_outside_the_grid_changes_nothing() {
    let mut grid = Grid::new(2, 2);
    assert!(!grid.set(2, 0, Tile::Ground));
    assert!(!grid.set(0, 2, Tile::Ground));
    for row in 0..2 {
        for column in 0..2 {
            assert_eq!(grid.get(row, column), Some(Tile::Wall));
        }
    }
}

#[test]
fn rows_come_before_columns() {
    let mut grid = Grid::new(2, 7);
    assert!(grid.set(1, 6, Tile::Ground));
    assert!(!grid.set(6, 1, Tile::Ground));
    assert_eq!(grid.look(6, 1), Some(Tile::Ground));
    assert_eq!(grid.look(1, 6), None);
}

#[test]
fn look_takes_column_then_row() {
    let mut grid = Grid::new(4, 6);
    grid.set(3, 5, Tile::Ground);
    assert_eq!(grid.look(5, 3), Some(Tile::Ground));
    assert_eq!(grid.look(3, 5), None);
    assert_eq!(grid.look(0, 0), Some(Tile::Wall));
}

#[test]
fn look_left_of_or_below_the_grid_is_none() {
    let grid = Grid::new(4, 6);
    assert_eq!(grid.look(-1, 0), None);
    assert_eq!(grid.look(0, -1), None);
    assert_eq!(grid.look(i32::MIN, i32::MIN), None);
    assert_eq!(grid.look(6, 0), None);
    assert_eq!(grid.look(0, 4), None);
    assert_eq!(grid.look(i32::MAX, i32::MAX), None);
}

#[test]
fn default_location_is_one_one() {
    let location = Location::default();
    assert_eq!(location.0, 1);
    assert_eq!(location.1, 1);
}
