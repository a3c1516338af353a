use dungeon::carve::{dig, dig_span, make_corridor_horizontal, make_corridor_vertical, make_room, merge_rooms};
use dungeon::grid::{Grid, Location, Tile};
use dungeon::rooms::Room;

fn picture(grid: &Grid) -> Vec<String> {
    let mut rows = Vec::new();
    for y in (0..grid.height()).rev() {
        let mut row = String::new();
        for x in 0..grid.width() {
            row.push(if grid.get(y, x) == Some(Tile::Ground) { '.' } else { '#' });
        }
        rows.push(row);
    }
    rows
}

fn room(left: u32, bottom: u32, width: u32, height: u32) -> Room {
    Room { id: 0, dummy: false, left, width, bottom, height }
}

#[test]
fn dig_clears_a_block() {
    let mut grid = Grid::new(4, 6);
    dig(&mut grid, 1, 1, 4, 3);
    assert_eq!(picture(&grid), vec!["######", "#...##", "#...##", "######"]);
}

#[test]
fn dig_leaves_out_what_lies_outside() {
    let mut grid = Grid::new(3, 4);
    dig(&mut grid, 2, 1, 100, 100);
    assert_eq!(picture(&grid), vec!["##..", "##..", "####"]);
    dig(&mut grid, 7, 7, u64::MAX, u64::MAX);
    assert_eq!(picture(&grid), vec!["##..", "##..", "####"]);
}

#[test]
fn dig_of_an_empty_block_changes_nothing() {
    let mut grid = Grid::new(3, 4);
    dig(&mut grid, 2, 1, 2, 3);
    dig(&mut grid, 3, 2, 1, 1);
    dig(&mut grid, 0, 2, 4, 2);
    assert_eq!(picture(&grid), vec!["####", "####", "####"]);
}

#[test]
fn dig_span_includes_its_ends() {
    let mut grid = Grid::new(4, 6);
    dig_span(&mut grid, 1, 3, 2, 3);
    assert_eq!(picture(&grid), vec!["#...##", "#...##", "######", "######"]);
}

#[test]
fn dig_span_starts_at_the_edge_when_it_begins_outside() {
    let mut grid = Grid::new(3, 4);
    dig_span(&mut grid, -5, 1, -2, 0);
    assert_eq!(picture(&grid), vec!["####", "####", "..##"]);
    dig_span(&mut grid, -5, -1, 0, 2);
    dig_span(&mut grid, 0, 3, -9, -1);
    dig_span(&mut grid, 3, 2, 0, 2);
    assert_eq!(picture(&grid), vec!["####", "####", "..##"]);
    dig_span(&mut grid, 3, i32::MAX, 2, i32::MAX);
    assert_eq!(picture(&grid), vec!["###.", "####", "..##"]);
}

#[test]
fn room_is_dug() {
    let mut grid = Grid::new(5, 7);
    make_room(&mut grid, &room(2, 1, 4, 3));
    assert_eq!(picture(&grid), vec!["#######", "##....#", "##....#", "##....#", "#######"]);
}

#[test]
fn room_beyond_the_grid_is_cut_off() {
    let mut grid = Grid::new(3, 4);
    make_room(&mut grid, &room(2, 2, u32::MAX, u32::MAX));
    assert_eq!(picture(&grid), vec!["##..", "####", "####"]);
}

#[test]
fn merged_rooms_fill_their_bounding_block() {
    let mut grid = Grid::new(6, 12);
    merge_rooms(&mut grid, &room(1, 2, 3, 2), &room(7, 1, 4, 2));
    assert_eq!(
        picture(&grid),
        vec![
            "############",
            "############",
            "#..........#",
            "#..........#",
            "#..........#",
            "############",
        ]
    );
}

#[test]
fn merged_rooms_do_not_depend_on_their_order() {
    let mut first = Grid::new(8, 8);
    let mut second = Grid::new(8, 8);
    merge_rooms(&mut first, &room(1, 1, 2, 2), &room(2, 5, 4, 2));
    merge_rooms(&mut second, &room(2, 5, 4, 2), &room(1, 1, 2, 2));
    assert_eq!(picture(&first), picture(&second));
    assert_eq!(picture(&first)[0], "########");
    assert_eq!(picture(&first)[1], "#.....##");
    assert_eq!(picture(&first)[6], "#.....##");
    assert_eq!(picture(&first)[7], "########");
}

#[test]
fn horizontal_corridor_going_up() {
    let mut grid = Grid::new(5, 9);
    make_corridor_horizontal(&mut grid, &Location(1, 1), &Location(7, 3), 4);
    assert_eq!(
        picture(&grid),
        vec!["#########", "####....#", "####.####", "#....####", "#########"]
    );
}

#[test]
fn horizontal_corridor_going_down() {
    let mut grid = Grid::new(5, 9);
    make_corridor_horizontal(&mut grid, &Location(1, 3), &Location(7, 1), 5);
    assert_eq!(
        picture(&grid),
        vec!["#########", "#.....###", "#####.###", "#####...#", "#########"]
    );
}

#[test]
fn horizontal_corridor_on_one_row_is_straight() {
    let mut grid = Grid::new(3, 9);
    make_corridor_horizontal(&mut grid, &Location(1, 1), &Location(7, 1), 4);
    assert_eq!(picture(&grid), vec!["#########", "#.......#", "#########"]);
}

#[test]
fn horizontal_corridor_with_its_bridge_outside_the_ends() {
    let mut grid = Grid::new(4, 9);
    make_corridor_horizontal(&mut grid, &Location(3, 1), &Location(5, 2), 7);
    assert_eq!(picture(&grid), vec!["#########", "#######.#", "###.....#", "#########"]);
}

#[test]
fn vertical_corridor_going_right() {
    let mut grid = Grid::new(8, 6);
    make_corridor_vertical(&mut grid, &Location(1, 1), &Location(4, 6), 3);
    assert_eq!(
        picture(&grid),
        vec!["######", "####.#", "####.#", "####.#", "#....#", "#.####", "#.####", "######"]
    );
}

#[test]
fn vertical_corridor_going_left() {
    let mut grid = Grid::new(6, 6);
    make_corridor_vertical(&mut grid, &Location(4, 0), &Location(1, 5), 2);
    assert_eq!(
        picture(&grid),
        vec!["#.####", "#.####", "#.####", "#....#", "####.#", "####.#"]
    );
}

#[test]
fn vertical_corridor_in_one_column_is_straight() {
    let mut grid = Grid::new(6, 3);
    make_corridor_vertical(&mut grid, &Location(1, 1), &Location(1, 4), 2);
    assert_eq!(picture(&grid), vec!["###", "#.#", "#.#", "#.#", "#.#", "###"]);
}

#[test]
fn digging_keeps_the_ground_that_is_there() {
    let mut grid = Grid::new(4, 6);
    grid.set(0, 0, Tile::Ground);
    grid.set(3, 5, Tile::Ground);
    make_room(&mut grid, &room(2, 1, 2, 2));
    make_corridor_horizontal(&mut grid, &Location(0, 3), &Location(2, 3), 1);
    assert_eq!(picture(&grid), vec!["...##.", "##..##", "##..##", ".#####"]);
}
