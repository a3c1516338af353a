use dungeon::carve::make_room;
use dungeon::carver::{carve, draw_links, draw_rooms, unmerged};
use dungeon::dice::{Chance, Dice};
use dungeon::grid::{Grid, Tile};
use dungeon::lattice::Lattice;
use dungeon::rooms::Room;
use dungeon::tunnel::{bridge_rooms, link_rooms};

fn picture(grid: &Grid) -> Vec<String> {
    let mut rows = Vec::new();
    for y in (0..grid.height()).rev() {
        let mut row = String::new();
        for x in 0..grid.width() {
            row.push(if grid.get(y, x) == Some(Tile::Ground) { '.' } else { '#' });
        }
        rows.push(row);
    }
    rows
}

fn count_ground(grid: &Grid) -> usize {
    picture(grid).iter().map(|row| row.chars().filter(|tile| *tile == '.').count()).sum()
}

fn reached(grid: &Grid, from: (u32, u32), to: (u32, u32)) -> bool {
    let mut seen = vec![vec![false; grid.width()]; grid.height()];
    let mut stack = vec![(from.0 as i32, from.1 as i32)];
    while let Some((x, y)) = stack.pop() {
        if grid.look(x, y) != Some(Tile::Ground) || seen[y as usize][x as usize] {
            continue;
        }
        seen[y as usize][x as usize] = true;
        stack.push((x + 1, y));
        stack.push((x - 1, y));
        stack.push((x, y + 1));
        stack.push((x, y - 1));
    }
    seen[to.1 as usize][to.0 as usize]
}

#[test]
fn bridge_across() {
    let lattice = Lattice::partition(8, 20, 1, 2).unwrap();
    let room1 = Room::real_at(&lattice, 0, 5, 4, 2, 2);
    let room2 = Room::real_at(&lattice, 1, 5, 4, 3, 3);
    let mut grid = Grid::new(8, 20);
    bridge_rooms(&lattice, &room1, &room2, 0, 3, 9, &mut grid);
    assert_eq!(
        picture(&grid),
        vec![
            "####################",
            "#########.....######",
            "#########.##########",
            "#########.##########",
            "#########.##########",
            "######....##########",
            "####################",
            "####################",
        ]
    );
}

#[test]
fn bridge_upwards() {
    let lattice = Lattice::partition(16, 10, 2, 1).unwrap();
    let room1 = Room::real_at(&lattice, 0, 5, 4, 2, 2);
    let room2 = Room::real_at(&lattice, 1, 5, 4, 4, 3);
    let mut grid = Grid::new(16, 10);
    bridge_rooms(&lattice, &room1, &room2, 1, 4, 8, &mut grid);
    let mut expected = Grid::new(16, 10);
    for y in 5..=8 {
        expected.set(y, 3, Tile::Ground);
    }
    for x in 3..=8 {
        expected.set(8, x, Tile::Ground);
    }
    for y in 8..=11 {
        expected.set(y, 8, Tile::Ground);
    }
    assert_eq!(picture(&grid), picture(&expected));
    assert_eq!(count_ground(&grid), 4 + 6 + 4 - 2);
}

#[test]
fn bridge_in_the_first_column_with_one_column_of_sectors() {
    let lattice = Lattice::partition(12, 7, 2, 1).unwrap();
    let room1 = Room::real_at(&lattice, 0, 5, 4, 2, 2);
    let room2 = Room::real_at(&lattice, 1, 5, 4, 2, 2);
    let mut grid = Grid::new(12, 7);
    bridge_rooms(&lattice, &room1, &room2, 0, 0, 6, &mut grid);
    let mut expected = Grid::new(12, 7);
    for y in 5..=8 {
        expected.set(y, 2, Tile::Ground);
    }
    assert_eq!(picture(&grid), picture(&expected));
}

#[test]
fn certain_merge_fills_the_block_and_spends_both_rooms() {
    let lattice = Lattice::partition(8, 20, 1, 2).unwrap();
    let room1 = Room::real_at(&lattice, 0, 5, 4, 2, 2);
    let room2 = Room::real_at(&lattice, 1, 6, 5, 3, 3);
    let mut grid = Grid::new(8, 20);
    let mut can_merge = vec![true, true];
    let mut dice = Dice::from_seed(1);
    let merging =
        link_rooms(&lattice, &room1, &room2, &mut can_merge, Chance::new(1, 1).unwrap(), &mut grid, &mut dice);
    assert!(merging);
    assert_eq!(can_merge, vec![false, false]);
    let mut expected = Grid::new(8, 20);
    for y in 2..8 {
        for x in 2..19 {
            expected.set(y, x, Tile::Ground);
        }
    }
    assert_eq!(picture(&grid), picture(&expected));
}

#[test]
fn spent_room_is_not_merged_again() {
    let lattice = Lattice::partition(8, 20, 1, 2).unwrap();
    let room1 = Room::real_at(&lattice, 0, 5, 4, 2, 2);
    let room2 = Room::real_at(&lattice, 1, 6, 5, 3, 3);
    for flags in [vec![false, true], vec![true, false], vec![false, false]] {
        let mut grid = Grid::new(8, 20);
        let mut can_merge = flags.clone();
        let mut dice = Dice::from_seed(1);
        let merging = link_rooms(
            &lattice,
            &room1,
            &room2,
            &mut can_merge,
            Chance::new(1, 1).unwrap(),
            &mut grid,
            &mut dice,
        );
        assert!(!merging);
        assert_eq!(can_merge, flags);
    }
}

#[test]
fn without_a_merge_a_corridor_joins_the_rooms() {
    let lattice = Lattice::partition(32, 56, 2, 3).unwrap();
    for seed in 0..200u64 {
        let mut dice = Dice::from_seed(seed);
        let room1 = Room::place(&lattice, 1, true, &mut dice);
        for other in [2u32, 4] {
            let mut dice = Dice::from_seed(seed);
            let room2 = Room::place(&lattice, other, seed % 2 == 0, &mut dice);
            let mut grid = Grid::new(32, 56);
            make_room(&mut grid, &room1);
            make_room(&mut grid, &room2);
            let rooms_only = count_ground(&grid);
            let mut can_merge = vec![true; 6];
            let merging = link_rooms(
                &lattice,
                &room1,
                &room2,
                &mut can_merge,
                Chance::new(0, 1).unwrap(),
                &mut grid,
                &mut dice,
            );
            assert!(!merging);
            assert_eq!(can_merge, vec![true; 6]);
            assert!(count_ground(&grid) > rooms_only);
            assert!(reached(&grid, (room1.left, room1.bottom), (room2.left, room2.bottom)));
        }
    }
}

#[test]
fn corridor_stays_between_the_two_rooms() {
    let lattice = Lattice::partition(32, 56, 2, 3).unwrap();
    for seed in 0..200u64 {
        let mut dice = Dice::from_seed(seed);
        let room1 = Room::place(&lattice, 0, true, &mut dice);
        let room2 = Room::place(&lattice, 1, true, &mut dice);
        let mut grid = Grid::new(32, 56);
        let mut can_merge = vec![false; 6];
        link_rooms(&lattice, &room1, &room2, &mut can_merge, Chance::merge(), &mut grid, &mut dice);
        let right_edge = room1.left + room1.width - 1;
        for y in 0..32u32 {
            for x in 0..56u32 {
                if grid.get(y as usize, x as usize) == Some(Tile::Ground) {
                    assert!(right_edge <= x && x <= room2.left);
                    assert!(y < 16);
                }
            }
        }
        assert_eq!(grid.get(0, right_edge as usize + 1), Some(Tile::Wall));
        let mut bridges = 0;
        for x in right_edge + 2..room2.left - 1 {
            let column = (0..16).filter(|y| grid.get(*y, x as usize) == Some(Tile::Ground)).count();
            if column > 1 {
                bridges += 1;
            }
        }
        let rows: Vec<u32> =
            (0..16u32).filter(|y| grid.get(*y as usize, right_edge as usize) == Some(Tile::Ground)).collect();
        let ends: Vec<u32> =
            (0..16u32).filter(|y| grid.get(*y as usize, room2.left as usize) == Some(Tile::Ground)).collect();
        assert_eq!(rows.len(), 1);
        assert_eq!(ends.len(), 1);
        assert!(room1.bottom <= rows[0] && rows[0] < room1.bottom + room1.height);
        assert!(room2.bottom <= ends[0] && ends[0] < room2.bottom + room2.height);
        assert_eq!(bridges, if rows[0] == ends[0] { 0 } else { 1 });
    }
}

#[test]
fn unmerged_marks_the_real_rooms() {
    let lattice = Lattice::partition(8, 30, 1, 3).unwrap();
    let rooms = vec![
        Room::real_at(&lattice, 0, 5, 4, 2, 2),
        Room::dummy_at(&lattice, 1, 2, 2),
        Room::real_at(&lattice, 2, 5, 4, 2, 2),
    ];
    assert_eq!(unmerged(&rooms), vec![true, false, true]);
    assert_eq!(unmerged(&Vec::new()), Vec::<bool>::new());
}

#[test]
fn only_rooms_of_the_cluster_are_drawn() {
    let lattice = Lattice::partition(8, 30, 1, 3).unwrap();
    let rooms = vec![
        Room::real_at(&lattice, 0, 5, 4, 2, 2),
        Room::dummy_at(&lattice, 1, 2, 2),
        Room::real_at(&lattice, 2, 5, 4, 3, 2),
    ];
    let mut grid = Grid::new(8, 30);
    draw_rooms(&lattice, &rooms, &vec![0, 2], &mut grid);
    let mut expected = Grid::new(8, 30);
    make_room(&mut expected, &rooms[0]);
    make_room(&mut expected, &rooms[2]);
    assert_eq!(picture(&grid), picture(&expected));
    assert_eq!(count_ground(&grid), 40);
    assert_eq!(grid.get(2, 12), Some(Tile::Wall));
}

#[test]
fn links_outside_the_cluster_are_not_drawn() {
    let lattice = Lattice::partition(16, 30, 2, 3).unwrap();
    let mut dice = Dice::from_seed(4);
    let rooms: Vec<Room> = (0..6).map(|id| Room::place(&lattice, id, true, &mut dice)).collect();
    let links = vec![(0, 1), (4, 5), (2, 5)];
    let cluster = vec![0, 1];
    let mut grid = Grid::new(16, 30);
    let merges = carve(&lattice, &rooms, &links, &cluster, Chance::new(0, 1).unwrap(), &mut grid, &mut dice);
    assert!(merges.is_empty());
    for y in 0..16 {
        for x in 0..30 {
            if grid.get(y, x) == Some(Tile::Ground) {
                assert!(x < 20 && y < 8);
            }
        }
    }
    assert!(reached(&grid, (rooms[0].left, rooms[0].bottom), (rooms[1].left, rooms[1].bottom)));
}

#[test]
fn no_room_is_merged_twice() {
    let lattice = Lattice::partition(16, 30, 2, 3).unwrap();
    for seed in 0..50u64 {
        let mut dice = Dice::from_seed(seed);
        let rooms: Vec<Room> = (0..6).map(|id| Room::place(&lattice, id, id != 4, &mut dice)).collect();
        let links = vec![(0, 1), (1, 2), (0, 3), (1, 4), (2, 5), (3, 4), (4, 5)];
        let cluster = vec![0, 1, 2, 3, 4, 5];
        let mut grid = Grid::new(16, 30);
        draw_rooms(&lattice, &rooms, &cluster, &mut grid);
        let merges =
            draw_links(&lattice, &rooms, &links, &cluster, Chance::new(1, 1).unwrap(), &mut grid, &mut dice);
        assert_eq!(merges, vec![(0, 1), (2, 5)]);
        for id in 0..6u32 {
            let target = (rooms[id as usize].left, rooms[id as usize].bottom);
            assert!(reached(&grid, (rooms[0].left, rooms[0].bottom), target));
        }
    }
}

#[test]
fn merges_come_about_one_time_in_ten() {
    let lattice = Lattice::partition(8, 20, 1, 2).unwrap();
    let mut merged = 0;
    for seed in 0..1000u64 {
        let mut dice = Dice::from_seed(seed);
        let rooms: Vec<Room> = (0..2).map(|id| Room::place(&lattice, id, true, &mut dice)).collect();
        let mut grid = Grid::new(8, 20);
        let merges = carve(&lattice, &rooms, &vec![(0, 1)], &vec![0, 1], Chance::merge(), &mut grid, &mut dice);
        merged += merges.len();
    }
    assert!(50 < merged && merged < 160);
}
