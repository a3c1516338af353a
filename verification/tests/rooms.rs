use dungeon::dice::Dice;
use dungeon::lattice::Lattice;
use dungeon::rooms::{place_rooms, Room, MARGIN, MIN_ROOM_HEIGHT, MIN_ROOM_WIDTH};

#[test]
fn room_limits() {
    assert_eq!(MIN_ROOM_WIDTH, 5);
    assert_eq!(MIN_ROOM_HEIGHT, 4);
    assert_eq!(MARGIN, 2);
}

#[test]
fn real_room_is_moved_into_its_sector() {
    let lattice = Lattice::partition(32, 56, 2, 3).unwrap();
    let room = Room::real_at(&lattice, 4, 6, 5, 3, 2);
    assert_eq!(room.id, 4);
    assert!(!room.dummy);
    assert_eq!(room.left, 18 + 3);
    assert_eq!(room.bottom, 16 + 2);
    assert_eq!(room.width, 6);
    assert_eq!(room.height, 5);
}

#[test]
fn dummy_is_one_tile() {
    let lattice = Lattice::partition(32, 56, 2, 3).unwrap();
    let room = Room::dummy_at(&lattice, 2, 4, 9);
    assert_eq!(room.id, 2);
    assert!(room.dummy);
    assert_eq!(room.left, 36 + 4);
    assert_eq!(room.bottom, 9);
    assert_eq!(room.width, 1);
    assert_eq!(room.height, 1);
}

#[test]
fn placed_real_room_keeps_its_bounds() {
    let lattice = Lattice::partition(32, 56, 2, 3).unwrap();
    for seed in 0..300u64 {
        let mut dice = Dice::from_seed(seed);
        let room = Room::place(&lattice, 5, true, &mut dice);
        assert_eq!(room.id, 5);
        assert!(!room.dummy);
        assert!(5 <= room.width && room.width < 16);
        assert!(4 <= room.height && room.height < 14);
        let x = room.left - 36;
        let y = room.bottom - 16;
        assert!(2 <= x && x < 18 - room.width);
        assert!(2 <= y && y < 16 - room.height);
    }
}

#[test]
fn placed_dummy_keeps_its_bounds() {
    let lattice = Lattice::partition(32, 56, 2, 3).unwrap();
    for seed in 0..300u64 {
        let mut dice = Dice::from_seed(seed);
        let room = Room::place(&lattice, 1, false, &mut dice);
        assert_eq!(room.id, 1);
        assert!(room.dummy);
        assert_eq!(room.width, 1);
        assert_eq!(room.height, 1);
        let x = room.left - 18;
        assert!(2 <= x && x < 17);
        assert!(2 <= room.bottom && room.bottom < 15);
    }
}

#[test]
fn smallest_sector_leaves_no_choice() {
    let lattice = Lattice::partition(12, 14, 2, 2).unwrap();
    for seed in 0..50u64 {
        let mut dice = Dice::from_seed(seed);
        let room = Room::place(&lattice, 3, true, &mut dice);
        assert_eq!(room.width, 5);
        assert_eq!(room.height, 4);
        assert_eq!(room.left, 7 + 2);
        assert_eq!(room.bottom, 6 + 2);
    }
}

#[test]
fn sector_one_above_the_smallest_leaves_no_choice() {
    let lattice = Lattice::partition(7, 8, 1, 1).unwrap();
    for seed in 0..50u64 {
        let mut dice = Dice::from_seed(seed);
        let room = Room::place(&lattice, 0, true, &mut dice);
        assert_eq!((room.width, room.height, room.left, room.bottom), (5, 4, 2, 2));
    }
}

#[test]
fn every_sector_gets_its_room() {
    let lattice = Lattice::partition(32, 56, 3, 4).unwrap();
    let real_ids = vec![7, 0, 10];
    for seed in 0..50u64 {
        let mut dice = Dice::from_seed(seed);
        let rooms = place_rooms(&lattice, &real_ids, &mut dice);
        assert_eq!(rooms.len(), 12);
        for (id, room) in rooms.iter().enumerate() {
            assert_eq!(room.id as usize, id);
            assert_eq!(room.dummy, !real_ids.contains(&room.id));
            let (left, bottom) = lattice.origin(room.id);
            assert!(left + 2 <= room.left);
            assert!(room.left + room.width <= left + lattice.sector_width);
            assert!(bottom + 2 <= room.bottom);
            assert!(room.bottom + room.height <= bottom + lattice.sector_height);
            if room.dummy {
                assert_eq!((room.width, room.height), (1, 1));
            } else {
                assert!(room.width >= 5 && room.height >= 4);
            }
        }
    }
}
