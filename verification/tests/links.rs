use dungeon::dice::{Chance, Dice};
use dungeon::lattice::Lattice;
use dungeon::links::{add_connection, already_has_connection, connect_room, connect_rooms, ordered};
use dungeon::rooms::{place_rooms, Room};

fn assert_links_in_order(lattice: &Lattice, links: &Vec<(u32, u32)>) {
    for (at, link) in links.iter().enumerate() {
        assert!(link.0 < link.1);
        assert!(link.1 < lattice.total());
        assert!(lattice.neighbours(link.0).contains(&link.1));
        assert!(!links[..at].contains(link));
    }
}

#[test]
fn connection_is_found_in_both_directions() {
    let links = vec![(0, 1), (1, 4)];
    assert!(already_has_connection(&links, 0, 1));
    assert!(already_has_connection(&links, 1, 0));
    assert!(already_has_connection(&links, 4, 1));
    assert!(!already_has_connection(&links, 0, 4));
    assert!(!already_has_connection(&Vec::new(), 0, 1));
}

#[test]
fn ordered_puts_the_smaller_first() {
    assert_eq!(ordered(3, 8), (3, 8));
    assert_eq!(ordered(8, 3), (3, 8));
    assert_eq!(ordered(5, 5), (5, 5));
}

#[test]
fn add_connection_adds_once() {
    let mut links = Vec::new();
    assert!(add_connection(&mut links, 4, 1));
    assert_eq!(links, vec![(1, 4)]);
    assert!(!add_connection(&mut links, 1, 4));
    assert!(!add_connection(&mut links, 4, 1));
    assert_eq!(links, vec![(1, 4)]);
    assert!(add_connection(&mut links, 4, 5));
    assert_eq!(links, vec![(1, 4), (4, 5)]);
}

#[test]
fn real_room_gets_a_link() {
    let lattice = Lattice::partition(32, 56, 2, 3).unwrap();
    for seed in 0..200u64 {
        let mut dice = Dice::from_seed(seed);
        let room = Room::real_at(&lattice, 4, 5, 4, 2, 2);
        let mut links = vec![(0, 1)];
        connect_room(&lattice, &room, &mut links, Chance::dummy_skip(), &mut dice);
        assert_eq!(links[0], (0, 1));
        assert!(2 <= links.len() && links.len() <= 4);
        for link in &links[1..] {
            assert!(link.0 == 4 || link.1 == 4);
        }
        assert_links_in_order(&lattice, &links);
    }
}

#[test]
fn dummy_is_skipped_when_that_is_certain() {
    let lattice = Lattice::partition(32, 56, 2, 3).unwrap();
    let room = Room::dummy_at(&lattice, 4, 2, 2);
    for seed in 0..50u64 {
        let mut dice = Dice::from_seed(seed);
        let mut links = vec![(0, 3)];
        connect_room(&lattice, &room, &mut links, Chance::new(1, 1).unwrap(), &mut dice);
        assert_eq!(links, vec![(0, 3)]);
    }
}

#[test]
fn dummy_is_linked_when_it_is_never_skipped() {
    let lattice = Lattice::partition(32, 56, 2, 3).unwrap();
    let room = Room::dummy_at(&lattice, 4, 2, 2);
    for seed in 0..50u64 {
        let mut dice = Dice::from_seed(seed);
        let mut links = Vec::new();
        connect_room(&lattice, &room, &mut links, Chance::new(0, 1).unwrap(), &mut dice);
        assert!(!links.is_empty());
        assert_links_in_order(&lattice, &links);
    }
}

#[test]
fn dummy_is_sometimes_skipped() {
    let lattice = Lattice::partition(32, 56, 2, 3).unwrap();
    let room = Room::dummy_at(&lattice, 4, 2, 2);
    let mut skipped = 0;
    for seed in 0..400u64 {
        let mut dice = Dice::from_seed(seed);
        let mut links = Vec::new();
        connect_room(&lattice, &room, &mut links, Chance::dummy_skip(), &mut dice);
        if links.is_empty() {
            skipped += 1;
        }
    }
    assert!(100 < skipped && skipped < 300);
}

#[test]
fn link_that_is_there_is_not_added_again() {
    let lattice = Lattice::partition(10, 40, 1, 2).unwrap();
    let room = Room::real_at(&lattice, 1, 5, 4, 2, 2);
    let mut dice = Dice::from_seed(9);
    let mut links = vec![(0, 1)];
    connect_room(&lattice, &room, &mut links, Chance::dummy_skip(), &mut dice);
    assert_eq!(links, vec![(0, 1)]);
}

#[test]
fn room_without_neighbours_gets_no_link() {
    let lattice = Lattice::partition(10, 10, 1, 1).unwrap();
    let room = Room::real_at(&lattice, 0, 5, 4, 2, 2);
    let mut dice = Dice::from_seed(9);
    let mut links = Vec::new();
    connect_room(&lattice, &room, &mut links, Chance::dummy_skip(), &mut dice);
    assert!(links.is_empty());
}

#[test]
fn all_rooms_are_linked_in_order() {
    let lattice = Lattice::partition(32, 56, 3, 4).unwrap();
    for seed in 0..100u64 {
        let mut dice = Dice::from_seed(seed);
        let real_ids = vec![0, 5, 11];
        let rooms = place_rooms(&lattice, &real_ids, &mut dice);
        let links = connect_rooms(&lattice, &rooms, Chance::dummy_skip(), &mut dice);
        assert_links_in_order(&lattice, &links);
        for id in &real_ids {
            assert!(links.iter().any(|link| link.0 == *id || link.1 == *id));
        }
    }
}

#[test]
fn skipped_dummies_leave_only_links_of_real_rooms() {
    let lattice = Lattice::partition(32, 56, 3, 4).unwrap();
    let mut dice = Dice::from_seed(1);
    let real_ids = vec![5];
    let rooms = place_rooms(&lattice, &real_ids, &mut dice);
    let links = connect_rooms(&lattice, &rooms, Chance::new(1, 1).unwrap(), &mut dice);
    assert!(!links.is_empty());
    for link in &links {
        assert!(link.0 == 5 || link.1 == 5);
    }
}
