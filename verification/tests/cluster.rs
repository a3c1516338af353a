use dungeon::cluster::get_cluster;
use dungeon::dice::Dice;
use dungeon::lattice::{Lattice, MapError};
use dungeon::repair::{candidates, repair};

#[test]
fn cluster_of_a_lone_sector() {
    assert_eq!(get_cluster(&Vec::new(), 3, 6), vec![3]);
    assert_eq!(get_cluster(&vec![(0, 1)], 3, 6), vec![3]);
}

#[test]
fn cluster_follows_links_both_ways() {
    let links = vec![(4, 5), (0, 1), (1, 4)];
    assert_eq!(get_cluster(&links, 0, 6), vec![0, 1, 4, 5]);
    assert_eq!(get_cluster(&links, 5, 6), vec![0, 1, 4, 5]);
    assert_eq!(get_cluster(&links, 2, 6), vec![2]);
}

#[test]
fn cluster_needs_more_than_one_pass() {
    let links = vec![(3, 4), (2, 3), (1, 2), (0, 1)];
    assert_eq!(get_cluster(&links, 0, 5), vec![0, 1, 2, 3, 4]);
    assert_eq!(get_cluster(&links, 4, 5), vec![0, 1, 2, 3, 4]);
}

#[test]
fn cluster_leaves_other_groups_out() {
    let links = vec![(0, 1), (2, 3), (3, 7), (5, 6)];
    assert_eq!(get_cluster(&links, 7, 8), vec![2, 3, 7]);
    assert_eq!(get_cluster(&links, 6, 8), vec![5, 6]);
    assert_eq!(get_cluster(&links, 4, 8), vec![4]);
}

#[test]
fn candidates_lead_out_of_the_cluster() {
    let lattice = Lattice::partition(60, 60, 3, 3).unwrap();
    let links = vec![(0, 1)];
    let cluster = vec![0, 1];
    assert_eq!(candidates(&lattice, &links, &cluster), vec![(0, 3), (1, 2), (1, 4)]);
}

#[test]
fn candidates_go_left_right_down_up() {
    let lattice = Lattice::partition(60, 60, 3, 3).unwrap();
    assert_eq!(candidates(&lattice, &Vec::new(), &vec![4]), vec![(4, 3), (4, 5), (4, 1), (4, 7)]);
}

#[test]
fn candidates_leave_linked_pairs_out() {
    let lattice = Lattice::partition(60, 60, 3, 3).unwrap();
    let links = vec![(4, 5), (1, 4)];
    assert_eq!(candidates(&lattice, &links, &vec![4]), vec![(4, 3), (4, 7)]);
}

#[test]
fn full_cluster_has_no_candidate() {
    let lattice = Lattice::partition(20, 20, 2, 2).unwrap();
    let links = vec![(0, 1), (1, 3), (2, 3)];
    assert!(candidates(&lattice, &links, &vec![0, 1, 2, 3]).is_empty());
}

#[test]
fn repair_leaves_a_whole_layout_alone() {
    let lattice = Lattice::partition(60, 60, 3, 3).unwrap();
    let mut links = vec![(0, 1), (1, 4)];
    let mut dice = Dice::from_seed(1);
    let cluster = repair(&lattice, &mut links, 0, &vec![4, 0], &mut dice).unwrap();
    assert_eq!(cluster, vec![0, 1, 4]);
    assert_eq!(links, vec![(0, 1), (1, 4)]);
}

#[test]
fn repair_links_every_real_room() {
    let lattice = Lattice::partition(60, 60, 3, 3).unwrap();
    for seed in 0..200u64 {
        let mut dice = Dice::from_seed(seed);
        let mut links = vec![(7, 8)];
        let real_ids = vec![8, 0, 5];
        let cluster = repair(&lattice, &mut links, 0, &real_ids, &mut dice).unwrap();
        assert_eq!(links[0], (7, 8));
        assert_eq!(cluster, get_cluster(&links, 0, 9));
        for id in &real_ids {
            assert!(cluster.contains(id));
        }
        for (at, link) in links.iter().enumerate() {
            assert!(link.0 < link.1);
            assert!(lattice.neighbours(link.0).contains(&link.1));
            assert!(!links[..at].contains(link));
        }
    }
}

#[test]
fn repair_adds_no_link_within_the_cluster() {
    let lattice = Lattice::partition(60, 60, 3, 3).unwrap();
    for seed in 0..100u64 {
        let mut dice = Dice::from_seed(seed);
        let mut links = Vec::new();
        repair(&lattice, &mut links, 4, &vec![0, 2, 6, 8], &mut dice).unwrap();
        for at in 0..links.len() {
            let before = get_cluster(&links[..at].to_vec(), 4, 9);
            let (a, b) = links[at];
            assert!(before.contains(&a) != before.contains(&b));
        }
    }
}

#[test]
fn repair_fails_for_a_room_outside_the_lattice() {
    let lattice = Lattice::partition(20, 20, 2, 2).unwrap();
    let mut dice = Dice::from_seed(5);
    let mut links = Vec::new();
    let outcome = repair(&lattice, &mut links, 0, &vec![1, 4], &mut dice);
    assert_eq!(outcome, Err(MapError::GenerationError));
}

#[test]
fn repair_of_a_single_sector() {
    let lattice = Lattice::partition(10, 10, 1, 1).unwrap();
    let mut dice = Dice::from_seed(5);
    let mut links = Vec::new();
    assert_eq!(repair(&lattice, &mut links, 0, &vec![0], &mut dice), Ok(vec![0]));
    assert!(links.is_empty());
}
