use dungeon::dice::Dice;
use dungeon::sectors::{all_sectors, choose_real, choose_sector, contains, has_all};

#[test]
fn contains_finds_what_is_there() {
    let list = vec![4, 7, 1];
    assert!(contains(&list, 4));
    assert!(contains(&list, 1));
    assert!(!contains(&list, 5));
    assert!(!contains(&Vec::new(), 0));
}

#[test]
fn has_all_needs_every_room() {
    let cluster = vec![0, 1, 2, 5];
    assert!(has_all(&cluster, &vec![1, 5]));
    assert!(has_all(&cluster, &vec![5, 1, 0, 2]));
    assert!(has_all(&cluster, &Vec::new()));
    assert!(!has_all(&cluster, &vec![1, 3]));
    assert!(!has_all(&Vec::new(), &vec![0]));
}

#[test]
fn has_all_does_not_need_sorted_lists() {
    assert!(has_all(&vec![5, 0, 3], &vec![3, 5]));
    assert!(has_all(&vec![5, 0, 3], &vec![5, 3]));
}

#[test]
fn all_sectors_counts_up() {
    assert_eq!(all_sectors(0), Vec::<u32>::new());
    assert_eq!(all_sectors(1), vec![0]);
    assert_eq!(all_sectors(5), vec![0, 1, 2, 3, 4]);
}

#[test]
fn choose_sector_puts_the_last_in_its_place() {
    let mut pool = vec![0, 1, 2, 3, 4];
    let mut chosen = vec![9];
    choose_sector(&mut pool, &mut chosen, 1);
    assert_eq!(pool, vec![0, 4, 2, 3]);
    assert_eq!(chosen, vec![9, 1]);
    choose_sector(&mut pool, &mut chosen, 3);
    assert_eq!(pool, vec![0, 4, 2]);
    assert_eq!(chosen, vec![9, 1, 3]);
    choose_sector(&mut pool, &mut chosen, 0);
    assert_eq!(pool, vec![2, 4]);
    assert_eq!(chosen, vec![9, 1, 3, 0]);
}

#[test]
fn choose_real_gives_as_many_as_wanted() {
    for seed in 0..100u64 {
        let mut dice = Dice::from_seed(seed);
        let real_ids = choose_real(12, 5, &mut dice);
        assert_eq!(real_ids.len(), 5);
        for (at, id) in real_ids.iter().enumerate() {
            assert!(*id < 12);
            assert!(!real_ids[..at].contains(id));
        }
    }
}

#[test]
fn choose_real_takes_all_when_more_are_wanted() {
    let mut dice = Dice::from_seed(3);
    assert_eq!(choose_real(4, 4, &mut dice), vec![0, 1, 2, 3]);
    assert_eq!(choose_real(4, 9, &mut dice), vec![0, 1, 2, 3]);
    assert_eq!(choose_real(0, 0, &mut dice), Vec::<u32>::new());
}

#[test]
fn choose_real_of_none_is_empty() {
    let mut dice = Dice::from_seed(3);
    assert_eq!(choose_real(6, 0, &mut dice), Vec::<u32>::new());
}

#[test]
fn choose_real_reaches_every_sector() {
    let mut seen = [false; 6];
    for seed in 0..200u64 {
        let mut dice = Dice::from_seed(seed);
        for id in choose_real(6, 2, &mut dice) {
            seen[id as usize] = true;
        }
    }
    assert_eq!(seen, [true; 6]);
}
