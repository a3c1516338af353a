use dungeon::dice::{Chance, Dice};

#[test]
fn chance_needs_a_ratio_of_at_most_one() {
    assert!(Chance::new(0, 1).is_some());
    assert!(Chance::new(1, 1).is_some());
    assert!(Chance::new(1, 2).is_some());
    assert!(Chance::new(2, 1).is_none());
    assert!(Chance::new(0, 0).is_none());
    assert!(Chance::new(1, 0).is_none());
    assert!(Chance::new(u32::MAX, u32::MAX).is_some());
}

#[test]
fn chance_keeps_its_ratio() {
    let chance = Chance::new(3, 7).unwrap();
    assert_eq!(chance.numerator(), 3);
    assert_eq!(chance.denominator(), 7);
}

#[test]
fn usual_chances() {
    assert_eq!(Chance::dummy_skip().numerator(), 1);
    assert_eq!(Chance::dummy_skip().denominator(), 2);
    assert_eq!(Chance::merge().numerator(), 1);
    assert_eq!(Chance::merge().denominator(), 10);
}

#[test]
fn range_stays_in_range() {
    let mut dice = Dice::from_seed(11);
    for _ in 0..1000 {
        let value = dice.range(5, 9);
        assert!(5 <= value && value < 9);
    }
}

#[test]
fn range_of_one_value_gives_it() {
    let mut dice = Dice::from_seed(3);
    for _ in 0..20 {
        assert_eq!(dice.range(8, 9), 8);
    }
}

#[test]
fn range_takes_every_value() {
    let mut dice = Dice::from_seed(5);
    let mut seen = [false; 4];
    for _ in 0..400 {
        seen[(dice.range(10, 14) - 10) as usize] = true;
    }
    assert_eq!(seen, [true, true, true, true]);
}

#[test]
fn between_on_an_empty_range_gives_the_lower_bound() {
    let mut dice = Dice::from_seed(1);
    assert_eq!(dice.between(5, 5), 5);
    assert_eq!(dice.between(5, 3), 5);
    assert_eq!(dice.between(0, 0), 0);
}

#[test]
fn between_on_an_empty_range_draws_nothing() {
    let mut first = Dice::from_seed(21);
    let mut second = Dice::from_seed(21);
    first.between(9, 9);
    first.between(9, 2);
    for _ in 0..10 {
        assert_eq!(first.range(0, 1000), second.range(0, 1000));
    }
}

#[test]
fn between_stays_in_range() {
    let mut dice = Dice::from_seed(2);
    for _ in 0..1000 {
        let value = dice.between(2, 6);
        assert!(2 <= value && value < 6);
    }
}

#[test]
fn index_stays_in_the_list() {
    let mut dice = Dice::from_seed(4);
    let mut seen = [false; 3];
    for _ in 0..300 {
        let at = dice.index(3);
        assert!(at < 3);
        seen[at] = true;
    }
    assert_eq!(seen, [true, true, true]);
}

#[test]
fn certain_chance_always_hits() {
    let mut dice = Dice::from_seed(8);
    let certain = Chance::new(4, 4).unwrap();
    for _ in 0..200 {
        assert!(dice.flip(certain));
    }
}

#[test]
fn zero_chance_never_hits() {
    let mut dice = Dice::from_seed(8);
    let never = Chance::new(0, 4).unwrap();
    for _ in 0..200 {
        assert!(!dice.flip(never));
    }
}

#[test]
fn even_chance_shows_both_sides() {
    let mut dice = Dice::from_seed(13);
    let mut hits = 0;
    for _ in 0..1000 {
        if dice.flip(Chance::dummy_skip()) {
            hits += 1;
        }
    }
    assert!(300 < hits && hits < 700);
}

#[test]
fn merge_chance_hits_about_one_time_in_ten() {
    let mut dice = Dice::from_seed(14);
    let mut hits = 0;
    for _ in 0..5000 {
        if dice.flip(Chance::merge()) {
            hits += 1;
        }
    }
    assert!(300 < hits && hits < 700);
}

#[test]
fn same_seed_same_draws() {
    let mut first = Dice::from_seed(77);
    let mut second = Dice::from_seed(77);
    for round in 0..200u32 {
        assert_eq!(first.range(0, 10 + round), second.range(0, 10 + round));
        assert_eq!(first.flip(Chance::dummy_skip()), second.flip(Chance::dummy_skip()));
        assert_eq!(first.index(7), second.index(7));
    }
}

#[test]
fn seeds_differ_in_their_draws() {
    let mut first = Dice::from_seed(1);
    let mut second = Dice::from_seed(2);
    let mut same = true;
    for _ in 0..50 {
        if first.range(0, 1_000_000) != second.range(0, 1_000_000) {
            same = false;
        }
    }
    assert!(!same);
}

#[test]
fn draws_of_one_seed_are_the_same_in_every_run() {
    let mut dice = Dice::from_seed(42);
    let mut draws = Vec::new();
    for _ in 0..8 {
        draws.push(dice.range(0, 100));
    }
    assert_eq!(draws, vec![13, 52, 54, 63, 99, 40, 3, 61]);
    let mut flips = Vec::new();
    for _ in 0..8 {
        flips.push(dice.flip(Chance::dummy_skip()));
    }
    assert_eq!(flips, vec![true, true, false, true, false, false, false, false]);
    assert_eq!(dice.between(10, 1000), 149);
}
