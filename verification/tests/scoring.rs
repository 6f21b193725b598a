//! Hand scorers, rule tables, and Yahtzee-bonus policies.

use optimal_yahtzee_extreme::global::{Dice, PartialHand, D10, D6, LS, US};
use optimal_yahtzee_extreme::hands::{
    generic_identical, generic_straight, generic_upper_section, total, GroupScore,
};
use optimal_yahtzee_extreme::rules::{build_rules, DiceRules, Scorer, USBonusRules};
use optimal_yahtzee_extreme::yahtzee_bonus_rules as bonus;

#[test]
fn test_generic_upper_section() {
    assert_eq!(generic_upper_section(1, &vec![1, 1, 1, 3, 5]), 3);
    assert_eq!(generic_upper_section(5, &vec![2, 5, 5, 5, 6]), 15);
    assert_eq!(generic_upper_section(6, &vec![3, 4, 6, 6, 6]), 18);
}

#[test]
fn test_generic_identical() {
    assert_eq!(generic_identical(vec![3], GroupScore::Total, &vec![1, 1, 2, 3, 5]), 0);
    assert_eq!(generic_identical(vec![3], GroupScore::Total, &vec![1, 1, 1, 3, 5]), 11);
    assert_eq!(generic_identical(vec![3], GroupScore::Total, &vec![2, 5, 5, 5, 6]), 23);
    assert_eq!(generic_identical(vec![3], GroupScore::Total, &vec![3, 4, 6, 6, 6]), 25);
    assert_eq!(generic_identical(vec![3], GroupScore::Total, &vec![3, 6, 6, 6, 6]), 27);

    assert_eq!(generic_identical(vec![2, 3], GroupScore::Fixed(25), &vec![2, 2, 3, 3, 3]), 25);
    assert_eq!(generic_identical(vec![2, 3], GroupScore::Fixed(25), &vec![2, 2, 3, 3, 4]), 0);
    assert_eq!(generic_identical(vec![2, 3], GroupScore::Fixed(25), &vec![2, 2, 2, 2, 2]), 0);
    assert_eq!(generic_identical(vec![5], GroupScore::Fixed(50), &vec![2, 2, 2, 2, 2]), 50);
    assert_eq!(
        generic_identical(vec![2, 2, 2], GroupScore::Fixed(45), &vec![2, 2, 4, 4, 6, 6]),
        45
    );
}

#[test]
fn test_generic_straight() {
    assert_eq!(generic_straight(4, 30, &vec![1, 2, 2, 3, 4, 6]), 30);
    assert_eq!(generic_straight(4, 30, &vec![1, 2, 3, 4, 6, 7]), 30);
    assert_eq!(generic_straight(4, 30, &vec![1, 3, 4, 5, 6, 7]), 30);
    assert_eq!(generic_straight(4, 30, &vec![1, 2, 4, 5, 6, 7]), 30);
    assert_eq!(generic_straight(4, 30, &vec![1, 1, 2, 3, 6, 7]), 0);
    assert_eq!(generic_straight(4, 30, &vec![1, 3, 4, 5, 6, 7]), 30);
    assert_eq!(generic_straight(5, 40, &vec![1, 3, 4, 5, 6, 7]), 40);
}

#[test]
fn test_regular_rules() {
    let variants = [
        ('a', bonus::forced_joker()),
        ('b', bonus::free_joker()),
        ('c', bonus::original()),
        ('d', bonus::kniffel()),
        ('e', bonus::no_bonus()),
    ];
    for (short_name, bonus_rules) in variants {
        let rules = build_rules(false, bonus_rules);

        assert_eq!(rules.short_name, short_name);
        assert_eq!(
            rules.dice,
            DiceRules { short_name: 'a', dice: Dice(vec![((1, 6), 5)]) }
        );
        assert_eq!(rules.chips, 0);

        assert_eq!(rules.fields[US].len(), 6);
        assert_eq!(rules.fields[LS].len(), 7);
        let expected: [Vec<(Vec<u8>, u16)>; 2] = [
            vec![
                (vec![1, 1, 1, 1, 2], 4),
                (vec![1, 2, 2, 2, 2], 8),
                (vec![1, 3, 3, 3, 3], 12),
                (vec![1, 4, 4, 4, 4], 16),
                (vec![1, 5, 5, 5, 5], 20),
                (vec![1, 6, 6, 6, 6], 24),
            ],
            vec![
                (vec![1, 1, 1, 2, 3], 8),
                (vec![1, 1, 1, 1, 2], 6),
                (vec![1, 1, 1, 2, 2], 25),
                (vec![1, 2, 3, 4, 6], 30),
                (vec![1, 2, 3, 4, 5], 40),
                (vec![1, 1, 1, 1, 1], 50),
                (vec![1, 1, 1, 1, 2], 6),
            ],
        ];
        for (i, field) in expected.iter().enumerate() {
            for (j, (hand, score)) in field.iter().enumerate() {
                assert_eq!(rules.fields[i][j].function.score(hand), *score);
            }
        }

        assert_eq!(rules.us_bonus, USBonusRules { threshold: 63, bonus: 35 });
        assert_eq!(rules.yahtzee_bonus.short_name, short_name);
    }
}

#[test]
fn test_extreme_rules() {
    let rules = build_rules(true, bonus::no_bonus());

    assert_eq!(rules.short_name, 'f');
    assert_eq!(
        rules.dice,
        DiceRules { short_name: 'b', dice: Dice(vec![((1, 6), 5), ((0, 9), 1)]) }
    );
    assert_eq!(rules.chips, 3);

    assert_eq!(rules.fields[US].len(), 6);
    assert_eq!(rules.fields[LS].len(), 16);
    let expected: [Vec<(Vec<u8>, u16)>; 2] = [
        vec![
            (vec![1, 1, 1, 1, 2, 2], 4),
            (vec![1, 1, 2, 2, 2, 2], 8),
            (vec![1, 1, 3, 3, 3, 3], 12),
            (vec![1, 1, 4, 4, 4, 4], 16),
            (vec![1, 1, 5, 5, 5, 5], 20),
            (vec![1, 1, 6, 6, 6, 6], 24),
        ],
        vec![
            (vec![1, 1, 1, 2, 3, 4], 12),
            (vec![1, 1, 1, 1, 2, 3], 9),
            (vec![1, 1, 2, 2, 3, 4], 13),
            (vec![1, 1, 2, 2, 3, 3], 35),
            (vec![1, 1, 1, 2, 2, 2], 45),
            (vec![1, 1, 1, 2, 2, 3], 25),
            (vec![1, 1, 1, 1, 2, 2], 45),
            (vec![1, 1, 2, 2, 3, 4], 30),
            (vec![1, 1, 2, 3, 4, 5], 40),
            (vec![1, 2, 3, 4, 5, 6], 50),
            (vec![1, 1, 1, 1, 1, 2], 50),
            (vec![1, 1, 1, 1, 1, 1], 75),
            (vec![1, 1, 1, 2, 2, 3], 40),
            (vec![5, 5, 5, 5, 5, 8], 40),
            (vec![1, 1, 1, 1, 2, 3], 9),
            (vec![1, 1, 1, 1, 2, 3], 18),
        ],
    ];
    for (i, field) in expected.iter().enumerate() {
        for (j, (hand, score)) in field.iter().enumerate() {
            assert_eq!(rules.fields[i][j].function.score(hand), *score);
        }
    }

    assert_eq!(rules.us_bonus, USBonusRules { threshold: 73, bonus: 45 });
    assert_eq!(rules.yahtzee_bonus.short_name, bonus::no_bonus().short_name);
}

fn have_yahtzee_upper() -> Vec<bool> {
    vec![false; 6]
}

fn test_generic_upper_policy(rules: bonus::Rules, award: u16) {
    // upper section should award points when available
    assert_eq!(rules.apply(&have_yahtzee_upper(), 1, 0, 0), (5, award));
    // wrong upper field: no points, but the bonus
    assert_eq!(rules.apply(&have_yahtzee_upper(), 1, 0, 1), (0, award));
}

fn test_generic_lower_policy(rules: bonus::Rules, award: u16) -> Vec<bool> {
    // lower section while the upper pip field is free: forced to zero
    assert_eq!(rules.apply(&have_yahtzee_upper(), 1, 1, 0), (0, 0));
    // lower section once the upper pip field is used
    let mut upper_used = have_yahtzee_upper();
    upper_used[0] = true;
    assert_eq!(rules.apply(&upper_used, 1, 1, 0), (5, award));
    upper_used
}

#[test]
fn test_forced_joker() {
    test_generic_upper_policy(bonus::forced_joker(), 100);
    let upper_used = test_generic_lower_policy(bonus::forced_joker(), 100);
    // joker fields pay their fixed score
    assert_eq!(bonus::forced_joker().apply(&upper_used, 1, 1, 2), (25, 100));
}

#[test]
fn test_free_joker() {
    test_generic_upper_policy(bonus::free_joker(), 100);
    // lower section awards even when the upper pip field is free
    assert_eq!(bonus::free_joker().apply(&have_yahtzee_upper(), 1, 1, 0), (5, 100));
    // joker fields only once the upper pip field is used
    let mut upper_used = have_yahtzee_upper();
    upper_used[0] = true;
    assert_eq!(bonus::free_joker().apply(&upper_used, 1, 1, 3), (30, 100));
    assert_eq!(bonus::free_joker().apply(&have_yahtzee_upper(), 1, 1, 2), (0, 0));
}

#[test]
fn test_original() {
    // the upper section pays points but no bonus
    assert_eq!(bonus::original().apply(&have_yahtzee_upper(), 1, 0, 0), (5, 0));
    // the lower section pays points and the bonus
    assert_eq!(bonus::original().apply(&have_yahtzee_upper(), 1, 1, 0), (5, 100));
    assert_eq!(bonus::original().apply(&have_yahtzee_upper(), 1, 1, 4), (40, 100));
}

#[test]
fn test_kniffel() {
    test_generic_upper_policy(bonus::kniffel(), 50);
    let upper_used = test_generic_lower_policy(bonus::kniffel(), 50);
    // no joker placement under Kniffel rules
    assert_eq!(bonus::kniffel().apply(&upper_used, 1, 1, 2), (0, 0));
    // but Chance counts all five dice
    assert_eq!(bonus::kniffel().apply(&upper_used, 1, 1, 6), (5, 50));
}

#[test]
fn test_joker_fields() {
    assert_eq!(
        bonus::joker_fields(),
        vec![(2usize, 25u16), (3usize, 30u16), (4usize, 40u16)]
    );
}

#[test]
fn test_scorer_nonnegative_and_capped() {
    // scorer totals stay within the field's maximum
    let rules = build_rules(false, bonus::forced_joker());
    let hands: [Vec<u8>; 4] =
        [vec![1, 1, 1, 1, 1], vec![6, 6, 6, 6, 6], vec![1, 2, 3, 4, 5], vec![2, 2, 3, 3, 3]];
    for (j, field) in rules.fields[US].iter().enumerate() {
        for hand in hands.iter() {
            let s = field.function.score(hand);
            assert!(s <= 5 * (j as u16 + 1));
        }
    }
    for field in rules.fields[LS].iter() {
        for hand in hands.iter() {
            let s = field.function.score(hand);
            assert!(s <= 50.max(total(hand)));
        }
    }
}

#[test]
fn test_build_rules_rejects_nothing_regular() {
    // every bonus variant combines with the regular dice
    for b in bonus::all_variants() {
        let r = build_rules(false, b);
        assert_eq!(r.yahtzee_bonus, b);
    }
    // the Extreme dummy fields really are data
    let r = build_rules(true, bonus::no_bonus());
    assert!(matches!(r.fields[LS][15].function, Scorer::DoubleChance));
}
