//! The decision core end to end: probabilities, rerolls, field choices,
//! caches, and the view model.

use optimal_yahtzee_extreme::global::{Dice, EngineError, PartialHand, D10, D6, LS, US};
use optimal_yahtzee_extreme::rules::{build_rules, DiceRules, Rules, Scorer, SectionRule, USBonusRules};
use optimal_yahtzee_extreme::strategy::{
    choose_field, choose_reroll, dump_caches, populate_caches, probability_to_roll, Caches,
    Expectation, ProbabilitiesToRoll, State, EXP_ONE,
};
use optimal_yahtzee_extreme::view_model::{Recommendation, ViewModel};
use optimal_yahtzee_extreme::yahtzee_bonus_rules as bonus;

fn very_simple_rules() -> Rules {
    // one coin; throwing a 2 awards one point
    Rules {
        short_name: 'y',
        dice: DiceRules { short_name: 'y', dice: Dice(vec![((1, 2), 1)]) },
        chips: 2,
        fields: [
            Vec::new(),
            vec![SectionRule {
                name: String::from("Throw 2"),
                function: Scorer::TotalAtLeast { limit: 2, score: 1 },
            }],
        ],
        us_bonus: USBonusRules { threshold: 2, bonus: 0 },
        yahtzee_bonus: bonus::no_bonus(),
    }
}

fn very_simple_state() -> State {
    State::new_from_rules(&very_simple_rules())
}

fn as_float(e: Expectation) -> f64 {
    e as f64 / EXP_ONE as f64
}

fn prob_of(t: &ProbabilitiesToRoll, hand: &PartialHand) -> f64 {
    for (h, p) in t.table.iter() {
        if h == hand {
            return p.num as f64 / p.den as f64;
        }
    }
    panic!("hand not in table");
}

#[test]
fn test_probability_to_roll() {
    // play with four coins, three left to throw
    let mut caches = Caches::new();
    let t = probability_to_roll(
        &mut caches,
        PartialHand(vec![((1, 2), 1)]),
        &DiceRules { short_name: 'w', dice: Dice(vec![((1, 2), 4)]) },
    )
    .unwrap();
    assert_eq!(t.table.len(), 4);
    assert_eq!(
        prob_of(&t, &PartialHand(vec![((1, 2), 1), ((1, 2), 1), ((1, 2), 1), ((1, 2), 1)])),
        0.125
    );
    assert_eq!(
        prob_of(&t, &PartialHand(vec![((1, 2), 1), ((1, 2), 1), ((1, 2), 1), ((1, 2), 2)])),
        0.375
    );
    assert_eq!(
        prob_of(&t, &PartialHand(vec![((1, 2), 1), ((1, 2), 1), ((1, 2), 2), ((1, 2), 2)])),
        0.375
    );
    assert_eq!(
        prob_of(&t, &PartialHand(vec![((1, 2), 1), ((1, 2), 2), ((1, 2), 2), ((1, 2), 2)])),
        0.125
    );
}

#[test]
fn test_probability_to_roll_mismatch() {
    // a d6 in hand under coin rules does not fit
    let mut caches = Caches::new();
    let r = probability_to_roll(
        &mut caches,
        PartialHand(vec![(D6, 1)]),
        &DiceRules { short_name: 'x', dice: Dice(vec![((1, 2), 1)]) },
    );
    assert_eq!(r, Err(EngineError::MismatchHandRules));
}

#[test]
fn test_probability_sum() {
    // probabilities are exact rationals summing to one
    let mut caches = Caches::new();
    let t = probability_to_roll(
        &mut caches,
        PartialHand(Vec::new()),
        &DiceRules { short_name: 'w', dice: Dice(vec![((1, 2), 4)]) },
    )
    .unwrap();
    let mut sum: u64 = 0;
    let den = t.table[0].1.den;
    for (_, p) in t.table.iter() {
        assert!(p.num >= 1);
        assert_eq!(p.den, den);
        sum += p.num;
    }
    assert_eq!(sum, den);
}

#[test]
fn test_choose_reroll() {
    let rules = very_simple_rules();
    let mut state = very_simple_state();
    let mut caches = Caches::new();

    let ready_hand = PartialHand(vec![((1, 2), 2)]);
    let unready_hand = PartialHand(vec![((1, 2), 1)]);
    let empty_hand = PartialHand(Vec::new());

    // with a reroll and a 2 thrown, no reroll should happen
    let rec = choose_reroll(&mut caches, &state, &ready_hand, 1, &rules);
    assert_eq!(rec.hand, ready_hand.clone());
    assert_eq!(as_float(rec.expectation), 1.0);

    // with no rerolls and no 2 thrown yet, the chip should be used,
    // but only one chip can be used
    let rec = choose_reroll(&mut caches, &state, &unready_hand, 0, &rules);
    assert_eq!(rec.hand, empty_hand);
    assert_eq!(rec.state.chips, 1);
    assert_eq!(as_float(rec.expectation), 0.5);

    // with no rerolls and a 2 thrown, the chip should not be used
    let rec = choose_reroll(&mut caches, &state, &ready_hand, 0, &rules);
    assert_eq!(rec.hand, ready_hand.clone());
    assert_eq!(rec.state.chips, 2);
    assert_eq!(as_float(rec.expectation), 1.0);

    // with a reroll and no 2 thrown, the reroll should be used
    state.chips = 0;
    let rec = choose_reroll(&mut caches, &state, &unready_hand, 1, &rules);
    assert_eq!(rec.hand, empty_hand);
    assert_eq!(as_float(rec.expectation), 0.5);
}

#[test]
fn test_choose_field() {
    fn dummy_section_rule() -> SectionRule {
        SectionRule {
            name: String::from("Dummy"),
            function: Scorer::TotalAtLeast { limit: 0, score: 0 },
        }
    }

    // two coins; the lower section has blanks, Chance and a Yahtzee field;
    // upper-section bonus of 1 for 1; Yahtzee bonus always awards (4, 1)
    let simple_rules = Rules {
        short_name: 'z',
        dice: DiceRules { short_name: 'z', dice: Dice(vec![((1, 2), 2)]) },
        chips: 0,
        fields: [
            vec![
                SectionRule {
                    name: String::from("Count and Add Only Aces"),
                    function: Scorer::Upper(1),
                },
                SectionRule {
                    name: String::from("Count and Add Only Twos"),
                    function: Scorer::Upper(2),
                },
            ],
            vec![
                dummy_section_rule(),
                dummy_section_rule(),
                dummy_section_rule(),
                dummy_section_rule(),
                SectionRule { name: String::from("Chance"), function: Scorer::Chance },
                SectionRule {
                    name: String::from("All Twos"),
                    function: Scorer::Identical {
                        required: vec![2],
                        value: optimal_yahtzee_extreme::hands::GroupScore::Fixed(4),
                    },
                },
            ],
        ],
        us_bonus: USBonusRules { threshold: 1, bonus: 1 },
        yahtzee_bonus: bonus::Rules { short_name: 'z', policy: bonus::Policy::Constant(4, 1) },
    };

    let pair_of_twos = PartialHand(vec![((1, 2), 2), ((1, 2), 2)]);
    let ls_full_except_chance = [vec![true; 4], vec![false], vec![true]].concat();
    let mut caches = Caches::new();

    // a pair of twos scores higher with Chance than with Count Aces when
    // All Twos is taken
    let mut state = State::new_from_rules(&simple_rules);
    state.score[1] = 1;
    state.used = [vec![false, true], ls_full_except_chance.clone()];
    let rec = choose_field(&mut caches, &state, &pair_of_twos, &simple_rules);
    assert_eq!(rec.section, LS);
    assert_eq!(rec.field, 4);
    assert_eq!(rec.state.score[LS], 4 + 1);
    assert_eq!(rec.state.used[LS][4], true);

    // the Yahtzee field beats Chance when both are open
    state.used = [vec![true; 2], [vec![true; 4], vec![false; 2]].concat()];
    let rec = choose_field(&mut caches, &state, &pair_of_twos, &simple_rules);
    assert_eq!(rec.section, LS);
    assert_eq!(rec.field, 5);
    assert_eq!(rec.state.score[LS], 4 + 1);
    assert_eq!(rec.state.used[LS][5], true);
    assert_eq!(rec.state.scored_yahtzee, true);

    // the upper-section bonus is awarded on the terminal move
    state.used = [vec![false, true], vec![true; 6]];
    let hand = PartialHand(vec![((1, 2), 1), ((1, 2), 2)]);
    let rec = choose_field(&mut caches, &state, &hand, &simple_rules);
    assert_eq!(rec.section, US);
    assert_eq!(rec.field, 0);
    assert_eq!(rec.state.score[US], 2);

    // and not awarded when the threshold is missed
    let rec = choose_field(&mut caches, &state, &pair_of_twos, &simple_rules);
    assert_eq!(rec.section, US);
    assert_eq!(rec.field, 0);
    assert_eq!(rec.state.score[US], 0);

    // the Yahtzee bonus is awarded once scored_yahtzee is set
    state.used = [vec![true; 2], ls_full_except_chance.clone()];
    state.scored_yahtzee = true;
    let rec = choose_field(&mut caches, &state, &pair_of_twos, &simple_rules);
    assert_eq!(rec.section, LS);
    assert_eq!(rec.field, 4);
    assert_eq!(rec.state.score[LS], 4 + 1 + 1);
}

#[test]
fn test_recommend() {
    let rules = very_simple_rules();
    // without chips, the turn ends when the rerolls are spent
    let mut state = very_simple_state();
    state.chips = 0;
    let mut caches = Caches::new();

    let mut view_model = ViewModel { rules, state: state.clone(), rerolls: 1 };

    // this hand does not win points
    let hand = PartialHand(vec![((1, 2), 1)]);

    let mut expected_view_model_after_reroll = view_model.clone();
    let recommendation = view_model.recommend(&mut caches, hand.clone());
    // we should reroll everything
    assert_eq!(recommendation, Ok(Recommendation::Reroll(PartialHand(Vec::new()))));
    expected_view_model_after_reroll.rerolls = 0;
    assert_eq!(view_model, expected_view_model_after_reroll);

    let mut expected_state_after_finish = state;
    let mut expected_view_model_after_finish = view_model.clone();

    let recommendation = view_model.recommend(&mut caches, hand);
    // now a field must be used
    assert_eq!(recommendation, Ok(Recommendation::Field(1, 0)));
    expected_state_after_finish.used[1][0] = true;
    expected_view_model_after_finish.state = expected_state_after_finish;
    expected_view_model_after_finish.rerolls = 2;
    assert_eq!(view_model, expected_view_model_after_finish);
}

#[test]
fn test_recommend_shape_mismatch() {
    let rules = very_simple_rules();
    let state = very_simple_state();
    let mut caches = Caches::new();
    let mut view_model = ViewModel { rules, state, rerolls: 2 };
    // two coins when the rules roll one
    let hand = PartialHand(vec![((1, 2), 1), ((1, 2), 2)]);
    assert_eq!(
        view_model.recommend(&mut caches, hand),
        Err(EngineError::HandShapeMismatch)
    );
}

#[test]
fn test_recommend_with_chips() {
    // with chips in hand, the engine spends one when it pays off
    let rules = very_simple_rules();
    let state = very_simple_state();
    let mut caches = Caches::new();
    let mut view_model = ViewModel { rules, state, rerolls: 0 };
    let hand = PartialHand(vec![((1, 2), 1)]);
    let rec = view_model.recommend(&mut caches, hand);
    assert_eq!(rec, Ok(Recommendation::Reroll(PartialHand(Vec::new()))));
    assert_eq!(view_model.state.chips, 1);
    assert_eq!(view_model.rerolls, -1);
    // the chip reroll produced the winning face: score it
    let rec = view_model.recommend(&mut caches, PartialHand(vec![((1, 2), 2)]));
    assert_eq!(rec, Ok(Recommendation::Field(1, 0)));
}

#[test]
fn test_scenario_three_coins() {
    // toy d2 rules with three coins, one kept: exact quarters
    let mut caches = Caches::new();
    let t = probability_to_roll(
        &mut caches,
        PartialHand(vec![((1, 2), 1)]),
        &DiceRules { short_name: 'v', dice: Dice(vec![((1, 2), 3)]) },
    )
    .unwrap();
    assert_eq!(t.table.len(), 3);
    assert_eq!(
        prob_of(&t, &PartialHand(vec![((1, 2), 1), ((1, 2), 1), ((1, 2), 1)])),
        0.25
    );
    assert_eq!(
        prob_of(&t, &PartialHand(vec![((1, 2), 1), ((1, 2), 1), ((1, 2), 2)])),
        0.5
    );
    assert_eq!(
        prob_of(&t, &PartialHand(vec![((1, 2), 1), ((1, 2), 2), ((1, 2), 2)])),
        0.25
    );
}

#[test]
fn test_scenario_chip_spent_only_when_it_helps() {
    // one d2, two chips, one field scoring pip minus one:
    // with a 1 thrown the chip must be used, with a 2 it must not
    let rules = very_simple_rules();
    let state = very_simple_state();
    let mut caches = Caches::new();
    let rec = choose_reroll(&mut caches, &state, &PartialHand(vec![((1, 2), 1)]), 0, &rules);
    assert_eq!(rec.state.chips, 1);
    assert_eq!(as_float(rec.expectation), 0.5);
    let rec = choose_reroll(&mut caches, &state, &PartialHand(vec![((1, 2), 2)]), 0, &rules);
    assert_eq!(rec.state.chips, 2);
    assert_eq!(as_float(rec.expectation), 1.0);
}

#[test]
fn test_scenario_extreme_last_field_yahtzee() {
    // Extreme rules, only the Yahtzee Extreme field open, six ones thrown:
    // the terminal move scores 75 on top of the running total
    let rules = build_rules(true, bonus::no_bonus());
    let mut state = State::new_from_rules(&rules);
    state.score = [30, 40];
    state.scored_yahtzee = true;
    let mut ls_used = vec![true; 16];
    ls_used[11] = false;
    state.used = [vec![true; 6], ls_used];
    let hand = PartialHand(vec![(D6, 1), (D6, 1), (D6, 1), (D6, 1), (D6, 1), (D10, 1)]);
    let mut caches = Caches::new();
    let rec = choose_field(&mut caches, &state, &hand, &rules);
    assert_eq!(rec.section, LS);
    assert_eq!(rec.field, 11);
    assert_eq!(rec.state.score[US], 30);
    assert_eq!(rec.state.score[LS], 40 + 75);
    assert_eq!(as_float(rec.expectation), 145.0);
}

#[test]
fn test_scenario_forced_joker_gating() {
    // a coin game under Forced Joker: with a Yahtzee already scored and
    // the matching upper field open, the repeated Yahtzee must go to the
    // upper section; the lower joker field would be forced to zero
    let rules = Rules {
        short_name: 'w',
        dice: DiceRules { short_name: 'w', dice: Dice(vec![((1, 2), 2)]) },
        chips: 0,
        fields: [
            vec![
                SectionRule {
                    name: String::from("Count and Add Only Aces"),
                    function: Scorer::Upper(1),
                },
                SectionRule {
                    name: String::from("Count and Add Only Twos"),
                    function: Scorer::Upper(2),
                },
            ],
            vec![
                SectionRule {
                    name: String::from("Pair or Nothing"),
                    function: Scorer::TotalAtLeast { limit: 0, score: 0 },
                },
                SectionRule { name: String::from("Still Nothing"), function: Scorer::TotalAtLeast { limit: 0, score: 0 } },
                SectionRule { name: String::from("Joker Slot"), function: Scorer::TotalAtLeast { limit: 0, score: 0 } },
                SectionRule { name: String::from("Also Nothing"), function: Scorer::TotalAtLeast { limit: 0, score: 0 } },
                SectionRule { name: String::from("Chance"), function: Scorer::Chance },
                SectionRule {
                    name: String::from("Coin Yahtzee"),
                    function: Scorer::Identical {
                        required: vec![2],
                        value: optimal_yahtzee_extreme::hands::GroupScore::Fixed(4),
                    },
                },
            ],
        ],
        us_bonus: USBonusRules { threshold: 100, bonus: 1 },
        yahtzee_bonus: bonus::forced_joker(),
    };
    let mut state = State::new_from_rules(&rules);
    state.scored_yahtzee = true;
    // only Aces and the lower joker slot (index 2) are open
    state.used = [vec![false, true], vec![true, true, false, true, true, true]];
    let pair_of_ones = PartialHand(vec![((1, 2), 1), ((1, 2), 1)]);
    let mut caches = Caches::new();
    let rec = choose_field(&mut caches, &state, &pair_of_ones, &rules);
    assert_eq!(rec.section, US);
    assert_eq!(rec.field, 0);
    assert_eq!(rec.state.score[US], 5);
    assert_eq!(rec.state.score[LS], 100);
}

#[test]
fn test_cache_round_trip() {
    // restoring a dump restores the same mathematics
    let rules = very_simple_rules();
    let state = very_simple_state();
    let mut caches = Caches::new();
    let rec = choose_reroll(&mut caches, &state, &PartialHand(vec![((1, 2), 1)]), 1, &rules);
    assert!(caches.reroll.len() >= 1);

    let dump = dump_caches(&caches);
    let mut restored = Caches::new();
    populate_caches(&mut restored, dump);
    assert_eq!(restored.roll.len(), caches.roll.len());
    assert_eq!(restored.reroll.len(), caches.reroll.len());
    assert_eq!(restored.field.len(), caches.field.len());
    for (a, b) in restored.reroll.iter().zip(caches.reroll.iter()) {
        assert_eq!(a.0, b.0);
        assert_eq!(a.1, b.1);
        assert_eq!(a.2, b.2);
        assert_eq!(a.3, b.3);
        assert_eq!(a.4, b.4);
    }

    // a query against the restored cache returns the same recommendation
    let rec2 = choose_reroll(&mut restored, &state, &PartialHand(vec![((1, 2), 1)]), 1, &rules);
    assert_eq!(rec, rec2);
}

#[test]
fn test_determinism() {
    // repeated invocations return equal outputs
    let rules = very_simple_rules();
    let state = very_simple_state();
    let mut c1 = Caches::new();
    let mut c2 = Caches::new();
    let h = PartialHand(vec![((1, 2), 1)]);
    let a = choose_reroll(&mut c1, &state, &h, 1, &rules);
    let b = choose_reroll(&mut c2, &state, &h, 1, &rules);
    assert_eq!(a, b);
    // and a second run on the warm cache returns the cached value
    let c = choose_reroll(&mut c1, &state, &h, 1, &rules);
    assert_eq!(a, c);
}
