//! Hands, states, canonical forms and their compact cache-key encodings.

use optimal_yahtzee_extreme::caching::{parse_version, versions_compatible};
use optimal_yahtzee_extreme::games;
use optimal_yahtzee_extreme::global::{Dice, EngineError, PartialHand, D10, D6};
use optimal_yahtzee_extreme::repl::{keep_message, output_state, parse_hand};
use optimal_yahtzee_extreme::rules::{DiceRules, Rules, Scorer, SectionRule, USBonusRules};
use optimal_yahtzee_extreme::strategy::State;
use optimal_yahtzee_extreme::view_model::ViewModel;
use optimal_yahtzee_extreme::yahtzee_bonus_rules as bonus;

fn very_simple_rules() -> Rules {
    // one coin; throwing a 2 awards one point
    Rules {
        short_name: 'y',
        dice: DiceRules { short_name: 'y', dice: Dice(vec![((1, 2), 1)]) },
        chips: 2,
        fields: [
            Vec::new(),
            vec![SectionRule {
                name: String::from("Throw 2"),
                function: Scorer::TotalAtLeast { limit: 2, score: 1 },
            }],
        ],
        us_bonus: USBonusRules { threshold: 2, bonus: 0 },
        yahtzee_bonus: bonus::no_bonus(),
    }
}

#[test]
fn global_test_compact_fmt_partial_hand() {
    assert_eq!(PartialHand(Vec::new()).compact_fmt(), "");
    assert_eq!(PartialHand(vec![(D6, 1), (D10, 2)]).compact_fmt(), "1,6,1,0,9,2");
}

#[test]
fn test_is_full_hand() {
    let hand = PartialHand(vec![(D6, 1), (D10, 2)]);
    assert!(hand.is_full_hand(&Dice(vec![(D6, 1), (D10, 1)])));
    assert!(!hand.is_full_hand(&Dice(vec![(D6, 2)])));
}

#[test]
fn test_has_full_hand_length() {
    let hand = PartialHand(vec![(D6, 1)]);
    assert!(hand.has_full_hand_length(&Dice(vec![(D6, 1)])));
    assert!(!hand.has_full_hand_length(&Dice(vec![(D6, 2)])));
}

#[test]
fn strategy_test_compact_fmt_partial_hand() {
    assert_eq!(PartialHand(Vec::new()).compact_fmt(), "");
    assert_eq!(PartialHand(vec![((1, 2), 1), ((1, 2), 2)]).compact_fmt(), "1,2,1,1,2,2");
}

#[test]
fn test_new_state_from_rules() {
    assert_eq!(
        State::new_from_rules(&very_simple_rules()),
        State {
            score: [0, 0],
            used: [Vec::new(), vec![false]],
            scored_yahtzee: false,
            chips: 2,
        }
    );
}

#[test]
fn test_compact_fmt_state() {
    assert_eq!(
        State {
            score: [0, 0],
            used: [vec![false], vec![false, false]],
            scored_yahtzee: false,
            chips: 0,
        }
        .compact_fmt(),
        "0,0,0,000,0",
    );
}

#[test]
fn test_canonicalize_idempotent() {
    // canonical hands are their own canonical form
    let hand = PartialHand(vec![(D10, 3), (D6, 5), (D6, 1), (D10, 0)]);
    let once = hand.canonicalized();
    let twice = once.canonicalized();
    assert_eq!(once, twice);
    assert_eq!(once, PartialHand(vec![(D10, 0), (D10, 3), (D6, 1), (D6, 5)]));
    // and so are their cache keys
    assert_eq!(once.compact_fmt(), twice.compact_fmt());
}

#[test]
fn test_build_rules() {
    assert_eq!(games::build_rules("extreme").unwrap().short_name, 'f');
    assert_eq!(games::build_rules("forced").unwrap().short_name, 'a');
    assert!(games::build_rules("null").is_err());
}

#[test]
fn test_build_rules_all_names() {
    assert_eq!(games::build_rules("free").unwrap().short_name, 'b');
    assert_eq!(games::build_rules("original").unwrap().short_name, 'c');
    assert_eq!(games::build_rules("kniffel").unwrap().short_name, 'd');
    assert_eq!(games::build_rules("none").unwrap().short_name, 'e');
    match games::build_rules("") {
        Err(e) => assert_eq!(e, EngineError::UnknownGame),
        Ok(_) => panic!("empty game name accepted"),
    }
}

#[test]
fn test_parse_hand() {
    assert_eq!(
        parse_hand("11345").unwrap(),
        PartialHand(vec![(D6, 1), (D6, 1), (D6, 3), (D6, 4), (D6, 5)])
    );
    assert_eq!(parse_hand("12 7").unwrap(), PartialHand(vec![(D6, 1), (D6, 2), (D10, 7)]));
    assert_eq!(parse_hand(""), Ok(PartialHand(Vec::new())));
    assert_eq!(parse_hand("1a"), Err(EngineError::HandShapeMismatch));
    assert_eq!(parse_hand("12 x"), Err(EngineError::HandShapeMismatch));
    assert_eq!(parse_hand("12 999"), Err(EngineError::HandShapeMismatch));
}

#[test]
fn test_keep_message() {
    assert_eq!(keep_message(&PartialHand(vec![(D6, 1), (D6, 3)])), "You should keep d6 1, 3.");
    assert_eq!(
        keep_message(&PartialHand(vec![(D6, 2), (D10, 5)])),
        "You should keep d6 2 and the d10."
    );
    assert_eq!(keep_message(&PartialHand(vec![(D10, 5)])), "You should keep the d10.");
    assert_eq!(keep_message(&PartialHand(Vec::new())), ".");
}

#[test]
fn test_output_state() {
    let rules = very_simple_rules();
    let state = State::new_from_rules(&rules);
    let vm = ViewModel { rules, state, rerolls: 2 };
    let text = output_state(&vm);
    assert_eq!(
        text,
        "You have scored 0 in the upper section and 0 in the lower section.\n\nThrow 2: unused\nYou have 2 chip(s) left."
    );
}

#[test]
fn test_versions_compatible() {
    assert!(versions_compatible("1.2.3", "1.2.9"));
    assert!(versions_compatible("0.1.0", "0.1.7"));
    assert!(!versions_compatible("1.2.3", "1.3.0"));
    assert!(!versions_compatible("2.2.3", "1.2.3"));
    assert!(!versions_compatible("junk", "1.2.3"));
    assert!(!versions_compatible("1.2", "1.2.0"));
    assert!(!versions_compatible("1.2.3.4", "1.2.3"));
}

#[test]
fn test_parse_version() {
    assert_eq!(parse_version("1.22.333"), Some((1, 22, 333)));
    assert_eq!(parse_version("0.0.0"), Some((0, 0, 0)));
    assert_eq!(parse_version("1..2"), None);
    assert_eq!(parse_version("1.2.x"), None);
}
