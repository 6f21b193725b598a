//! Optimal-play engine for Yahtzee-family dice games.
//!
//! The engine computes, for each game state, the action that maximizes the
//! expected final score: which dice to keep before a reroll and, at the end
//! of a turn, which scorecard field to mark.  Probabilities are exact
//! rationals of outcome counts; expectation values are fixed-point numbers
//! scaled by 2^32.

pub mod caching;
pub mod games;
pub mod global;
pub mod hands;
pub mod probability;
pub mod repl;
pub mod rules;
pub mod strategy;
pub mod view_model;
pub mod text;
pub mod yahtzee_bonus_rules;

use vstd::prelude::*;

verus! {

} // verus!
