//! Yahtzee-bonus rules: what a second Yahtzee scores in a chosen field,
//! and which additional bonus it awards, per published rule variant.

use vstd::prelude::*;
use crate::global::{Field, Pip, Score, Section};

verus! {

/// Score of a Yahtzee bonus.
pub const YAHTZEE_BONUS: Score = 100;

/// The policy deciding score and bonus for a repeated Yahtzee.
#[derive(Clone, Copy, Debug, PartialEq, Eq, Structural)]
pub enum Policy {
    /// Forced Joker, used in regular Yahtzee.
    ForcedJoker,
    /// Free Joker, a popular alternative.
    FreeJoker,
    /// Original 1956 rules.
    Original,
    /// Kniffel rules, as published in German-speaking countries.
    Kniffel,
    /// No Yahtzee bonus (and Yahtzee Extreme): the policy is never invoked.
    NoBonus,
    /// A constant award, independent of the scorecard.
    Constant(Score, Score),
}

/// A Yahtzee-bonus variant: its policy, tagged with the one-character name
/// that becomes part of the cache-key prefix.
#[derive(Clone, Copy, Debug, PartialEq, Eq, Structural)]
pub struct Rules {
    pub short_name: char,
    pub policy: Policy,
}

/// Forced Joker rules, used in regular Yahtzee.
pub fn forced_joker() -> (r: Rules)
    ensures
        r == (Rules { short_name: 'a', policy: Policy::ForcedJoker }),
{
    Rules { short_name: 'a', policy: Policy::ForcedJoker }
}

/// Free Joker rules, a popular alternative.
pub fn free_joker() -> (r: Rules)
    ensures
        r == (Rules { short_name: 'b', policy: Policy::FreeJoker }),
{
    Rules { short_name: 'b', policy: Policy::FreeJoker }
}

/// Original 1956 rules.
pub fn original() -> (r: Rules)
    ensures
        r == (Rules { short_name: 'c', policy: Policy::Original }),
{
    Rules { short_name: 'c', policy: Policy::Original }
}

/// Kniffel rules, as published in German-speaking countries.
pub fn kniffel() -> (r: Rules)
    ensures
        r == (Rules { short_name: 'd', policy: Policy::Kniffel }),
{
    Rules { short_name: 'd', policy: Policy::Kniffel }
}

/// No Yahtzee bonus; also the only choice for Yahtzee Extreme.
pub fn no_bonus() -> (r: Rules)
    ensures
        r == (Rules { short_name: 'e', policy: Policy::NoBonus }),
{
    Rules { short_name: 'e', policy: Policy::NoBonus }
}

/// All five published variants, in short-name order.
pub fn all_variants() -> (r: Vec<Rules>)
    ensures
        r@ == seq![
            Rules { short_name: 'a', policy: Policy::ForcedJoker },
            Rules { short_name: 'b', policy: Policy::FreeJoker },
            Rules { short_name: 'c', policy: Policy::Original },
            Rules { short_name: 'd', policy: Policy::Kniffel },
            Rules { short_name: 'e', policy: Policy::NoBonus },
        ],
{
    let mut v: Vec<Rules> = Vec::new();
    v.push(forced_joker());
    v.push(free_joker());
    v.push(original());
    v.push(kniffel());
    v.push(no_bonus());
    proof {
        assert(v@ =~= seq![
            Rules { short_name: 'a', policy: Policy::ForcedJoker },
            Rules { short_name: 'b', policy: Policy::FreeJoker },
            Rules { short_name: 'c', policy: Policy::Original },
            Rules { short_name: 'd', policy: Policy::Kniffel },
            Rules { short_name: 'e', policy: Policy::NoBonus },
        ]);
    }
    v
}

/// The fixed score a Yahtzee earns when used as a joker in a lower-section
/// field: Full House (2), Small Straight (3), Large Straight (4).
pub open spec fn spec_joker_score(field: int) -> Option<int> {
    if field == 2 {
        Some(25int)
    } else if field == 3 {
        Some(30int)
    } else if field == 4 {
        Some(40int)
    } else {
        None
    }
}

/// Indices and fixed scores of the lower-section fields where a Yahtzee may
/// be used as a joker.
pub fn joker_fields() -> (r: Vec<(usize, Score)>)
    ensures
        r@ == seq![(2usize, 25u16), (3usize, 30u16), (4usize, 40u16)],
        forall|i: int|
            0 <= i < r@.len() ==> spec_joker_score((#[trigger] r@[i]).0 as int) == Some(
                r@[i].1 as int,
            ),
{
    let mut v: Vec<(usize, Score)> = Vec::new();
    v.push((2, 25));
    v.push((3, 30));
    v.push((4, 40));
    proof {
        assert(v@ =~= seq![(2usize, 25u16), (3usize, 30u16), (4usize, 40u16)]);
    }
    v
}

/// Whether the policy reads the upper section of the scorecard.
pub open spec fn policy_uses_card(p: Policy) -> bool {
    p == Policy::ForcedJoker || p == Policy::FreeJoker || p == Policy::Kniffel
}

/// Score written into the chosen field, and additive bonus, for a repeated
/// Yahtzee of pip `pip` placed in `(section, field)`, given which upper
/// fields are used.
pub open spec fn spec_apply(
    p: Policy,
    upper_used: Seq<bool>,
    pip: Pip,
    section: int,
    field: int,
) -> (int, int) {
    match p {
        Policy::ForcedJoker => if section == 0 {
            if pip as int == field + 1 {
                (5 * pip as int, 100int)
            } else {
                (0int, 100int)
            }
        } else if !upper_used[pip as int - 1] {
            (0int, 0int)
        } else {
            match spec_joker_score(field) {
                Some(s) => (s, 100int),
                None => (5 * pip as int, 100int),
            }
        },
        Policy::FreeJoker => if section == 0 {
            if pip as int == field + 1 {
                (5 * pip as int, 100int)
            } else {
                (0int, 100int)
            }
        } else {
            match spec_joker_score(field) {
                Some(s) => if !upper_used[pip as int - 1] {
                    (0int, 0int)
                } else {
                    (s, 100int)
                },
                None => (5 * pip as int, 100int),
            }
        },
        Policy::Original => if section == 0 {
            if pip as int == field + 1 {
                (5 * pip as int, 0int)
            } else {
                (0int, 0int)
            }
        } else {
            match spec_joker_score(field) {
                Some(s) => (s, 100int),
                None => (5 * pip as int, 100int),
            }
        },
        Policy::Kniffel => if section == 0 {
            if pip as int == field + 1 {
                (5 * pip as int, 50int)
            } else {
                (0int, 50int)
            }
        } else if !upper_used[pip as int - 1] {
            (0int, 0int)
        } else {
            match spec_joker_score(field) {
                Some(_) => (0int, 0int),
                None => (5 * pip as int, 50int),
            }
        },
        Policy::NoBonus => (0int, 0int),
        Policy::Constant(s, b) => (s as int, b as int),
    }
}

impl Rules {
    /// Apply the variant's bonus policy.  Returns the score written into
    /// the chosen field and the bonus added to the lower-section total.
    pub fn apply(&self, upper_used: &Vec<bool>, pip: Pip, section: Section, field: Field) -> (r: (
        Score,
        Score,
    ))
        requires
            self.policy != Policy::NoBonus,
            policy_uses_card(self.policy) && section != 0 ==> 1 <= pip && pip as int
                <= upper_used@.len(),
        ensures
            (r.0 as int, r.1 as int) == spec_apply(
                self.policy,
                upper_used@,
                pip,
                section as int,
                field as int,
            ),
    {
        match self.policy {
            Policy::ForcedJoker => {
                if section == 0 {
                    if pip >= 1 && field == pip as usize - 1 {
                        (5 * pip as u16, 100)
                    } else {
                        (0, 100)
                    }
                } else if !upper_used[pip as usize - 1] {
                    (0, 0)
                } else if field == 2 {
                    (25, 100)
                } else if field == 3 {
                    (30, 100)
                } else if field == 4 {
                    (40, 100)
                } else {
                    (5 * pip as u16, 100)
                }
            },
            Policy::FreeJoker => {
                if section == 0 {
                    if pip >= 1 && field == pip as usize - 1 {
                        (5 * pip as u16, 100)
                    } else {
                        (0, 100)
                    }
                } else if field == 2 || field == 3 || field == 4 {
                    if !upper_used[pip as usize - 1] {
                        (0, 0)
                    } else if field == 2 {
                        (25, 100)
                    } else if field == 3 {
                        (30, 100)
                    } else {
                        (40, 100)
                    }
                } else {
                    (5 * pip as u16, 100)
                }
            },
            Policy::Original => {
                if section == 0 {
                    if pip >= 1 && field == pip as usize - 1 {
                        (5 * pip as u16, 0)
                    } else {
                        (0, 0)
                    }
                } else if field == 2 {
                    (25, 100)
                } else if field == 3 {
                    (30, 100)
                } else if field == 4 {
                    (40, 100)
                } else {
                    (5 * pip as u16, 100)
                }
            },
            Policy::Kniffel => {
                if section == 0 {
                    if pip >= 1 && field == pip as usize - 1 {
                        (5 * pip as u16, 50)
                    } else {
                        (0, 50)
                    }
                } else if !upper_used[pip as usize - 1] {
                    (0, 0)
                } else if field == 2 || field == 3 || field == 4 {
                    (0, 0)
                } else {
                    (5 * pip as u16, 50)
                }
            },
            Policy::NoBonus => (0, 0),
            Policy::Constant(s, b) => (s, b),
        }
    }
}

/// Bounds of every policy award: the field score is at most `5 * 255`, or
/// the policy's own constant; the bonus is at most 100, or the constant.
pub proof fn lemma_apply_bounds(p: Policy, upper_used: Seq<bool>, pip: Pip, section: int, field: int)
    ensures
        ({
            let (s, b) = spec_apply(p, upper_used, pip, section, field);
            &&& 0 <= s
            &&& 0 <= b
            &&& s <= vstd::math::max(1275, policy_constant_score(p))
            &&& b <= vstd::math::max(100, policy_constant_bonus(p))
        }),
{
}

/// The constant score of a `Constant` policy, 0 otherwise.
pub open spec fn policy_constant_score(p: Policy) -> int {
    match p {
        Policy::Constant(s, _) => s as int,
        _ => 0,
    }
}

/// The constant bonus of a `Constant` policy, 0 otherwise.
pub open spec fn policy_constant_bonus(p: Policy) -> int {
    match p {
        Policy::Constant(_, b) => b as int,
        _ => 0,
    }
}

} // verus!
