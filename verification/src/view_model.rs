//! Stateful view model adapting the strategy engine to user interfaces:
//! it keeps the player's state and the rerolls left in the ongoing turn.

use vstd::prelude::*;
use crate::global::{EngineError, Field, PartialHand, Rerolls, Section, REROLLS};
use crate::probability::{self, hand_ok};
use crate::rules::{rules_wf, Rules};
use crate::global::spec_canon;
use crate::strategy::{self, rules_model, sm_unused, sp_field, sp_reroll, state_wf, Caches};

verus! {

/// Recommendation for the player.
#[derive(Clone, Debug, PartialEq)]
pub enum Recommendation {
    /// Keep exactly these dice and reroll the rest.
    Reroll(PartialHand),
    /// Score in this field; the turn is over.
    Field(Section, Field),
}

/// Stateful view model holding the rules, the player's state and the
/// rerolls left in the ongoing turn.
#[derive(Clone, Debug, PartialEq)]
pub struct ViewModel {
    /// Rules used for this game.
    pub rules: Rules,
    /// Strategy state the player is in.
    pub state: strategy::State,
    /// Rerolls left in the ongoing turn.
    pub rerolls: Rerolls,
}

impl ViewModel {
    /// Recommend an action for the observed hand: which dice to keep, or
    /// which field to score in when the turn is over.  Rejects hands that
    /// do not fit the rules' dice multiset.
    pub fn recommend(&mut self, caches: &mut Caches, hand: PartialHand) -> (r: Result<
        Recommendation,
        EngineError,
    >)
        requires
            rules_wf(old(self).rules),
            state_wf(old(self).state.model(), rules_model(old(self).rules)),
            sm_unused(old(self).state.model()) >= 1,
            -2 <= old(self).rerolls <= REROLLS,
            old(caches).wf(),
            old(caches).compat(old(self).rules),
        ensures
            final(caches).wf(),
            final(caches).compat(old(self).rules),
            final(self).rules == old(self).rules,
            ({
                let rm = rules_model(old(self).rules);
                let sm = old(self).state.model();
                let ch = spec_canon(hand.0@);
                let dice = old(self).rules.dice.dice.0@;
                let fits = crate::global::spec_is_full_hand(ch, dice) && hand_ok(ch, dice);
                &&& (r is Err <==> !fits)
                &&& (r matches Err(e) ==> e == EngineError::HandShapeMismatch && *final(self)
                    == *old(self))
                &&& (fits ==> {
                    let rec = sp_reroll(sm, ch, old(self).rerolls as int, rm);
                    if crate::global::spec_is_full_hand(rec.hand, dice) {
                        let fr = sp_field(sm, ch, rm);
                        &&& r == Ok::<Recommendation, EngineError>(
                            Recommendation::Field(fr.section as usize, fr.field as usize),
                        )
                        &&& final(self).state.model() == fr.state
                        &&& final(self).rerolls == REROLLS
                        &&& fr.section == 0 || fr.section == 1
                        &&& fr.section == 0 ==> 0 <= fr.field < rm.us.len()
                        &&& fr.section == 1 ==> 0 <= fr.field < rm.ls.len()
                    } else {
                        &&& (r matches Ok(rr) ==> rr matches Recommendation::Reroll(h) && h.0@
                            == rec.hand)
                        &&& r is Ok
                        &&& final(self).state.model() == rec.state
                        &&& final(self).rerolls == old(self).rerolls - 1
                    }
                })
            }),
    {
        let ghost rm = rules_model(self.rules);
        let ghost sm = self.state.model();
        let ch = hand.canonicalized();
        let fits_counts = ch.is_full_hand(&self.rules.dice.dice);
        let fits_sub = match probability::leftover_of(&ch, &self.rules.dice.dice) {
            Some(_) => true,
            None => false,
        };
        let fits_pips = strategy::hand_pips_ok_exec(&ch);
        if !fits_counts || !fits_sub || !fits_pips {
            return Err(EngineError::HandShapeMismatch);
        }
        let rec = strategy::choose_reroll(caches, &self.state, &ch, self.rerolls, &self.rules);
        let full = rec.hand.is_full_hand(&self.rules.dice.dice);
        if full {
            let fr = strategy::choose_field(caches, &self.state, &ch, &self.rules);
            self.state = fr.state;
            self.rerolls = REROLLS;
            Ok(Recommendation::Field(fr.section, fr.field))
        } else {
            proof {
                if self.rerolls == -2 {
                    assert(rec.hand.0@ == ch.0@);
                }
            }
            self.state = rec.state;
            self.rerolls = self.rerolls - 1;
            Ok(Recommendation::Reroll(rec.hand))
        }
    }
}

} // verus!
