//! Mapping game names, as the command line gives them, to rules.

use vstd::prelude::*;
use crate::global::EngineError;
use crate::rules::{self, rules_wf, Rules};
use crate::text::str_eq;
use crate::yahtzee_bonus_rules as bonus;

verus! {

/// Build the rules for the named game: one of `extreme`, `forced`,
/// `free`, `original`, `kniffel`, `none`.
pub fn build_rules(game: &str) -> (r: Result<Rules, EngineError>)
    ensures
        r is Ok <==> (game@ == "extreme"@ || game@ == "forced"@ || game@ == "free"@ || game@
            == "original"@ || game@ == "kniffel"@ || game@ == "none"@),
        r matches Ok(ru) ==> rules_wf(ru) && ru.short_name == (if game@ == "extreme"@ {
            'f'
        } else if game@ == "forced"@ {
            'a'
        } else if game@ == "free"@ {
            'b'
        } else if game@ == "original"@ {
            'c'
        } else if game@ == "kniffel"@ {
            'd'
        } else {
            'e'
        }),
        r matches Err(e) ==> e == EngineError::UnknownGame,
{
    if str_eq(game, "extreme") {
        Ok(rules::build_rules(true, bonus::no_bonus()))
    } else if str_eq(game, "forced") {
        Ok(rules::build_rules(false, bonus::forced_joker()))
    } else if str_eq(game, "free") {
        Ok(rules::build_rules(false, bonus::free_joker()))
    } else if str_eq(game, "original") {
        Ok(rules::build_rules(false, bonus::original()))
    } else if str_eq(game, "kniffel") {
        Ok(rules::build_rules(false, bonus::kniffel()))
    } else if str_eq(game, "none") {
        Ok(rules::build_rules(false, bonus::no_bonus()))
    } else {
        Err(EngineError::UnknownGame)
    }
}

} // verus!
