//! Rules for a game: dice, chips, scorecard fields, bonuses.
//!
//! The decision core reads rules as data only: every scorer is a value of
//! the `Scorer` enum, so variant differences live entirely in rules
//! construction and the Yahtzee-bonus policy.

use vstd::prelude::*;
use crate::global::{Chips, Dice, Die, Frequency, Pip, Score};
use crate::hands;
use crate::hands::GroupScore;
use crate::yahtzee_bonus_rules as bonus;

verus! {

/// Largest score any single well-formed field scorer may award.
pub const FIELD_SCORE_CAP: u16 = 400;
/// Largest combined score-plus-bonus a Yahtzee-bonus policy may award.
pub const POLICY_CAP: u16 = 1475;
/// Largest upper-section bonus well-formed rules may award.
pub const US_BONUS_CAP: u16 = 2000;
/// Largest total a game under well-formed rules can ever reach:
/// 32 fields, each worth at most `FIELD_SCORE_CAP + POLICY_CAP`,
/// plus the upper-section bonus.
pub const GAME_CAP: u16 = 62000;

/// A field's scoring function, as data.
#[derive(Clone, Debug, PartialEq, Eq)]
pub enum Scorer {
    /// Upper section: count the pips equal to the given pip, times it.
    Upper(Pip),
    /// Identical groups (Three of a Kind, Full House, Yahtzee, ...).
    Identical { required: Vec<Frequency>, value: GroupScore },
    /// A straight of at least `length` consecutive distinct pips.
    Straight { length: Frequency, score: Score },
    /// The sum of all pips (Chance).
    Chance,
    /// Twice the sum of all pips (Super Chance).
    DoubleChance,
    /// `score` if the total is at most `limit`, else 0.
    TotalAtMost { limit: Score, score: Score },
    /// `score` if the total is at least `limit`, else 0.
    TotalAtLeast { limit: Score, score: Score },
}

/// The score a scorer gives to a hand of pips.
pub open spec fn spec_score(f: Scorer, s: Seq<Pip>) -> int {
    match f {
        Scorer::Upper(p) => hands::spec_upper_section(p, s),
        Scorer::Identical { required, value } => hands::spec_generic_identical(
            required@,
            value,
            s,
        ),
        Scorer::Straight { length, score } => if hands::spec_has_straight(s, length as int) {
            score as int
        } else {
            0
        },
        Scorer::Chance => hands::spec_total(s),
        Scorer::DoubleChance => 2 * hands::spec_total(s),
        Scorer::TotalAtMost { limit, score } => if hands::spec_total(s) <= limit as int {
            score as int
        } else {
            0
        },
        Scorer::TotalAtLeast { limit, score } => if hands::spec_total(s) >= limit as int {
            score as int
        } else {
            0
        },
    }
}

/// An upper bound on what a scorer can award for hands of at most
/// `max_len` pips, each at most `max_pip`.
pub open spec fn scorer_cap(f: Scorer, max_len: int, max_pip: int) -> int {
    match f {
        Scorer::Upper(p) => max_len * p as int,
        Scorer::Identical { required, value } => match value {
            GroupScore::Total => max_len * max_pip,
            GroupScore::Fixed(v) => v as int,
        },
        Scorer::Straight { length, score } => score as int,
        Scorer::Chance => max_len * max_pip,
        Scorer::DoubleChance => 2 * max_len * max_pip,
        Scorer::TotalAtMost { limit, score } => score as int,
        Scorer::TotalAtLeast { limit, score } => score as int,
    }
}

/// Every scorer output is nonnegative and at most the field's maximum.
pub proof fn lemma_scorer_bound(f: Scorer, s: Seq<Pip>, max_len: int, max_pip: int)
    requires
        s.len() <= max_len,
        forall|i: int| 0 <= i < s.len() ==> (#[trigger] s[i]) as int <= max_pip,
        max_pip >= 0,
    ensures
        0 <= spec_score(f, s),
        spec_score(f, s) <= scorer_cap(f, max_len, max_pip),
{
    hands::lemma_total_bound(s, max_pip);
    assert(s.len() * max_pip <= max_len * max_pip) by (nonlinear_arith)
        requires
            0 <= s.len() <= max_len,
            max_pip >= 0,
    ;
    match f {
        Scorer::Upper(p) => {
            hands::lemma_count_pip_le_len(s, p);
            assert(hands::count_pip(s, p) * p as int <= max_len * p as int) by (nonlinear_arith)
                requires
                    0 <= hands::count_pip(s, p) <= max_len,
                    p as int >= 0,
            ;
            assert(hands::count_pip(s, p) * p as int >= 0) by (nonlinear_arith)
                requires
                    hands::count_pip(s, p) >= 0,
                    p as int >= 0,
            ;
        },
        Scorer::DoubleChance => {
            assert(2 * hands::spec_total(s) <= 2 * max_len * max_pip) by (nonlinear_arith)
                requires
                    hands::spec_total(s) <= max_len * max_pip,
            ;
        },
        _ => {},
    }
}

/// Rules for the dice used.
#[derive(Clone, Debug, PartialEq)]
pub struct DiceRules {
    /// Short name for caching.
    pub short_name: char,
    /// The dice in play.
    pub dice: Dice,
}

/// Rule for one field on the scorecard.
#[derive(Clone, Debug, PartialEq)]
pub struct SectionRule {
    /// Name of the field for user interaction.
    pub name: String,
    /// Scoring function, as data.
    pub function: Scorer,
}

/// Rule for the upper-section bonus.
#[derive(Clone, Copy, Debug, PartialEq, Eq, Structural)]
pub struct USBonusRules {
    /// Score required to receive the upper-section bonus (63 regular).
    pub threshold: Score,
    /// Bonus granted when the requirement is met.
    pub bonus: Score,
}

/// Rules for a game.
#[derive(Clone, Debug, PartialEq)]
pub struct Rules {
    pub short_name: char,
    pub dice: DiceRules,
    pub chips: Chips,
    pub fields: [Vec<SectionRule>; 2],
    pub us_bonus: USBonusRules,
    pub yahtzee_bonus: bonus::Rules,
}

/// Well-formed dice: ordered ranges, positive distinct entries, and few
/// enough dice and outcomes that all engine arithmetic stays in bounds.
pub open spec fn dice_wf(d: Dice) -> bool {
    let s = d.0@;
    &&& s.len() <= 4
    &&& forall|i: int| 0 <= i < s.len() ==> (#[trigger] s[i]).0.0 <= s[i].0.1
    &&& forall|i: int| 0 <= i < s.len() ==> (#[trigger] s[i]).1 >= 1
    &&& forall|i: int, j: int| 0 <= i < j < s.len() ==> (#[trigger] s[i]).0 != (#[trigger] s[j]).0
    &&& crate::global::sum_freq(s) <= 8
    &&& rolls_product(s) <= 0x100000
}

/// The number of distinct outcomes when rolling all the dice.
pub open spec fn rolls_product(s: Seq<(Die, Frequency)>) -> int
    decreases s.len(),
{
    if s.len() == 0 {
        1
    } else {
        rolls_product(s.drop_last()) * range_pow(
            s.last().0.1 as int - s.last().0.0 as int + 1,
            s.last().1 as int,
        )
    }
}

/// `range` to the power `freq`.
pub open spec fn range_pow(range: int, freq: int) -> int
    decreases freq,
{
    if freq <= 0 {
        1
    } else {
        range * range_pow(range, freq - 1)
    }
}

/// The largest pip any die of the rules can show.
pub open spec fn dice_max_pip(s: Seq<(Die, Frequency)>) -> int
    decreases s.len(),
{
    if s.len() == 0 {
        0
    } else if s.last().0.1 as int > dice_max_pip(s.drop_last()) {
        s.last().0.1 as int
    } else {
        dice_max_pip(s.drop_last())
    }
}

/// Well-formed game rules: the engine's contracts hold for exactly these.
pub open spec fn rules_wf(r: Rules) -> bool {
    let us = r.fields@[0]@;
    let ls = r.fields@[1]@;
    let maxl = crate::global::sum_freq(r.dice.dice.0@);
    let maxp = dice_max_pip(r.dice.dice.0@);
    &&& dice_wf(r.dice.dice)
    &&& r.dice.dice.0@.len() >= 1
    &&& (bonus::policy_uses_card(r.yahtzee_bonus.policy) ==> yahtzee_field_guarded(
        ls[crate::global::YAHTZEE_INDEX as int].function,
    ))
    &&& us.len() <= 16
    &&& ls.len() <= 16
    &&& us.len() + ls.len() >= 1
    &&& r.yahtzee_bonus.policy != bonus::Policy::NoBonus ==> ls.len()
        > crate::global::YAHTZEE_INDEX
    &&& bonus::policy_uses_card(r.yahtzee_bonus.policy) ==> forall|i: int|
        0 <= i < r.dice.dice.0@.len() ==> 1 <= (#[trigger] r.dice.dice.0@[i]).0.0
            && r.dice.dice.0@[i].0.1 as int <= us.len()
    &&& forall|i: int|
        0 <= i < us.len() ==> scorer_cap((#[trigger] us[i]).function, maxl, maxp)
            <= FIELD_SCORE_CAP as int
    &&& forall|i: int|
        0 <= i < ls.len() ==> scorer_cap((#[trigger] ls[i]).function, maxl, maxp)
            <= FIELD_SCORE_CAP as int
    &&& (r.yahtzee_bonus.policy matches bonus::Policy::Constant(s, b) ==> s as int + b as int
        <= POLICY_CAP as int)
    &&& r.us_bonus.bonus <= US_BONUS_CAP
}

/// The Yahtzee field scores nothing on an empty hand: it demands at least
/// one group of identical dice.
pub open spec fn yahtzee_field_guarded(f: Scorer) -> bool {
    match f {
        Scorer::Identical { required, value } => required@.len() >= 1,
        _ => false,
    }
}

impl Scorer {
    /// Score a hand of pips with this scorer.
    pub fn score(&self, hand: &[Pip]) -> (r: Score)
        requires
            hand@.len() <= 255,
            *self matches Scorer::DoubleChance ==> 2 * hands::spec_total(hand@) <= u16::MAX as int,
        ensures
            r as int == spec_score(*self, hand@),
    {
        match self {
            Scorer::Upper(p) => {
                proof {
                    assert(hand@.len() * (*p) as int <= 65535) by (nonlinear_arith)
                        requires
                            hand@.len() <= 255,
                            (*p) as int <= 255,
                    ;
                }
                hands::generic_upper_section(*p, hand)
            },
            Scorer::Identical { required, value } => {
                hands::generic_identical(hands::copy_freqs(required), *value, hand)
            },
            Scorer::Straight { length, score } => hands::generic_straight(*length, *score, hand),
            Scorer::Chance => hands::total(hand),
            Scorer::DoubleChance => 2 * hands::total(hand),
            Scorer::TotalAtMost { limit, score } => {
                if hands::total(hand) <= *limit {
                    *score
                } else {
                    0
                }
            },
            Scorer::TotalAtLeast { limit, score } => {
                if hands::total(hand) >= *limit {
                    *score
                } else {
                    0
                }
            },
        }
    }
}

/// Whether a scorer is the identical-groups scorer with the given
/// requirements and value.
pub open spec fn is_identical(f: Scorer, req: Seq<Frequency>, v: GroupScore) -> bool {
    match f {
        Scorer::Identical { required, value } => required@ == req && value == v,
        _ => false,
    }
}

/// The upper-section rule table: Aces through Sixes.
pub open spec fn us_rules_ok(s: Seq<SectionRule>) -> bool {
    &&& s.len() == 6
    &&& forall|i: int| 0 <= i < 6 ==> (#[trigger] s[i]).function == Scorer::Upper((i + 1) as u8)
    &&& s[0].name@ == "Count and Add Only Aces"@
    &&& s[1].name@ == "Count and Add Only Twos"@
    &&& s[2].name@ == "Count and Add Only Threes"@
    &&& s[3].name@ == "Count and Add Only Fours"@
    &&& s[4].name@ == "Count and Add Only Fives"@
    &&& s[5].name@ == "Count and Add Only Sixes"@
}

/// The regular lower-section rule table.
pub open spec fn regular_ls_ok(s: Seq<SectionRule>) -> bool {
    &&& s.len() == 7
    &&& is_identical(s[0].function, seq![3u8], GroupScore::Total)
    &&& s[0].name@ == "Three of a Kind"@
    &&& is_identical(s[1].function, seq![4u8], GroupScore::Total)
    &&& s[1].name@ == "Four of a Kind"@
    &&& is_identical(s[2].function, seq![2u8, 3u8], GroupScore::Fixed(25))
    &&& s[2].name@ == "Full House"@
    &&& s[3].function == (Scorer::Straight { length: 4, score: 30 })
    &&& s[3].name@ == "Small Straight"@
    &&& s[4].function == (Scorer::Straight { length: 5, score: 40 })
    &&& s[4].name@ == "Large Straight"@
    &&& is_identical(s[5].function, seq![5u8], GroupScore::Fixed(50))
    &&& s[5].name@ == "Yahtzee"@
    &&& s[6].function == Scorer::Chance
    &&& s[6].name@ == "Chance"@
}

/// The Extreme lower-section rule table.
pub open spec fn extreme_ls_ok(s: Seq<SectionRule>) -> bool {
    &&& s.len() == 16
    &&& is_identical(s[0].function, seq![3u8], GroupScore::Total)
    &&& s[0].name@ == "Three of a Kind"@
    &&& is_identical(s[1].function, seq![4u8], GroupScore::Total)
    &&& s[1].name@ == "Four of a Kind"@
    &&& is_identical(s[2].function, seq![2u8, 2u8], GroupScore::Total)
    &&& s[2].name@ == "Two Pairs"@
    &&& is_identical(s[3].function, seq![2u8, 2u8, 2u8], GroupScore::Fixed(35))
    &&& s[3].name@ == "Three Pairs"@
    &&& is_identical(s[4].function, seq![3u8, 3u8], GroupScore::Fixed(45))
    &&& s[4].name@ == "Two Triples"@
    &&& is_identical(s[5].function, seq![2u8, 3u8], GroupScore::Fixed(25))
    &&& s[5].name@ == "Full House"@
    &&& is_identical(s[6].function, seq![2u8, 4u8], GroupScore::Fixed(45))
    &&& s[6].name@ == "Grand Full House"@
    &&& s[7].function == (Scorer::Straight { length: 4, score: 30 })
    &&& s[7].name@ == "Small Straight"@
    &&& s[8].function == (Scorer::Straight { length: 5, score: 40 })
    &&& s[8].name@ == "Large Straight"@
    &&& s[9].function == (Scorer::Straight { length: 6, score: 50 })
    &&& s[9].name@ == "Highway"@
    &&& is_identical(s[10].function, seq![5u8], GroupScore::Fixed(50))
    &&& s[10].name@ == "Yahtzee"@
    &&& is_identical(s[11].function, seq![6u8], GroupScore::Fixed(75))
    &&& s[11].name@ == "Yahtzee Extreme"@
    &&& s[12].function == (Scorer::TotalAtMost { limit: 10, score: 40 })
    &&& s[12].name@ == "10 or less"@
    &&& s[13].function == (Scorer::TotalAtLeast { limit: 33, score: 40 })
    &&& s[13].name@ == "33 or more"@
    &&& s[14].function == Scorer::Chance
    &&& s[14].name@ == "Chance"@
    &&& s[15].function == Scorer::DoubleChance
    &&& s[15].name@ == "Super Chance"@
}

fn named(name: &str, function: Scorer) -> (r: SectionRule)
    ensures
        r.name@ == name@,
        r.function == function,
{
    SectionRule { name: name.to_owned(), function }
}

/// Build the upper-section field rules.
fn build_upper_section_rules() -> (r: Vec<SectionRule>)
    ensures
        us_rules_ok(r@),
{
    let mut v: Vec<SectionRule> = Vec::new();
    v.push(named("Count and Add Only Aces", Scorer::Upper(1)));
    v.push(named("Count and Add Only Twos", Scorer::Upper(2)));
    v.push(named("Count and Add Only Threes", Scorer::Upper(3)));
    v.push(named("Count and Add Only Fours", Scorer::Upper(4)));
    v.push(named("Count and Add Only Fives", Scorer::Upper(5)));
    v.push(named("Count and Add Only Sixes", Scorer::Upper(6)));
    v
}

fn one_freq(a: Frequency) -> (r: Vec<Frequency>)
    ensures
        r@ == seq![a],
{
    let mut v: Vec<Frequency> = Vec::new();
    v.push(a);
    proof {
        assert(v@ =~= seq![a]);
    }
    v
}

fn two_freqs(a: Frequency, b: Frequency) -> (r: Vec<Frequency>)
    ensures
        r@ == seq![a, b],
{
    let mut v: Vec<Frequency> = Vec::new();
    v.push(a);
    v.push(b);
    proof {
        assert(v@ =~= seq![a, b]);
    }
    v
}

fn three_freqs(a: Frequency, b: Frequency, c: Frequency) -> (r: Vec<Frequency>)
    ensures
        r@ == seq![a, b, c],
{
    let mut v: Vec<Frequency> = Vec::new();
    v.push(a);
    v.push(b);
    v.push(c);
    proof {
        assert(v@ =~= seq![a, b, c]);
    }
    v
}

/// Build the lower-section field rules; `extreme` selects the variant.
fn build_lower_section_rules(extreme: bool) -> (r: Vec<SectionRule>)
    ensures
        if extreme {
            extreme_ls_ok(r@)
        } else {
            regular_ls_ok(r@)
        },
{
    let mut v: Vec<SectionRule> = Vec::new();
    v.push(
        named(
            "Three of a Kind",
            Scorer::Identical { required: one_freq(3), value: GroupScore::Total },
        ),
    );
    v.push(
        named(
            "Four of a Kind",
            Scorer::Identical { required: one_freq(4), value: GroupScore::Total },
        ),
    );
    if extreme {
        v.push(
            named(
                "Two Pairs",
                Scorer::Identical { required: two_freqs(2, 2), value: GroupScore::Total },
            ),
        );
        v.push(
            named(
                "Three Pairs",
                Scorer::Identical { required: three_freqs(2, 2, 2), value: GroupScore::Fixed(35) },
            ),
        );
        v.push(
            named(
                "Two Triples",
                Scorer::Identical { required: two_freqs(3, 3), value: GroupScore::Fixed(45) },
            ),
        );
    }
    v.push(
        named(
            "Full House",
            Scorer::Identical {
                required: two_freqs(2, 3),
                value: GroupScore::Fixed(crate::global::FULL_HOUSE_SCORE),
            },
        ),
    );
    if extreme {
        v.push(
            named(
                "Grand Full House",
                Scorer::Identical { required: two_freqs(2, 4), value: GroupScore::Fixed(45) },
            ),
        );
    }
    v.push(
        named(
            "Small Straight",
            Scorer::Straight { length: 4, score: crate::global::SMALL_STRAIGHT_SCORE },
        ),
    );
    v.push(
        named(
            "Large Straight",
            Scorer::Straight { length: 5, score: crate::global::LARGE_STRAIGHT_SCORE },
        ),
    );
    if extreme {
        v.push(named("Highway", Scorer::Straight { length: 6, score: 50 }));
    }
    v.push(
        named(
            "Yahtzee",
            Scorer::Identical {
                required: one_freq(5),
                value: GroupScore::Fixed(crate::global::YAHTZEE_SCORE),
            },
        ),
    );
    if extreme {
        v.push(
            named(
                "Yahtzee Extreme",
                Scorer::Identical { required: one_freq(6), value: GroupScore::Fixed(75) },
            ),
        );
        v.push(named("10 or less", Scorer::TotalAtMost { limit: 10, score: 40 }));
        v.push(named("33 or more", Scorer::TotalAtLeast { limit: 33, score: 40 }));
    }
    v.push(named("Chance", Scorer::Chance));
    if extreme {
        v.push(named("Super Chance", Scorer::DoubleChance));
    }
    v
}

/// Build the rules for a game.
///
/// `extreme` is defined only with the no-bonus policy; a `Constant` policy
/// must stay within the policy cap so that scores cannot overflow.
pub fn build_rules(extreme: bool, yahtzee_bonus: bonus::Rules) -> (r: Rules)
    requires
        extreme ==> yahtzee_bonus.policy == bonus::Policy::NoBonus,
        yahtzee_bonus.policy matches bonus::Policy::Constant(s, b) ==> s as int + b as int
            <= POLICY_CAP as int,
    ensures
        r.short_name == if extreme {
            'f'
        } else {
            yahtzee_bonus.short_name
        },
        r.dice.short_name == if extreme {
            'b'
        } else {
            'a'
        },
        r.dice.dice.0@ == if extreme {
            seq![((1u8, 6u8), 5u8), ((0u8, 9u8), 1u8)]
        } else {
            seq![((1u8, 6u8), 5u8)]
        },
        r.chips == if extreme {
            3u8
        } else {
            0u8
        },
        us_rules_ok(r.fields@[0]@),
        if extreme {
            extreme_ls_ok(r.fields@[1]@)
        } else {
            regular_ls_ok(r.fields@[1]@)
        },
        r.us_bonus == if extreme {
            USBonusRules { threshold: 73, bonus: 45 }
        } else {
            USBonusRules { threshold: 63, bonus: 35 }
        },
        r.yahtzee_bonus == yahtzee_bonus,
        rules_wf(r),
{
    let short_name = if extreme {
        'f'
    } else {
        yahtzee_bonus.short_name
    };

    // Five d6; additionally one d10 in Extreme.
    let mut dice_vec: Vec<(Die, Frequency)> = Vec::new();
    dice_vec.push(((1, 6), 5));
    let dice_short = if extreme {
        dice_vec.push(((0, 9), 1));
        'b'
    } else {
        'a'
    };
    let dice = DiceRules { short_name: dice_short, dice: Dice(dice_vec) };
    let chips: Chips = if extreme {
        3
    } else {
        0
    };

    let us_fields_rules = build_upper_section_rules();
    let ls_fields_rules = build_lower_section_rules(extreme);

    let us_bonus = if extreme {
        USBonusRules { threshold: 73, bonus: 45 }
    } else {
        USBonusRules { threshold: 63, bonus: 35 }
    };

    let r = Rules {
        short_name,
        dice,
        chips,
        fields: [us_fields_rules, ls_fields_rules],
        us_bonus,
        yahtzee_bonus,
    };
    proof {
        if extreme {
            assert(r.dice.dice.0@ =~= seq![((1u8, 6u8), 5u8), ((0u8, 9u8), 1u8)]);
        } else {
            assert(r.dice.dice.0@ =~= seq![((1u8, 6u8), 5u8)]);
        }
        lemma_built_rules_wf(r, extreme);
    }
    r
}

proof fn lemma_built_rules_wf(r: Rules, extreme: bool)
    requires
        r.dice.dice.0@ == if extreme {
            seq![((1u8, 6u8), 5u8), ((0u8, 9u8), 1u8)]
        } else {
            seq![((1u8, 6u8), 5u8)]
        },
        us_rules_ok(r.fields@[0]@),
        if extreme {
            extreme_ls_ok(r.fields@[1]@)
        } else {
            regular_ls_ok(r.fields@[1]@)
        },
        r.us_bonus.bonus <= 45,
        extreme ==> r.yahtzee_bonus.policy == bonus::Policy::NoBonus,
        r.yahtzee_bonus.policy matches bonus::Policy::Constant(s, b) ==> s as int + b as int
            <= POLICY_CAP as int,
    ensures
        rules_wf(r),
{
    let d = r.dice.dice.0@;
    let us = r.fields@[0]@;
    let ls = r.fields@[1]@;
    reveal_with_fuel(range_pow, 7);
    reveal_with_fuel(crate::global::sum_freq, 4);
    reveal_with_fuel(rolls_product, 4);
    reveal_with_fuel(dice_max_pip, 4);
    if extreme {
        assert(d.drop_last() =~= seq![((1u8, 6u8), 5u8)]);
        assert(d.drop_last().drop_last() =~= Seq::<(Die, Frequency)>::empty());
        assert(crate::global::sum_freq(d) == 6);
        assert(range_pow(6, 5) == 7776);
        assert(range_pow(10, 1) == 10);
        assert(rolls_product(d.drop_last()) == 7776);
        assert(rolls_product(d) == rolls_product(d.drop_last()) * range_pow(10, 1));
        assert(rolls_product(d) == 77760);
        assert(dice_max_pip(d) == 9);
    } else {
        assert(d.drop_last() =~= Seq::<(Die, Frequency)>::empty());
        assert(crate::global::sum_freq(d) == 5);
        assert(range_pow(6, 5) == 7776);
        assert(rolls_product(d) == 7776);
        assert(dice_max_pip(d) == 6);
    }
    let maxl = crate::global::sum_freq(d);
    let maxp = dice_max_pip(d);
    assert forall|i: int| 0 <= i < us.len() implies scorer_cap(
        (#[trigger] us[i]).function,
        maxl,
        maxp,
    ) <= FIELD_SCORE_CAP as int by {
        assert(us[i].function == Scorer::Upper((i + 1) as u8));
    }
    assert forall|i: int| 0 <= i < ls.len() implies scorer_cap(
        (#[trigger] ls[i]).function,
        maxl,
        maxp,
    ) <= FIELD_SCORE_CAP as int by {
        if extreme {
            assert(extreme_ls_ok(ls));
        } else {
            assert(regular_ls_ok(ls));
        }
    }
}

/// The mathematical model of a scorer: a tag with its parameters, the
/// required group sizes as a sequence.
pub type ScorerModel = (int, Seq<Frequency>, int, int);

/// The model of a scorer value.
pub open spec fn scorer_model(f: Scorer) -> ScorerModel {
    match f {
        Scorer::Upper(p) => (0int, Seq::<Frequency>::empty(), p as int, 0int),
        Scorer::Identical { required, value } => match value {
            GroupScore::Total => (1int, required@, 0int, 0int),
            GroupScore::Fixed(v) => (1int, required@, 1int, v as int),
        },
        Scorer::Straight { length, score } => (
            2int,
            Seq::<Frequency>::empty(),
            length as int,
            score as int,
        ),
        Scorer::Chance => (3int, Seq::<Frequency>::empty(), 0int, 0int),
        Scorer::DoubleChance => (4int, Seq::<Frequency>::empty(), 0int, 0int),
        Scorer::TotalAtMost { limit, score } => (
            5int,
            Seq::<Frequency>::empty(),
            limit as int,
            score as int,
        ),
        Scorer::TotalAtLeast { limit, score } => (
            6int,
            Seq::<Frequency>::empty(),
            limit as int,
            score as int,
        ),
    }
}

/// The score of a scorer model on a hand of pips.
pub open spec fn sm_score(m: ScorerModel, s: Seq<Pip>) -> int {
    let (tag, req, a, b) = m;
    if tag == 0 {
        hands::count_pip(s, a as u8) * a
    } else if tag == 1 {
        if hands::greedy_matches(req, hands::spec_groups(s)) {
            if a == 0 {
                hands::spec_total(s)
            } else {
                b
            }
        } else {
            0
        }
    } else if tag == 2 {
        if hands::spec_has_straight(s, a) {
            b
        } else {
            0
        }
    } else if tag == 3 {
        hands::spec_total(s)
    } else if tag == 4 {
        2 * hands::spec_total(s)
    } else if tag == 5 {
        if hands::spec_total(s) <= a {
            b
        } else {
            0
        }
    } else if tag == 6 {
        if hands::spec_total(s) >= a {
            b
        } else {
            0
        }
    } else {
        0
    }
}

/// The cap of a scorer model.
pub open spec fn sm_cap(m: ScorerModel, max_len: int, max_pip: int) -> int {
    let (tag, req, a, b) = m;
    if tag == 0 {
        max_len * a
    } else if tag == 1 {
        if a == 0 {
            max_len * max_pip
        } else {
            b
        }
    } else if tag == 3 {
        max_len * max_pip
    } else if tag == 4 {
        2 * max_len * max_pip
    } else {
        b
    }
}

/// Whether a scorer is a Yahtzee scorer of the variant: it demands one
/// single group of identical dice, either of the published Yahtzee size
/// or covering all the dice in play.
pub open spec fn yahtzee_scorer_model(m: ScorerModel, total_dice: int) -> bool {
    &&& m.0 == 1
    &&& m.1.len() == 1
    &&& (m.1[0] >= crate::global::YAHTZEE_SIZE || m.1[0] as int == total_dice)
}

impl Scorer {
    /// Whether this scorer is a Yahtzee scorer for `total_dice` dice.
    pub fn is_yahtzee(&self, total_dice: u64) -> (r: bool)
        ensures
            r == yahtzee_scorer_model(scorer_model(*self), total_dice as int),
    {
        match self {
            Scorer::Identical { required, value } => {
                required.len() == 1 && (required[0] >= crate::global::YAHTZEE_SIZE || required[0]
                    as u64 == total_dice)
            },
            _ => false,
        }
    }
}

/// A scorer scores exactly what its model does.
pub proof fn lemma_sm_score_eq(f: Scorer, s: Seq<Pip>)
    ensures
        sm_score(scorer_model(f), s) == spec_score(f, s),
{
}

/// A scorer's cap equals its model's cap.
pub proof fn lemma_sm_cap_eq(f: Scorer, max_len: int, max_pip: int)
    ensures
        sm_cap(scorer_model(f), max_len, max_pip) == scorer_cap(f, max_len, max_pip),
{
}

} // verus!