//! The decision core: the three memoized, mutually recursive functions
//! `probability_to_roll`, `choose_reroll` and `choose_field`, their shared
//! caches, and the player state they operate on.
//!
//! Expectation values are fixed-point numbers scaled by `EXP_ONE` (2^32);
//! probabilities are exact rationals of outcome counts.
//!
//! Every decision function returns exactly the value of its specification
//! mirror (`sp_reroll`, `sp_field`, `spec_group`), a pure function of the
//! call's inputs.  Repeated invocations therefore return equal results,
//! whatever the caches hold: a cache can speed the answer up, never
//! change it.

pub use crate::probability::{Probability, ProbabilitiesToRoll};

use vstd::prelude::*;
use crate::global::{spec_canon, Chips, Die, PartialHand, Pip, Rerolls, Score, REROLLS, YAHTZEE_INDEX};
use crate::hands;
use crate::probability::{
    self, hand_ok, hand_pips_ok, spec_group, spec_leftover, spec_outcomes, sub_fits, sum_counts,
    table_model, HandModel, TableModel,
};
use crate::rules::{
    self, dice_max_pip, rolls_product, rules_wf, Rules, FIELD_SCORE_CAP, GAME_CAP, POLICY_CAP,
    US_BONUS_CAP,
};
use crate::yahtzee_bonus_rules as bonus;

verus! {

/// Expectation value: the mean final score under optimal play, as a
/// fixed-point number scaled by `EXP_ONE`.
pub type Expectation = u64;

/// The fixed-point one of expectation values (2^32).
pub const EXP_ONE: u64 = 0x100000000u64;

/// State with everything relevant to strategy.
#[derive(Clone, Debug, PartialEq, Eq)]
pub struct State {
    /// Running totals of the upper and lower section.
    pub score: [Score; 2],
    /// Which fields are used, per section.
    pub used: [Vec<bool>; 2],
    /// Whether a positive Yahtzee has been recorded.
    pub scored_yahtzee: bool,
    /// Remaining reroll chips.
    pub chips: Chips,
}

/// The mathematical model of a `State`.
pub ghost struct StateModel {
    pub score0: int,
    pub score1: int,
    pub used0: Seq<bool>,
    pub used1: Seq<bool>,
    pub scored_yahtzee: bool,
    pub chips: int,
}

impl State {
    /// The model of this state.
    pub open spec fn model(self) -> StateModel {
        StateModel {
            score0: self.score@[0] as int,
            score1: self.score@[1] as int,
            used0: self.used@[0]@,
            used1: self.used@[1]@,
            scored_yahtzee: self.scored_yahtzee,
            chips: self.chips as int,
        }
    }
}

/// Number of `true` entries of a section mask.
pub open spec fn count_true(s: Seq<bool>) -> int
    decreases s.len(),
{
    if s.len() == 0 {
        0
    } else {
        count_true(s.drop_last()) + if s.last() {
            1int
        } else {
            0int
        }
    }
}

pub proof fn lemma_count_true_le(s: Seq<bool>)
    ensures
        0 <= count_true(s) <= s.len(),
    decreases s.len(),
{
    if s.len() > 0 {
        lemma_count_true_le(s.drop_last());
    }
}

pub proof fn lemma_count_true_update(s: Seq<bool>, i: int)
    requires
        0 <= i < s.len(),
        !s[i],
    ensures
        count_true(s.update(i, true)) == count_true(s) + 1,
    decreases s.len(),
{
    let u = s.update(i, true);
    if i == s.len() - 1 {
        assert(u.drop_last() =~= s.drop_last());
    } else {
        assert(u.drop_last() =~= s.drop_last().update(i, true));
        assert(s.drop_last()[i] == s[i]);
        lemma_count_true_update(s.drop_last(), i);
        assert(u.last() == s.last());
    }
}

/// A mask with an unused entry has fewer used entries than fields.
pub proof fn lemma_count_true_less(s: Seq<bool>, i: int)
    requires
        0 <= i < s.len(),
        !s[i],
    ensures
        count_true(s) < s.len(),
    decreases s.len(),
{
    if i == s.len() - 1 {
        lemma_count_true_le(s.drop_last());
    } else {
        assert(s.drop_last()[i] == s[i]);
        lemma_count_true_less(s.drop_last(), i);
    }
}

/// Fields not yet used: the termination measure of the game tree.
pub open spec fn sm_unused(sm: StateModel) -> int {
    (sm.used0.len() - count_true(sm.used0)) + (sm.used1.len() - count_true(sm.used1))
}

/// The per-field credit that bounds every score a single move can add.
pub open spec fn turn_allow() -> int {
    FIELD_SCORE_CAP as int + POLICY_CAP as int
}

/// Well-formed state under the given rules model: the masks match the
/// rule tables and the scores stay within what the used fields can have
/// paid.  The upper-section bonus is paid only on the last move, whose
/// result state ends the game, so it needs no credit here.
pub open spec fn state_wf(sm: StateModel, rm: RulesModel) -> bool {
    &&& sm.used0.len() == rm.us.len()
    &&& sm.used1.len() == rm.ls.len()
    &&& 0 <= sm.score0
    &&& 0 <= sm.score1
    &&& sm.score0 + sm.score1 <= (count_true(sm.used0) + count_true(sm.used1)) * turn_allow()
    &&& 0 <= sm.chips <= 255
}

/// Well-formed states never exceed the game cap.
pub proof fn lemma_state_cap(sm: StateModel, rm: RulesModel)
    requires
        state_wf(sm, rm),
        rm_wf(rm),
    ensures
        sm.score0 + sm.score1 <= GAME_CAP as int,
{
    lemma_count_true_le(sm.used0);
    lemma_count_true_le(sm.used1);
    let used = count_true(sm.used0) + count_true(sm.used1);
    assert(used * turn_allow() <= 32 * turn_allow()) by (nonlinear_arith)
        requires
            0 <= used <= 32,
    ;
}

impl State {
    /// Build the initial state from the rules: nothing scored, nothing
    /// used, the rules' chips in hand.
    pub fn new_from_rules(rules: &Rules) -> (r: State)
        ensures
            r.model() == (StateModel {
                score0: 0,
                score1: 0,
                used0: Seq::new(rules.fields@[0]@.len(), |i: int| false),
                used1: Seq::new(rules.fields@[1]@.len(), |i: int| false),
                scored_yahtzee: false,
                chips: rules.chips as int,
            }),
            rules_wf(*rules) ==> state_wf(r.model(), rules_model(*rules)),
    {
        let us = falses(rules.fields[0].len());
        let ls = falses(rules.fields[1].len());
        let s = State { score: [0, 0], used: [us, ls], scored_yahtzee: false, chips: rules.chips };
        proof {
            lemma_count_false(s.used@[0]@);
            lemma_count_false(s.used@[1]@);
            lemma_count_true_le(s.used@[0]@);
            lemma_count_true_le(s.used@[1]@);
            assert(s.model().used0 =~= Seq::new(rules.fields@[0]@.len(), |i: int| false));
            assert(s.model().used1 =~= Seq::new(rules.fields@[1]@.len(), |i: int| false));
            assert((count_true(s.model().used0) + count_true(s.model().used1)) * turn_allow()
                >= 0) by (nonlinear_arith)
                requires
                    count_true(s.model().used0) >= 0,
                    count_true(s.model().used1) >= 0,
            ;
        }
        s
    }
}

/// A vector of `n` unused flags.
fn falses(n: usize) -> (r: Vec<bool>)
    ensures
        r@ =~= Seq::new(n as nat, |i: int| false),
        r@.len() == n,
{
    let mut v: Vec<bool> = Vec::new();
    let mut i: usize = 0;
    while i < n
        invariant
            i <= n,
            v@ =~= Seq::new(i as nat, |k: int| false),
        decreases n - i,
    {
        v.push(false);
        proof {
            assert(v@ =~= Seq::new((i + 1) as nat, |k: int| false));
        }
        i += 1;
    }
    v
}

/// An all-false mask has no used entries.
pub proof fn lemma_count_false(s: Seq<bool>)
    requires
        forall|i: int| 0 <= i < s.len() ==> !(#[trigger] s[i]),
    ensures
        count_true(s) == 0,
    decreases s.len(),
{
    if s.len() > 0 {
        assert forall|i: int| 0 <= i < s.drop_last().len() implies !(#[trigger] s.drop_last()[i]) by {
            assert(s.drop_last()[i] == s[i]);
        }
        lemma_count_false(s.drop_last());
    }
}

/// Copy a section mask.
pub fn copy_bools(v: &Vec<bool>) -> (r: Vec<bool>)
    ensures
        r@ == v@,
{
    let mut r: Vec<bool> = Vec::new();
    let mut i: usize = 0;
    proof {
        assert(r@ =~= v@.subrange(0, 0));
    }
    while i < v.len()
        invariant
            i <= v@.len(),
            r@ == v@.subrange(0, i as int),
        decreases v@.len() - i,
    {
        r.push(v[i]);
        proof {
            assert(v@.subrange(0, i + 1) == v@.subrange(0, i as int).push(v@[i as int]));
        }
        i += 1;
    }
    proof {
        assert(v@.subrange(0, v@.len() as int) == v@);
    }
    r
}

/// Copy a state.
pub fn copy_state(s: &State) -> (r: State)
    ensures
        r.model() == s.model(),
{
    let r = State {
        score: [s.score[0], s.score[1]],
        used: [copy_bools(&s.used[0]), copy_bools(&s.used[1])],
        scored_yahtzee: s.scored_yahtzee,
        chips: s.chips,
    };
    r
}

/// Deep equality of two states.
pub fn state_eq(a: &State, b: &State) -> (r: bool)
    ensures
        r == (a.model() == b.model()),
{
    if a.score[0] != b.score[0] || a.score[1] != b.score[1] || a.scored_yahtzee != b.scored_yahtzee
        || a.chips != b.chips {
        return false;
    }
    if !bools_eq(&a.used[0], &b.used[0]) || !bools_eq(&a.used[1], &b.used[1]) {
        return false;
    }
    true
}

fn bools_eq(a: &Vec<bool>, b: &Vec<bool>) -> (r: bool)
    ensures
        r == (a@ == b@),
{
    if a.len() != b.len() {
        return false;
    }
    let mut i: usize = 0;
    while i < a.len()
        invariant
            i <= a@.len(),
            a@.len() == b@.len(),
            forall|k: int| 0 <= k < i ==> a@[k] == b@[k],
        decreases a@.len() - i,
    {
        if a[i] != b[i] {
            return false;
        }
        i += 1;
    }
    proof {
        assert(a@ =~= b@);
    }
    true
}

/// The compact encoding of a section mask: one digit per field.
pub open spec fn spec_bool_digits(s: Seq<bool>) -> Seq<char>
    decreases s.len(),
{
    if s.len() == 0 {
        Seq::<char>::empty()
    } else {
        spec_bool_digits(s.drop_last()).push(
            if s.last() {
                '1'
            } else {
                '0'
            },
        )
    }
}

/// The compact encoding of a state:
/// `score0,score1,used0,used1` followed by the Yahtzee flag and `,chips`.
pub open spec fn spec_compact_state(sm: StateModel) -> Seq<char> {
    crate::text::spec_dec(sm.score0) + seq![','] + crate::text::spec_dec(sm.score1) + seq![',']
        + spec_bool_digits(sm.used0) + seq![','] + spec_bool_digits(sm.used1) + seq![
        if sm.scored_yahtzee {
            '1'
        } else {
            '0'
        },
    ] + seq![','] + crate::text::spec_dec(sm.chips)
}

fn push_bool_digits(out: &mut String, v: &Vec<bool>)
    ensures
        final(out)@ == old(out)@ + spec_bool_digits(v@),
{
    let mut i: usize = 0;
    proof {
        assert(v@.subrange(0, 0) =~= Seq::<bool>::empty());
        assert(old(out)@ + Seq::<char>::empty() =~= old(out)@);
    }
    while i < v.len()
        invariant
            i <= v@.len(),
            out@ == old(out)@ + spec_bool_digits(v@.subrange(0, i as int)),
        decreases v@.len() - i,
    {
        if v[i] {
            proof {
                reveal_strlit("1");
                assert("1"@ =~= seq!['1']);
            }
            out.append("1");
        } else {
            proof {
                reveal_strlit("0");
                assert("0"@ =~= seq!['0']);
            }
            out.append("0");
        }
        proof {
            let s = v@;
            assert(s.subrange(0, i + 1).drop_last() == s.subrange(0, i as int));
            assert(s.subrange(0, i + 1).last() == s[i as int]);
            assert(out@ =~= old(out)@ + spec_bool_digits(s.subrange(0, i + 1)));
        }
        i += 1;
    }
    proof {
        assert(v@.subrange(0, v@.len() as int) == v@);
    }
}

impl State {
    /// Compact format for cache keys.
    pub fn compact_fmt(&self) -> (r: String)
        ensures
            r@ == spec_compact_state(self.model()),
    {
        let mut out = String::new();
        proof {
            assert(Seq::<char>::empty() + crate::text::spec_dec(self.model().score0)
                =~= crate::text::spec_dec(self.model().score0));
        }
        crate::text::push_u64(&mut out, self.score[0] as u64);
        crate::text::push_comma(&mut out);
        crate::text::push_u64(&mut out, self.score[1] as u64);
        crate::text::push_comma(&mut out);
        push_bool_digits(&mut out, &self.used[0]);
        crate::text::push_comma(&mut out);
        push_bool_digits(&mut out, &self.used[1]);
        if self.scored_yahtzee {
            proof {
                reveal_strlit("1");
                assert("1"@ =~= seq!['1']);
            }
            out.append("1");
        } else {
            proof {
                reveal_strlit("0");
                assert("0"@ =~= seq!['0']);
            }
            out.append("0");
        }
        crate::text::push_comma(&mut out);
        crate::text::push_u64(&mut out, self.chips as u64);
        proof {
            assert(out@ =~= spec_compact_state(self.model()));
        }
        out
    }
}

/// Recommendation for what to keep before rerolling.
#[derive(Clone, Debug, PartialEq)]
pub struct RerollRecomm {
    /// Hand to keep.
    pub hand: PartialHand,
    /// State, passed on unchanged unless a chip is spent.
    pub state: State,
    /// Expectation value when keeping this hand.
    pub expectation: Expectation,
}

/// Recommendation for which field to mark at the end of a turn.
#[derive(Clone, Debug, PartialEq)]
pub struct FieldRecomm {
    /// Section to choose.
    pub section: usize,
    /// Field to choose within the section.
    pub field: usize,
    /// State after choosing this field.
    pub state: State,
    /// Expectation value when choosing this field.
    pub expectation: Expectation,
}

/// The mathematical model of the rules: everything the decision core
/// reads, as sequences and integers.
pub ghost struct RulesModel {
    pub dice: Seq<(Die, u8)>,
    pub chips: int,
    pub us: Seq<rules::ScorerModel>,
    pub ls: Seq<rules::ScorerModel>,
    pub us_threshold: int,
    pub us_bonus: int,
    pub policy: bonus::Policy,
}

/// The model of a rules value.
pub open spec fn rules_model(r: Rules) -> RulesModel {
    RulesModel {
        dice: r.dice.dice.0@,
        chips: r.chips as int,
        us: Seq::new(r.fields@[0]@.len(), |i: int| rules::scorer_model(r.fields@[0]@[i].function)),
        ls: Seq::new(r.fields@[1]@.len(), |i: int| rules::scorer_model(r.fields@[1]@[i].function)),
        us_threshold: r.us_bonus.threshold as int,
        us_bonus: r.us_bonus.bonus as int,
        policy: r.yahtzee_bonus.policy,
    }
}

/// Well-formed rules model: what the decision core's contracts rest on.
pub open spec fn rm_wf(rm: RulesModel) -> bool {
    let maxl = crate::global::sum_freq(rm.dice);
    let maxp = dice_max_pip(rm.dice);
    &&& 1 <= rm.dice.len() <= 4
    &&& forall|i: int| 0 <= i < rm.dice.len() ==> (#[trigger] rm.dice[i]).0.0 <= rm.dice[i].0.1
    &&& forall|i: int| 0 <= i < rm.dice.len() ==> (#[trigger] rm.dice[i]).1 >= 1
    &&& forall|i: int, j: int|
        0 <= i < j < rm.dice.len() ==> (#[trigger] rm.dice[i]).0 != (#[trigger] rm.dice[j]).0
    &&& 1 <= crate::global::sum_freq(rm.dice) <= 8
    &&& rolls_product(rm.dice) <= 0x100000
    &&& rm.us.len() <= 16
    &&& rm.ls.len() <= 16
    &&& rm.us.len() + rm.ls.len() >= 1
    &&& rm.policy != bonus::Policy::NoBonus ==> rm.ls.len() > YAHTZEE_INDEX as int
    &&& bonus::policy_uses_card(rm.policy) ==> (forall|i: int|
        0 <= i < rm.dice.len() ==> 1 <= (#[trigger] rm.dice[i]).0.0 && rm.dice[i].0.1 as int
            <= rm.us.len()) && rm.ls[YAHTZEE_INDEX as int].0 == 1 && rm.ls[
        YAHTZEE_INDEX as int
    ].1.len() >= 1
    &&& forall|i: int|
        0 <= i < rm.us.len() ==> rules::sm_cap(#[trigger] rm.us[i], maxl, maxp)
            <= FIELD_SCORE_CAP as int
    &&& forall|i: int|
        0 <= i < rm.ls.len() ==> rules::sm_cap(#[trigger] rm.ls[i], maxl, maxp)
            <= FIELD_SCORE_CAP as int
    &&& forall|i: int| 0 <= i < rm.us.len() ==> exists|f: rules::Scorer|
        rules::scorer_model(f) == #[trigger] rm.us[i]
    &&& forall|i: int| 0 <= i < rm.ls.len() ==> exists|f: rules::Scorer|
        rules::scorer_model(f) == #[trigger] rm.ls[i]
    &&& (rm.policy matches bonus::Policy::Constant(s, b) ==> s as int + b as int
        <= POLICY_CAP as int)
    &&& 0 <= rm.us_bonus <= US_BONUS_CAP as int
    &&& 0 <= rm.us_threshold
}

/// Well-formed rules have a well-formed model.
pub proof fn lemma_rules_model_wf(r: Rules)
    requires
        rules_wf(r),
    ensures
        rm_wf(rules_model(r)),
{
    let rm = rules_model(r);
    let maxl = crate::global::sum_freq(rm.dice);
    let maxp = dice_max_pip(rm.dice);
    assert forall|i: int| 0 <= i < rm.us.len() implies rules::sm_cap(
        #[trigger] rm.us[i],
        maxl,
        maxp,
    ) <= FIELD_SCORE_CAP as int && exists|f: rules::Scorer|
        rules::scorer_model(f) == rm.us[i] by {
        assert(rm.us[i] == rules::scorer_model(r.fields@[0]@[i].function));
        rules::lemma_sm_cap_eq(r.fields@[0]@[i].function, maxl, maxp);
    }
    assert forall|i: int| 0 <= i < rm.ls.len() implies rules::sm_cap(
        #[trigger] rm.ls[i],
        maxl,
        maxp,
    ) <= FIELD_SCORE_CAP as int && exists|f: rules::Scorer|
        rules::scorer_model(f) == rm.ls[i] by {
        assert(rm.ls[i] == rules::scorer_model(r.fields@[1]@[i].function));
        rules::lemma_sm_cap_eq(r.fields@[1]@[i].function, maxl, maxp);
    }
    lemma_sum_freq_nonneg(rm.dice.drop_last());
    assert(crate::global::sum_freq(rm.dice) >= 1);
    if bonus::policy_uses_card(rm.policy) {
        let f = r.fields@[1]@[YAHTZEE_INDEX as int].function;
        assert(rm.ls[YAHTZEE_INDEX as int] == rules::scorer_model(f));
        assert(rules::yahtzee_field_guarded(f));
        match f {
            rules::Scorer::Identical { required, value } => {
                assert(rm.ls[YAHTZEE_INDEX as int].0 == 1);
                assert(rm.ls[YAHTZEE_INDEX as int].1 == required@);
            },
            _ => {
                assert(false);
            },
        }
    }
}

proof fn lemma_sum_freq_nonneg(s: Seq<(Die, u8)>)
    ensures
        crate::global::sum_freq(s) >= 0,
    decreases s.len(),
{
    if s.len() > 0 {
        lemma_sum_freq_nonneg(s.drop_last());
    }
}

/// The upper-section scorer models of every published variant: Aces
/// through Sixes.
pub open spec fn standard_us_model() -> Seq<rules::ScorerModel> {
    Seq::new(6, |i: int| (0int, Seq::<u8>::empty(), i + 1, 0int))
}

/// The lower-section scorer models of the regular variants.
pub open spec fn regular_ls_model() -> Seq<rules::ScorerModel> {
    seq![
        (1int, seq![3u8], 0int, 0int),
        (1int, seq![4u8], 0int, 0int),
        (1int, seq![2u8, 3u8], 1int, 25int),
        (2int, Seq::<u8>::empty(), 4int, 30int),
        (2int, Seq::<u8>::empty(), 5int, 40int),
        (1int, seq![5u8], 1int, 50int),
        (3int, Seq::<u8>::empty(), 0int, 0int),
    ]
}

/// The lower-section scorer models of the Extreme variant.
pub open spec fn extreme_ls_model() -> Seq<rules::ScorerModel> {
    seq![
        (1int, seq![3u8], 0int, 0int),
        (1int, seq![4u8], 0int, 0int),
        (1int, seq![2u8, 2u8], 0int, 0int),
        (1int, seq![2u8, 2u8, 2u8], 1int, 35int),
        (1int, seq![3u8, 3u8], 1int, 45int),
        (1int, seq![2u8, 3u8], 1int, 25int),
        (1int, seq![2u8, 4u8], 1int, 45int),
        (2int, Seq::<u8>::empty(), 4int, 30int),
        (2int, Seq::<u8>::empty(), 5int, 40int),
        (2int, Seq::<u8>::empty(), 6int, 50int),
        (1int, seq![5u8], 1int, 50int),
        (1int, seq![6u8], 1int, 75int),
        (5int, Seq::<u8>::empty(), 10int, 40int),
        (6int, Seq::<u8>::empty(), 33int, 40int),
        (3int, Seq::<u8>::empty(), 0int, 0int),
        (4int, Seq::<u8>::empty(), 0int, 0int),
    ]
}

/// The rules model `build_rules` produces for the given variant.
pub open spec fn spec_build_model(extreme: bool, policy: bonus::Policy) -> RulesModel {
    RulesModel {
        dice: if extreme {
            seq![((1u8, 6u8), 5u8), ((0u8, 9u8), 1u8)]
        } else {
            seq![((1u8, 6u8), 5u8)]
        },
        chips: if extreme {
            3
        } else {
            0
        },
        us: standard_us_model(),
        ls: if extreme {
            extreme_ls_model()
        } else {
            regular_ls_model()
        },
        us_threshold: if extreme {
            73
        } else {
            63
        },
        us_bonus: if extreme {
            45
        } else {
            35
        },
        policy: policy,
    }
}

/// What `build_rules` builds has exactly the variant's rules model.
pub proof fn lemma_built_model(r: Rules, extreme: bool)
    requires
        r.dice.dice.0@ == if extreme {
            seq![((1u8, 6u8), 5u8), ((0u8, 9u8), 1u8)]
        } else {
            seq![((1u8, 6u8), 5u8)]
        },
        r.chips == if extreme {
            3u8
        } else {
            0u8
        },
        rules::us_rules_ok(r.fields@[0]@),
        if extreme {
            rules::extreme_ls_ok(r.fields@[1]@)
        } else {
            rules::regular_ls_ok(r.fields@[1]@)
        },
        r.us_bonus == if extreme {
            rules::USBonusRules { threshold: 73, bonus: 45 }
        } else {
            rules::USBonusRules { threshold: 63, bonus: 35 }
        },
    ensures
        rules_model(r) == spec_build_model(extreme, r.yahtzee_bonus.policy),
{
    let rm = rules_model(r);
    let m = spec_build_model(extreme, r.yahtzee_bonus.policy);
    assert forall|i: int| 0 <= i < 6 implies rm.us[i] == standard_us_model()[i] by {
        assert(rm.us[i] == rules::scorer_model(r.fields@[0]@[i].function));
        assert(r.fields@[0]@[i].function == rules::Scorer::Upper((i + 1) as u8));
    }
    assert(rm.us =~= standard_us_model());
    if extreme {
        assert forall|i: int| 0 <= i < 16 implies rm.ls[i] == extreme_ls_model()[i] by {
            assert(rm.ls[i] == rules::scorer_model(r.fields@[1]@[i].function));
            lemma_ls_model_entry_extreme(r.fields@[1]@, i);
        }
        assert(rm.ls =~= extreme_ls_model());
    } else {
        assert forall|i: int| 0 <= i < 7 implies rm.ls[i] == regular_ls_model()[i] by {
            assert(rm.ls[i] == rules::scorer_model(r.fields@[1]@[i].function));
            lemma_ls_model_entry_regular(r.fields@[1]@, i);
        }
        assert(rm.ls =~= regular_ls_model());
    }
    assert(rm.dice == m.dice);
    assert(rm == m);
}

proof fn lemma_ls_model_entry_regular(s: Seq<rules::SectionRule>, i: int)
    requires
        rules::regular_ls_ok(s),
        0 <= i < 7,
    ensures
        rules::scorer_model(s[i].function) == regular_ls_model()[i],
{
    if i == 0 {
        assert(rules::is_identical(s[0].function, seq![3u8], hands::GroupScore::Total));
    } else if i == 1 {
        assert(rules::is_identical(s[1].function, seq![4u8], hands::GroupScore::Total));
    } else if i == 2 {
        assert(rules::is_identical(s[2].function, seq![2u8, 3u8], hands::GroupScore::Fixed(25)));
    } else if i == 5 {
        assert(rules::is_identical(s[5].function, seq![5u8], hands::GroupScore::Fixed(50)));
    }
}

proof fn lemma_ls_model_entry_extreme(s: Seq<rules::SectionRule>, i: int)
    requires
        rules::extreme_ls_ok(s),
        0 <= i < 16,
    ensures
        rules::scorer_model(s[i].function) == extreme_ls_model()[i],
{
    if i == 0 {
        assert(rules::is_identical(s[0].function, seq![3u8], hands::GroupScore::Total));
    } else if i == 1 {
        assert(rules::is_identical(s[1].function, seq![4u8], hands::GroupScore::Total));
    } else if i == 2 {
        assert(rules::is_identical(s[2].function, seq![2u8, 2u8], hands::GroupScore::Total));
    } else if i == 3 {
        assert(rules::is_identical(
            s[3].function,
            seq![2u8, 2u8, 2u8],
            hands::GroupScore::Fixed(35),
        ));
    } else if i == 4 {
        assert(rules::is_identical(s[4].function, seq![3u8, 3u8], hands::GroupScore::Fixed(45)));
    } else if i == 5 {
        assert(rules::is_identical(s[5].function, seq![2u8, 3u8], hands::GroupScore::Fixed(25)));
    } else if i == 6 {
        assert(rules::is_identical(s[6].function, seq![2u8, 4u8], hands::GroupScore::Fixed(45)));
    } else if i == 10 {
        assert(rules::is_identical(s[10].function, seq![5u8], hands::GroupScore::Fixed(50)));
    } else if i == 11 {
        assert(rules::is_identical(s[11].function, seq![6u8], hands::GroupScore::Fixed(75)));
    }
}

/// The model of a reroll recommendation.
pub ghost struct RerollModel {
    pub hand: HandModel,
    pub state: StateModel,
    pub exp: int,
}

/// The model of a field recommendation.
pub ghost struct FieldModel {
    pub section: int,
    pub field: int,
    pub state: StateModel,
    pub exp: int,
}

/// The raw pips of a hand, in hand order.
pub open spec fn raw_pips(h: HandModel) -> Seq<Pip> {
    Seq::new(h.len(), |i: int| h[i].1)
}

/// The pips of a hand, sorted ascending: what the scorers read.
pub open spec fn spec_pips(h: HandModel) -> Seq<Pip> {
    hands::spec_sort_freqs(raw_pips(h))
}

/// The first (lowest) pip, or 0 for an empty hand.
pub open spec fn first_pip(pips: Seq<Pip>) -> Pip {
    if pips.len() > 0 {
        pips[0]
    } else {
        0
    }
}

/// Whether the Yahtzee-bonus policy applies to this hand in this state.
pub open spec fn sp_gate(sm: StateModel, pips: Seq<Pip>, rm: RulesModel) -> bool {
    &&& sm.scored_yahtzee
    &&& rm.policy != bonus::Policy::NoBonus
    &&& rules::sm_score(rm.ls[YAHTZEE_INDEX as int], pips) > 0
}

/// The score written into field `(sec, fld)` and the bonus added to the
/// lower section.
pub open spec fn sp_score_and_bonus(
    sm: StateModel,
    pips: Seq<Pip>,
    gate: bool,
    rm: RulesModel,
    sec: int,
    fld: int,
) -> (int, int) {
    if gate {
        bonus::spec_apply(rm.policy, sm.used0, first_pip(pips), sec, fld)
    } else {
        (
            rules::sm_score(
                if sec == 0 {
                    rm.us[fld]
                } else {
                    rm.ls[fld]
                },
                pips,
            ),
            0int,
        )
    }
}

/// The state after marking field `(sec, fld)` with the held hand.  The
/// upper-section bonus is applied only on the terminal (last) move; the
/// Yahtzee flag is tracked only on non-terminal moves, and flips only
/// when a positive score is written into a Yahtzee field of the variant.
pub open spec fn sp_apply(
    sm: StateModel,
    pips: Seq<Pip>,
    gate: bool,
    rm: RulesModel,
    sec: int,
    fld: int,
    terminal: bool,
) -> StateModel {
    let (sc, bn) = sp_score_and_bonus(sm, pips, gate, rm, sec, fld);
    let s0 = sm.score0 + if sec == 0 {
        sc
    } else {
        0int
    };
    let s1 = sm.score1 + (if sec == 1 {
        sc
    } else {
        0int
    }) + bn;
    let s0b = if terminal && s0 >= rm.us_threshold {
        s0 + rm.us_bonus
    } else {
        s0
    };
    StateModel {
        score0: s0b,
        score1: s1,
        used0: if sec == 0 {
            sm.used0.update(fld, true)
        } else {
            sm.used0
        },
        used1: if sec == 1 {
            sm.used1.update(fld, true)
        } else {
            sm.used1
        },
        scored_yahtzee: if !terminal && sc > 0 && sec == 1 && 0 <= fld < rm.ls.len()
            && rules::yahtzee_scorer_model(rm.ls[fld], crate::global::sum_freq(rm.dice)) {
            true
        } else {
            sm.scored_yahtzee
        },
        chips: sm.chips,
    }
}

/// The unused fields of one section, from index `i` on, in index order.
pub open spec fn unused_from(used: Seq<bool>, sec: int, i: int) -> Seq<(int, int)>
    decreases used.len() - i,
    when 0 <= i <= used.len()
{
    if i >= used.len() {
        Seq::<(int, int)>::empty()
    } else {
        (if !used[i] {
            seq![(sec, i)]
        } else {
            Seq::<(int, int)>::empty()
        }) + unused_from(used, sec, i + 1)
    }
}

/// All unused fields, upper section first.
pub open spec fn sp_cands(sm: StateModel) -> Seq<(int, int)> {
    unused_from(sm.used0, 0, 0) + unused_from(sm.used1, 1, 0)
}

/// Every candidate is an unused, in-bounds field of the state.
pub open spec fn cands_ok(sm: StateModel, cands: Seq<(int, int)>) -> bool {
    forall|k: int|
        0 <= k < cands.len() ==> {
            let (s, f) = #[trigger] cands[k];
            ||| (s == 0 && 0 <= f < sm.used0.len() && !sm.used0[f])
            ||| (s == 1 && 0 <= f < sm.used1.len() && !sm.used1[f])
        }
}

pub proof fn lemma_unused_from_ok(used: Seq<bool>, sec: int, i: int)
    requires
        0 <= i <= used.len(),
    ensures
        forall|k: int|
            0 <= k < unused_from(used, sec, i).len() ==> {
                let (s, f) = #[trigger] unused_from(used, sec, i)[k];
                s == sec && i <= f < used.len() && !used[f]
            },
        unused_from(used, sec, i).len() == (used.len() - i) - count_from(used, i),
    decreases used.len() - i,
{
    if i < used.len() {
        lemma_unused_from_ok(used, sec, i + 1);
        let whole = unused_from(used, sec, i);
        let rest = unused_from(used, sec, i + 1);
        assert forall|k: int| 0 <= k < whole.len() implies {
            let (s, f) = #[trigger] whole[k];
            s == sec && i <= f < used.len() && !used[f]
        } by {
            if !used[i] {
                if k > 0 {
                    assert(whole[k] == rest[k - 1]);
                }
            } else {
                assert(whole[k] == rest[k]);
            }
        }
    }
}

/// `true` entries of a mask from index `i` on.
pub open spec fn count_from(used: Seq<bool>, i: int) -> int
    decreases used.len() - i,
    when 0 <= i <= used.len()
{
    if i >= used.len() {
        0
    } else {
        (if used[i] {
            1int
        } else {
            0int
        }) + count_from(used, i + 1)
    }
}

pub proof fn lemma_count_from_eq(used: Seq<bool>, i: int)
    requires
        0 <= i <= used.len(),
    ensures
        count_from(used, i) == count_true(used) - count_true(used.subrange(0, i)),
    decreases used.len() - i,
{
    if i >= used.len() {
        assert(used.subrange(0, i) =~= used);
    } else {
        lemma_count_from_eq(used, i + 1);
        let a = used.subrange(0, i);
        let b = used.subrange(0, i + 1);
        assert(b.drop_last() =~= a);
        assert(b.last() == used[i]);
    }
}

/// The candidate list enumerates exactly the unused fields.
pub proof fn lemma_cands(sm: StateModel)
    ensures
        cands_ok(sm, sp_cands(sm)),
        sp_cands(sm).len() == sm_unused(sm),
{
    lemma_unused_from_ok(sm.used0, 0, 0);
    lemma_unused_from_ok(sm.used1, 1, 0);
    lemma_count_from_eq(sm.used0, 0);
    lemma_count_from_eq(sm.used1, 0);
    assert(sm.used0.subrange(0, 0) =~= Seq::<bool>::empty());
    assert(sm.used1.subrange(0, 0) =~= Seq::<bool>::empty());
    let a = unused_from(sm.used0, 0, 0);
    let b = unused_from(sm.used1, 1, 0);
    assert forall|k: int| 0 <= k < sp_cands(sm).len() implies {
        let (s, f) = #[trigger] sp_cands(sm)[k];
        ||| (s == 0 && 0 <= f < sm.used0.len() && !sm.used0[f])
        ||| (s == 1 && 0 <= f < sm.used1.len() && !sm.used1[f])
    } by {
        if k < a.len() {
            assert(sp_cands(sm)[k] == a[k]);
        } else {
            assert(sp_cands(sm)[k] == b[k - a.len()]);
        }
    }
}

/// All hands obtained from `hs` by appending the entry `e` to each.
pub open spec fn push_all(hs: Seq<HandModel>, e: (Die, Pip)) -> Seq<HandModel>
    decreases hs.len(),
{
    if hs.len() == 0 {
        Seq::<HandModel>::empty()
    } else {
        seq![hs[0].push(e)] + push_all(hs.drop_first(), e)
    }
}

/// The candidate keep-sets: every subset of the hand, in doubling order.
pub open spec fn subsets_acc(hand: HandModel, i: int, acc: Seq<HandModel>) -> Seq<HandModel>
    decreases hand.len() - i,
    when 0 <= i <= hand.len()
{
    if i >= hand.len() {
        acc
    } else {
        subsets_acc(hand, i + 1, acc + push_all(acc, hand[i]))
    }
}

/// All `2^n` subsets of the hand.
pub open spec fn sp_subsets(hand: HandModel) -> Seq<HandModel> {
    subsets_acc(hand, 0, seq![Seq::<(Die, Pip)>::empty()])
}

/// Optimal play, end of turn: choose the unused field that maximizes the
/// expected final score.
pub open spec fn sp_field(sm: StateModel, hand: HandModel, rm: RulesModel) -> FieldModel
    decreases sm_unused(sm), 0int, 1int, 0int,
{
    let cands = sp_cands(sm);
    let pips = spec_pips(hand);
    let gate = sp_gate(sm, pips, rm);
    if cands.len() == 1 {
        let (sec, fld) = cands[0];
        let st = sp_apply(sm, pips, gate, rm, sec, fld, true);
        FieldModel {
            section: sec,
            field: fld,
            state: st,
            exp: (st.score0 + st.score1) * EXP_ONE as int,
        }
    } else {
        sp_field_best(
            sm,
            pips,
            gate,
            rm,
            cands,
            0,
            FieldModel { section: 0, field: 0, state: sm, exp: -1 },
        )
    }
}

/// Fold over the candidate fields, keeping the best expectation; on ties
/// the later candidate wins, matching the evaluation order.
pub open spec fn sp_field_best(
    sm: StateModel,
    pips: Seq<Pip>,
    gate: bool,
    rm: RulesModel,
    cands: Seq<(int, int)>,
    i: int,
    best: FieldModel,
) -> FieldModel
    decreases sm_unused(sm), 0int, 0int, cands.len() - i,
    when 0 <= i <= cands.len() && cands_ok(sm, cands)
    via sp_field_best_dec
{
    if i >= cands.len() {
        best
    } else {
        let (sec, fld) = cands[i];
        let new_sm = sp_apply(sm, pips, gate, rm, sec, fld, false);
        let e = sp_reroll(new_sm, Seq::<(Die, Pip)>::empty(), 2, rm).exp;
        let cand = FieldModel { section: sec, field: fld, state: new_sm, exp: e };
        sp_field_best(
            sm,
            pips,
            gate,
            rm,
            cands,
            i + 1,
            if e >= best.exp {
                cand
            } else {
                best
            },
        )
    }
}

#[via_fn]
proof fn sp_field_best_dec(
    sm: StateModel,
    pips: Seq<Pip>,
    gate: bool,
    rm: RulesModel,
    cands: Seq<(int, int)>,
    i: int,
    best: FieldModel,
) {
    if i < cands.len() {
        let (sec, fld) = cands[i];
        let new_sm = sp_apply(sm, pips, gate, rm, sec, fld, false);
        lemma_count_true_le(sm.used0);
        lemma_count_true_le(sm.used1);
        lemma_count_true_le(new_sm.used0);
        lemma_count_true_le(new_sm.used1);
        if sec == 0 {
            lemma_count_true_update(sm.used0, fld);
        } else {
            lemma_count_true_update(sm.used1, fld);
        }
        assert(sm_unused(new_sm) == sm_unused(sm) - 1);
    }
}

/// Optimal play: which dice to keep with `rerolls` rerolls left, and the
/// expected final score.  `rerolls` of -1 marks a chip-funded reroll, -2
/// its end.
pub open spec fn sp_reroll(sm: StateModel, hand: HandModel, rerolls: int, rm: RulesModel) -> RerollModel
    decreases sm_unused(sm), rerolls + 2, 2int, 0int,
{
    if rerolls == 0 || rerolls == -2 {
        let stop = sp_field(sm, hand, rm);
        let keep = RerollModel { hand: hand, state: stop.state, exp: stop.exp };
        if sm.chips > 0 && rerolls == 0 {
            let chip_sm = StateModel { chips: sm.chips - 1, ..sm };
            let use_chip = sp_reroll(chip_sm, hand, -1, rm);
            if use_chip.exp > stop.exp {
                use_chip
            } else {
                keep
            }
        } else {
            keep
        }
    } else {
        let cands = sp_subsets(hand);
        let best = sp_best_subset(sm, hand, rerolls, rm, cands, 0, (hand, -1));
        RerollModel { hand: best.0, state: sm, exp: best.1 }
    }
}

/// Fold over the candidate keep-sets, keeping the best expectation; on
/// ties the later candidate wins.
pub open spec fn sp_best_subset(
    sm: StateModel,
    hand: HandModel,
    rerolls: int,
    rm: RulesModel,
    cands: Seq<HandModel>,
    i: int,
    best: (HandModel, int),
) -> (HandModel, int)
    decreases sm_unused(sm), rerolls + 2, 1int, cands.len() - i,
    when 0 <= i <= cands.len() && rerolls >= -2
{
    if i >= cands.len() {
        best
    } else {
        let c = cands[i];
        let e = if crate::global::spec_is_full_hand(c, rm.dice) {
            sp_field(sm, hand, rm).exp
        } else {
            let left = spec_leftover(rm.dice, c);
            let table = spec_group(spec_outcomes(c, left));
            let total = rolls_product(left);
            let s = sp_sum(sm, rerolls, rm, table, 0, 0);
            if total >= 1 {
                s / total
            } else {
                0
            }
        };
        sp_best_subset(
            sm,
            hand,
            rerolls,
            rm,
            cands,
            i + 1,
            if e >= best.1 {
                (c, e)
            } else {
                best
            },
        )
    }
}

/// The count-weighted sum of the expectations of all rolled outcomes.
pub open spec fn sp_sum(
    sm: StateModel,
    rerolls: int,
    rm: RulesModel,
    table: TableModel,
    i: int,
    acc: int,
) -> int
    decreases sm_unused(sm), rerolls + 2, 0int, table.len() - i,
    when 0 <= i <= table.len() && rerolls >= -1
{
    if i >= table.len() {
        acc
    } else {
        sp_sum(
            sm,
            rerolls,
            rm,
            table,
            i + 1,
            acc + table[i].1 * sp_reroll(sm, table[i].0, rerolls - 1, rm).exp,
        )
    }
}

/// Largest expectation value any well-formed game can produce.
pub open spec fn exp_cap() -> int {
    GAME_CAP as int * EXP_ONE as int
}

/// What holds of every state the engine hands out: section masks that
/// match the rules, and scores within the game cap.
pub open spec fn out_state_ok(sm: StateModel, rm: RulesModel) -> bool {
    &&& sm.used0.len() == rm.us.len()
    &&& sm.used1.len() == rm.ls.len()
    &&& 0 <= sm.score0
    &&& 0 <= sm.score1
    &&& sm.score0 + sm.score1 <= GAME_CAP as int
    &&& 0 <= sm.chips <= 255
}

/// The pips a hand gives to the scorers are few and small: as many as the
/// rules roll, each at most the largest pip of the dice.
pub proof fn lemma_pips_bounds(h: HandModel, dice: Seq<(Die, u8)>)
    requires
        hand_ok(h, dice),
        forall|a: int, b: int|
            0 <= a < b < dice.len() ==> (#[trigger] dice[a]).0 != (#[trigger] dice[b]).0,
    ensures
        spec_pips(h).len() == h.len(),
        spec_pips(h).len() <= crate::global::sum_freq(dice),
        forall|i: int|
            0 <= i < spec_pips(h).len() ==> (#[trigger] spec_pips(h)[i]) as int <= dice_max_pip(
                dice,
            ),
{
    let raw = raw_pips(h);
    hands::lemma_sort_freqs_ensures(raw);
    probability::lemma_hand_len_le(h, dice);
    let pips = spec_pips(h);
    raw.to_multiset_ensures();
    pips.to_multiset_ensures();
    assert forall|i: int| 0 <= i < pips.len() implies (#[trigger] pips[i]) as int <= dice_max_pip(
        dice,
    ) by {
        assert(pips.contains(pips[i]));
        assert(pips.to_multiset().count(pips[i]) > 0);
        assert(raw.to_multiset().count(pips[i]) > 0);
        assert(raw.contains(pips[i]));
        let k = choose|k: int| 0 <= k < raw.len() && raw[k] == pips[i];
        assert(raw[k] == h[k].1);
        assert(h[k].0.0 <= h[k].1 && h[k].1 <= h[k].0.1);
        assert(probability::die_in_rules(h[k].0, dice));
        let n = choose|n: int| 0 <= n < dice.len() && h[k].0 == (#[trigger] dice[n]).0;
        lemma_dice_max_pip_ge(dice, n);
    }
}

pub proof fn lemma_dice_max_pip_ge(dice: Seq<(Die, u8)>, n: int)
    requires
        0 <= n < dice.len(),
    ensures
        dice[n].0.1 as int <= dice_max_pip(dice),
    decreases dice.len(),
{
    if n == dice.len() - 1 {
    } else {
        assert(dice.drop_last()[n] == dice[n]);
        lemma_dice_max_pip_ge(dice.drop_last(), n);
    }
}

/// When the policy reads the scorecard, a gated hand is never empty and
/// its lowest pip indexes an upper-section field.
pub proof fn lemma_gate_pip(sm: StateModel, h: HandModel, rm: RulesModel)
    requires
        rm_wf(rm),
        hand_ok(h, rm.dice),
        bonus::policy_uses_card(rm.policy),
        sp_gate(sm, spec_pips(h), rm),
    ensures
        spec_pips(h).len() > 0,
        1 <= first_pip(spec_pips(h)),
        first_pip(spec_pips(h)) as int <= rm.us.len(),
{
    let pips = spec_pips(h);
    let m = rm.ls[YAHTZEE_INDEX as int];
    if pips.len() == 0 {
        assert(hands::spec_groups(pips) =~= Seq::<u8>::empty());
        assert(!hands::greedy_matches(m.1, hands::spec_groups(pips)));
        assert(rules::sm_score(m, pips) == 0);
    }
    let raw = raw_pips(h);
    hands::lemma_sort_freqs_ensures(raw);
    raw.to_multiset_ensures();
    pips.to_multiset_ensures();
    assert(pips.contains(pips[0]));
    assert(pips.to_multiset().count(pips[0]) > 0);
    assert(raw.to_multiset().count(pips[0]) > 0);
    assert(raw.contains(pips[0]));
    let k = choose|k: int| 0 <= k < raw.len() && raw[k] == pips[0];
    assert(raw[k] == h[k].1);
    assert(probability::die_in_rules(h[k].0, rm.dice));
    let n = choose|n: int| 0 <= n < rm.dice.len() && h[k].0 == (#[trigger] rm.dice[n]).0;
    assert(1 <= rm.dice[n].0.0 && rm.dice[n].0.1 as int <= rm.us.len());
    assert(h[k].0.0 <= h[k].1 && h[k].1 <= h[k].0.1);
}

/// Extract the pips of a hand, sorted ascending.
pub fn sorted_pips(h: &PartialHand) -> (r: Vec<Pip>)
    ensures
        r@ == spec_pips(h.0@),
{
    let mut raw: Vec<Pip> = Vec::new();
    let mut i: usize = 0;
    proof {
        assert(raw@ =~= raw_pips(h.0@).subrange(0, 0));
    }
    while i < h.0.len()
        invariant
            i <= h.0@.len(),
            raw@ == raw_pips(h.0@).subrange(0, i as int),
        decreases h.0@.len() - i,
    {
        let (_die, pip) = h.0[i];
        raw.push(pip);
        proof {
            assert(raw_pips(h.0@).subrange(0, i + 1) == raw_pips(h.0@).subrange(0, i as int).push(
                raw_pips(h.0@)[i as int],
            ));
        }
        i += 1;
    }
    proof {
        assert(raw_pips(h.0@).subrange(0, raw_pips(h.0@).len() as int) == raw_pips(h.0@));
    }
    // insertion sort, ascending
    let ghost unsorted = raw@;
    let mut out: Vec<Pip> = Vec::new();
    let mut k: usize = 0;
    proof {
        hands::lemma_sort_freqs_ensures(unsorted);
        assert(out@ =~= unsorted.subrange(0, 0));
    }
    while k < raw.len()
        invariant
            k <= raw@.len(),
            raw@ == unsorted,
            out@.to_multiset() == unsorted.subrange(0, k as int).to_multiset(),
            hands::freqs_sorted(out@),
        decreases raw@.len() - k,
    {
        let e = raw[k];
        let mut j: usize = 0;
        loop
            invariant
                j <= out@.len(),
                forall|m: int| 0 <= m < j ==> #[trigger] out@[m] <= e,
            ensures
                j <= out@.len(),
                forall|m: int| 0 <= m < j ==> #[trigger] out@[m] <= e,
                j < out@.len() ==> !(out@[j as int] <= e),
            decreases out@.len() - j,
        {
            if j == out.len() {
                break ;
            }
            if !(out[j] <= e) {
                break ;
            }
            j += 1;
        }
        let ghost pre = out@;
        out.insert(j, e);
        proof {
            let s = unsorted;
            assert(s.subrange(0, k + 1) == s.subrange(0, k as int).push(s[k as int]));
            s.subrange(0, k as int).to_multiset_ensures();
            assert(out@ == pre.insert(j as int, e));
            crate::global::lemma_insert_multiset(pre, j as int, e);
            assert forall|x: int, y: int| 0 <= x < y < out@.len() implies #[trigger] out@[x]
                <= #[trigger] out@[y] by {
                if y < j {
                    assert(out@[x] == pre[x] && out@[y] == pre[y]);
                } else if y == j {
                    assert(out@[x] == pre[x]);
                } else if x < j {
                    assert(out@[x] == pre[x] && out@[y] == pre[y - 1]);
                } else if x == j {
                    assert(out@[y] == pre[y - 1]);
                } else {
                    assert(out@[x] == pre[x - 1] && out@[y] == pre[y - 1]);
                }
            }
        }
        k += 1;
    }
    proof {
        assert(unsorted.subrange(0, unsorted.len() as int) == unsorted);
        hands::lemma_freqs_sorted_unique(out@, hands::spec_sort_freqs(unsorted));
    }
    out
}

/// Score one field with the hand's sorted pips, honoring the bonus gate.
fn score_and_bonus(
    state: &State,
    pips: &Vec<Pip>,
    gate: bool,
    rules: &Rules,
    section: usize,
    field: usize,
    Ghost(h): Ghost<HandModel>,
) -> (r: (Score, Score))
    requires
        rules_wf(*rules),
        state_wf(state.model(), rules_model(*rules)),
        hand_ok(h, rules.dice.dice.0@),
        pips@ == spec_pips(h),
        gate == sp_gate(state.model(), pips@, rules_model(*rules)),
        section == 0 || section == 1,
        section == 0 ==> field < rules.fields@[0]@.len(),
        section == 1 ==> field < rules.fields@[1]@.len(),
    ensures
        (r.0 as int, r.1 as int) == sp_score_and_bonus(
            state.model(),
            pips@,
            gate,
            rules_model(*rules),
            section as int,
            field as int,
        ),
        r.0 as int + r.1 as int <= turn_allow(),
{
    let ghost rm = rules_model(*rules);
    let ghost maxl = crate::global::sum_freq(rm.dice);
    let ghost maxp = dice_max_pip(rm.dice);
    proof {
        lemma_pips_bounds(h, rm.dice);
    }
    if gate {
        let pip = if pips.len() > 0 {
            pips[0]
        } else {
            0
        };
        proof {
            if bonus::policy_uses_card(rm.policy) {
                lemma_gate_pip(state.model(), h, rm);
            }
            bonus::lemma_apply_bounds(
                rm.policy,
                state.model().used0,
                pip,
                section as int,
                field as int,
            );
            match rm.policy {
                bonus::Policy::Constant(cs, cb) => {},
                _ => {
                    assert(bonus::policy_constant_score(rm.policy) == 0);
                    assert(bonus::policy_constant_bonus(rm.policy) == 0);
                },
            }
        }
        let r = rules.yahtzee_bonus.apply(&state.used[0], pip, section, field);
        r
    } else {
        let f = if section == 0 {
            &rules.fields[0][field].function
        } else {
            &rules.fields[1][field].function
        };
        proof {
            hands::lemma_total_bound(pips@, 255);
            assert(pips@.len() * 255 <= 8 * 255) by (nonlinear_arith)
                requires
                    pips@.len() <= 8,
            ;
            rules::lemma_scorer_bound(*f, pips@, maxl, maxp);
            rules::lemma_sm_score_eq(*f, pips@);
            rules::lemma_sm_cap_eq(*f, maxl, maxp);
            if section == 0 {
                assert(rm.us[field as int] == rules::scorer_model(
                    rules.fields@[0]@[field as int].function,
                ));
            } else {
                assert(rm.ls[field as int] == rules::scorer_model(
                    rules.fields@[1]@[field as int].function,
                ));
            }
        }
        let sc = f.score(pips.as_slice());
        (sc, 0)
    }
}

/// Mark field `(section, field)` with the held hand's sorted pips:
/// compute score and bonus, update the totals, set the used flag; on the
/// terminal move, also pay the upper-section bonus when it is reached.
fn apply_field(
    state: &State,
    pips: &Vec<Pip>,
    gate: bool,
    rules: &Rules,
    section: usize,
    field: usize,
    terminal: bool,
    Ghost(h): Ghost<HandModel>,
) -> (r: State)
    requires
        rules_wf(*rules),
        state_wf(state.model(), rules_model(*rules)),
        hand_ok(h, rules.dice.dice.0@),
        pips@ == spec_pips(h),
        gate == sp_gate(state.model(), pips@, rules_model(*rules)),
        section == 0 || section == 1,
        section == 0 ==> field < state.used@[0]@.len() && !state.used@[0]@[field as int],
        section == 1 ==> field < state.used@[1]@.len() && !state.used@[1]@[field as int],
    ensures
        r.model() == sp_apply(
            state.model(),
            pips@,
            gate,
            rules_model(*rules),
            section as int,
            field as int,
            terminal,
        ),
        !terminal ==> state_wf(r.model(), rules_model(*rules)),
        out_state_ok(r.model(), rules_model(*rules)),
        sm_unused(r.model()) == sm_unused(state.model()) - 1,
{
    let ghost rm = rules_model(*rules);
    let ghost sm = state.model();
    let (sc, bn) = score_and_bonus(state, pips, gate, rules, section, field, Ghost(h));
    proof {
        lemma_count_true_le(sm.used0);
        lemma_count_true_le(sm.used1);
        if section == 0 {
            lemma_count_true_less(sm.used0, field as int);
        } else {
            lemma_count_true_less(sm.used1, field as int);
        }
        let used = count_true(sm.used0) + count_true(sm.used1);
        assert(used * turn_allow() <= 32 * turn_allow() && (used + 1) * turn_allow() == used
            * turn_allow() + turn_allow() && (used + 1) * turn_allow() <= 32 * turn_allow())
            by (nonlinear_arith)
            requires
                0 <= used <= 31,
        ;
    }
    let mut new_score0 = state.score[0];
    let mut new_score1 = state.score[1];
    if section == 0 {
        new_score0 = new_score0 + sc;
    } else {
        new_score1 = new_score1 + sc;
    }
    new_score1 = new_score1 + bn;
    if terminal && new_score0 >= rules.us_bonus.threshold {
        new_score0 = new_score0 + rules.us_bonus.bonus;
    }
    let mut used0 = copy_bools(&state.used[0]);
    let mut used1 = copy_bools(&state.used[1]);
    if section == 0 {
        let ghost pre = used0@;
        let _ = used0.remove(field);
        used0.insert(field, true);
        proof {
            assert(used0@ =~= pre.update(field as int, true));
        }
    } else {
        let ghost pre = used1@;
        let _ = used1.remove(field);
        used1.insert(field, true);
        proof {
            assert(used1@ =~= pre.update(field as int, true));
        }
    }
    let is_yah = if section == 1 {
        let total_dice = crate::global::dice_total(&rules.dice.dice);
        proof {
            assert(rm.ls[field as int] == rules::scorer_model(
                rules.fields@[1]@[field as int].function,
            ));
        }
        rules.fields[1][field].function.is_yahtzee(total_dice)
    } else {
        false
    };
    let new_yah = if !terminal && sc > 0 && section == 1 && is_yah {
        true
    } else {
        state.scored_yahtzee
    };
    let r = State {
        score: [new_score0, new_score1],
        used: [used0, used1],
        scored_yahtzee: new_yah,
        chips: state.chips,
    };
    proof {
        if section == 0 {
            lemma_count_true_update(sm.used0, field as int);
        } else {
            lemma_count_true_update(sm.used1, field as int);
        }
        lemma_count_true_le(r.model().used0);
        lemma_count_true_le(r.model().used1);
    }
    r
}

/// The caches of the three decision functions.  Keys are the call inputs
/// together with the one-character short name of the rules in play; the
/// ghost maps record which rules each short name stands for, so a value is
/// only ever returned under the rules it was computed for.
pub struct Caches {
    /// Which rules model each rules short name stands for.
    pub rules_seen: Ghost<Map<char, RulesModel>>,
    /// Which dice each dice short name stands for.
    pub dice_seen: Ghost<Map<char, Seq<(Die, u8)>>>,
    /// Cached probability tables.
    pub roll: Vec<(PartialHand, char, ProbabilitiesToRoll)>,
    /// Cached reroll recommendations.
    pub reroll: Vec<(State, PartialHand, Rerolls, char, RerollRecomm)>,
    /// Cached field recommendations.
    pub field: Vec<(State, PartialHand, char, FieldRecomm)>,
}

/// The model of a reroll recommendation value.
pub open spec fn reroll_model_of(r: RerollRecomm) -> RerollModel {
    RerollModel { hand: r.hand.0@, state: r.state.model(), exp: r.expectation as int }
}

/// The model of a field recommendation value.
pub open spec fn field_model_of(r: FieldRecomm) -> FieldModel {
    FieldModel {
        section: r.section as int,
        field: r.field as int,
        state: r.state.model(),
        exp: r.expectation as int,
    }
}

/// Everything `choose_reroll` promises of its result.
pub open spec fn reroll_post(
    sm: StateModel,
    h: HandModel,
    rerolls: int,
    rm: RulesModel,
    out: RerollModel,
) -> bool {
    &&& out == sp_reroll(sm, h, rerolls, rm)
    &&& 0 <= out.exp <= exp_cap()
    &&& out_state_ok(out.state, rm)
}

/// Everything `choose_field` promises of its result.
pub open spec fn field_post(sm: StateModel, h: HandModel, rm: RulesModel, out: FieldModel) -> bool {
    &&& out == sp_field(sm, h, rm)
    &&& 0 <= out.exp <= exp_cap()
    &&& out_state_ok(out.state, rm)
    &&& out.section == 0 || out.section == 1
    &&& out.section == 0 ==> 0 <= out.field < rm.us.len()
    &&& out.section == 1 ==> 0 <= out.field < rm.ls.len()
}

impl Caches {
    /// Every cache entry states a true fact about the rules its short name
    /// stands for.
    pub open spec fn wf(self) -> bool {
        &&& forall|k: int|
            0 <= k < self.roll@.len() ==> {
                let (h, sn, t) = #[trigger] self.roll@[k];
                &&& self.dice_seen@.contains_key(sn)
                &&& probability::ptr_post(h.0@, self.dice_seen@[sn], t)
            }
        &&& forall|k: int|
            0 <= k < self.reroll@.len() ==> {
                let (st, h, rr, sn, v) = #[trigger] self.reroll@[k];
                &&& self.rules_seen@.contains_key(sn)
                &&& rm_wf(self.rules_seen@[sn])
                &&& state_wf(st.model(), self.rules_seen@[sn])
                &&& hand_ok(h.0@, self.rules_seen@[sn].dice)
                &&& -2 <= rr <= 2
                &&& sm_unused(st.model()) >= 1
                &&& reroll_post(
                    st.model(),
                    h.0@,
                    rr as int,
                    self.rules_seen@[sn],
                    reroll_model_of(v),
                )
            }
        &&& forall|k: int|
            0 <= k < self.field@.len() ==> {
                let (st, h, sn, v) = #[trigger] self.field@[k];
                &&& self.rules_seen@.contains_key(sn)
                &&& rm_wf(self.rules_seen@[sn])
                &&& state_wf(st.model(), self.rules_seen@[sn])
                &&& hand_ok(h.0@, self.rules_seen@[sn].dice)
                &&& sm_unused(st.model()) >= 1
                &&& field_post(st.model(), h.0@, self.rules_seen@[sn], field_model_of(v))
            }
    }

    /// The caches agree with these dice rules on their short name.
    pub open spec fn dice_compat(self, d: rules::DiceRules) -> bool {
        self.dice_seen@.contains_key(d.short_name) ==> self.dice_seen@[d.short_name] == d.dice.0@
    }

    /// The caches agree with these rules on the short names in play.
    pub open spec fn compat(self, r: Rules) -> bool {
        &&& (self.rules_seen@.contains_key(r.short_name) ==> self.rules_seen@[r.short_name]
            == rules_model(r))
        &&& self.dice_compat(r.dice)
    }

    /// Fresh, empty caches.
    pub fn new() -> (r: Caches)
        ensures
            r.wf(),
            r.rules_seen@ =~= Map::<char, RulesModel>::empty(),
            r.dice_seen@ =~= Map::<char, Seq<(Die, u8)>>::empty(),
            r.roll@.len() == 0,
            r.reroll@.len() == 0,
            r.field@.len() == 0,
    {
        Caches {
            rules_seen: Ghost(Map::empty()),
            dice_seen: Ghost(Map::empty()),
            roll: Vec::new(),
            reroll: Vec::new(),
            field: Vec::new(),
        }
    }
}

/// The rules map only learned the short name of the rules in play.
pub open spec fn rules_extend(old: Map<char, RulesModel>, new: Map<char, RulesModel>, r: Rules) -> bool {
    forall|c: char|
        #[trigger] new.contains_key(c) ==> ((old.contains_key(c) && old[c] == new[c]) || (c
            == r.short_name && new[c] == rules_model(r)))
}

/// The dice map only learned the short name of the dice in play.
pub open spec fn dice_extend(
    old: Map<char, Seq<(Die, u8)>>,
    new: Map<char, Seq<(Die, u8)>>,
    d: rules::DiceRules,
) -> bool {
    forall|c: char|
        #[trigger] new.contains_key(c) ==> ((old.contains_key(c) && old[c] == new[c]) || (c
            == d.short_name && new[c] == d.dice.0@))
}

/// The caches only learned the short names of the rules in play.
pub open spec fn caches_extend(old: Caches, new: Caches, r: Rules) -> bool {
    &&& rules_extend(old.rules_seen@, new.rules_seen@, r)
    &&& dice_extend(old.dice_seen@, new.dice_seen@, r.dice)
}

/// The caches only ever grow: every entry stays where it was, and the
/// ghost maps keep every binding they had.
pub open spec fn caches_grow(old: Caches, new: Caches) -> bool {
    &&& old.roll@.len() <= new.roll@.len()
    &&& forall|k: int| 0 <= k < old.roll@.len() ==> #[trigger] new.roll@[k] == old.roll@[k]
    &&& old.reroll@.len() <= new.reroll@.len()
    &&& forall|k: int| 0 <= k < old.reroll@.len() ==> #[trigger] new.reroll@[k] == old.reroll@[k]
    &&& old.field@.len() <= new.field@.len()
    &&& forall|k: int| 0 <= k < old.field@.len() ==> #[trigger] new.field@[k] == old.field@[k]
    &&& forall|c: char|
        #[trigger] old.rules_seen@.contains_key(c) ==> new.rules_seen@.contains_key(c)
            && new.rules_seen@[c] == old.rules_seen@[c]
    &&& forall|c: char|
        #[trigger] old.dice_seen@.contains_key(c) ==> new.dice_seen@.contains_key(c)
            && new.dice_seen@[c] == old.dice_seen@[c]
}

proof fn lemma_grow_refl(c: Caches)
    ensures
        caches_grow(c, c),
{
}

proof fn lemma_grow_trans(a: Caches, b: Caches, c: Caches)
    requires
        caches_grow(a, b),
        caches_grow(b, c),
    ensures
        caches_grow(a, c),
{
    assert forall|k: int| 0 <= k < a.roll@.len() implies #[trigger] c.roll@[k] == a.roll@[k] by {
        assert(b.roll@[k] == a.roll@[k]);
    }
    assert forall|k: int| 0 <= k < a.reroll@.len() implies #[trigger] c.reroll@[k]
        == a.reroll@[k] by {
        assert(b.reroll@[k] == a.reroll@[k]);
    }
    assert forall|k: int| 0 <= k < a.field@.len() implies #[trigger] c.field@[k] == a.field@[k] by {
        assert(b.field@[k] == a.field@[k]);
    }
    assert forall|x: char| #[trigger] a.rules_seen@.contains_key(x) implies c.rules_seen@.contains_key(
        x,
    ) && c.rules_seen@[x] == a.rules_seen@[x] by {
        assert(b.rules_seen@.contains_key(x));
    }
    assert forall|x: char| #[trigger] a.dice_seen@.contains_key(x) implies c.dice_seen@.contains_key(
        x,
    ) && c.dice_seen@[x] == a.dice_seen@[x] by {
        assert(b.dice_seen@.contains_key(x));
    }
}

/// Whether the reroll cache holds, at index `k`, the entry for the given
/// state, hand, rerolls and rules short name.  The cache invariant then
/// pins that entry's value to `sp_reroll` of those inputs.
pub open spec fn reroll_entry_at(
    c: Caches,
    k: int,
    sm: StateModel,
    h: HandModel,
    rr: int,
    short: char,
) -> bool {
    &&& 0 <= k < c.reroll@.len()
    &&& ({
        let (st, hh, r2, sn, v) = c.reroll@[k];
        st.model() == sm && hh.0@ == h && r2 as int == rr && sn == short
    })
}

/// The state a fresh game starts in, as a model of the rules model.
pub open spec fn initial_state_model(rm: RulesModel) -> StateModel {
    StateModel {
        score0: 0,
        score1: 0,
        used0: Seq::new(rm.us.len(), |i: int| false),
        used1: Seq::new(rm.ls.len(), |i: int| false),
        scored_yahtzee: false,
        chips: rm.chips,
    }
}

/// The caches hold the opening recommendation of the variant with the
/// given short name and rules model: the short name is bound to that
/// model, and the reroll cache holds the entry for the initial state,
/// the empty hand and a full turn of rerolls.  Together with `wf`, that
/// entry's value is `sp_reroll` of the variant's opening position, and
/// every key its computation reached is cached transitively.
pub open spec fn has_opening(c: Caches, short: char, rm: RulesModel) -> bool {
    &&& c.rules_seen@.contains_key(short)
    &&& c.rules_seen@[short] == rm
    &&& exists|k: int|
        reroll_entry_at(
            c,
            k,
            initial_state_model(rm),
            Seq::<(Die, Pip)>::empty(),
            REROLLS as int,
            short,
        )
}

/// Growth of the caches keeps every opening recommendation present.
pub proof fn lemma_grow_opening(a: Caches, b: Caches, short: char, rm: RulesModel)
    requires
        caches_grow(a, b),
        has_opening(a, short, rm),
    ensures
        has_opening(b, short, rm),
{
    let k = choose|k: int|
        reroll_entry_at(
            a,
            k,
            initial_state_model(rm),
            Seq::<(Die, Pip)>::empty(),
            REROLLS as int,
            short,
        );
    assert(b.reroll@[k] == a.reroll@[k]);
    assert(reroll_entry_at(
        b,
        k,
        initial_state_model(rm),
        Seq::<(Die, Pip)>::empty(),
        REROLLS as int,
        short,
    ));
}

/// Copy a probability table.
fn copy_table(t: &ProbabilitiesToRoll) -> (r: ProbabilitiesToRoll)
    ensures
        r.table@.len() == t.table@.len(),
        forall|k: int|
            0 <= k < t.table@.len() ==> (#[trigger] r.table@[k]).0.0@ == t.table@[k].0.0@
                && r.table@[k].1 == t.table@[k].1,
        table_model(r.table@) == table_model(t.table@),
{
    let mut v: Vec<(PartialHand, Probability)> = Vec::new();
    let mut i: usize = 0;
    while i < t.table.len()
        invariant
            i <= t.table@.len(),
            v@.len() == i,
            forall|k: int|
                0 <= k < i ==> (#[trigger] v@[k]).0.0@ == t.table@[k].0.0@ && v@[k].1
                    == t.table@[k].1,
        decreases t.table@.len() - i,
    {
        let h = probability::copy_hand(&t.table[i].0);
        let p = t.table[i].1;
        v.push((h, p));
        i += 1;
    }
    let r = ProbabilitiesToRoll { table: v };
    proof {
        assert(table_model(r.table@) =~= table_model(t.table@));
    }
    r
}

/// Memoized probability table.  Requires a hand that fits the dice; the
/// public entry point `probability_to_roll` checks that first.
fn probability_cached(caches: &mut Caches, have: &PartialHand, dice_rules: &rules::DiceRules) -> (r:
    ProbabilitiesToRoll)
    requires
        old(caches).wf(),
        old(caches).dice_compat(*dice_rules),
        crate::rules::dice_wf(dice_rules.dice),
        hand_ok(have.0@, dice_rules.dice.0@),
    ensures
        final(caches).wf(),
        final(caches).dice_compat(*dice_rules),
        final(caches).rules_seen@ == old(caches).rules_seen@,
        dice_extend(old(caches).dice_seen@, final(caches).dice_seen@, *dice_rules),
        caches_grow(*old(caches), *final(caches)),
        probability::ptr_post(have.0@, dice_rules.dice.0@, r),
{
    let ghost dm = dice_rules.dice.0@;
    // look up
    let mut i: usize = 0;
    while i < caches.roll.len()
        invariant
            i <= caches.roll@.len(),
            caches.wf(),
            caches.roll@ == old(caches).roll@,
            caches.reroll@ == old(caches).reroll@,
            caches.field@ == old(caches).field@,
            caches.rules_seen@ == old(caches).rules_seen@,
            caches.dice_seen@ == old(caches).dice_seen@,
            caches.dice_compat(*dice_rules),
            dm == dice_rules.dice.0@,
            hand_ok(have.0@, dm),
        decreases caches.roll@.len() - i,
    {
        let hit = caches.roll[i].1 == dice_rules.short_name && probability::hand_eq(
            &caches.roll[i].0,
            have,
        );
        if hit {
            let r = copy_table(&caches.roll[i].2);
            proof {
                let (h, sn, t) = caches.roll@[i as int];
                assert(caches.dice_seen@.contains_key(sn));
                assert(sn == dice_rules.short_name);
                assert(caches.dice_seen@[sn] == dm);
                assert(probability::ptr_post(have.0@, dm, t));
                assert(probability::ptr_post(have.0@, dm, r)) by {
                    assert(table_model(r.table@) == table_model(t.table@));
                    assert forall|k: int| 0 <= k < r.table@.len() implies (
                    #[trigger] r.table@[k]).1.den as int == rolls_product(
                        spec_leftover(dm, have.0@),
                    ) && 1 <= r.table@[k].1.num as int <= rolls_product(spec_leftover(dm, have.0@))
                        && {
                        let key = r.table@[k].0.0@;
                        &&& crate::global::spec_is_full_hand(key, dm)
                        &&& hand_pips_ok(key)
                        &&& probability::dies_occur(key, dm)
                        &&& sub_fits(key, dm)
                        &&& key == spec_canon(key)
                        &&& key.len() <= crate::global::sum_freq(dm)
                    } by {
                        assert(r.table@[k].0.0@ == t.table@[k].0.0@);
                        assert(r.table@[k].1 == t.table@[k].1);
                    }
                }
            }
            proof {
                lemma_grow_refl(*caches);
            }
            return r;
        }
        i += 1;
    }
    // compute and insert
    let r = probability::probability_table(probability::copy_hand(have), &dice_rules.dice);
    let entry_hand = probability::copy_hand(have);
    let entry_table = copy_table(&r);
    proof {
        assert(probability::ptr_post(entry_hand.0@, dm, entry_table)) by {
            assert(table_model(entry_table.table@) == table_model(r.table@));
            assert forall|k: int| 0 <= k < entry_table.table@.len() implies (
            #[trigger] entry_table.table@[k]).1.den as int == rolls_product(
                spec_leftover(dm, have.0@),
            ) && 1 <= entry_table.table@[k].1.num as int <= rolls_product(
                spec_leftover(dm, have.0@),
            ) && {
                let key = entry_table.table@[k].0.0@;
                &&& crate::global::spec_is_full_hand(key, dm)
                &&& hand_pips_ok(key)
                &&& probability::dies_occur(key, dm)
                &&& sub_fits(key, dm)
                &&& key == spec_canon(key)
                &&& key.len() <= crate::global::sum_freq(dm)
            } by {
                assert(entry_table.table@[k].0.0@ == r.table@[k].0.0@);
                assert(entry_table.table@[k].1 == r.table@[k].1);
            }
        }
    }
    let ghost pre = *caches;
    caches.roll.push((entry_hand, dice_rules.short_name, entry_table));
    proof {
        caches.dice_seen@ = pre.dice_seen@.insert(dice_rules.short_name, dm);
    }
    proof {
        assert forall|k: int| 0 <= k < caches.roll@.len() implies {
            let (h, sn, t) = #[trigger] caches.roll@[k];
            &&& caches.dice_seen@.contains_key(sn)
            &&& probability::ptr_post(h.0@, caches.dice_seen@[sn], t)
        } by {
            if k < pre.roll@.len() {
                assert(caches.roll@[k] == pre.roll@[k]);
                let (h, sn, t) = pre.roll@[k];
                if sn == dice_rules.short_name {
                    assert(pre.dice_seen@.contains_key(sn));
                    assert(pre.dice_seen@[sn] == dm);
                }
            }
        }
    }
    r
}

/// The model of a candidate list.
pub open spec fn cands_model(v: Seq<(usize, usize)>) -> Seq<(int, int)> {
    Seq::new(v.len(), |i: int| (v[i].0 as int, v[i].1 as int))
}

/// Extension by the same rules composes.
proof fn lemma_extend_trans(a: Caches, b: Caches, c: Caches, r: Rules)
    requires
        caches_extend(a, b, r),
        caches_extend(b, c, r),
    ensures
        caches_extend(a, c, r),
{
    assert forall|x: char| #[trigger] c.rules_seen@.contains_key(x) implies ((
    a.rules_seen@.contains_key(x) && a.rules_seen@[x] == c.rules_seen@[x]) || (x == r.short_name
        && c.rules_seen@[x] == rules_model(r))) by {
        assert((b.rules_seen@.contains_key(x) && b.rules_seen@[x] == c.rules_seen@[x]) || (x
            == r.short_name && c.rules_seen@[x] == rules_model(r)));
        if b.rules_seen@.contains_key(x) && b.rules_seen@[x] == c.rules_seen@[x] {
            assert((a.rules_seen@.contains_key(x) && a.rules_seen@[x] == b.rules_seen@[x]) || (x
                == r.short_name && b.rules_seen@[x] == rules_model(r)));
        }
    }
    assert forall|x: char| #[trigger] c.dice_seen@.contains_key(x) implies ((
    a.dice_seen@.contains_key(x) && a.dice_seen@[x] == c.dice_seen@[x]) || (x == r.dice.short_name
        && c.dice_seen@[x] == r.dice.dice.0@)) by {
        assert((b.dice_seen@.contains_key(x) && b.dice_seen@[x] == c.dice_seen@[x]) || (x
            == r.dice.short_name && c.dice_seen@[x] == r.dice.dice.0@));
        if b.dice_seen@.contains_key(x) && b.dice_seen@[x] == c.dice_seen@[x] {
            assert((a.dice_seen@.contains_key(x) && a.dice_seen@[x] == b.dice_seen@[x]) || (x
                == r.dice.short_name && b.dice_seen@[x] == r.dice.dice.0@));
        }
    }
}

/// Store a field recommendation in the caches.
fn store_field(
    caches: &mut Caches,
    state: &State,
    have: &PartialHand,
    rules: &Rules,
    r: &FieldRecomm,
)
    requires
        old(caches).wf(),
        old(caches).compat(*rules),
        rules_wf(*rules),
        rm_wf(rules_model(*rules)),
        state_wf(state.model(), rules_model(*rules)),
        hand_ok(have.0@, rules.dice.dice.0@),
        sm_unused(state.model()) >= 1,
        field_post(state.model(), have.0@, rules_model(*rules), field_model_of(*r)),
    ensures
        final(caches).wf(),
        final(caches).compat(*rules),
        caches_extend(*old(caches), *final(caches), *rules),
        caches_grow(*old(caches), *final(caches)),
{
    let ghost rm = rules_model(*rules);
    let entry = (
        copy_state(state),
        probability::copy_hand(have),
        rules.short_name,
        FieldRecomm {
            section: r.section,
            field: r.field,
            state: copy_state(&r.state),
            expectation: r.expectation,
        },
    );
    let ghost pre = *caches;
    caches.field.push(entry);
    proof {
        caches.rules_seen@ = pre.rules_seen@.insert(rules.short_name, rm);
        lemma_store_rules_wf(pre, *caches, *rules);
        let k = caches.field@.len() - 1;
        let (st, h, sn, v) = caches.field@[k];
        assert(st.model() == state.model() && h.0@ == have.0@ && sn == rules.short_name
            && field_model_of(v) == field_model_of(*r));
        assert(caches.rules_seen@[sn] == rm);
    }
}

/// Store a reroll recommendation in the caches.
fn store_reroll(
    caches: &mut Caches,
    state: &State,
    have: &PartialHand,
    rerolls: Rerolls,
    rules: &Rules,
    r: &RerollRecomm,
)
    requires
        old(caches).wf(),
        old(caches).compat(*rules),
        rules_wf(*rules),
        rm_wf(rules_model(*rules)),
        state_wf(state.model(), rules_model(*rules)),
        hand_ok(have.0@, rules.dice.dice.0@),
        sm_unused(state.model()) >= 1,
        -2 <= rerolls <= 2,
        reroll_post(
            state.model(),
            have.0@,
            rerolls as int,
            rules_model(*rules),
            reroll_model_of(*r),
        ),
    ensures
        final(caches).wf(),
        final(caches).compat(*rules),
        caches_extend(*old(caches), *final(caches), *rules),
        caches_grow(*old(caches), *final(caches)),
        reroll_entry_at(
            *final(caches),
            old(caches).reroll@.len() as int,
            state.model(),
            have.0@,
            rerolls as int,
            rules.short_name,
        ),
{
    let ghost rm = rules_model(*rules);
    let entry = (
        copy_state(state),
        probability::copy_hand(have),
        rerolls,
        rules.short_name,
        RerollRecomm {
            hand: probability::copy_hand(&r.hand),
            state: copy_state(&r.state),
            expectation: r.expectation,
        },
    );
    let ghost pre = *caches;
    caches.reroll.push(entry);
    proof {
        caches.rules_seen@ = pre.rules_seen@.insert(rules.short_name, rm);
        lemma_store_rules_wf(pre, *caches, *rules);
        let k = caches.reroll@.len() - 1;
        let (st, h, rr, sn, v) = caches.reroll@[k];
        assert(st.model() == state.model() && h.0@ == have.0@ && rr == rerolls && sn
            == rules.short_name && reroll_model_of(v) == reroll_model_of(*r));
        assert(caches.rules_seen@[sn] == rm);
    }
}

/// Inserting the rules in play into the ghost map keeps every prior cache
/// entry's facts intact.
proof fn lemma_store_rules_wf(pre: Caches, post: Caches, r: Rules)
    requires
        pre.wf(),
        pre.compat(r),
        rules_wf(r),
        post.roll@ == pre.roll@,
        post.dice_seen@ == pre.dice_seen@,
        post.rules_seen@ == pre.rules_seen@.insert(r.short_name, rules_model(r)),
        post.reroll@ == pre.reroll@ || (post.reroll@.len() == pre.reroll@.len() + 1 && forall|k: int|
            0 <= k < pre.reroll@.len() ==> post.reroll@[k] == pre.reroll@[k]),
        post.field@ == pre.field@ || (post.field@.len() == pre.field@.len() + 1 && forall|k: int|
            0 <= k < pre.field@.len() ==> post.field@[k] == pre.field@[k]),
    ensures
        forall|k: int|
            0 <= k < pre.reroll@.len() ==> {
                let (st, h, rr, sn, v) = #[trigger] post.reroll@[k];
                &&& post.rules_seen@.contains_key(sn)
                &&& rm_wf(post.rules_seen@[sn])
                &&& state_wf(st.model(), post.rules_seen@[sn])
                &&& hand_ok(h.0@, post.rules_seen@[sn].dice)
                &&& -2 <= rr <= 2
                &&& sm_unused(st.model()) >= 1
                &&& reroll_post(
                    st.model(),
                    h.0@,
                    rr as int,
                    post.rules_seen@[sn],
                    reroll_model_of(v),
                )
            },
        forall|k: int|
            0 <= k < pre.field@.len() ==> {
                let (st, h, sn, v) = #[trigger] post.field@[k];
                &&& post.rules_seen@.contains_key(sn)
                &&& rm_wf(post.rules_seen@[sn])
                &&& state_wf(st.model(), post.rules_seen@[sn])
                &&& hand_ok(h.0@, post.rules_seen@[sn].dice)
                &&& sm_unused(st.model()) >= 1
                &&& field_post(st.model(), h.0@, post.rules_seen@[sn], field_model_of(v))
            },
        forall|k: int|
            0 <= k < post.roll@.len() ==> {
                let (h, sn, t) = #[trigger] post.roll@[k];
                &&& post.dice_seen@.contains_key(sn)
                &&& probability::ptr_post(h.0@, post.dice_seen@[sn], t)
            },
        post.compat(r),
        caches_extend(pre, post, r),
{
    assert forall|k: int| 0 <= k < pre.reroll@.len() implies {
        let (st, h, rr, sn, v) = #[trigger] post.reroll@[k];
        &&& post.rules_seen@.contains_key(sn)
        &&& rm_wf(post.rules_seen@[sn])
        &&& state_wf(st.model(), post.rules_seen@[sn])
        &&& hand_ok(h.0@, post.rules_seen@[sn].dice)
        &&& -2 <= rr <= 2
        &&& sm_unused(st.model()) >= 1
        &&& reroll_post(st.model(), h.0@, rr as int, post.rules_seen@[sn], reroll_model_of(v))
    } by {
        assert(post.reroll@[k] == pre.reroll@[k]);
        let (st, h, rr, sn, v) = pre.reroll@[k];
        if sn == r.short_name {
            assert(pre.rules_seen@[sn] == rules_model(r));
        }
        assert(post.rules_seen@[sn] == pre.rules_seen@[sn]);
    }
    assert forall|k: int| 0 <= k < pre.field@.len() implies {
        let (st, h, sn, v) = #[trigger] post.field@[k];
        &&& post.rules_seen@.contains_key(sn)
        &&& rm_wf(post.rules_seen@[sn])
        &&& state_wf(st.model(), post.rules_seen@[sn])
        &&& hand_ok(h.0@, post.rules_seen@[sn].dice)
        &&& sm_unused(st.model()) >= 1
        &&& field_post(st.model(), h.0@, post.rules_seen@[sn], field_model_of(v))
    } by {
        assert(post.field@[k] == pre.field@[k]);
        let (st, h, sn, v) = pre.field@[k];
        if sn == r.short_name {
            assert(pre.rules_seen@[sn] == rules_model(r));
        }
        assert(post.rules_seen@[sn] == pre.rules_seen@[sn]);
    }
}

/// Calculate the best choice of field at the end of a turn: among the
/// unused fields, the one whose marked state maximizes the expected final
/// score, with a fresh turn's continuation for every non-terminal move.
#[verifier::rlimit(100)]
pub fn choose_field(caches: &mut Caches, state: &State, have: &PartialHand, rules: &Rules) -> (r:
    FieldRecomm)
    requires
        rules_wf(*rules),
        state_wf(state.model(), rules_model(*rules)),
        hand_ok(have.0@, rules.dice.dice.0@),
        sm_unused(state.model()) >= 1,
        old(caches).wf(),
        old(caches).compat(*rules),
    ensures
        final(caches).wf(),
        final(caches).compat(*rules),
        caches_extend(*old(caches), *final(caches), *rules),
        caches_grow(*old(caches), *final(caches)),
        field_post(state.model(), have.0@, rules_model(*rules), field_model_of(r)),
    decreases sm_unused(state.model()), 0int, 0int,
{
    let ghost rm = rules_model(*rules);
    let ghost sm = state.model();
    proof {
        lemma_rules_model_wf(*rules);
    }
    // consult the cache
    let mut ci: usize = 0;
    while ci < caches.field.len()
        invariant
            ci <= caches.field@.len(),
            caches.wf(),
            caches.roll@ == old(caches).roll@,
            caches.reroll@ == old(caches).reroll@,
            caches.field@ == old(caches).field@,
            caches.rules_seen@ == old(caches).rules_seen@,
            caches.dice_seen@ == old(caches).dice_seen@,
            caches.compat(*rules),
            rm == rules_model(*rules),
            sm == state.model(),
        decreases caches.field@.len() - ci,
    {
        let hit = caches.field[ci].2 == rules.short_name && state_eq(&caches.field[ci].0, state)
            && probability::hand_eq(&caches.field[ci].1, have);
        if hit {
            let v = &caches.field[ci].3;
            let out = FieldRecomm {
                section: v.section,
                field: v.field,
                state: copy_state(&v.state),
                expectation: v.expectation,
            };
            proof {
                let (st, h, sn, vv) = caches.field@[ci as int];
                assert(caches.rules_seen@.contains_key(sn));
                assert(caches.rules_seen@[sn] == rm);
                assert(field_model_of(out) == field_model_of(vv));
                lemma_grow_refl(*caches);
            }
            return out;
        }
        ci += 1;
    }

    // the sorted pips the scorers read
    let pips = sorted_pips(have);
    let ghost dm = rules.dice.dice.0@;
    proof {
        lemma_pips_bounds(have.0@, dm);
        hands::lemma_total_bound(pips@, 255);
        assert(pips@.len() * 255 <= 8 * 255) by (nonlinear_arith)
            requires
                pips@.len() <= 8,
        ;
    }

    // whether the Yahtzee-bonus policy applies
    let no_bonus = matches!(rules.yahtzee_bonus.policy, bonus::Policy::NoBonus);
    let gate = if state.scored_yahtzee && !no_bonus {
        let f = &rules.fields[1][YAHTZEE_INDEX].function;
        proof {
            rules::lemma_sm_score_eq(*f, pips@);
            assert(rm.ls[YAHTZEE_INDEX as int] == rules::scorer_model(
                rules.fields@[1]@[YAHTZEE_INDEX as int].function,
            ));
        }
        let ys = f.score(pips.as_slice());
        ys > 0
    } else {
        false
    };
    proof {
        assert(gate == sp_gate(sm, pips@, rm));
    }

    // enumerate the unused fields, upper section first
    let mut cands: Vec<(usize, usize)> = Vec::new();
    let mut f0: usize = 0;
    proof {
        assert(cands_model(cands@) + unused_from(sm.used0, 0, 0) =~= unused_from(sm.used0, 0, 0));
    }
    while f0 < state.used[0].len()
        invariant
            f0 <= sm.used0.len(),
            sm == state.model(),
            cands_model(cands@) + unused_from(sm.used0, 0, f0 as int) == unused_from(sm.used0, 0, 0),
        decreases sm.used0.len() - f0,
    {
        if !state.used[0][f0] {
            let ghost pre = cands_model(cands@);
            cands.push((0, f0));
            proof {
                assert(cands_model(cands@) =~= pre.push((0int, f0 as int)));
                assert(unused_from(sm.used0, 0, f0 as int) == seq![(0int, f0 as int)]
                    + unused_from(sm.used0, 0, f0 as int + 1));
                assert(cands_model(cands@) + unused_from(sm.used0, 0, f0 as int + 1)
                    =~= pre + unused_from(sm.used0, 0, f0 as int));
            }
        } else {
            proof {
                assert(unused_from(sm.used0, 0, f0 as int) == Seq::<(int, int)>::empty()
                    + unused_from(sm.used0, 0, f0 as int + 1));
                assert(cands_model(cands@) + unused_from(sm.used0, 0, f0 as int + 1)
                    =~= cands_model(cands@) + unused_from(sm.used0, 0, f0 as int));
            }
        }
        f0 += 1;
    }
    proof {
        assert(unused_from(sm.used0, 0, sm.used0.len() as int) =~= Seq::<(int, int)>::empty());
        assert(cands_model(cands@) =~= unused_from(sm.used0, 0, 0));
    }
    let ghost us_part = cands_model(cands@);
    let mut f1: usize = 0;
    proof {
        assert(us_part + unused_from(sm.used1, 1, 0) =~= us_part + unused_from(sm.used1, 1, 0));
    }
    while f1 < state.used[1].len()
        invariant
            f1 <= sm.used1.len(),
            sm == state.model(),
            cands_model(cands@) + unused_from(sm.used1, 1, f1 as int) == us_part + unused_from(
                sm.used1,
                1,
                0,
            ),
        decreases sm.used1.len() - f1,
    {
        if !state.used[1][f1] {
            let ghost pre = cands_model(cands@);
            cands.push((1, f1));
            proof {
                assert(cands_model(cands@) =~= pre.push((1int, f1 as int)));
                assert(unused_from(sm.used1, 1, f1 as int) == seq![(1int, f1 as int)]
                    + unused_from(sm.used1, 1, f1 as int + 1));
                assert(cands_model(cands@) + unused_from(sm.used1, 1, f1 as int + 1)
                    =~= pre + unused_from(sm.used1, 1, f1 as int));
            }
        } else {
            proof {
                assert(unused_from(sm.used1, 1, f1 as int) == Seq::<(int, int)>::empty()
                    + unused_from(sm.used1, 1, f1 as int + 1));
                assert(cands_model(cands@) + unused_from(sm.used1, 1, f1 as int + 1)
                    =~= cands_model(cands@) + unused_from(sm.used1, 1, f1 as int));
            }
        }
        f1 += 1;
    }
    proof {
        assert(unused_from(sm.used1, 1, sm.used1.len() as int) =~= Seq::<(int, int)>::empty());
        assert(cands_model(cands@) =~= sp_cands(sm));
        lemma_cands(sm);
        assert(cands@.len() >= 1);
    }

    if cands.len() == 1 {
        // terminal move: the last empty field ends the game
        let (sec, fld) = cands[0];
        proof {
            assert(cands_model(cands@)[0] == (sec as int, fld as int));
            assert(cands_ok(sm, sp_cands(sm)));
        }
        let final_state = apply_field(state, &pips, gate, rules, sec, fld, true, Ghost(have.0@));
        let total_score: u64 = final_state.score[0] as u64 + final_state.score[1] as u64;
        proof {
            assert(total_score as int * EXP_ONE as int <= GAME_CAP as int * EXP_ONE as int
                && 0 <= total_score as int * EXP_ONE as int) by (nonlinear_arith)
                requires
                    0 <= total_score as int <= GAME_CAP as int,
            ;
        }
        let exp: u64 = total_score * EXP_ONE;
        let out = FieldRecomm { section: sec, field: fld, state: final_state, expectation: exp };
        proof {
            assert(sp_cands(sm)[0] == (sec as int, fld as int));
            assert(field_model_of(out) == sp_field(sm, have.0@, rm));
        }
        let ghost cpre2 = *caches;
        store_field(caches, state, have, rules, &out);
        proof {
            lemma_extend_trans(*old(caches), cpre2, *caches, *rules);
            lemma_grow_refl(*old(caches));
            lemma_grow_trans(*old(caches), cpre2, *caches);
        }
        return out;
    }

    // evaluate every candidate, later candidates winning ties
    proof {
        lemma_grow_refl(*caches);
    }
    let ghost cands_m = cands_model(cands@);
    let mut best = FieldRecomm {
        section: 0,
        field: 0,
        state: copy_state(state),
        expectation: 0,
    };
    let ghost init_m = FieldModel { section: 0, field: 0, state: sm, exp: -1 };
    let ghost mut best_m = init_m;
    let mut first: bool = true;
    let mut k: usize = 0;
    while k < cands.len()
        invariant
            k <= cands@.len(),
            cands@.len() >= 2,
            cands_m == cands_model(cands@),
            cands_m == sp_cands(sm),
            cands_ok(sm, cands_m),
            sm == state.model(),
            rm == rules_model(*rules),
            rules_wf(*rules),
            rm_wf(rm),
            state_wf(sm, rm),
            hand_ok(have.0@, rules.dice.dice.0@),
            sm_unused(sm) == cands_m.len(),
            pips@ == spec_pips(have.0@),
            gate == sp_gate(sm, pips@, rm),
            caches.wf(),
            caches.compat(*rules),
            caches_extend(*old(caches), *caches, *rules),
            caches_grow(*old(caches), *caches),
            sp_field_best(sm, pips@, gate, rm, cands_m, k as int, best_m) == sp_field_best(
                sm,
                pips@,
                gate,
                rm,
                cands_m,
                0,
                init_m,
            ),
            init_m == (FieldModel { section: 0, field: 0, state: sm, exp: -1 }),
            first ==> best_m == init_m,
            !first ==> best_m == field_model_of(best) && 0 <= best_m.exp <= exp_cap()
                && out_state_ok(best_m.state, rm) && (best_m.section == 0 || best_m.section == 1)
                && (best_m.section == 0 ==> 0 <= best_m.field < rm.us.len()) && (best_m.section == 1
                ==> 0 <= best_m.field < rm.ls.len()),
            k >= 1 ==> !first,
        decreases cands@.len() - k,
    {
        let (sec, fld) = cands[k];
        proof {
            assert(cands_m[k as int] == (sec as int, fld as int));
        }
        let new_state = apply_field(state, &pips, gate, rules, sec, fld, false, Ghost(have.0@));
        let empty = PartialHand(Vec::new());
        proof {
            assert(empty.0@ =~= Seq::<(Die, Pip)>::empty());
            assert forall|i: int| 0 <= i < rules.dice.dice.0@.len() implies crate::global::count_die(
                empty.0@,
                (#[trigger] rules.dice.dice.0@[i]).0,
            ) <= rules.dice.dice.0@[i].1 as int by {
                assert(crate::global::count_die(empty.0@, rules.dice.dice.0@[i].0) == 0);
            }
            assert(hand_ok(empty.0@, rules.dice.dice.0@));
            lemma_count_true_le(new_state.model().used0);
            lemma_count_true_le(new_state.model().used1);
        }
        let ghost cpre = *caches;
        let rec = choose_reroll(caches, &new_state, &empty, REROLLS, rules);
        let e = rec.expectation;
        proof {
            lemma_extend_trans(*old(caches), cpre, *caches, *rules);
            lemma_grow_trans(*old(caches), cpre, *caches);
            let new_sm = sp_apply(sm, pips@, gate, rm, sec as int, fld as int, false);
            assert(new_state.model() == new_sm);
            assert(e as int == sp_reroll(new_sm, empty.0@, 2, rm).exp);
            assert(empty.0@ =~= Seq::<(Die, Pip)>::empty());
        }
        proof {
            assert(0 <= e as int);
        }
        let ghost was_first = first;
        let ghost prev_exec = best;
        let take = first || e >= best.expectation;
        if take {
            best = FieldRecomm { section: sec, field: fld, state: new_state, expectation: e };
            first = false;
        }
        proof {
            let new_sm = sp_apply(sm, pips@, gate, rm, sec as int, fld as int, false);
            let cand_m = FieldModel {
                section: sec as int,
                field: fld as int,
                state: new_sm,
                exp: e as int,
            };
            let prev_best = best_m;
            best_m = if e as int >= prev_best.exp {
                cand_m
            } else {
                prev_best
            };
            if was_first {
                assert(prev_best == init_m);
                assert(prev_best.exp == -1);
                assert(take);
            } else {
                assert(prev_best == field_model_of(prev_exec));
                assert(prev_best.exp == prev_exec.expectation as int);
                assert(take == (e >= prev_exec.expectation));
            }
            assert(take == (e as int >= prev_best.exp));
            assert(sp_field_best(sm, pips@, gate, rm, cands_m, k as int, prev_best)
                == sp_field_best(sm, pips@, gate, rm, cands_m, k as int + 1, best_m));
        }
        k += 1;
    }
    proof {
        assert(sp_field_best(sm, pips@, gate, rm, cands_m, cands_m.len() as int, best_m) == best_m);
        assert(!first);
        assert(field_model_of(best) == sp_field(sm, have.0@, rm));
    }
    let ghost cpre3 = *caches;
    store_field(caches, state, have, rules, &best);
    proof {
        lemma_extend_trans(*old(caches), cpre3, *caches, *rules);
        lemma_grow_trans(*old(caches), cpre3, *caches);
    }
    best
}

/// Every entry of `push_all` is the matching source hand with `e` appended.
proof fn lemma_push_all(hs: Seq<HandModel>, e: (Die, Pip))
    ensures
        push_all(hs, e).len() == hs.len(),
        forall|j: int| 0 <= j < hs.len() ==> #[trigger] push_all(hs, e)[j] == hs[j].push(e),
    decreases hs.len(),
{
    if hs.len() > 0 {
        lemma_push_all(hs.drop_first(), e);
        assert forall|j: int| 0 <= j < hs.len() implies #[trigger] push_all(hs, e)[j] == hs[j].push(
            e,
        ) by {
            if j > 0 {
                assert(push_all(hs, e)[j] == push_all(hs.drop_first(), e)[j - 1]);
                assert(hs.drop_first()[j - 1] == hs[j]);
            }
        }
    }
}

/// Prefix sums of positive counts are nonnegative and at most the total.
proof fn lemma_sum_counts_prefix(t: TableModel, i: int)
    requires
        probability::counts_pos(t),
        0 <= i <= t.len(),
    ensures
        0 <= sum_counts(t.subrange(0, i)) <= sum_counts(t),
        i < t.len() ==> sum_counts(t.subrange(0, i + 1)) == sum_counts(t.subrange(0, i)) + t[i].1,
    decreases t.len() - i,
{
    assert forall|k: int| 0 <= k < t.subrange(0, i).len() implies (#[trigger] t.subrange(0, i)[k]).1
        >= 1 by {
        assert(t.subrange(0, i)[k] == t[k]);
    }
    probability::lemma_sum_counts_nonneg(t.subrange(0, i));
    if i < t.len() {
        assert(t.subrange(0, i + 1).drop_last() =~= t.subrange(0, i));
        assert(t.subrange(0, i + 1).last() == t[i]);
        lemma_sum_counts_prefix(t, i + 1);
    } else {
        assert(t.subrange(0, i) =~= t);
    }
}

/// Calculate the best reroll: among all subsets of the hand, the keep-set
/// with the highest expected final score; at the end of the turn, possibly
/// spend a chip on one more reroll.
#[verifier::rlimit(100)]
pub fn choose_reroll(
    caches: &mut Caches,
    state: &State,
    hand: &PartialHand,
    rerolls: Rerolls,
    rules: &Rules,
) -> (r: RerollRecomm)
    requires
        rules_wf(*rules),
        state_wf(state.model(), rules_model(*rules)),
        hand_ok(hand.0@, rules.dice.dice.0@),
        sm_unused(state.model()) >= 1,
        -2 <= rerolls <= REROLLS,
        old(caches).wf(),
        old(caches).compat(*rules),
    ensures
        final(caches).wf(),
        final(caches).compat(*rules),
        caches_extend(*old(caches), *final(caches), *rules),
        caches_grow(*old(caches), *final(caches)),
        exists|k: int|
            reroll_entry_at(
                *final(caches),
                k,
                state.model(),
                hand.0@,
                rerolls as int,
                rules.short_name,
            ),
        reroll_post(
            state.model(),
            hand.0@,
            rerolls as int,
            rules_model(*rules),
            reroll_model_of(r),
        ),
    decreases sm_unused(state.model()), rerolls as int + 2, 1int,
{
    let ghost rm = rules_model(*rules);
    let ghost sm = state.model();
    let ghost dm = rules.dice.dice.0@;
    proof {
        lemma_rules_model_wf(*rules);
        lemma_count_true_le(sm.used0);
        lemma_count_true_le(sm.used1);
    }
    // consult the cache
    let mut ci: usize = 0;
    while ci < caches.reroll.len()
        invariant
            ci <= caches.reroll@.len(),
            caches.wf(),
            caches.roll@ == old(caches).roll@,
            caches.reroll@ == old(caches).reroll@,
            caches.field@ == old(caches).field@,
            caches.rules_seen@ == old(caches).rules_seen@,
            caches.dice_seen@ == old(caches).dice_seen@,
            caches.compat(*rules),
            rm == rules_model(*rules),
            sm == state.model(),
        decreases caches.reroll@.len() - ci,
    {
        let hit = caches.reroll[ci].2 == rerolls && caches.reroll[ci].3 == rules.short_name
            && state_eq(&caches.reroll[ci].0, state) && probability::hand_eq(
            &caches.reroll[ci].1,
            hand,
        );
        if hit {
            let v = &caches.reroll[ci].4;
            let out = RerollRecomm {
                hand: probability::copy_hand(&v.hand),
                state: copy_state(&v.state),
                expectation: v.expectation,
            };
            proof {
                let (st, h, rr, sn, vv) = caches.reroll@[ci as int];
                assert(caches.rules_seen@.contains_key(sn));
                assert(caches.rules_seen@[sn] == rm);
                assert(reroll_model_of(out) == reroll_model_of(vv));
                lemma_grow_refl(*caches);
                assert(reroll_entry_at(
                    *caches,
                    ci as int,
                    state.model(),
                    hand.0@,
                    rerolls as int,
                    rules.short_name,
                ));
            }
            return out;
        }
        ci += 1;
    }

    let out: RerollRecomm;
    if rerolls == 0 || rerolls == -2 {
        // end of turn, or the chip reroll is over: score now ...
        let ghost ca = *caches;
        let stop = choose_field(caches, state, hand, rules);
        proof {
            lemma_extend_trans(*old(caches), ca, *caches, *rules);
            lemma_grow_refl(*old(caches));
            lemma_grow_trans(*old(caches), ca, *caches);
        }
        let mut result = RerollRecomm {
            hand: probability::copy_hand(hand),
            state: stop.state,
            expectation: stop.expectation,
        };
        let ghost stop_exp = stop.expectation as int;
        // ... but try a chip if some are left and none was used this turn
        if state.chips > 0 && rerolls == 0 {
            let mut chip_state = copy_state(state);
            chip_state.chips = chip_state.chips - 1;
            proof {
                assert(chip_state.model() == (StateModel { chips: sm.chips - 1, ..sm }));
            }
            let ghost cb = *caches;
            let use_chip = choose_reroll(caches, &chip_state, hand, -1, rules);
            proof {
                lemma_extend_trans(*old(caches), cb, *caches, *rules);
                lemma_grow_trans(*old(caches), cb, *caches);
            }
            if use_chip.expectation > result.expectation {
                result = use_chip;
            }
        }
        proof {
            assert(reroll_model_of(result) == sp_reroll(sm, hand.0@, rerolls as int, rm));
        }
        out = result;
    } else {
        // enumerate all subsets of the hand as candidate keep-sets
        let mut subs: Vec<PartialHand> = Vec::new();
        subs.push(PartialHand(Vec::new()));
        proof {
            assert(subs@[0].0@ =~= Seq::<(Die, Pip)>::empty());
            assert(probability::hands_model(subs@) =~= seq![Seq::<(Die, Pip)>::empty()]);
            assert forall|n: int| 0 <= n < dm.len() implies crate::global::count_die(
                subs@[0].0@,
                (#[trigger] dm[n]).0,
            ) == 0 by {}
            assert(hand.0@.subrange(0, 0) =~= Seq::<(Die, Pip)>::empty());
        }
        let mut i: usize = 0;
        while i < hand.0.len()
            invariant
                i <= hand.0@.len(),
                dm == rules.dice.dice.0@,
                hand_ok(hand.0@, dm),
                subsets_acc(hand.0@, i as int, probability::hands_model(subs@)) == sp_subsets(
                    hand.0@,
                ),
                subs@.len() >= 1,
                forall|k: int|
                    0 <= k < subs@.len() ==> probability::hand_pips_ok(
                        (#[trigger] subs@[k]).0@,
                    ) && probability::dies_occur(subs@[k].0@, dm),
                forall|k: int, n: int|
                    0 <= k < subs@.len() && 0 <= n < dm.len() ==> crate::global::count_die(
                        (#[trigger] subs@[k]).0@,
                        (#[trigger] dm[n]).0,
                    ) <= crate::global::count_die(hand.0@.subrange(0, i as int), dm[n].0),
            decreases hand.0@.len() - i,
        {
            let el = hand.0[i];
            let n0 = subs.len();
            let ghost base = probability::hands_model(subs@);
            let mut j: usize = 0;
            while j < n0
                invariant
                    j <= n0,
                    n0 <= subs@.len(),
                    n0 == base.len(),
                    subs@.len() == n0 + j,
                    el == hand.0@[i as int],
                    0 <= i < hand.0@.len(),
                    dm == rules.dice.dice.0@,
                    hand_ok(hand.0@, dm),
                    forall|k: int| 0 <= k < n0 ==> (#[trigger] subs@[k]).0@ == base[k],
                    forall|m: int|
                        0 <= m < j ==> (#[trigger] subs@[n0 + m]).0@ == base[m].push(el),
                    forall|k: int|
                        0 <= k < subs@.len() ==> probability::hand_pips_ok(
                            (#[trigger] subs@[k]).0@,
                        ) && probability::dies_occur(subs@[k].0@, dm),
                    forall|k: int, n: int|
                        0 <= k < n0 && 0 <= n < dm.len() ==> crate::global::count_die(
                            (#[trigger] subs@[k]).0@,
                            (#[trigger] dm[n]).0,
                        ) <= crate::global::count_die(hand.0@.subrange(0, i as int), dm[n].0),
                    forall|m: int, n: int|
                        0 <= m < j && 0 <= n < dm.len() ==> crate::global::count_die(
                            (#[trigger] subs@[n0 + m]).0@,
                            (#[trigger] dm[n]).0,
                        ) <= crate::global::count_die(hand.0@.subrange(0, i as int + 1), dm[n].0),
                decreases n0 - j,
            {
                let mut nh = probability::copy_hand(&subs[j]);
                nh.0.push(el);
                proof {
                    let prev = subs@[j as int].0@;
                    assert(nh.0@ == base[j as int].push(el));
                    assert forall|x: int| 0 <= x < nh.0@.len() implies (#[trigger] nh.0@[x]).0.0
                        <= nh.0@[x].1 && nh.0@[x].1 <= nh.0@[x].0.1 && probability::die_in_rules(
                        nh.0@[x].0,
                        dm,
                    ) by {
                        if x < prev.len() {
                            assert(nh.0@[x] == prev[x]);
                        } else {
                            assert(nh.0@[x] == el);
                            assert(hand.0@[i as int].0.0 <= hand.0@[i as int].1 && hand.0@[i
                                as int].1 <= hand.0@[i as int].0.1);
                            assert(probability::die_in_rules(hand.0@[i as int].0, dm));
                        }
                    }
                    let s = hand.0@;
                    assert(s.subrange(0, i as int + 1).drop_last() == s.subrange(0, i as int));
                    assert(s.subrange(0, i as int + 1).last() == s[i as int]);
                    assert forall|n: int| 0 <= n < dm.len() implies crate::global::count_die(
                        nh.0@,
                        (#[trigger] dm[n]).0,
                    ) <= crate::global::count_die(s.subrange(0, i as int + 1), dm[n].0) by {
                        assert(nh.0@.drop_last() == prev && nh.0@.last() == el);
                    }
                }
                subs.push(nh);
                j += 1;
            }
            proof {
                lemma_push_all(base, el);
                assert forall|x: int| 0 <= x < subs@.len() implies probability::hands_model(subs@)[x]
                    == (base + push_all(base, el))[x] by {
                    if x < n0 {
                        assert(probability::hands_model(subs@)[x] == subs@[x].0@);
                    } else {
                        let m = x - n0;
                        assert(subs@[n0 + m].0@ == base[m].push(el));
                        assert(push_all(base, el)[m] == base[m].push(el));
                    }
                }
                assert(probability::hands_model(subs@) =~= base + push_all(base, el));
                let s = hand.0@;
                assert(s.subrange(0, i as int + 1).drop_last() == s.subrange(0, i as int));
                assert forall|k: int, n: int|
                    0 <= k < subs@.len() && 0 <= n < dm.len() implies crate::global::count_die(
                    (#[trigger] subs@[k]).0@,
                    (#[trigger] dm[n]).0,
                ) <= crate::global::count_die(s.subrange(0, i as int + 1), dm[n].0) by {
                    if k < n0 {
                        assert(crate::global::count_die(subs@[k].0@, dm[n].0)
                            <= crate::global::count_die(s.subrange(0, i as int), dm[n].0));
                        assert(crate::global::count_die(s.subrange(0, i as int + 1), dm[n].0)
                            >= crate::global::count_die(s.subrange(0, i as int), dm[n].0));
                    } else {
                        let m = k - n0;
                        assert(crate::global::count_die(subs@[n0 + m].0@, dm[n].0)
                            <= crate::global::count_die(s.subrange(0, i as int + 1), dm[n].0));
                    }
                }
            }
            i += 1;
        }
        proof {
            assert(hand.0@.subrange(0, hand.0@.len() as int) == hand.0@);
            assert forall|k: int| 0 <= k < subs@.len() implies hand_ok(
                (#[trigger] subs@[k]).0@,
                dm,
            ) by {
                assert forall|n: int| 0 <= n < dm.len() implies crate::global::count_die(
                    subs@[k].0@,
                    (#[trigger] dm[n]).0,
                ) <= dm[n].1 as int by {
                    assert(crate::global::count_die(subs@[k].0@, dm[n].0)
                        <= crate::global::count_die(hand.0@, dm[n].0));
                }
            }
        }

        // evaluate every candidate keep-set, later candidates winning ties
        proof {
            lemma_grow_refl(*caches);
        }
        let ghost subs_m = probability::hands_model(subs@);
        let ghost init_b = (hand.0@, -1int);
        let ghost mut best_m = init_b;
        let mut best_hand = probability::copy_hand(hand);
        let mut best_exp: u64 = 0;
        let mut first: bool = true;
        let mut k: usize = 0;
        while k < subs.len()
            invariant
                k <= subs@.len(),
                subs_m == probability::hands_model(subs@),
                subs@.len() >= 1,
                sm == state.model(),
                rm == rules_model(*rules),
                dm == rules.dice.dice.0@,
                rm.dice == dm,
                rules_wf(*rules),
                rm_wf(rm),
                state_wf(sm, rm),
                hand_ok(hand.0@, dm),
                sm_unused(sm) >= 1,
                -1 <= rerolls <= 2,
                rerolls != 0,
                rerolls != -2,
                forall|x: int| 0 <= x < subs@.len() ==> hand_ok((#[trigger] subs@[x]).0@, dm),
                caches.wf(),
                caches.compat(*rules),
                caches_extend(*old(caches), *caches, *rules),
                caches_grow(*old(caches), *caches),
                sp_best_subset(sm, hand.0@, rerolls as int, rm, subs_m, k as int, best_m)
                    == sp_best_subset(sm, hand.0@, rerolls as int, rm, subs_m, 0, init_b),
                init_b == (hand.0@, -1int),
                first ==> best_m == init_b,
                !first ==> best_m == (best_hand.0@, best_exp as int) && 0 <= best_m.1 <= exp_cap(),
                k >= 1 ==> !first,
            decreases subs@.len() - k,
        {
            proof {
                assert(subs_m[k as int] == subs@[k as int].0@);
            }
            let e: u64;
            let full = subs[k].is_full_hand(&rules.dice.dice);
            if full {
                let ghost cc = *caches;
                let stop = choose_field(caches, state, hand, rules);
                e = stop.expectation;
                proof {
                    lemma_extend_trans(*old(caches), cc, *caches, *rules);
                    lemma_grow_trans(*old(caches), cc, *caches);
                    assert(e as int == sp_field(sm, hand.0@, rm).exp);
                }
            } else {
                let ghost cd = *caches;
                let t = probability_cached(caches, &subs[k], &rules.dice);
                proof {
                    assert forall|x: char| #[trigger] caches.rules_seen@.contains_key(x) implies ((
                    cd.rules_seen@.contains_key(x) && cd.rules_seen@[x] == caches.rules_seen@[x])
                        || (x == rules.short_name && caches.rules_seen@[x] == rules_model(
                        *rules,
                    ))) by {
                        assert(caches.rules_seen@ == cd.rules_seen@);
                    }
                    assert(caches_extend(cd, *caches, *rules));
                    lemma_extend_trans(*old(caches), cd, *caches, *rules);
                    lemma_grow_trans(*old(caches), cd, *caches);
                }
                let ghost tm = table_model(t.table@);
                let ghost left = spec_leftover(dm, subs_m[k as int]);
                let ghost total_g = rolls_product(left);
                let total: u64 = t.table[0].1.den;
                proof {
                    assert(t.table@[0].1.den as int == total_g);
                    assert(sum_counts(tm) == total_g);
                }
                let mut acc: u128 = 0;
                let mut ti: usize = 0;
                proof {
                    assert(tm.subrange(0, 0) =~= Seq::<(HandModel, int)>::empty());
                }
                while ti < t.table.len()
                    invariant
                        ti <= t.table@.len(),
                        tm == table_model(t.table@),
                        probability::counts_pos(tm),
                        sum_counts(tm) == total_g,
                        1 <= total_g <= 0x100000,
                        sm == state.model(),
                        rm == rules_model(*rules),
                        dm == rules.dice.dice.0@,
                        rules_wf(*rules),
                        rm_wf(rm),
                        state_wf(sm, rm),
                        sm_unused(sm) >= 1,
                        -1 <= rerolls <= 2,
                        rerolls != 0,
                        forall|x: int|
                            0 <= x < t.table@.len() ==> hand_ok(
                                (#[trigger] t.table@[x]).0.0@,
                                dm,
                            ),
                        forall|x: int|
                            0 <= x < t.table@.len() ==> 1 <= (#[trigger] t.table@[x]).1.num as int
                                <= total_g,
                        forall|x: int|
                            0 <= x < tm.len() ==> (#[trigger] tm[x]) == (
                                t.table@[x].0.0@,
                                t.table@[x].1.num as int,
                            ),
                        total as int == total_g,
                        exp_cap() == GAME_CAP as int * EXP_ONE as int,
                        caches.wf(),
                        caches.compat(*rules),
                        caches_extend(*old(caches), *caches, *rules),
                        caches_grow(*old(caches), *caches),
                        sp_sum(sm, rerolls as int, rm, tm, ti as int, acc as int) == sp_sum(
                            sm,
                            rerolls as int,
                            rm,
                            tm,
                            0,
                            0,
                        ),
                        acc as int <= sum_counts(tm.subrange(0, ti as int)) * exp_cap(),
                        0 <= sum_counts(tm.subrange(0, ti as int)) <= total_g,
                    decreases t.table@.len() - ti,
                {
                    let th = &t.table[ti].0;
                    let num: u64 = t.table[ti].1.num;
                    proof {
                        assert(hand_ok(th.0@, dm));
                        assert(tm[ti as int] == (th.0@, num as int));
                        lemma_count_true_le(sm.used0);
                        lemma_count_true_le(sm.used1);
                    }
                    let ghost ce = *caches;
                    let rec = choose_reroll(caches, state, th, rerolls - 1, rules);
                    proof {
                        lemma_extend_trans(*old(caches), ce, *caches, *rules);
                        lemma_grow_trans(*old(caches), ce, *caches);
                        let pre = sum_counts(tm.subrange(0, ti as int));
                        lemma_sum_counts_prefix(tm, ti as int);
                        lemma_sum_counts_prefix(tm, ti as int + 1);
                        assert(tm[ti as int].1 == num as int);
                        assert(1 <= t.table@[ti as int].1.num as int <= total_g);
                        assert(1 <= num as int <= total_g);
                        assert(pre + num as int == sum_counts(tm.subrange(0, ti as int + 1)));
                        assert(pre + num as int <= total_g);
                        assert(0 <= rec.expectation as int <= exp_cap());
                        assert(num as int * rec.expectation as int <= num as int * exp_cap()
                            && 0 <= num as int * rec.expectation as int) by (nonlinear_arith)
                            requires
                                1 <= num as int,
                                0 <= rec.expectation as int <= exp_cap(),
                        ;
                        assert(acc as int + num as int * rec.expectation as int <= (pre + num as int)
                            * exp_cap()) by (nonlinear_arith)
                            requires
                                acc as int <= pre * exp_cap(),
                                num as int * rec.expectation as int <= num as int * exp_cap(),
                        ;
                        assert((pre + num as int) * exp_cap() <= total_g * exp_cap())
                            by (nonlinear_arith)
                            requires
                                pre + num as int <= total_g,
                                exp_cap() >= 0,
                        ;
                        assert(exp_cap() == 62000 * 0x100000000int);
                        assert(total_g * exp_cap() < 0x20000000000000000000000000000000int)
                            by (nonlinear_arith)
                            requires
                                1 <= total_g <= 0x100000,
                                0 <= exp_cap() <= 0x100000000000000int,
                        ;
                    }
                    acc = acc + (num as u128) * (rec.expectation as u128);
                    ti += 1;
                }
                proof {
                    assert(tm.subrange(0, tm.len() as int) =~= tm);
                    assert(acc as int == sp_sum(sm, rerolls as int, rm, tm, 0, 0)) by {
                        assert(sp_sum(sm, rerolls as int, rm, tm, tm.len() as int, acc as int)
                            == acc as int);
                    }
                    assert(acc as int <= total_g * exp_cap());
                }
                let eq: u128 = acc / (total as u128);
                proof {
                    let s = acc as int;
                    let tg = total as int;
                    assert(tg == total_g);
                    vstd::arithmetic::div_mod::lemma_fundamental_div_mod(s, tg);
                    vstd::arithmetic::div_mod::lemma_mod_bound(s, tg);
                    assert(s / tg * tg + s % tg == s) by (nonlinear_arith)
                        requires
                            s == tg * (s / tg) + (s % tg),
                    ;
                    assert(0 <= s % tg < tg);
                    assert(s / tg <= exp_cap()) by (nonlinear_arith)
                        requires
                            s / tg * tg + s % tg == s,
                            0 <= s % tg,
                            s <= tg * exp_cap(),
                            tg >= 1,
                            s >= 0,
                            exp_cap() >= 0,
                    ;
                    assert(s / tg >= 0) by (nonlinear_arith)
                        requires
                            s >= 0,
                            tg >= 1,
                            s / tg * tg + s % tg == s,
                            0 <= s % tg < tg,
                    ;
                    assert(eq as int == s / tg);
                }
                e = eq as u64;
            }
            proof {
                assert(0 <= e as int);
            }
            let ghost was_first = first;
            let ghost prev_exp_exec = best_exp;
            let take = first || e >= best_exp;
            if take {
                best_hand = probability::copy_hand(&subs[k]);
                best_exp = e;
                first = false;
            }
            proof {
                let prev = best_m;
                let cand = (subs_m[k as int], e as int);
                best_m = if e as int >= prev.1 {
                    cand
                } else {
                    prev
                };
                if was_first {
                    assert(prev == init_b);
                    assert(prev.1 == -1);
                    assert(take);
                } else {
                    assert(prev.1 == prev_exp_exec as int);
                    assert(take == (e >= prev_exp_exec));
                }
                assert(take == (e as int >= prev.1));
                assert(sp_best_subset(sm, hand.0@, rerolls as int, rm, subs_m, k as int, prev)
                    == sp_best_subset(
                    sm,
                    hand.0@,
                    rerolls as int,
                    rm,
                    subs_m,
                    k as int + 1,
                    best_m,
                ));
            }
            k += 1;
        }
        proof {
            assert(sp_best_subset(sm, hand.0@, rerolls as int, rm, subs_m, subs_m.len() as int, best_m)
                == best_m);
            assert(!first);
            lemma_state_cap(sm, rm);
        }
        out = RerollRecomm {
            hand: best_hand,
            state: copy_state(state),
            expectation: best_exp,
        };
        proof {
            assert(reroll_model_of(out) == sp_reroll(sm, hand.0@, rerolls as int, rm));
        }
    }
    let ghost cf = *caches;
    store_reroll(caches, state, hand, rerolls, rules, &out);
    proof {
        lemma_extend_trans(*old(caches), cf, *caches, *rules);
        lemma_grow_trans(*old(caches), cf, *caches);
        assert(reroll_entry_at(
            *caches,
            cf.reroll@.len() as int,
            state.model(),
            hand.0@,
            rerolls as int,
            rules.short_name,
        ));
    }
    out
}

/// Whether every pip of the hand lies within its own die's range.
pub fn hand_pips_ok_exec(h: &PartialHand) -> (r: bool)
    ensures
        r == hand_pips_ok(h.0@),
{
    let mut i: usize = 0;
    while i < h.0.len()
        invariant
            i <= h.0@.len(),
            forall|k: int|
                0 <= k < i ==> (#[trigger] h.0@[k]).0.0 <= h.0@[k].1 && h.0@[k].1 <= h.0@[k].0.1,
        decreases h.0@.len() - i,
    {
        let ((min, max), pip) = h.0[i];
        if pip < min || pip > max {
            return false;
        }
        i += 1;
    }
    true
}

/// Probability to roll each hand, given the hand already kept: every
/// reachable canonical hand with the exact count of rolls reaching it,
/// out of the total `den`.  Fails with `MismatchHandRules` exactly when
/// the kept hand does not fit the dice rules.
pub fn probability_to_roll(
    caches: &mut Caches,
    have: PartialHand,
    rules: &rules::DiceRules,
) -> (r: Result<ProbabilitiesToRoll, crate::global::EngineError>)
    requires
        crate::rules::dice_wf(rules.dice),
        old(caches).wf(),
        old(caches).dice_compat(*rules),
    ensures
        final(caches).wf(),
        final(caches).dice_compat(*rules),
        final(caches).rules_seen@ == old(caches).rules_seen@,
        dice_extend(old(caches).dice_seen@, final(caches).dice_seen@, *rules),
        r is Ok <==> hand_ok(have.0@, rules.dice.0@),
        r matches Ok(t) ==> probability::ptr_post(have.0@, rules.dice.0@, t),
        r matches Err(e) ==> e == crate::global::EngineError::MismatchHandRules,
{
    let fits = match probability::leftover_of(&have, &rules.dice) {
        Some(_) => true,
        None => false,
    };
    if !fits || !hand_pips_ok_exec(&have) {
        proof {
            assert forall|x: char| #[trigger] caches.dice_seen@.contains_key(x) implies ((old(
                caches,
            ).dice_seen@.contains_key(x) && old(caches).dice_seen@[x] == caches.dice_seen@[x]) || (
            x == rules.short_name && caches.dice_seen@[x] == rules.dice.0@)) by {}
        }
        return Err(crate::global::EngineError::MismatchHandRules);
    }
    Ok(probability_cached(caches, &have, rules))
}

/// Whether two cache values describe the same mathematics, entry by entry.
pub open spec fn caches_equiv(a: Caches, b: Caches) -> bool {
    &&& a.rules_seen@ == b.rules_seen@
    &&& a.dice_seen@ == b.dice_seen@
    &&& a.roll@.len() == b.roll@.len()
    &&& forall|k: int|
        0 <= k < a.roll@.len() ==> (#[trigger] a.roll@[k]).0.0@ == b.roll@[k].0.0@ && a.roll@[k].1
            == b.roll@[k].1 && table_model(a.roll@[k].2.table@) == table_model(b.roll@[k].2.table@)
    &&& a.reroll@.len() == b.reroll@.len()
    &&& forall|k: int|
        0 <= k < a.reroll@.len() ==> (#[trigger] a.reroll@[k]).0.model() == b.reroll@[k].0.model()
            && a.reroll@[k].1.0@ == b.reroll@[k].1.0@ && a.reroll@[k].2 == b.reroll@[k].2
            && a.reroll@[k].3 == b.reroll@[k].3 && reroll_model_of(a.reroll@[k].4)
            == reroll_model_of(b.reroll@[k].4)
    &&& a.field@.len() == b.field@.len()
    &&& forall|k: int|
        0 <= k < a.field@.len() ==> (#[trigger] a.field@[k]).0.model() == b.field@[k].0.model()
            && a.field@[k].1.0@ == b.field@[k].1.0@ && a.field@[k].2 == b.field@[k].2
            && field_model_of(a.field@[k].3) == field_model_of(b.field@[k].3)
}

/// Dump the caches: a value equal to them, entry by entry, that a host
/// may serialize.  Restoring the dump restores the same mathematics.
pub fn dump_caches(caches: &Caches) -> (r: Caches)
    requires
        caches.wf(),
    ensures
        r.wf(),
        caches_equiv(r, *caches),
{
    let mut roll: Vec<(PartialHand, char, ProbabilitiesToRoll)> = Vec::new();
    let mut i: usize = 0;
    while i < caches.roll.len()
        invariant
            i <= caches.roll@.len(),
            roll@.len() == i,
            forall|k: int|
                0 <= k < i ==> (#[trigger] roll@[k]).0.0@ == caches.roll@[k].0.0@ && roll@[k].1
                    == caches.roll@[k].1 && table_model(roll@[k].2.table@) == table_model(
                    caches.roll@[k].2.table@,
                ) && forall|m: int|
                    0 <= m < roll@[k].2.table@.len() ==> (#[trigger] roll@[k].2.table@[m]).0.0@
                        == caches.roll@[k].2.table@[m].0.0@ && roll@[k].2.table@[m].1
                        == caches.roll@[k].2.table@[m].1,
        decreases caches.roll@.len() - i,
    {
        let h = probability::copy_hand(&caches.roll[i].0);
        let sn = caches.roll[i].1;
        let t = copy_table(&caches.roll[i].2);
        roll.push((h, sn, t));
        i += 1;
    }
    let mut reroll: Vec<(State, PartialHand, Rerolls, char, RerollRecomm)> = Vec::new();
    let mut j: usize = 0;
    while j < caches.reroll.len()
        invariant
            j <= caches.reroll@.len(),
            reroll@.len() == j,
            forall|k: int|
                0 <= k < j ==> (#[trigger] reroll@[k]).0.model() == caches.reroll@[k].0.model()
                    && reroll@[k].1.0@ == caches.reroll@[k].1.0@ && reroll@[k].2
                    == caches.reroll@[k].2 && reroll@[k].3 == caches.reroll@[k].3
                    && reroll_model_of(reroll@[k].4) == reroll_model_of(caches.reroll@[k].4),
        decreases caches.reroll@.len() - j,
    {
        let e = &caches.reroll[j];
        let v = RerollRecomm {
            hand: probability::copy_hand(&e.4.hand),
            state: copy_state(&e.4.state),
            expectation: e.4.expectation,
        };
        reroll.push((copy_state(&e.0), probability::copy_hand(&e.1), e.2, e.3, v));
        j += 1;
    }
    let mut field: Vec<(State, PartialHand, char, FieldRecomm)> = Vec::new();
    let mut n: usize = 0;
    while n < caches.field.len()
        invariant
            n <= caches.field@.len(),
            field@.len() == n,
            forall|k: int|
                0 <= k < n ==> (#[trigger] field@[k]).0.model() == caches.field@[k].0.model()
                    && field@[k].1.0@ == caches.field@[k].1.0@ && field@[k].2
                    == caches.field@[k].2 && field_model_of(field@[k].3) == field_model_of(
                    caches.field@[k].3,
                ),
        decreases caches.field@.len() - n,
    {
        let e = &caches.field[n];
        let v = FieldRecomm {
            section: e.3.section,
            field: e.3.field,
            state: copy_state(&e.3.state),
            expectation: e.3.expectation,
        };
        field.push((copy_state(&e.0), probability::copy_hand(&e.1), e.2, v));
        n += 1;
    }
    let r = Caches {
        rules_seen: Ghost(caches.rules_seen@),
        dice_seen: Ghost(caches.dice_seen@),
        roll,
        reroll,
        field,
    };
    proof {
        assert forall|k: int| 0 <= k < r.roll@.len() implies {
            let (h, sn, t) = #[trigger] r.roll@[k];
            &&& r.dice_seen@.contains_key(sn)
            &&& probability::ptr_post(h.0@, r.dice_seen@[sn], t)
        } by {
            let (h0, sn0, t0) = caches.roll@[k];
            assert(probability::ptr_post(h0.0@, caches.dice_seen@[sn0], t0));
            let (h, sn, t) = r.roll@[k];
            assert(h.0@ == h0.0@ && sn == sn0);
            assert(table_model(t.table@) == table_model(t0.table@));
            assert forall|m: int| 0 <= m < t.table@.len() implies (#[trigger] t.table@[m]).1.den
                as int == rolls_product(spec_leftover(r.dice_seen@[sn], h.0@)) && 1
                <= t.table@[m].1.num as int <= rolls_product(spec_leftover(r.dice_seen@[sn], h.0@))
                && {
                let key = t.table@[m].0.0@;
                &&& crate::global::spec_is_full_hand(key, r.dice_seen@[sn])
                &&& hand_pips_ok(key)
                &&& probability::dies_occur(key, r.dice_seen@[sn])
                &&& sub_fits(key, r.dice_seen@[sn])
                &&& key == spec_canon(key)
                &&& key.len() <= crate::global::sum_freq(r.dice_seen@[sn])
            } by {
                assert(t.table@[m].0.0@ == t0.table@[m].0.0@ && t.table@[m].1 == t0.table@[m].1);
            }
        }
        assert forall|k: int| 0 <= k < r.reroll@.len() implies {
            let (st, h, rr, sn, v) = #[trigger] r.reroll@[k];
            &&& r.rules_seen@.contains_key(sn)
            &&& rm_wf(r.rules_seen@[sn])
            &&& state_wf(st.model(), r.rules_seen@[sn])
            &&& hand_ok(h.0@, r.rules_seen@[sn].dice)
            &&& -2 <= rr <= 2
            &&& sm_unused(st.model()) >= 1
            &&& reroll_post(st.model(), h.0@, rr as int, r.rules_seen@[sn], reroll_model_of(v))
        } by {
            let (st0, h0, rr0, sn0, v0) = caches.reroll@[k];
            assert(reroll_post(
                st0.model(),
                h0.0@,
                rr0 as int,
                caches.rules_seen@[sn0],
                reroll_model_of(v0),
            ));
        }
        assert forall|k: int| 0 <= k < r.field@.len() implies {
            let (st, h, sn, v) = #[trigger] r.field@[k];
            &&& r.rules_seen@.contains_key(sn)
            &&& rm_wf(r.rules_seen@[sn])
            &&& state_wf(st.model(), r.rules_seen@[sn])
            &&& hand_ok(h.0@, r.rules_seen@[sn].dice)
            &&& sm_unused(st.model()) >= 1
            &&& field_post(st.model(), h.0@, r.rules_seen@[sn], field_model_of(v))
        } by {
            let (st0, h0, sn0, v0) = caches.field@[k];
            assert(field_post(st0.model(), h0.0@, caches.rules_seen@[sn0], field_model_of(v0)));
        }
    }
    r
}

/// Restore a dumped cache into the running caches by appending all its
/// entries.  The maps of the two caches must agree on shared short names.
pub fn populate_caches(caches: &mut Caches, dump: Caches)
    requires
        old(caches).wf(),
        dump.wf(),
        forall|c: char|
            old(caches).rules_seen@.contains_key(c) && dump.rules_seen@.contains_key(c)
                ==> old(caches).rules_seen@[c] == dump.rules_seen@[c],
        forall|c: char|
            old(caches).dice_seen@.contains_key(c) && dump.dice_seen@.contains_key(c) ==> old(
                caches,
            ).dice_seen@[c] == dump.dice_seen@[c],
    ensures
        final(caches).wf(),
        final(caches).roll@ == old(caches).roll@ + dump.roll@,
        final(caches).reroll@ == old(caches).reroll@ + dump.reroll@,
        final(caches).field@ == old(caches).field@ + dump.field@,
        final(caches).rules_seen@ == old(caches).rules_seen@.union_prefer_right(dump.rules_seen@),
        final(caches).dice_seen@ == old(caches).dice_seen@.union_prefer_right(dump.dice_seen@),
{
    let Caches { rules_seen, dice_seen, mut roll, mut reroll, mut field } = dump;
    let ghost pre = *caches;
    let ghost dump_g = Caches {
        rules_seen,
        dice_seen,
        roll: roll,
        reroll: reroll,
        field: field,
    };
    caches.roll.append(&mut roll);
    caches.reroll.append(&mut reroll);
    caches.field.append(&mut field);
    proof {
        caches.rules_seen@ = pre.rules_seen@.union_prefer_right(rules_seen@);
        caches.dice_seen@ = pre.dice_seen@.union_prefer_right(dice_seen@);
        assert forall|k: int| 0 <= k < caches.roll@.len() implies {
            let (h, sn, t) = #[trigger] caches.roll@[k];
            &&& caches.dice_seen@.contains_key(sn)
            &&& probability::ptr_post(h.0@, caches.dice_seen@[sn], t)
        } by {
            if k < pre.roll@.len() {
                assert(caches.roll@[k] == pre.roll@[k]);
                let (h, sn, t) = pre.roll@[k];
                assert(pre.dice_seen@.contains_key(sn));
                if dice_seen@.contains_key(sn) {
                    assert(pre.dice_seen@[sn] == dice_seen@[sn]);
                }
                assert(caches.dice_seen@[sn] == pre.dice_seen@[sn]);
            } else {
                assert(caches.roll@[k] == dump_g.roll@[k - pre.roll@.len()]);
                let (h, sn, t) = dump_g.roll@[k - pre.roll@.len()];
                assert(dice_seen@.contains_key(sn));
                assert(caches.dice_seen@[sn] == dice_seen@[sn]);
            }
        }
        assert forall|k: int| 0 <= k < caches.reroll@.len() implies {
            let (st, h, rr, sn, v) = #[trigger] caches.reroll@[k];
            &&& caches.rules_seen@.contains_key(sn)
            &&& rm_wf(caches.rules_seen@[sn])
            &&& state_wf(st.model(), caches.rules_seen@[sn])
            &&& hand_ok(h.0@, caches.rules_seen@[sn].dice)
            &&& -2 <= rr <= 2
            &&& sm_unused(st.model()) >= 1
            &&& reroll_post(st.model(), h.0@, rr as int, caches.rules_seen@[sn], reroll_model_of(v))
        } by {
            if k < pre.reroll@.len() {
                assert(caches.reroll@[k] == pre.reroll@[k]);
                let (st, h, rr, sn, v) = pre.reroll@[k];
                assert(pre.rules_seen@.contains_key(sn));
                if rules_seen@.contains_key(sn) {
                    assert(pre.rules_seen@[sn] == rules_seen@[sn]);
                }
                assert(caches.rules_seen@[sn] == pre.rules_seen@[sn]);
            } else {
                assert(caches.reroll@[k] == dump_g.reroll@[k - pre.reroll@.len()]);
                let (st, h, rr, sn, v) = dump_g.reroll@[k - pre.reroll@.len()];
                assert(rules_seen@.contains_key(sn));
                assert(caches.rules_seen@[sn] == rules_seen@[sn]);
            }
        }
        assert forall|k: int| 0 <= k < caches.field@.len() implies {
            let (st, h, sn, v) = #[trigger] caches.field@[k];
            &&& caches.rules_seen@.contains_key(sn)
            &&& rm_wf(caches.rules_seen@[sn])
            &&& state_wf(st.model(), caches.rules_seen@[sn])
            &&& hand_ok(h.0@, caches.rules_seen@[sn].dice)
            &&& sm_unused(st.model()) >= 1
            &&& field_post(st.model(), h.0@, caches.rules_seen@[sn], field_model_of(v))
        } by {
            if k < pre.field@.len() {
                assert(caches.field@[k] == pre.field@[k]);
                let (st, h, sn, v) = pre.field@[k];
                assert(pre.rules_seen@.contains_key(sn));
                if rules_seen@.contains_key(sn) {
                    assert(pre.rules_seen@[sn] == rules_seen@[sn]);
                }
                assert(caches.rules_seen@[sn] == pre.rules_seen@[sn]);
            } else {
                assert(caches.field@[k] == dump_g.field@[k - pre.field@.len()]);
                let (st, h, sn, v) = dump_g.field@[k - pre.field@.len()];
                assert(rules_seen@.contains_key(sn));
                assert(caches.rules_seen@[sn] == rules_seen@[sn]);
            }
        }
    }
}

/// Chip semantics: with rerolls exhausted, a chip is spent exactly when
/// the chip-funded reroll strictly beats stopping now; and the chip path
/// starts from a state with exactly one chip fewer, so one turn can never
/// spend more than one chip.
pub proof fn lemma_chip_semantics(sm: StateModel, hand: HandModel, rm: RulesModel)
    ensures
        ({
            let stop = sp_field(sm, hand, rm);
            let keep = RerollModel { hand: hand, state: stop.state, exp: stop.exp };
            let chip_sm = StateModel { chips: sm.chips - 1, ..sm };
            let use_chip = sp_reroll(chip_sm, hand, -1, rm);
            &&& sm.chips <= 0 ==> sp_reroll(sm, hand, 0, rm) == keep
            &&& sm.chips > 0 ==> sp_reroll(sm, hand, 0, rm) == (if use_chip.exp > stop.exp {
                use_chip
            } else {
                keep
            })
            &&& use_chip.state == chip_sm
        }),
{
    let chip_sm = StateModel { chips: sm.chips - 1, ..sm };
    assert(sp_reroll(chip_sm, hand, -1, rm).state == chip_sm);
}

/// The state a running sequence of non-terminal field choices produces:
/// each move is the hand's sorted pips with the chosen section and field.
pub open spec fn sp_apply_seq(
    sm: StateModel,
    rm: RulesModel,
    moves: Seq<(Seq<Pip>, bool, int, int)>,
    i: int,
) -> StateModel
    decreases moves.len() - i,
    when 0 <= i <= moves.len()
{
    if i >= moves.len() {
        sm
    } else {
        let (pips, gate, sec, fld) = moves[i];
        sp_apply_seq(sp_apply(sm, pips, gate, rm, sec, fld, false), rm, moves, i + 1)
    }
}

/// The upper-section bonus is paid exactly once: no non-terminal field
/// choice ever touches it, and the one terminal move adds it exactly when
/// the upper total has reached the threshold, exactly once.
pub proof fn lemma_us_bonus_once(
    sm: StateModel,
    rm: RulesModel,
    moves: Seq<(Seq<Pip>, bool, int, int)>,
    last: (Seq<Pip>, bool, int, int),
)
    requires
        forall|k: int| 0 <= k < moves.len() ==> !((#[trigger] moves[k]).2 == 0),
        !(last.2 == 0),
    ensures
        sp_apply_seq(sm, rm, moves, 0).score0 == sm.score0,
        ({
            let end = sp_apply_seq(sm, rm, moves, 0);
            let fin = sp_apply(end, last.0, last.1, rm, last.2, last.3, true);
            fin.score0 == end.score0 + if end.score0 >= rm.us_threshold {
                rm.us_bonus
            } else {
                0int
            }
        }),
{
    lemma_apply_seq_lower(sm, rm, moves, 0);
}

proof fn lemma_apply_seq_lower(
    sm: StateModel,
    rm: RulesModel,
    moves: Seq<(Seq<Pip>, bool, int, int)>,
    i: int,
)
    requires
        0 <= i <= moves.len(),
        forall|k: int| 0 <= k < moves.len() ==> !((#[trigger] moves[k]).2 == 0),
    ensures
        sp_apply_seq(sm, rm, moves, i).score0 == sm.score0,
    decreases moves.len() - i,
{
    if i < moves.len() {
        let (pips, gate, sec, fld) = moves[i];
        let next = sp_apply(sm, pips, gate, rm, sec, fld, false);
        assert(next.score0 == sm.score0);
        lemma_apply_seq_lower(next, rm, moves, i + 1);
    }
}

/// Yahtzee-bonus gating: whenever no Yahtzee has been scored yet, or the
/// hand is no Yahtzee, a field choice updates the state exactly as it
/// would under the no-bonus policy.
pub proof fn lemma_yahtzee_gating(
    sm: StateModel,
    pips: Seq<Pip>,
    rm: RulesModel,
    sec: int,
    fld: int,
    terminal: bool,
)
    requires
        !sm.scored_yahtzee || rules::sm_score(rm.ls[YAHTZEE_INDEX as int], pips) <= 0,
    ensures
        ({
            let rm2 = RulesModel {
                policy: bonus::Policy::NoBonus,
                ..rm
            };
            &&& !sp_gate(sm, pips, rm)
            &&& sp_score_and_bonus(sm, pips, sp_gate(sm, pips, rm), rm, sec, fld)
                == sp_score_and_bonus(sm, pips, sp_gate(sm, pips, rm2), rm2, sec, fld)
            &&& sp_apply(sm, pips, sp_gate(sm, pips, rm), rm, sec, fld, terminal) == sp_apply(
                sm,
                pips,
                sp_gate(sm, pips, rm2),
                rm2,
                sec,
                fld,
                terminal,
            )
        }),
{
}

/// The Yahtzee flag never clears, and it sets exactly when a positive
/// score is written into a Yahtzee field of the variant on a non-terminal
/// move.
pub proof fn lemma_scored_yahtzee_flag(
    sm: StateModel,
    pips: Seq<Pip>,
    gate: bool,
    rm: RulesModel,
    sec: int,
    fld: int,
    terminal: bool,
)
    ensures
        ({
            let out = sp_apply(sm, pips, gate, rm, sec, fld, terminal);
            &&& out.scored_yahtzee == (sm.scored_yahtzee || (!terminal && sec == 1 && 0 <= fld
                < rm.ls.len() && rules::yahtzee_scorer_model(
                rm.ls[fld],
                crate::global::sum_freq(rm.dice),
            ) && sp_score_and_bonus(sm, pips, gate, rm, sec, fld).0 > 0))
            &&& (sm.scored_yahtzee ==> out.scored_yahtzee)
        }),
{
}

/// The forced-upper rule of the Forced Joker variant: while the upper
/// field matching the Yahtzee's pip is unused, a gated move into any
/// lower-section joker field scores and pays nothing, and the matching
/// upper field pays five times the pip plus the full bonus.
pub proof fn lemma_forced_joker_forced_upper(sm: StateModel, pips: Seq<Pip>, rm: RulesModel, fld: int)
    requires
        rm.policy == bonus::Policy::ForcedJoker,
        pips.len() > 0,
        1 <= first_pip(pips),
        !sm.used0[first_pip(pips) as int - 1],
    ensures
        bonus::spec_joker_score(fld) is Some ==> sp_score_and_bonus(sm, pips, true, rm, 1, fld)
            == (0int, 0int),
        sp_score_and_bonus(sm, pips, true, rm, 0, first_pip(pips) as int - 1) == (
            5 * first_pip(pips) as int,
            100int,
        ),
{
}

/// Yahtzee-bonus gating on the last move: with no Yahtzee scored yet, or
/// a hand that is no Yahtzee, the terminal field choice is exactly what
/// the no-bonus policy chooses, state and expectation included.
pub proof fn lemma_yahtzee_gating_terminal(sm: StateModel, hand: HandModel, rm: RulesModel)
    requires
        !sm.scored_yahtzee || rules::sm_score(rm.ls[YAHTZEE_INDEX as int], spec_pips(hand)) <= 0,
        sp_cands(sm).len() == 1,
    ensures
        sp_field(sm, hand, rm) == sp_field(
            sm,
            hand,
            RulesModel { policy: bonus::Policy::NoBonus, ..rm },
        ),
{
    let rm2 = RulesModel { policy: bonus::Policy::NoBonus, ..rm };
    let pips = spec_pips(hand);
    let (sec, fld) = sp_cands(sm)[0];
    lemma_yahtzee_gating(sm, pips, rm, sec, fld, true);
}

proof fn lemma_unused_from_all_used(used: Seq<bool>, sec: int, i: int)
    requires
        0 <= i <= used.len(),
        forall|k: int| i <= k < used.len() ==> #[trigger] used[k],
    ensures
        unused_from(used, sec, i) =~= Seq::<(int, int)>::empty(),
    decreases used.len() - i,
{
    if i < used.len() {
        lemma_unused_from_all_used(used, sec, i + 1);
        assert(unused_from(used, sec, i) =~= Seq::<(int, int)>::empty() + unused_from(
            used,
            sec,
            i + 1,
        ));
    }
}

proof fn lemma_unused_from_single(used: Seq<bool>, sec: int, i: int, j: int)
    requires
        0 <= i <= used.len(),
        0 <= j < used.len(),
        forall|k: int| 0 <= k < used.len() ==> (#[trigger] used[k] <==> k != j),
    ensures
        unused_from(used, sec, i) =~= if i <= j {
            seq![(sec, j)]
        } else {
            Seq::<(int, int)>::empty()
        },
    decreases used.len() - i,
{
    if i < used.len() {
        lemma_unused_from_single(used, sec, i + 1, j);
        if i == j {
            assert(unused_from(used, sec, i) =~= seq![(sec, j)] + unused_from(used, sec, i + 1));
        } else {
            assert(unused_from(used, sec, i) =~= Seq::<(int, int)>::empty() + unused_from(
                used,
                sec,
                i + 1,
            ));
        }
    }
}

/// The last open field is the Yahtzee Extreme field and six equal dice
/// are held: the terminal move scores it at 75, adds no Yahtzee bonus
/// (the Extreme variant plays without one), leaves the upper total and
/// its below-threshold bonus untouched, and the expectation is exactly
/// the final total.
pub proof fn lemma_extreme_last_yahtzee(sm: StateModel, h: HandModel)
    requires
        sm.used0.len() == 6,
        forall|k: int| 0 <= k < 6 ==> #[trigger] sm.used0[k],
        sm.used1.len() == 16,
        forall|k: int| 0 <= k < 16 ==> (#[trigger] sm.used1[k] <==> k != 11),
        sm.scored_yahtzee,
        sm.score0 < 73,
        h =~= seq![
            ((1u8, 6u8), 1u8),
            ((1u8, 6u8), 1u8),
            ((1u8, 6u8), 1u8),
            ((1u8, 6u8), 1u8),
            ((1u8, 6u8), 1u8),
            ((0u8, 9u8), 1u8),
        ],
    ensures
        ({
            let rm = spec_build_model(true, bonus::Policy::NoBonus);
            let out = sp_field(sm, h, rm);
            &&& out.section == 1
            &&& out.field == 11
            &&& out.state.score0 == sm.score0
            &&& out.state.score1 == sm.score1 + 75
            &&& out.exp == (sm.score0 + sm.score1 + 75) * EXP_ONE as int
        }),
{
    let rm = spec_build_model(true, bonus::Policy::NoBonus);
    // the candidate list is exactly the one open field
    lemma_unused_from_all_used(sm.used0, 0, 0);
    lemma_unused_from_single(sm.used1, 1, 0, 11);
    assert(sp_cands(sm) =~= seq![(1int, 11int)]);
    // the sorted pips are six ones
    let raw = raw_pips(h);
    let ones = seq![1u8, 1u8, 1u8, 1u8, 1u8, 1u8];
    assert(raw =~= ones);
    hands::lemma_sort_freqs_ensures(raw);
    assert(hands::freqs_sorted(raw));
    hands::lemma_freqs_sorted_unique(hands::spec_sort_freqs(raw), raw);
    let pips = spec_pips(h);
    assert(pips == raw);
    // no gate: the variant has no Yahtzee bonus
    assert(!sp_gate(sm, pips, rm));
    // the Yahtzee Extreme scorer pays 75 on six equal dice
    assert(rm.ls[11] == (1int, seq![6u8], 1int, 75int));
    let groups = hands::scan_groups(pips, 1, 1, Seq::<u8>::empty());
    reveal_with_fuel(hands::scan_groups, 8);
    assert(groups =~= seq![6u8]);
    hands::lemma_sort_freqs_ensures(groups);
    assert(hands::freqs_sorted(groups));
    hands::lemma_freqs_sorted_unique(hands::spec_sort_freqs(groups), groups);
    assert(hands::spec_groups(pips) == groups);
    reveal_with_fuel(hands::greedy_matches, 3);
    assert(seq![6u8].drop_first() =~= Seq::<u8>::empty());
    assert(hands::greedy_matches(seq![6u8], seq![6u8]));
    assert(rules::sm_score(rm.ls[11], pips) == 75);
    assert(sp_score_and_bonus(sm, pips, false, rm, 1, 11) == (75int, 0int));
    // the terminal move: no upper-section bonus below the threshold
    let st = sp_apply(sm, pips, false, rm, 1, 11, true);
    assert(st.score0 == sm.score0 && st.score1 == sm.score1 + 75);
}

/// How many fields are still unused: the moves left in the game.  A host
/// checks this before asking for recommendations; with no field left the
/// game is over.
pub fn unused_fields(state: &State) -> (r: usize)
    requires
        state.used@[0]@.len() + state.used@[1]@.len() <= usize::MAX as int,
    ensures
        r as int == sm_unused(state.model()),
{
    proof {
        lemma_count_true_le(state.model().used0);
        lemma_count_true_le(state.model().used1);
    }
    let mut n: usize = 0;
    let mut i: usize = 0;
    proof {
        assert(state.used@[0]@.subrange(0, 0) =~= Seq::<bool>::empty());
    }
    while i < state.used[0].len()
        invariant
            i <= state.used@[0]@.len(),
            n as int == i - count_true(state.used@[0]@.subrange(0, i as int)),
            n <= i,
        decreases state.used@[0]@.len() - i,
    {
        proof {
            let s = state.used@[0]@;
            assert(s.subrange(0, i + 1).drop_last() == s.subrange(0, i as int));
            assert(s.subrange(0, i + 1).last() == s[i as int]);
            lemma_count_true_le(s.subrange(0, i as int));
        }
        if !state.used[0][i] {
            n += 1;
        }
        i += 1;
    }
    proof {
        assert(state.used@[0]@.subrange(0, state.used@[0]@.len() as int) == state.used@[0]@);
        assert(state.used@[1]@.subrange(0, 0) =~= Seq::<bool>::empty());
    }
    let ghost n0 = n as int;
    let mut j: usize = 0;
    while j < state.used[1].len()
        invariant
            j <= state.used@[1]@.len(),
            n as int == n0 + j - count_true(state.used@[1]@.subrange(0, j as int)),
            n as int <= n0 + j,
            n0 <= state.used@[0]@.len(),
            state.used@[0]@.len() + state.used@[1]@.len() <= usize::MAX as int,
        decreases state.used@[1]@.len() - j,
    {
        proof {
            let s = state.used@[1]@;
            assert(s.subrange(0, j + 1).drop_last() == s.subrange(0, j as int));
            assert(s.subrange(0, j + 1).last() == s[j as int]);
            lemma_count_true_le(s.subrange(0, j as int));
        }
        if !state.used[1][j] {
            n += 1;
        }
        j += 1;
    }
    proof {
        assert(state.used@[1]@.subrange(0, state.used@[1]@.len() as int) == state.used@[1]@);
    }
    n
}

} // verus!