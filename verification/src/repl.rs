//! The text protocol of the interactive prompt: parsing observed rolls
//! and rendering state and recommendations.  The prompt loop itself, with
//! its terminal I/O, lives in the host program.

use vstd::prelude::*;
use vstd::string::{StrSliceExecFns, StringExecFns};
use crate::global::{EngineError, PartialHand, Pip, D10, D6, REROLLS};
use crate::rules::SectionRule;
use crate::strategy::Caches;
use crate::text::{push_u64, spec_dec};
use crate::view_model::{Recommendation, ViewModel};

verus! {

/// The value of a decimal digit character, or -1.
pub open spec fn digit_val(c: char) -> int {
    if c == '0' {
        0
    } else if c == '1' {
        1
    } else if c == '2' {
        2
    } else if c == '3' {
        3
    } else if c == '4' {
        4
    } else if c == '5' {
        5
    } else if c == '6' {
        6
    } else if c == '7' {
        7
    } else if c == '8' {
        8
    } else if c == '9' {
        9
    } else {
        -1
    }
}

/// The value of a decimal digit character, if it is one.
pub fn digit_of(c: char) -> (r: Option<u8>)
    ensures
        r is Some <==> digit_val(c) >= 0,
        r matches Some(v) ==> v as int == digit_val(c),
{
    if c == '0' {
        Some(0)
    } else if c == '1' {
        Some(1)
    } else if c == '2' {
        Some(2)
    } else if c == '3' {
        Some(3)
    } else if c == '4' {
        Some(4)
    } else if c == '5' {
        Some(5)
    } else if c == '6' {
        Some(6)
    } else if c == '7' {
        Some(7)
    } else if c == '8' {
        Some(8)
    } else if c == '9' {
        Some(9)
    } else {
        None
    }
}

/// The end of the token starting at `i`: the first space at or after it.
pub open spec fn token_end(s: Seq<char>, i: int) -> int
    decreases s.len() - i,
    when 0 <= i <= s.len()
{
    if i >= s.len() {
        i
    } else if s[i] == ' ' {
        i
    } else {
        token_end(s, i + 1)
    }
}

pub proof fn lemma_token_end(s: Seq<char>, i: int)
    requires
        0 <= i <= s.len(),
    ensures
        i <= token_end(s, i) <= s.len(),
        forall|k: int| i <= k < token_end(s, i) ==> s[k] != ' ',
        token_end(s, i) < s.len() ==> s[token_end(s, i)] == ' ',
    decreases s.len() - i,
{
    if i < s.len() && s[i] != ' ' {
        lemma_token_end(s, i + 1);
    }
}

/// Whether `s[i..end)` holds decimal digits only.
pub open spec fn all_digits(s: Seq<char>, i: int, end: int) -> bool {
    forall|k: int| i <= k < end ==> digit_val(#[trigger] s[k]) >= 0
}

/// The number the digits `s[i..end)` spell, on top of `acc`.
pub open spec fn num_from(s: Seq<char>, i: int, end: int, acc: int) -> int
    decreases end - i,
    when end <= s.len()
{
    if i >= end || i < 0 {
        acc
    } else {
        num_from(s, i + 1, end, acc * 10 + digit_val(s[i]))
    }
}

/// The hand an input line spells: each character of the first token is
/// one d6 pip; an optional second token is the d10 pip.
pub open spec fn spec_parse(s: Seq<char>) -> Option<Seq<(crate::global::Die, Pip)>> {
    let te = token_end(s, 0);
    if !all_digits(s, 0, te) {
        None
    } else {
        let d6s = Seq::new(te as nat, |k: int| (D6, digit_val(s[k]) as u8));
        if te >= s.len() {
            Some(d6s)
        } else {
            let te2 = token_end(s, te + 1);
            if te2 == te + 1 || !all_digits(s, te + 1, te2) {
                None
            } else {
                let v = num_from(s, te + 1, te2, 0);
                if v <= 255 {
                    Some(d6s.push((D10, v as u8)))
                } else {
                    None
                }
            }
        }
    }
}

/// Parse an observed roll: whitespace-separated d6 faces as one run of
/// digits, optionally followed by a single d10 face.
pub fn parse_hand(input: &str) -> (r: Result<PartialHand, EngineError>)
    ensures
        r is Ok <==> spec_parse(input@) is Some,
        r matches Ok(h) ==> Some(h.0@) == spec_parse(input@),
        r matches Err(e) ==> e == EngineError::HandShapeMismatch,
{
    let ghost s = input@;
    let n = input.unicode_len();
    let mut hand: Vec<(crate::global::Die, Pip)> = Vec::new();
    let mut i: usize = 0;
    proof {
        lemma_token_end(s, 0);
    }
    // the first token: one digit per d6
    loop
        invariant
            0 <= i <= n,
            n == s.len(),
            s == input@,
            all_digits(s, 0, i as int),
            token_end(s, 0) >= i,
            hand@.len() == i,
            forall|k: int| 0 <= k < i ==> hand@[k] == (D6, digit_val(s[k]) as u8),
        ensures
            0 <= i <= n,
            all_digits(s, 0, i as int),
            token_end(s, 0) == i,
            hand@.len() == i,
            forall|k: int| 0 <= k < i ==> hand@[k] == (D6, digit_val(s[k]) as u8),
        decreases n - i,
    {
        if i == n {
            proof {
                lemma_token_end_stops(s, 0, i as int);
            }
            break ;
        }
        let c = input.get_char(i);
        if c == ' ' {
            proof {
                lemma_token_end_stops(s, 0, i as int);
            }
            break ;
        }
        match digit_of(c) {
            Some(v) => {
                hand.push((D6, v));
                proof {
                    lemma_token_end(s, 0);
                    if token_end(s, 0) == i as int {
                        assert(s[i as int] == ' ');
                    }
                }
            },
            None => {
                proof {
                    lemma_token_end(s, 0);
                    assert(token_end(s, 0) != i as int) by {
                        if token_end(s, 0) == i as int {
                            assert(s[i as int] == ' ');
                        }
                    }
                    assert(digit_val(s[i as int]) < 0);
                    assert(!all_digits(s, 0, token_end(s, 0)));
                }
                return Err(EngineError::HandShapeMismatch);
            },
        }
        i += 1;
    }
    if i == n {
        proof {
            assert(hand@ =~= Seq::new(i as nat, |k: int| (D6, digit_val(s[k]) as u8)));
        }
        return Ok(PartialHand(hand));
    }
    // the second token: the d10 face as a number
    let start = i + 1;
    let mut j = start;
    let mut val: u32 = 0;
    proof {
        lemma_token_end(s, start as int);
    }
    loop
        invariant
            start == i + 1,
            i as int == token_end(s, 0),
            i < n,
            start as int <= j as int <= n,
            n == s.len(),
            s == input@,
            all_digits(s, start as int, j as int),
            token_end(s, start as int) >= j,
            val <= 255,
            val as int == num_from(s, start as int, j as int, 0),
        ensures
            start as int <= j as int <= n,
            all_digits(s, start as int, j as int),
            token_end(s, start as int) == j,
            val <= 255,
            val as int == num_from(s, start as int, j as int, 0),
        decreases n - j,
    {
        if j == n {
            proof {
                lemma_token_end_stops(s, start as int, j as int);
            }
            break ;
        }
        let c = input.get_char(j);
        if c == ' ' {
            proof {
                lemma_token_end_stops(s, start as int, j as int);
            }
            break ;
        }
        match digit_of(c) {
            Some(v) => {
                proof {
                    lemma_num_from_step(s, start as int, j as int, 0);
                    lemma_token_end(s, start as int);
                    if token_end(s, start as int) == j as int {
                        assert(s[j as int] == ' ');
                    }
                }
                let next = val * 10 + v as u32;
                if next > 255 {
                    proof {
                        let te2 = token_end(s, start as int);
                        assert(num_from(s, start as int, j as int + 1, 0) > 255);
                        if all_digits(s, j as int + 1, te2) {
                            assert forall|k: int|
                                start as int <= k < te2 implies digit_val(#[trigger] s[k])
                                >= 0 by {}
                            lemma_num_from_grows(s, start as int, j as int + 1, te2);
                            assert(num_from(s, start as int, te2, 0) > 255);
                        } else {
                            assert(!all_digits(s, start as int, te2));
                        }
                    }
                    return Err(EngineError::HandShapeMismatch);
                }
                val = next;
            },
            None => {
                proof {
                    lemma_token_end(s, start as int);
                    assert(!all_digits(s, start as int, token_end(s, start as int)));
                }
                return Err(EngineError::HandShapeMismatch);
            },
        }
        j += 1;
    }
    if j == start {
        return Err(EngineError::HandShapeMismatch);
    }
    hand.push((D10, val as u8));
    proof {
        let te = token_end(s, 0);
        let d6s = Seq::new(te as nat, |k: int| (D6, digit_val(s[k]) as u8));
        assert(hand@ =~= d6s.push((D10, val as u8)));
    }
    Ok(PartialHand(hand))
}

proof fn lemma_token_end_stops(s: Seq<char>, from: int, at: int)
    requires
        0 <= from <= at <= s.len(),
        forall|k: int| from <= k < at ==> s[k] != ' ',
        at == s.len() || s[at] == ' ',
    ensures
        token_end(s, from) == at,
    decreases at - from,
{
    if from < at {
        lemma_token_end_stops(s, from + 1, at);
    }
}

pub proof fn lemma_num_from_step_pub(s: Seq<char>, i: int, j: int, acc: int)
    requires
        0 <= i <= j < s.len(),
    ensures
        num_from(s, i, j + 1, acc) == num_from(s, i, j, acc) * 10 + digit_val(s[j]),
{
    lemma_num_from_step(s, i, j, acc);
}

/// A numeric prefix already too large stays too large as digits follow.
pub proof fn lemma_num_from_grows_pub(s: Seq<char>, i: int, mid: int, end: int, cap: int)
    requires
        0 <= i <= mid <= end <= s.len(),
        all_digits(s, mid, end),
        cap >= 0,
        num_from(s, i, mid, 0) > cap,
    ensures
        num_from(s, i, end, 0) > cap,
    decreases end - mid,
{
    if mid < end {
        lemma_num_from_step(s, i, mid, 0);
        assert(num_from(s, i, mid, 0) * 10 >= num_from(s, i, mid, 0)) by (nonlinear_arith)
            requires
                num_from(s, i, mid, 0) > 0,
        ;
        lemma_num_from_grows_pub(s, i, mid + 1, end, cap);
    }
}

proof fn lemma_num_from_step(s: Seq<char>, i: int, j: int, acc: int)
    requires
        0 <= i <= j < s.len(),
    ensures
        num_from(s, i, j + 1, acc) == num_from(s, i, j, acc) * 10 + digit_val(s[j]),
    decreases j - i,
{
    if i < j {
        lemma_num_from_step(s, i + 1, j, acc * 10 + digit_val(s[i]));
    } else {
        assert(num_from(s, i, j + 1, acc) == num_from(s, i + 1, j + 1, acc * 10 + digit_val(s[i])));
        assert(num_from(s, i + 1, j + 1, acc * 10 + digit_val(s[i])) == acc * 10 + digit_val(s[i]));
        assert(num_from(s, i, j, acc) == acc);
    }
}

proof fn lemma_num_from_grows(s: Seq<char>, i: int, mid: int, end: int)
    requires
        0 <= i <= mid <= end <= s.len(),
        all_digits(s, mid, end),
        num_from(s, i, mid, 0) > 255,
    ensures
        num_from(s, i, end, 0) > 255,
    decreases end - mid,
{
    if mid < end {
        lemma_num_from_step(s, i, mid, 0);
        assert(num_from(s, i, mid + 1, 0) == num_from(s, i, mid, 0) * 10 + digit_val(s[mid]));
        assert(num_from(s, i, mid, 0) * 10 > 2550) by (nonlinear_arith)
            requires
                num_from(s, i, mid, 0) > 255,
        ;
        lemma_num_from_grows(s, i, mid + 1, end);
    }
}

/// The word a used flag renders to.
pub open spec fn spec_used_word(b: bool) -> Seq<char> {
    if b {
        "used"@
    } else {
        "unused"@
    }
}

/// One status line per field of a section, from index `i` on.
pub open spec fn spec_section_lines(fields: Seq<SectionRule>, used: Seq<bool>, i: int) -> Seq<char>
    decreases fields.len() - i,
    when 0 <= i && fields.len() == used.len()
{
    if i >= fields.len() {
        Seq::<char>::empty()
    } else {
        seq!['\n'] + fields[i].name@ + ": "@ + spec_used_word(used[i]) + spec_section_lines(
            fields,
            used,
            i + 1,
        )
    }
}

/// The full status text: scores, one line per field, then the Yahtzee
/// flag when the variant has a bonus, then the chips when the rules
/// hand any out.
pub open spec fn spec_output_state(vm: ViewModel) -> Seq<char> {
    let sm = vm.state.model();
    "You have scored "@ + spec_dec(sm.score0) + " in the upper section and "@ + spec_dec(sm.score1)
        + " in the lower section.\n"@ + spec_section_lines(vm.rules.fields@[0]@, sm.used0, 0)
        + spec_section_lines(vm.rules.fields@[1]@, sm.used1, 0) + (if vm.rules.yahtzee_bonus.policy
        != crate::yahtzee_bonus_rules::Policy::NoBonus {
        "\nYou have "@ + (if sm.scored_yahtzee {
            Seq::<char>::empty()
        } else {
            "not "@
        }) + "scored a Yahtzee."@
    } else {
        Seq::<char>::empty()
    }) + (if vm.rules.chips != 0 {
        "\nYou have "@ + spec_dec(sm.chips) + " chip(s) left."@
    } else {
        Seq::<char>::empty()
    })
}

fn push_section_lines(out: &mut String, fields: &Vec<SectionRule>, used: &Vec<bool>)
    requires
        fields@.len() == used@.len(),
    ensures
        final(out)@ == old(out)@ + spec_section_lines(fields@, used@, 0),
{
    let mut i: usize = 0;
    proof {
        assert(old(out)@ + spec_section_lines(fields@, used@, 0) =~= old(out)@
            + spec_section_lines(fields@, used@, 0));
    }
    while i < fields.len()
        invariant
            i <= fields@.len(),
            fields@.len() == used@.len(),
            out@ + spec_section_lines(fields@, used@, i as int) == old(out)@ + spec_section_lines(
                fields@,
                used@,
                0,
            ),
        decreases fields@.len() - i,
    {
        let ghost pre = out@;
        proof {
            reveal_strlit("\n");
            reveal_strlit(": ");
            reveal_strlit("used");
            reveal_strlit("unused");
            assert("\n"@ =~= seq!['\n']);
        }
        out.append("\n");
        out.append(fields[i].name.as_str());
        out.append(": ");
        if used[i] {
            out.append("used");
        } else {
            out.append("unused");
        }
        proof {
            assert(out@ =~= pre + (seq!['\n'] + fields@[i as int].name@ + ": "@ + spec_used_word(
                used@[i as int],
            )));
            assert(out@ + spec_section_lines(fields@, used@, i as int + 1) =~= pre
                + spec_section_lines(fields@, used@, i as int));
        }
        i += 1;
    }
}

/// Render the current score and field availability.
pub fn output_state(view_model: &ViewModel) -> (r: String)
    requires
        view_model.rules.fields@[0]@.len() == view_model.state.used@[0]@.len(),
        view_model.rules.fields@[1]@.len() == view_model.state.used@[1]@.len(),
    ensures
        r@ == spec_output_state(*view_model),
{
    let mut out = String::new();
    proof {
        reveal_strlit("You have scored ");
        reveal_strlit(" in the upper section and ");
        reveal_strlit(" in the lower section.\n");
        assert(Seq::<char>::empty() + "You have scored "@ =~= "You have scored "@);
    }
    out.append("You have scored ");
    push_u64(&mut out, view_model.state.score[0] as u64);
    out.append(" in the upper section and ");
    push_u64(&mut out, view_model.state.score[1] as u64);
    out.append(" in the lower section.\n");
    push_section_lines(&mut out, &view_model.rules.fields[0], &view_model.state.used[0]);
    push_section_lines(&mut out, &view_model.rules.fields[1], &view_model.state.used[1]);
    let no_bonus = matches!(
        view_model.rules.yahtzee_bonus.policy,
        crate::yahtzee_bonus_rules::Policy::NoBonus
    );
    if !no_bonus {
        proof {
            reveal_strlit("\nYou have ");
            reveal_strlit("not ");
            reveal_strlit("scored a Yahtzee.");
        }
        out.append("\nYou have ");
        if !view_model.state.scored_yahtzee {
            out.append("not ");
        }
        out.append("scored a Yahtzee.");
    }
    if view_model.rules.chips != 0 {
        proof {
            reveal_strlit("\nYou have ");
            reveal_strlit(" chip(s) left.");
        }
        out.append("\nYou have ");
        push_u64(&mut out, view_model.state.chips as u64);
        out.append(" chip(s) left.");
    }
    proof {
        assert(out@ =~= spec_output_state(*view_model));
    }
    out
}

/// The end of the run of d6 entries at the front of a kept hand.
pub open spec fn d6_run(h: Seq<(crate::global::Die, Pip)>, i: int) -> int
    decreases h.len() - i,
    when 0 <= i <= h.len()
{
    if i >= h.len() {
        i
    } else if h[i].0 == D6 {
        d6_run(h, i + 1)
    } else {
        i
    }
}

/// The kept d6 pips, comma-separated, from index `i` to `end`.
pub open spec fn spec_join_d6(h: Seq<(crate::global::Die, Pip)>, i: int, end: int) -> Seq<char>
    decreases end - i,
    when end <= h.len()
{
    if i >= end || i < 0 {
        Seq::<char>::empty()
    } else {
        spec_dec(h[i].1 as int) + (if i + 1 < end {
            ", "@ + spec_join_d6(h, i + 1, end)
        } else {
            Seq::<char>::empty()
        })
    }
}

/// The message recommending which dice to keep.
pub open spec fn spec_keep_message(h: Seq<(crate::global::Die, Pip)>) -> Seq<char> {
    let n = d6_run(h, 0);
    let base: Seq<char> = if n == 0 {
        Seq::<char>::empty()
    } else {
        "You should keep d6 "@ + spec_join_d6(h, 0, n)
    };
    (if n < h.len() {
        if n == 0 {
            "You should keep the d10"@
        } else {
            base + " and the d10"@
        }
    } else {
        base
    }) + "."@
}

/// The message recommending which field to score in.
pub open spec fn spec_field_message(name: Seq<char>) -> Seq<char> {
    "You should score as "@ + name + "."@
}

proof fn lemma_d6_run(h: Seq<(crate::global::Die, Pip)>, i: int)
    requires
        0 <= i <= h.len(),
    ensures
        i <= d6_run(h, i) <= h.len(),
        forall|k: int| i <= k < d6_run(h, i) ==> (#[trigger] h[k]).0 == D6,
        d6_run(h, i) < h.len() ==> h[d6_run(h, i)].0 != D6,
    decreases h.len() - i,
{
    if i < h.len() && h[i].0 == D6 {
        lemma_d6_run(h, i + 1);
    }
}

proof fn lemma_d6_run_stops(h: Seq<(crate::global::Die, Pip)>, from: int, at: int)
    requires
        0 <= from <= at <= h.len(),
        forall|k: int| from <= k < at ==> (#[trigger] h[k]).0 == D6,
        at == h.len() || h[at].0 != D6,
    ensures
        d6_run(h, from) == at,
    decreases at - from,
{
    if from < at {
        lemma_d6_run_stops(h, from + 1, at);
    }
}

/// Render a keep recommendation.
pub fn keep_message(hand: &PartialHand) -> (r: String)
    ensures
        r@ == spec_keep_message(hand.0@),
{
    let ghost h = hand.0@;
    let mut out = String::new();
    let mut i: usize = 0;
    // the kept d6, as a comma-separated list
    loop
        invariant
            0 <= i <= h.len(),
            h == hand.0@,
            forall|k: int| 0 <= k < i ==> (#[trigger] h[k]).0 == D6,
            i == 0 ==> out@ == Seq::<char>::empty(),
            i > 0 ==> out@ == "You should keep d6 "@ + spec_join_d6(h, 0, i as int),
        ensures
            i as int == d6_run(h, 0),
            i == 0 ==> out@ == Seq::<char>::empty(),
            i > 0 ==> out@ == "You should keep d6 "@ + spec_join_d6(h, 0, i as int),
        decreases h.len() - i,
    {
        if i == hand.0.len() {
            proof {
                lemma_d6_run_stops(h, 0, i as int);
            }
            break ;
        }
        let ((min, max), pip) = hand.0[i];
        if min != 1 || max != 6 {
            proof {
                assert(h[i as int].0 != D6);
                lemma_d6_run_stops(h, 0, i as int);
            }
            break ;
        }
        let ghost pre = out@;
        if i == 0 {
            proof {
                reveal_strlit("You should keep d6 ");
            }
            out.append("You should keep d6 ");
        } else {
            proof {
                reveal_strlit(", ");
            }
            out.append(", ");
        }
        push_u64(&mut out, pip as u64);
        proof {
            assert(h[i as int].0 == D6);
            lemma_join_d6_snoc(h, 0, i as int);
            if i == 0 {
                assert(spec_join_d6(h, 0, 1) =~= spec_dec(h[0].1 as int));
                assert(out@ =~= "You should keep d6 "@ + spec_join_d6(h, 0, 1));
            } else {
                assert(out@ =~= "You should keep d6 "@ + (spec_join_d6(h, 0, i as int) + (", "@
                    + spec_dec(h[i as int].1 as int))));
                assert("You should keep d6 "@ + (spec_join_d6(h, 0, i as int) + (", "@ + spec_dec(
                    h[i as int].1 as int,
                ))) =~= "You should keep d6 "@ + spec_join_d6(h, 0, i as int + 1));
            }
        }
        i += 1;
    }
    // anything further kept is the d10
    if i < hand.0.len() {
        if i == 0 {
            proof {
                reveal_strlit("You should keep the d10");
            }
            out.append("You should keep the d10");
        } else {
            proof {
                reveal_strlit(" and the d10");
            }
            out.append(" and the d10");
        }
    }
    proof {
        reveal_strlit(".");
    }
    out.append(".");
    proof {
        assert(out@ =~= spec_keep_message(h));
    }
    out
}

/// Appending one more d6 to the joined list appends a separator and its
/// pip.
proof fn lemma_join_d6_snoc(h: Seq<(crate::global::Die, Pip)>, a: int, i: int)
    requires
        0 <= a <= i < h.len(),
    ensures
        i == a ==> spec_join_d6(h, a, i + 1) == spec_dec(h[a].1 as int),
        i > a ==> spec_join_d6(h, a, i + 1) =~= spec_join_d6(h, a, i) + (", "@ + spec_dec(
            h[i].1 as int,
        )),
    decreases i - a,
{
    if i > a {
        lemma_join_d6_snoc(h, a + 1, i);
        if i == a + 1 {
            assert(spec_join_d6(h, a, i + 1) == spec_dec(h[a].1 as int) + (", "@ + spec_join_d6(
                h,
                a + 1,
                i + 1,
            )));
            assert(spec_join_d6(h, a, i) == spec_dec(h[a].1 as int));
            assert(spec_join_d6(h, a + 1, i + 1) == spec_dec(h[i].1 as int));
            assert(spec_join_d6(h, a, i + 1) =~= spec_join_d6(h, a, i) + (", "@ + spec_dec(
                h[i].1 as int,
            )));
        } else {
            assert(spec_join_d6(h, a, i + 1) == spec_dec(h[a].1 as int) + (", "@ + spec_join_d6(
                h,
                a + 1,
                i + 1,
            )));
            assert(spec_join_d6(h, a, i) == spec_dec(h[a].1 as int) + (", "@ + spec_join_d6(
                h,
                a + 1,
                i,
            )));
            assert(spec_join_d6(h, a, i + 1) =~= spec_join_d6(h, a, i) + (", "@ + spec_dec(
                h[i].1 as int,
            )));
        }
    }
}

proof fn lemma_join_d6_unfold(h: Seq<(crate::global::Die, Pip)>, i: int, end: int)
    requires
        0 <= i < end <= h.len(),
    ensures
        spec_join_d6(h, i, end) == spec_dec(h[i].1 as int) + (if i + 1 < end {
            ", "@ + spec_join_d6(h, i + 1, end)
        } else {
            Seq::<char>::empty()
        }),
{
}

/// Parse an observed roll, consult the engine, and render the
/// recommendation as a line of text.
pub fn recommend(view_model: &mut ViewModel, caches: &mut Caches, input: &str) -> (r: Result<
    String,
    EngineError,
>)
    requires
        crate::rules::rules_wf(old(view_model).rules),
        crate::strategy::state_wf(
            old(view_model).state.model(),
            crate::strategy::rules_model(old(view_model).rules),
        ),
        crate::strategy::sm_unused(old(view_model).state.model()) >= 1,
        -2 <= old(view_model).rerolls <= REROLLS,
        old(caches).wf(),
        old(caches).compat(old(view_model).rules),
    ensures
        final(caches).wf(),
        final(caches).compat(old(view_model).rules),
        final(view_model).rules == old(view_model).rules,
        spec_parse(input@) is None ==> (r matches Err(e) && e == EngineError::HandShapeMismatch
            && *final(view_model) == *old(view_model)),
        ({
            let rm = crate::strategy::rules_model(old(view_model).rules);
            let sm = old(view_model).state.model();
            let dice = old(view_model).rules.dice.dice.0@;
            spec_parse(input@) matches Some(hm) ==> {
                let ch = crate::global::spec_canon(hm);
                let fits = crate::global::spec_is_full_hand(ch, dice)
                    && crate::probability::hand_ok(ch, dice);
                &&& (!fits ==> (r matches Err(e) && e == EngineError::HandShapeMismatch))
                &&& (fits ==> {
                    let rec = crate::strategy::sp_reroll(
                        sm,
                        ch,
                        old(view_model).rerolls as int,
                        rm,
                    );
                    if crate::global::spec_is_full_hand(rec.hand, dice) {
                        let fr = crate::strategy::sp_field(sm, ch, rm);
                        let name = if fr.section == 0 {
                            old(view_model).rules.fields@[0]@[fr.field].name@
                        } else {
                            old(view_model).rules.fields@[1]@[fr.field].name@
                        };
                        &&& r matches Ok(msg) && msg@ == spec_field_message(name)
                        &&& final(view_model).state.model() == fr.state
                        &&& final(view_model).rerolls == REROLLS
                    } else {
                        &&& r matches Ok(msg) && msg@ == spec_keep_message(rec.hand)
                        &&& final(view_model).state.model() == rec.state
                        &&& final(view_model).rerolls == old(view_model).rerolls - 1
                    }
                })
            }
        }),
{
    let hand = match parse_hand(input) {
        Ok(h) => h,
        Err(e) => {
            return Err(e);
        },
    };
    let rec = match view_model.recommend(caches, hand) {
        Ok(rec) => rec,
        Err(e) => {
            return Err(e);
        },
    };
    match rec {
        Recommendation::Reroll(keep) => Ok(keep_message(&keep)),
        Recommendation::Field(section, field) => {
            let name = if section == 0 {
                &view_model.rules.fields[0][field].name
            } else {
                &view_model.rules.fields[1][field].name
            };
            let mut out = String::new();
            proof {
                reveal_strlit("You should score as ");
                reveal_strlit(".");
                assert(Seq::<char>::empty() + "You should score as "@
                    =~= "You should score as "@);
            }
            out.append("You should score as ");
            out.append(name.as_str());
            out.append(".");
            proof {
                assert(out@ =~= spec_field_message(name@));
            }
            Ok(out)
        },
    }
}

} // verus!
