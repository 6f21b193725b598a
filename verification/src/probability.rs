//! Exact enumeration of roll outcomes: given the dice already kept, every
//! distinct completed hand and the number of ways to roll it.
//!
//! Probabilities are exact rationals: each canonical hand is keyed to a
//! count, and the count of all outcomes sums to the total number of rolls.

use vstd::prelude::*;
use crate::global::{
    count_die, spec_canon, spec_is_full_hand, sum_freq, Dice, Die, Frequency, PartialHand, Pip,
};
use crate::rules::{range_pow, rolls_product};

verus! {

/// The model of a hand: its entries as a sequence.
pub type HandModel = Seq<(Die, Pip)>;

/// Every pip in the hand lies within its own die's range.
pub open spec fn hand_pips_ok(h: HandModel) -> bool {
    forall|j: int|
        0 <= j < h.len() ==> (#[trigger] h[j]).0.0 <= h[j].1 && h[j].1 <= h[j].0.1
}

/// Whether `d` is a die kind of the rules.
pub open spec fn die_in_rules(d: Die, dice: Seq<(Die, Frequency)>) -> bool {
    exists|i: int| 0 <= i < dice.len() && d == (#[trigger] dice[i]).0
}

/// Every die of the hand is a die of the rules.
pub open spec fn dies_occur(h: HandModel, dice: Seq<(Die, Frequency)>) -> bool {
    forall|j: int| 0 <= j < h.len() ==> die_in_rules((#[trigger] h[j]).0, dice)
}

/// The hand holds no more dice of any kind than the rules allow.
pub open spec fn sub_fits(h: HandModel, dice: Seq<(Die, Frequency)>) -> bool {
    &&& dies_occur(h, dice)
    &&& forall|i: int|
        0 <= i < dice.len() ==> count_die(h, (#[trigger] dice[i]).0) <= dice[i].1 as int
}

/// A hand the engine can work with under the given dice rules.
pub open spec fn hand_ok(h: HandModel, dice: Seq<(Die, Frequency)>) -> bool {
    hand_pips_ok(h) && sub_fits(h, dice)
}

/// The dice still to roll: rules frequencies minus what the hand holds.
pub open spec fn spec_leftover(dice: Seq<(Die, Frequency)>, have: HandModel) -> Seq<
    (Die, Frequency),
> {
    Seq::new(
        dice.len(),
        |i: int|
            (
                dice[i].0,
                if count_die(have, dice[i].0) <= dice[i].1 as int {
                    (dice[i].1 as int - count_die(have, dice[i].0)) as Frequency
                } else {
                    0 as Frequency
                },
            ),
    )
}

/// All hands obtained from `h` by appending one pip of die `d`, the pip
/// running from `p` to the die's maximum.
pub open spec fn append_pips_from(h: HandModel, d: Die, p: int) -> Seq<HandModel>
    decreases d.1 + 1 - p,
    when p >= 0
{
    if p > d.1 as int || p < 0 {
        Seq::<HandModel>::empty()
    } else {
        seq![h.push((d, p as u8))] + append_pips_from(h, d, p + 1)
    }
}

/// All hands obtained from the hands `hs[i..]` by appending one die `d`.
pub open spec fn expand1_from(hs: Seq<HandModel>, d: Die, i: int) -> Seq<HandModel>
    decreases hs.len() - i,
    when 0 <= i <= hs.len()
{
    if i >= hs.len() {
        Seq::<HandModel>::empty()
    } else {
        append_pips_from(hs[i], d, d.0 as int) + expand1_from(hs, d, i + 1)
    }
}

/// All hands obtained by appending `k` dice of kind `d` to each of `hs`.
pub open spec fn expand_times(hs: Seq<HandModel>, d: Die, k: int) -> Seq<HandModel>
    decreases k,
{
    if k <= 0 {
        hs
    } else {
        expand_times(expand1_from(hs, d, 0), d, k - 1)
    }
}

/// All hands obtained by appending every die of `left[i..]` to each of `hs`.
pub open spec fn expand_all_from(
    hs: Seq<HandModel>,
    left: Seq<(Die, Frequency)>,
    i: int,
) -> Seq<HandModel>
    decreases left.len() - i,
    when 0 <= i <= left.len()
{
    if i >= left.len() {
        hs
    } else {
        expand_all_from(expand_times(hs, left[i].0, left[i].1 as int), left, i + 1)
    }
}

/// Every distinct completed roll, in enumeration order, with duplicates.
pub open spec fn spec_outcomes(have: HandModel, left: Seq<(Die, Frequency)>) -> Seq<HandModel> {
    expand_all_from(seq![have], left, 0)
}

/// The model of a grouped table: canonical hands with their counts.
pub type TableModel = Seq<(HandModel, int)>;

/// Index of `h` among the table's keys, or -1.
pub open spec fn find_hand(t: TableModel, h: HandModel) -> int
    decreases t.len(),
{
    if t.len() == 0 {
        -1
    } else if t[0].0 == h {
        0
    } else {
        let r = find_hand(t.drop_first(), h);
        if r < 0 {
            -1
        } else {
            r + 1
        }
    }
}

pub proof fn lemma_find_hand(t: TableModel, h: HandModel)
    ensures
        find_hand(t, h) < 0 ==> forall|k: int| 0 <= k < t.len() ==> (#[trigger] t[k]).0 != h,
        find_hand(t, h) >= 0 ==> {
            let f = find_hand(t, h);
            &&& f < t.len()
            &&& t[f].0 == h
            &&& forall|k: int| 0 <= k < f ==> (#[trigger] t[k]).0 != h
        },
    decreases t.len(),
{
    if t.len() > 0 && t[0].0 != h {
        lemma_find_hand(t.drop_first(), h);
        let r = find_hand(t.drop_first(), h);
        if r < 0 {
            assert forall|k: int| 0 <= k < t.len() implies (#[trigger] t[k]).0 != h by {
                if k > 0 {
                    assert(t.drop_first()[k - 1] == t[k]);
                }
            }
        } else {
            assert(t[r + 1] == t.drop_first()[r]);
            assert forall|k: int| 0 <= k < r + 1 implies (#[trigger] t[k]).0 != h by {
                if k > 0 {
                    assert(t.drop_first()[k - 1] == t[k]);
                }
            }
        }
    }
}

/// Add one occurrence of the canonical hand `h` to the table.
pub open spec fn bump(t: TableModel, h: HandModel) -> TableModel {
    let f = find_hand(t, h);
    if f < 0 {
        t.push((h, 1))
    } else {
        t.update(f, (t[f].0, t[f].1 + 1))
    }
}

/// Group the outcomes `outs[i..]` into the accumulating table.
pub open spec fn group_from(outs: Seq<HandModel>, i: int, acc: TableModel) -> TableModel
    decreases outs.len() - i,
    when 0 <= i <= outs.len()
{
    if i >= outs.len() {
        acc
    } else {
        group_from(outs, i + 1, bump(acc, spec_canon(outs[i])))
    }
}

/// The grouped table of all outcomes.
pub open spec fn spec_group(outs: Seq<HandModel>) -> TableModel {
    group_from(outs, 0, Seq::<(HandModel, int)>::empty())
}

/// The sum of all counts in a table.
pub open spec fn sum_counts(t: TableModel) -> int
    decreases t.len(),
{
    if t.len() == 0 {
        0
    } else {
        sum_counts(t.drop_last()) + t.last().1
    }
}

proof fn lemma_sum_counts_update(t: TableModel, j: int)
    requires
        0 <= j < t.len(),
    ensures
        sum_counts(t.update(j, (t[j].0, t[j].1 + 1))) == sum_counts(t) + 1,
    decreases t.len(),
{
    let u = t.update(j, (t[j].0, t[j].1 + 1));
    if j == t.len() - 1 {
        assert(u.drop_last() =~= t.drop_last());
        assert(u.last() == (t[j].0, t[j].1 + 1));
    } else {
        assert(u.drop_last() =~= t.drop_last().update(j, (t[j].0, t[j].1 + 1)));
        assert(t.drop_last()[j] == t[j]);
        lemma_sum_counts_update(t.drop_last(), j);
        assert(u.last() == t.last());
    }
}

proof fn lemma_sum_counts_push(t: TableModel, h: HandModel)
    ensures
        sum_counts(t.push((h, 1))) == sum_counts(t) + 1,
{
    assert(t.push((h, 1)).drop_last() =~= t);
}

pub proof fn lemma_bump_sum(t: TableModel, h: HandModel)
    ensures
        sum_counts(bump(t, h)) == sum_counts(t) + 1,
{
    lemma_find_hand(t, h);
    let f = find_hand(t, h);
    if f < 0 {
        lemma_sum_counts_push(t, h);
    } else {
        lemma_sum_counts_update(t, f);
    }
}

/// Every count in the table is positive.
pub open spec fn counts_pos(t: TableModel) -> bool {
    forall|k: int| 0 <= k < t.len() ==> (#[trigger] t[k]).1 >= 1
}

pub proof fn lemma_bump_pos(t: TableModel, h: HandModel)
    requires
        counts_pos(t),
    ensures
        counts_pos(bump(t, h)),
{
    lemma_find_hand(t, h);
}

/// Every key in the table satisfies `p`-style properties carried by the
/// outcomes: here, keys are the canonical forms of the grouped outcomes.
pub open spec fn keys_from(t: TableModel, outs: Seq<HandModel>) -> bool {
    forall|k: int|
        0 <= k < t.len() ==> exists|j: int|
            0 <= j < outs.len() && (#[trigger] t[k]).0 == spec_canon(#[trigger] outs[j])
}

/// The invariant of the grouping pass, all at once.
pub proof fn lemma_group_from(outs: Seq<HandModel>, i: int, acc: TableModel)
    requires
        0 <= i <= outs.len(),
        counts_pos(acc),
        keys_from(acc, outs),
    ensures
        sum_counts(group_from(outs, i, acc)) == sum_counts(acc) + outs.len() - i,
        counts_pos(group_from(outs, i, acc)),
        keys_from(group_from(outs, i, acc), outs),
    decreases outs.len() - i,
{
    if i < outs.len() {
        let b = bump(acc, spec_canon(outs[i]));
        lemma_bump_sum(acc, spec_canon(outs[i]));
        lemma_bump_pos(acc, spec_canon(outs[i]));
        lemma_find_hand(acc, spec_canon(outs[i]));
        assert(keys_from(b, outs)) by {
            let f = find_hand(acc, spec_canon(outs[i]));
            assert forall|k: int| 0 <= k < b.len() implies exists|j: int|
                0 <= j < outs.len() && (#[trigger] b[k]).0 == spec_canon(#[trigger] outs[j]) by {
                if f < 0 && k == b.len() - 1 {
                    assert(b[k].0 == spec_canon(outs[i]));
                } else if f >= 0 && k == f {
                    assert(b[k].0 == spec_canon(outs[i]));
                } else {
                    assert(b[k] == acc[k]);
                }
            }
        }
        lemma_group_from(outs, i + 1, b);
    }
}

/// The product of outcome counts of the dice `left[i..]`.
pub open spec fn product_from(left: Seq<(Die, Frequency)>, i: int) -> int
    decreases left.len() - i,
    when 0 <= i <= left.len()
{
    if i >= left.len() {
        1
    } else {
        range_pow(left[i].0.1 as int - left[i].0.0 as int + 1, left[i].1 as int) * product_from(
            left,
            i + 1,
        )
    }
}

proof fn lemma_product_from_drop(s: Seq<(Die, Frequency)>, i: int)
    requires
        0 <= i <= s.len() - 1,
    ensures
        product_from(s, i) == product_from(s.drop_last(), i) * range_pow(
            s.last().0.1 as int - s.last().0.0 as int + 1,
            s.last().1 as int,
        ),
    decreases s.len() - i,
{
    if i == s.len() - 1 {
        assert(product_from(s, i + 1) == 1);
        assert(product_from(s.drop_last(), i) == 1);
    } else {
        assert(s.drop_last()[i] == s[i]);
        lemma_product_from_drop(s, i + 1);
        assert(product_from(s, i) == range_pow(
            s[i].0.1 as int - s[i].0.0 as int + 1,
            s[i].1 as int,
        ) * product_from(s, i + 1));
        assert(product_from(s.drop_last(), i) == range_pow(
            s[i].0.1 as int - s[i].0.0 as int + 1,
            s[i].1 as int,
        ) * product_from(s.drop_last(), i + 1));
        let a = range_pow(s[i].0.1 as int - s[i].0.0 as int + 1, s[i].1 as int);
        let b = product_from(s.drop_last(), i + 1);
        let c = range_pow(s.last().0.1 as int - s.last().0.0 as int + 1, s.last().1 as int);
        assert(a * (b * c) == (a * b) * c) by (nonlinear_arith);
    }
}

/// The front product equals the rules' outcome product.
pub proof fn lemma_product_from_eq(s: Seq<(Die, Frequency)>)
    ensures
        product_from(s, 0) == rolls_product(s),
    decreases s.len(),
{
    if s.len() > 0 {
        lemma_product_from_eq(s.drop_last());
        lemma_product_from_drop(s, 0);
    }
}

pub proof fn lemma_range_pow_pos(range: int, f: int)
    requires
        range >= 1,
    ensures
        range_pow(range, f) >= 1,
    decreases f,
{
    if f > 0 {
        lemma_range_pow_pos(range, f - 1);
        assert(range * range_pow(range, f - 1) >= 1) by (nonlinear_arith)
            requires
                range >= 1,
                range_pow(range, f - 1) >= 1,
        ;
    }
}

pub proof fn lemma_range_pow_mono(range: int, f1: int, f2: int)
    requires
        range >= 1,
        0 <= f1 <= f2,
    ensures
        range_pow(range, f1) <= range_pow(range, f2),
    decreases f2,
{
    if f1 < f2 {
        lemma_range_pow_mono(range, f1, f2 - 1);
        lemma_range_pow_pos(range, f2 - 1);
        assert(range_pow(range, f2 - 1) <= range * range_pow(range, f2 - 1)) by (nonlinear_arith)
            requires
                range >= 1,
                range_pow(range, f2 - 1) >= 1,
        ;
    }
}

/// Pointwise-smaller frequencies on the same dice give at most as many
/// outcomes.
pub proof fn lemma_rolls_product_mono(a: Seq<(Die, Frequency)>, b: Seq<(Die, Frequency)>)
    requires
        a.len() == b.len(),
        forall|i: int| 0 <= i < a.len() ==> (#[trigger] a[i]).0 == (#[trigger] b[i]).0,
        forall|i: int| 0 <= i < a.len() ==> (#[trigger] a[i]).1 <= (#[trigger] b[i]).1,
        forall|i: int| 0 <= i < b.len() ==> (#[trigger] b[i]).0.0 <= b[i].0.1,
    ensures
        1 <= rolls_product(a) <= rolls_product(b),
    decreases a.len(),
{
    if a.len() == 0 {
    } else {
        assert forall|i: int| 0 <= i < a.drop_last().len() implies (#[trigger] a.drop_last()[i]).0
            == b.drop_last()[i].0 && a.drop_last()[i].1 <= b.drop_last()[i].1
            && b.drop_last()[i].0.0 <= b.drop_last()[i].0.1 by {
            assert(a.drop_last()[i] == a[i] && b.drop_last()[i] == b[i]);
        }
        lemma_rolls_product_mono(a.drop_last(), b.drop_last());
        let n = a.len() - 1;
        assert(a[n] == a.last() && b[n] == b.last());
        let range = b.last().0.1 as int - b.last().0.0 as int + 1;
        lemma_range_pow_mono(range, a.last().1 as int, b.last().1 as int);
        lemma_range_pow_pos(range, a.last().1 as int);
        assert(rolls_product(a.drop_last()) * range_pow(range, a.last().1 as int) <= rolls_product(
            b.drop_last(),
        ) * range_pow(range, b.last().1 as int) && 1 <= rolls_product(a.drop_last()) * range_pow(
            range,
            a.last().1 as int,
        )) by (nonlinear_arith)
            requires
                1 <= rolls_product(a.drop_last()) <= rolls_product(b.drop_last()),
                1 <= range_pow(range, a.last().1 as int) <= range_pow(range, b.last().1 as int),
        ;
    }
}

proof fn lemma_append_pips_chars(h: HandModel, d: Die, p: int)
    requires
        0 <= p,
    ensures
        append_pips_from(h, d, p).len() == if p <= d.1 as int {
            d.1 as int + 1 - p
        } else {
            0
        },
        forall|m: int|
            0 <= m < append_pips_from(h, d, p).len() ==> #[trigger] append_pips_from(h, d, p)[m]
                == h.push((d, (p + m) as u8)),
    decreases d.1 as int + 1 - p,
{
    if p <= d.1 as int {
        lemma_append_pips_chars(h, d, p + 1);
        let whole = append_pips_from(h, d, p);
        let rest = append_pips_from(h, d, p + 1);
        assert(whole == seq![h.push((d, p as u8))] + rest);
        assert forall|m: int| 0 <= m < whole.len() implies #[trigger] whole[m] == h.push(
            (d, (p + m) as u8),
        ) by {
            if m > 0 {
                assert(whole[m] == rest[m - 1]);
            }
        }
    }
}

proof fn lemma_expand1_len(hs: Seq<HandModel>, d: Die, i: int)
    requires
        0 <= i <= hs.len(),
        d.0 <= d.1,
    ensures
        expand1_from(hs, d, i).len() == (hs.len() - i) * (d.1 as int - d.0 as int + 1),
    decreases hs.len() - i,
{
    let range = d.1 as int - d.0 as int + 1;
    if i >= hs.len() {
        assert((hs.len() - i) * range == 0) by (nonlinear_arith)
            requires
                hs.len() - i == 0,
        ;
    } else {
        lemma_expand1_len(hs, d, i + 1);
        lemma_append_pips_chars(hs[i], d, d.0 as int);
        assert(range + (hs.len() - i - 1) * range == (hs.len() - i) * range) by (nonlinear_arith);
    }
}

proof fn lemma_expand_times_len(hs: Seq<HandModel>, d: Die, k: int)
    requires
        d.0 <= d.1,
        k >= 0,
    ensures
        expand_times(hs, d, k).len() == hs.len() * range_pow(d.1 as int - d.0 as int + 1, k),
    decreases k,
{
    let range = d.1 as int - d.0 as int + 1;
    if k <= 0 {
        assert(hs.len() * 1 == hs.len()) by (nonlinear_arith);
    } else {
        lemma_expand1_len(hs, d, 0);
        lemma_expand_times_len(expand1_from(hs, d, 0), d, k - 1);
        assert((hs.len() * range) * range_pow(range, k - 1) == hs.len() * (range * range_pow(
            range,
            k - 1,
        ))) by (nonlinear_arith);
    }
}

proof fn lemma_expand_all_len(hs: Seq<HandModel>, left: Seq<(Die, Frequency)>, i: int)
    requires
        0 <= i <= left.len(),
        forall|m: int| 0 <= m < left.len() ==> (#[trigger] left[m]).0.0 <= left[m].0.1,
    ensures
        expand_all_from(hs, left, i).len() == hs.len() * product_from(left, i),
    decreases left.len() - i,
{
    if i >= left.len() {
        assert(hs.len() * 1 == hs.len()) by (nonlinear_arith);
    } else {
        lemma_expand_times_len(hs, left[i].0, left[i].1 as int);
        let mid = expand_times(hs, left[i].0, left[i].1 as int);
        lemma_expand_all_len(mid, left, i + 1);
        let rp = range_pow(left[i].0.1 as int - left[i].0.0 as int + 1, left[i].1 as int);
        assert((hs.len() * rp) * product_from(left, i + 1) == hs.len() * (rp * product_from(
            left,
            i + 1,
        ))) by (nonlinear_arith);
    }
}

/// The number of enumerated outcomes is exactly the outcome product of the
/// leftover dice.
pub proof fn lemma_outcomes_len(have: HandModel, left: Seq<(Die, Frequency)>)
    requires
        forall|m: int| 0 <= m < left.len() ==> (#[trigger] left[m]).0.0 <= left[m].0.1,
    ensures
        spec_outcomes(have, left).len() == rolls_product(left),
{
    lemma_expand_all_len(seq![have], left, 0);
    lemma_product_from_eq(left);
    assert(seq![have].len() == 1);
    assert(1 * product_from(left, 0) == product_from(left, 0)) by (nonlinear_arith);
}

/// How many dice of kind `d2` the entries `left[i..]` still add.
pub open spec fn rem_freq(left: Seq<(Die, Frequency)>, i: int, d2: Die) -> int
    decreases left.len() - i,
    when 0 <= i <= left.len()
{
    if i >= left.len() {
        0
    } else {
        (if left[i].0 == d2 {
            left[i].1 as int
        } else {
            0
        }) + rem_freq(left, i + 1, d2)
    }
}

proof fn lemma_expand1_uniform(hs: Seq<HandModel>, d: Die, i: int, d2: Die, c: int)
    requires
        0 <= i <= hs.len(),
        forall|m: int| i <= m < hs.len() ==> count_die(#[trigger] hs[m], d2) == c,
    ensures
        forall|m: int|
            0 <= m < expand1_from(hs, d, i).len() ==> count_die(
                #[trigger] expand1_from(hs, d, i)[m],
                d2,
            ) == c + if d2 == d {
                1int
            } else {
                0int
            },
    decreases hs.len() - i,
{
    if i < hs.len() {
        lemma_expand1_uniform(hs, d, i + 1, d2, c);
        lemma_append_pips_chars(hs[i], d, d.0 as int);
        let head = append_pips_from(hs[i], d, d.0 as int);
        let tail = expand1_from(hs, d, i + 1);
        let whole = expand1_from(hs, d, i);
        assert forall|m: int| 0 <= m < whole.len() implies count_die(#[trigger] whole[m], d2) == c
            + if d2 == d {
            1int
        } else {
            0int
        } by {
            if m < head.len() {
                assert(whole[m] == head[m]);
                let g = head[m];
                assert(g == hs[i].push((d, (d.0 as int + m) as u8)));
                assert(g.drop_last() == hs[i]);
            } else {
                assert(whole[m] == tail[m - head.len()]);
            }
        }
    }
}

proof fn lemma_expand_times_uniform(hs: Seq<HandModel>, d: Die, k: int, d2: Die, c: int)
    requires
        k >= 0,
        forall|m: int| 0 <= m < hs.len() ==> count_die(#[trigger] hs[m], d2) == c,
    ensures
        forall|m: int|
            0 <= m < expand_times(hs, d, k).len() ==> count_die(#[trigger] expand_times(hs, d, k)[m], d2)
                == c + k * if d2 == d {
                1int
            } else {
                0int
            },
    decreases k,
{
    let step: int = if d2 == d {
        1int
    } else {
        0int
    };
    if k <= 0 {
        assert(c + 0 * step == c) by (nonlinear_arith);
        assert forall|m: int| 0 <= m < expand_times(hs, d, k).len() implies count_die(
            #[trigger] expand_times(hs, d, k)[m],
            d2,
        ) == c + k * step by {
            assert(expand_times(hs, d, k) == hs);
            assert(count_die(hs[m], d2) == c);
        }
    } else {
        lemma_expand1_uniform(hs, d, 0, d2, c);
        lemma_expand_times_uniform(expand1_from(hs, d, 0), d, k - 1, d2, c + step);
        assert(c + step + (k - 1) * step == c + k * step) by (nonlinear_arith);
        let mid = expand1_from(hs, d, 0);
        assert forall|m: int| 0 <= m < expand_times(hs, d, k).len() implies count_die(
            #[trigger] expand_times(hs, d, k)[m],
            d2,
        ) == c + k * step by {
            assert(expand_times(hs, d, k) == expand_times(mid, d, k - 1));
            assert(count_die(expand_times(mid, d, k - 1)[m], d2) == c + step + (k - 1) * step);
        }
    }
}

proof fn lemma_expand_all_uniform(
    hs: Seq<HandModel>,
    left: Seq<(Die, Frequency)>,
    i: int,
    d2: Die,
    c: int,
)
    requires
        0 <= i <= left.len(),
        forall|m: int| 0 <= m < hs.len() ==> count_die(#[trigger] hs[m], d2) == c,
    ensures
        forall|m: int|
            0 <= m < expand_all_from(hs, left, i).len() ==> count_die(
                #[trigger] expand_all_from(hs, left, i)[m],
                d2,
            ) == c + rem_freq(left, i, d2),
    decreases left.len() - i,
{
    if i >= left.len() {
        assert forall|m: int| 0 <= m < expand_all_from(hs, left, i).len() implies count_die(
            #[trigger] expand_all_from(hs, left, i)[m],
            d2,
        ) == c + rem_freq(left, i, d2) by {
            assert(expand_all_from(hs, left, i) == hs);
            assert(rem_freq(left, i, d2) == 0);
            assert(count_die(hs[m], d2) == c);
        }
    } else {
        let step: int = if d2 == left[i].0 {
            left[i].1 as int
        } else {
            0int
        };
        let mid = expand_times(hs, left[i].0, left[i].1 as int);
        lemma_expand_times_uniform(hs, left[i].0, left[i].1 as int, d2, c);
        assert forall|m: int| 0 <= m < mid.len() implies count_die(#[trigger] mid[m], d2) == c
            + step by {
            if d2 == left[i].0 {
                assert(left[i].1 as int * 1int == left[i].1 as int) by (nonlinear_arith);
            } else {
                assert(left[i].1 as int * 0int == 0int) by (nonlinear_arith);
            }
        }
        lemma_expand_all_uniform(mid, left, i + 1, d2, c + step);
        assert forall|m: int| 0 <= m < expand_all_from(hs, left, i).len() implies count_die(
            #[trigger] expand_all_from(hs, left, i)[m],
            d2,
        ) == c + rem_freq(left, i, d2) by {
            assert(expand_all_from(hs, left, i) == expand_all_from(mid, left, i + 1));
            assert(count_die(expand_all_from(mid, left, i + 1)[m], d2) == c + step + rem_freq(
                left,
                i + 1,
                d2,
            ));
        }
    }
}

proof fn lemma_expand1_ok(hs: Seq<HandModel>, d: Die, i: int, dice: Seq<(Die, Frequency)>)
    requires
        0 <= i <= hs.len(),
        d.0 <= d.1,
        exists|n: int| 0 <= n < dice.len() && (#[trigger] dice[n]).0 == d,
        forall|m: int|
            i <= m < hs.len() ==> hand_pips_ok(#[trigger] hs[m]) && dies_occur(hs[m], dice),
    ensures
        forall|m: int|
            0 <= m < expand1_from(hs, d, i).len() ==> hand_pips_ok(
                #[trigger] expand1_from(hs, d, i)[m],
            ) && dies_occur(expand1_from(hs, d, i)[m], dice),
    decreases hs.len() - i,
{
    if i < hs.len() {
        lemma_expand1_ok(hs, d, i + 1, dice);
        lemma_append_pips_chars(hs[i], d, d.0 as int);
        let head = append_pips_from(hs[i], d, d.0 as int);
        let tail = expand1_from(hs, d, i + 1);
        let whole = expand1_from(hs, d, i);
        assert forall|m: int| 0 <= m < whole.len() implies hand_pips_ok(#[trigger] whole[m])
            && dies_occur(whole[m], dice) by {
            if m < head.len() {
                assert(whole[m] == head[m]);
                let g = head[m];
                let h0 = hs[i];
                assert(g == h0.push((d, (d.0 as int + m) as u8)));
                assert forall|j: int| 0 <= j < g.len() implies (#[trigger] g[j]).0.0 <= g[j].1
                    && g[j].1 <= g[j].0.1 && exists|n: int|
                    0 <= n < dice.len() && g[j].0 == (#[trigger] dice[n]).0 by {
                    if j < h0.len() {
                        assert(g[j] == h0[j]);
                    } else {
                        assert(g[j] == (d, (d.0 as int + m) as u8));
                    }
                }
            } else {
                assert(whole[m] == tail[m - head.len()]);
            }
        }
    }
}

proof fn lemma_expand_times_ok(hs: Seq<HandModel>, d: Die, k: int, dice: Seq<(Die, Frequency)>)
    requires
        k >= 0,
        d.0 <= d.1,
        k >= 1 ==> exists|n: int| 0 <= n < dice.len() && (#[trigger] dice[n]).0 == d,
        forall|m: int|
            0 <= m < hs.len() ==> hand_pips_ok(#[trigger] hs[m]) && dies_occur(hs[m], dice),
    ensures
        forall|m: int|
            0 <= m < expand_times(hs, d, k).len() ==> hand_pips_ok(
                #[trigger] expand_times(hs, d, k)[m],
            ) && dies_occur(expand_times(hs, d, k)[m], dice),
    decreases k,
{
    if k > 0 {
        lemma_expand1_ok(hs, d, 0, dice);
        let mid = expand1_from(hs, d, 0);
        lemma_expand_times_ok(mid, d, k - 1, dice);
        assert forall|m: int| 0 <= m < expand_times(hs, d, k).len() implies hand_pips_ok(
            #[trigger] expand_times(hs, d, k)[m],
        ) && dies_occur(expand_times(hs, d, k)[m], dice) by {
            assert(expand_times(hs, d, k) == expand_times(mid, d, k - 1));
            assert(hand_pips_ok(expand_times(mid, d, k - 1)[m]) && dies_occur(
                expand_times(mid, d, k - 1)[m],
                dice,
            ));
        }
    }
}

proof fn lemma_expand_all_ok(
    hs: Seq<HandModel>,
    left: Seq<(Die, Frequency)>,
    i: int,
    dice: Seq<(Die, Frequency)>,
)
    requires
        0 <= i <= left.len(),
        left.len() == dice.len(),
        forall|m: int| 0 <= m < left.len() ==> (#[trigger] left[m]).0 == (#[trigger] dice[m]).0,
        forall|m: int| 0 <= m < dice.len() ==> (#[trigger] dice[m]).0.0 <= dice[m].0.1,
        forall|m: int|
            0 <= m < hs.len() ==> hand_pips_ok(#[trigger] hs[m]) && dies_occur(hs[m], dice),
    ensures
        forall|m: int|
            0 <= m < expand_all_from(hs, left, i).len() ==> hand_pips_ok(
                #[trigger] expand_all_from(hs, left, i)[m],
            ) && dies_occur(expand_all_from(hs, left, i)[m], dice),
    decreases left.len() - i,
{
    if i < left.len() {
        assert(left[i].0 == dice[i].0);
        let mid = expand_times(hs, left[i].0, left[i].1 as int);
        lemma_expand_times_ok(hs, left[i].0, left[i].1 as int, dice);
        lemma_expand_all_ok(mid, left, i + 1, dice);
        assert forall|m: int| 0 <= m < expand_all_from(hs, left, i).len() implies hand_pips_ok(
            #[trigger] expand_all_from(hs, left, i)[m],
        ) && dies_occur(expand_all_from(hs, left, i)[m], dice) by {
            assert(expand_all_from(hs, left, i) == expand_all_from(mid, left, i + 1));
            assert(hand_pips_ok(expand_all_from(mid, left, i + 1)[m]) && dies_occur(
                expand_all_from(mid, left, i + 1)[m],
                dice,
            ));
        }
    }
}

proof fn lemma_rem_freq_distinct(left: Seq<(Die, Frequency)>, i: int, n: int)
    requires
        0 <= i <= n < left.len(),
        forall|a: int, b: int|
            0 <= a < b < left.len() ==> (#[trigger] left[a]).0 != (#[trigger] left[b]).0,
    ensures
        rem_freq(left, i, left[n].0) == left[n].1 as int,
    decreases left.len() - i,
{
    if i < n {
        lemma_rem_freq_distinct(left, i + 1, n);
    } else {
        lemma_rem_freq_zero(left, i + 1, left[n].0);
    }
}

proof fn lemma_rem_freq_zero(left: Seq<(Die, Frequency)>, i: int, d2: Die)
    requires
        0 <= i <= left.len(),
        forall|m: int| i <= m < left.len() ==> (#[trigger] left[m]).0 != d2,
    ensures
        rem_freq(left, i, d2) == 0,
    decreases left.len() - i,
{
    if i < left.len() {
        lemma_rem_freq_zero(left, i + 1, d2);
    }
}

/// Every enumerated outcome is a full, in-range hand for the dice rules.
pub proof fn lemma_outcomes_props(have: HandModel, dice: Seq<(Die, Frequency)>)
    requires
        hand_ok(have, dice),
        forall|m: int| 0 <= m < dice.len() ==> (#[trigger] dice[m]).0.0 <= dice[m].0.1,
        forall|a: int, b: int|
            0 <= a < b < dice.len() ==> (#[trigger] dice[a]).0 != (#[trigger] dice[b]).0,
    ensures
        forall|m: int|
            0 <= m < spec_outcomes(have, spec_leftover(dice, have)).len() ==> {
                let g = #[trigger] spec_outcomes(have, spec_leftover(dice, have))[m];
                &&& spec_is_full_hand(g, dice)
                &&& hand_pips_ok(g)
                &&& dies_occur(g, dice)
            },
{
    let left = spec_leftover(dice, have);
    assert(left.len() == dice.len());
    assert forall|m: int| 0 <= m < left.len() implies (#[trigger] left[m]).0 == dice[m].0 by {}
    assert forall|a: int, b: int| 0 <= a < b < left.len() implies (#[trigger] left[a]).0
        != (#[trigger] left[b]).0 by {
        assert(left[a].0 == dice[a].0 && left[b].0 == dice[b].0);
    }
    lemma_expand_all_ok(seq![have], left, 0, dice);
    let outs = spec_outcomes(have, left);
    assert forall|m: int| 0 <= m < outs.len() implies spec_is_full_hand(#[trigger] outs[m], dice)
        && hand_pips_ok(outs[m]) && dies_occur(outs[m], dice) by {
        assert forall|n: int| 0 <= n < dice.len() implies count_die(outs[m], (#[trigger] dice[n]).0)
            == dice[n].1 as int by {
            let c0 = count_die(have, dice[n].0);
            crate::global::lemma_count_die_bounds(have, dice[n].0);
            assert(c0 <= dice[n].1 as int);
            assert(left[n] == (dice[n].0, (dice[n].1 as int - c0) as Frequency));
            lemma_expand_all_uniform(seq![have], left, 0, dice[n].0, c0);
            lemma_rem_freq_distinct(left, 0, n);
            assert(rem_freq(left, 0, dice[n].0) == left[n].1 as int);
            assert(left[n].1 as int == dice[n].1 as int - c0);
        }
    }
}

proof fn lemma_count_die_remove(s: HandModel, i: int, d: Die)
    requires
        0 <= i < s.len(),
    ensures
        count_die(s.remove(i), d) == count_die(s, d) - if s[i].0 == d {
            1int
        } else {
            0int
        },
    decreases s.len(),
{
    if i == s.len() - 1 {
        assert(s.remove(i) =~= s.drop_last());
    } else {
        assert(s.remove(i).drop_last() =~= s.drop_last().remove(i));
        assert(s.remove(i).last() == s.last());
        assert(s.drop_last()[i] == s[i]);
        lemma_count_die_remove(s.drop_last(), i, d);
    }
}

/// Hands with the same dice have the same die counts.
pub proof fn lemma_count_die_multiset(a: HandModel, b: HandModel, d: Die)
    requires
        a.to_multiset() == b.to_multiset(),
    ensures
        count_die(a, d) == count_die(b, d),
    decreases a.len(),
{
    a.to_multiset_ensures();
    b.to_multiset_ensures();
    if a.len() == 0 {
        assert(b.len() == 0);
    } else {
        let e = a.last();
        assert(a.contains(e));
        assert(a.to_multiset().count(e) > 0);
        assert(b.to_multiset().count(e) > 0);
        assert(b.contains(e));
        let j = choose|j: int| 0 <= j < b.len() && b[j] == e;
        let ar = a.remove(a.len() - 1);
        let br = b.remove(j);
        assert(ar.to_multiset() =~= a.to_multiset().remove(e));
        assert(br.to_multiset() =~= b.to_multiset().remove(e));
        lemma_count_die_multiset(ar, br, d);
        lemma_count_die_remove(a, a.len() - 1, d);
        lemma_count_die_remove(b, j, d);
    }
}

/// The canonical form keeps a hand full, in range and on the rules' dice.
pub proof fn lemma_canon_hand_props(g: HandModel, dice: Seq<(Die, Frequency)>)
    ensures
        spec_is_full_hand(g, dice) ==> spec_is_full_hand(spec_canon(g), dice),
        hand_pips_ok(g) ==> hand_pips_ok(spec_canon(g)),
        dies_occur(g, dice) ==> dies_occur(spec_canon(g), dice),
        sub_fits(g, dice) ==> sub_fits(spec_canon(g), dice),
{
    crate::global::lemma_canon_ensures(g);
    let c = spec_canon(g);
    g.to_multiset_ensures();
    c.to_multiset_ensures();
    assert forall|i: int| 0 <= i < dice.len() implies count_die(c, (#[trigger] dice[i]).0)
        == count_die(g, dice[i].0) by {
        lemma_count_die_multiset(c, g, dice[i].0);
    }
    if hand_pips_ok(g) {
        assert forall|j: int| 0 <= j < c.len() implies (#[trigger] c[j]).0.0 <= c[j].1 && c[j].1
            <= c[j].0.1 by {
            assert(c.contains(c[j]));
            assert(c.to_multiset().count(c[j]) > 0);
            assert(g.to_multiset().count(c[j]) > 0);
            assert(g.contains(c[j]));
            let k = choose|k: int| 0 <= k < g.len() && g[k] == c[j];
            assert(g[k].0.0 <= g[k].1 && g[k].1 <= g[k].0.1);
        }
    }
    if dies_occur(g, dice) {
        assert forall|j: int| 0 <= j < c.len() implies die_in_rules((#[trigger] c[j]).0, dice) by {
            assert(c.contains(c[j]));
            assert(c.to_multiset().count(c[j]) > 0);
            assert(g.to_multiset().count(c[j]) > 0);
            assert(g.contains(c[j]));
            let k = choose|k: int| 0 <= k < g.len() && g[k] == c[j];
            assert(die_in_rules(g[k].0, dice));
        }
    }
}

/// How many of the rules' entries use die kind `d`.
pub open spec fn occ_count(dice: Seq<(Die, Frequency)>, d: Die) -> int
    decreases dice.len(),
{
    if dice.len() == 0 {
        0
    } else {
        occ_count(dice.drop_last(), d) + if dice.last().0 == d {
            1int
        } else {
            0int
        }
    }
}

proof fn lemma_occ_zero(dice: Seq<(Die, Frequency)>, d: Die)
    requires
        forall|i: int| 0 <= i < dice.len() ==> (#[trigger] dice[i]).0 != d,
    ensures
        occ_count(dice, d) == 0,
    decreases dice.len(),
{
    if dice.len() > 0 {
        assert forall|i: int| 0 <= i < dice.drop_last().len() implies (#[trigger] dice.drop_last()[i]).0
            != d by {
            assert(dice.drop_last()[i] == dice[i]);
        }
        lemma_occ_zero(dice.drop_last(), d);
    }
}

proof fn lemma_occ_one(dice: Seq<(Die, Frequency)>, d: Die)
    requires
        forall|a: int, b: int|
            0 <= a < b < dice.len() ==> (#[trigger] dice[a]).0 != (#[trigger] dice[b]).0,
        exists|i: int| 0 <= i < dice.len() && (#[trigger] dice[i]).0 == d,
    ensures
        occ_count(dice, d) == 1,
    decreases dice.len(),
{
    let n = dice.len() - 1;
    if dice.last().0 == d {
        assert forall|i: int| 0 <= i < dice.drop_last().len() implies (#[trigger] dice.drop_last()[i]).0
            != d by {
            assert(dice.drop_last()[i] == dice[i]);
            assert(dice[i].0 != dice[n].0);
        }
        lemma_occ_zero(dice.drop_last(), d);
    } else {
        let i = choose|i: int| 0 <= i < dice.len() && dice[i].0 == d;
        assert(i < n);
        assert(dice.drop_last()[i] == dice[i]);
        assert forall|a: int, b: int| 0 <= a < b < dice.drop_last().len() implies (
        #[trigger] dice.drop_last()[a]).0 != (#[trigger] dice.drop_last()[b]).0 by {
            assert(dice.drop_last()[a] == dice[a] && dice.drop_last()[b] == dice[b]);
        }
        lemma_occ_one(dice.drop_last(), d);
    }
}

/// Sum of the hand's die counts over all rules entries.
pub open spec fn sum_counts_dice(h: HandModel, dice: Seq<(Die, Frequency)>) -> int
    decreases dice.len(),
{
    if dice.len() == 0 {
        0
    } else {
        sum_counts_dice(h, dice.drop_last()) + count_die(h, dice.last().0)
    }
}

proof fn lemma_sum_counts_dice_drop(h: HandModel, dice: Seq<(Die, Frequency)>)
    requires
        h.len() > 0,
    ensures
        sum_counts_dice(h, dice) == sum_counts_dice(h.drop_last(), dice) + occ_count(
            dice,
            h.last().0,
        ),
    decreases dice.len(),
{
    if dice.len() > 0 {
        lemma_sum_counts_dice_drop(h, dice.drop_last());
    }
}

proof fn lemma_sum_counts_dice_empty(h: HandModel, dice: Seq<(Die, Frequency)>)
    requires
        h.len() == 0,
    ensures
        sum_counts_dice(h, dice) == 0,
    decreases dice.len(),
{
    if dice.len() > 0 {
        lemma_sum_counts_dice_empty(h, dice.drop_last());
    }
}

proof fn lemma_hand_len_eq_sum(h: HandModel, dice: Seq<(Die, Frequency)>)
    requires
        dies_occur(h, dice),
        forall|a: int, b: int|
            0 <= a < b < dice.len() ==> (#[trigger] dice[a]).0 != (#[trigger] dice[b]).0,
    ensures
        h.len() == sum_counts_dice(h, dice),
    decreases h.len(),
{
    if h.len() == 0 {
        lemma_sum_counts_dice_empty(h, dice);
    } else {
        let hr = h.drop_last();
        assert forall|j: int| 0 <= j < hr.len() implies die_in_rules((#[trigger] hr[j]).0, dice) by {
            assert(hr[j] == h[j]);
            assert(die_in_rules(h[j].0, dice));
        }
        lemma_hand_len_eq_sum(hr, dice);
        lemma_sum_counts_dice_drop(h, dice);
        let n = h.len() - 1;
        assert(die_in_rules(h[n].0, dice));
        let i0 = choose|i: int| 0 <= i < dice.len() && h[n].0 == (#[trigger] dice[i]).0;
        assert(dice[i0].0 == h.last().0);
        lemma_occ_one(dice, h.last().0);
    }
}

proof fn lemma_sum_counts_le_freqs(h: HandModel, dice: Seq<(Die, Frequency)>)
    requires
        forall|i: int|
            0 <= i < dice.len() ==> count_die(h, (#[trigger] dice[i]).0) <= dice[i].1 as int,
    ensures
        sum_counts_dice(h, dice) <= sum_freq(dice),
    decreases dice.len(),
{
    if dice.len() > 0 {
        assert forall|i: int| 0 <= i < dice.drop_last().len() implies count_die(
            h,
            (#[trigger] dice.drop_last()[i]).0,
        ) <= dice.drop_last()[i].1 as int by {
            assert(dice.drop_last()[i] == dice[i]);
        }
        lemma_sum_counts_le_freqs(h, dice.drop_last());
        assert(dice[dice.len() - 1] == dice.last());
    }
}

/// A hand that fits the rules has at most as many dice as the rules roll.
pub proof fn lemma_hand_len_le(h: HandModel, dice: Seq<(Die, Frequency)>)
    requires
        sub_fits(h, dice),
        forall|a: int, b: int|
            0 <= a < b < dice.len() ==> (#[trigger] dice[a]).0 != (#[trigger] dice[b]).0,
    ensures
        h.len() <= sum_freq(dice),
{
    lemma_hand_len_eq_sum(h, dice);
    lemma_sum_counts_le_freqs(h, dice);
}

proof fn lemma_product_from_pos(left: Seq<(Die, Frequency)>, i: int)
    requires
        0 <= i <= left.len(),
        forall|m: int| 0 <= m < left.len() ==> (#[trigger] left[m]).0.0 <= left[m].0.1,
    ensures
        product_from(left, i) >= 1,
    decreases left.len() - i,
{
    if i < left.len() {
        lemma_product_from_pos(left, i + 1);
        let range = left[i].0.1 as int - left[i].0.0 as int + 1;
        lemma_range_pow_pos(range, left[i].1 as int);
        assert(range_pow(range, left[i].1 as int) * product_from(left, i + 1) >= 1)
            by (nonlinear_arith)
            requires
                range_pow(range, left[i].1 as int) >= 1,
                product_from(left, i + 1) >= 1,
        ;
    }
}

} // verus!

verus! {

/// Statistical probability: an exact rational of outcome counts.
#[derive(Clone, Copy, Debug, PartialEq, Eq, Structural)]
pub struct Probability {
    /// Number of ways to roll this hand.
    pub num: u64,
    /// Number of all rolls.
    pub den: u64,
}

/// All reachable hands with their probabilities, exact and grouped by
/// canonical hand.
#[derive(Clone, Debug, PartialEq)]
pub struct ProbabilitiesToRoll {
    pub table: Vec<(PartialHand, Probability)>,
}

/// The model of a probability table: canonical hands and their counts.
pub open spec fn table_model(t: Seq<(PartialHand, Probability)>) -> TableModel {
    Seq::new(t.len(), |i: int| (t[i].0.0@, t[i].1.num as int))
}

/// Deep equality of two hands.
pub fn hand_eq(a: &PartialHand, b: &PartialHand) -> (r: bool)
    ensures
        r == (a.0@ == b.0@),
{
    if a.0.len() != b.0.len() {
        return false;
    }
    let mut i: usize = 0;
    while i < a.0.len()
        invariant
            i <= a.0@.len(),
            a.0@.len() == b.0@.len(),
            forall|k: int| 0 <= k < i ==> a.0@[k] == b.0@[k],
        decreases a.0@.len() - i,
    {
        let ((amin, amax), ap) = a.0[i];
        let ((bmin, bmax), bp) = b.0[i];
        if amin != bmin || amax != bmax || ap != bp {
            return false;
        }
        i += 1;
    }
    proof {
        assert(a.0@ =~= b.0@);
    }
    true
}

/// Copy a hand.
pub fn copy_hand(h: &PartialHand) -> (r: PartialHand)
    ensures
        r.0@ == h.0@,
{
    let mut v: Vec<(Die, Pip)> = Vec::new();
    let mut i: usize = 0;
    proof {
        assert(v@ =~= h.0@.subrange(0, 0));
    }
    while i < h.0.len()
        invariant
            i <= h.0@.len(),
            v@ == h.0@.subrange(0, i as int),
        decreases h.0@.len() - i,
    {
        v.push(h.0[i]);
        proof {
            assert(h.0@.subrange(0, i + 1) == h.0@.subrange(0, i as int).push(h.0@[i as int]));
        }
        i += 1;
    }
    proof {
        assert(h.0@.subrange(0, h.0@.len() as int) == h.0@);
    }
    PartialHand(v)
}

/// The dice left to roll, or `None` when the hand does not fit the rules.
pub fn leftover_of(have: &PartialHand, dice: &Dice) -> (r: Option<Vec<(Die, Frequency)>>)
    ensures
        r is Some <==> sub_fits(have.0@, dice.0@),
        r matches Some(v) ==> v@ == spec_leftover(dice.0@, have.0@),
{
    // every die of the hand must be a die of the rules
    let mut j: usize = 0;
    while j < have.0.len()
        invariant
            j <= have.0@.len(),
            forall|k: int| 0 <= k < j ==> die_in_rules((#[trigger] have.0@[k]).0, dice.0@),
        decreases have.0@.len() - j,
    {
        let (hd, _pip) = have.0[j];
        let mut i: usize = 0;
        let mut found = false;
        while i < dice.0.len()
            invariant
                i <= dice.0@.len(),
                found ==> die_in_rules(hd, dice.0@),
                !found ==> forall|m: int| 0 <= m < i ==> hd != (#[trigger] dice.0@[m]).0,
            decreases dice.0@.len() - i,
        {
            let (rd, _f) = dice.0[i];
            if rd.0 == hd.0 && rd.1 == hd.1 {
                found = true;
            }
            i += 1;
        }
        if !found {
            proof {
                assert(have.0@[j as int].0 == hd);
                assert(!sub_fits(have.0@, dice.0@));
            }
            return None;
        }
        j += 1;
    }
    // rules frequencies minus hand counts
    let mut left: Vec<(Die, Frequency)> = Vec::new();
    let mut i: usize = 0;
    while i < dice.0.len()
        invariant
            i <= dice.0@.len(),
            left@.len() == i,
            forall|k: int| 0 <= k < i ==> left@[k] == spec_leftover(dice.0@, have.0@)[k],
            forall|k: int|
                0 <= k < i ==> count_die(have.0@, (#[trigger] dice.0@[k]).0) <= dice.0@[k].1 as int,
        decreases dice.0@.len() - i,
    {
        let (die, freq) = dice.0[i];
        let cnt = have.count_of_die(die);
        proof {
            crate::global::lemma_count_die_bounds(have.0@, die);
        }
        if cnt > freq as usize {
            proof {
                assert(count_die(have.0@, dice.0@[i as int].0) > dice.0@[i as int].1 as int);
                assert(!sub_fits(have.0@, dice.0@));
            }
            return None;
        }
        left.push((die, freq - cnt as u8));
        i += 1;
    }
    proof {
        assert(left@ =~= spec_leftover(dice.0@, have.0@));
        assert(dies_occur(have.0@, dice.0@));
        assert(sub_fits(have.0@, dice.0@));
    }
    Some(left)
}

/// The total count of distinct rolls of the leftover dice.
fn total_of(left: &Vec<(Die, Frequency)>) -> (t: u64)
    requires
        forall|m: int| 0 <= m < left@.len() ==> (#[trigger] left@[m]).0.0 <= left@[m].0.1,
        rolls_product(left@) <= 0x100000,
    ensures
        t as int == rolls_product(left@),
        1 <= t <= 0x100000,
{
    let ghost total_g = product_from(left@, 0);
    proof {
        lemma_product_from_eq(left@);
        lemma_product_from_pos(left@, 0);
    }
    let mut prod: u64 = 1;
    let mut i: usize = 0;
    while i < left.len()
        invariant
            i <= left@.len(),
            forall|m: int| 0 <= m < left@.len() ==> (#[trigger] left@[m]).0.0 <= left@[m].0.1,
            prod as int * product_from(left@, i as int) == total_g,
            total_g == rolls_product(left@),
            total_g <= 0x100000,
            1 <= prod,
        decreases left@.len() - i,
    {
        let ((min, max), freq) = left[i];
        let range: u64 = (max - min) as u64 + 1;
        let ghost range_i = max as int - min as int + 1;
        let mut j: u8 = 0;
        proof {
            lemma_product_from_pos(left@, i + 1);
            lemma_range_pow_pos(range_i, freq as int);
            let a = prod as int;
            let rp = range_pow(range_i, freq as int);
            let pf1 = product_from(left@, i as int + 1);
            assert(product_from(left@, i as int) == rp * pf1);
            assert(a * (rp * pf1) == a * rp * pf1) by (nonlinear_arith);
        }
        while j < freq
            invariant
                j <= freq,
                i < left@.len(),
                left@[i as int] == ((min, max), freq),
                min <= max,
                range == range_i,
                1 <= range_i <= 256,
                prod as int * range_pow(range_i, (freq - j) as int) * product_from(
                    left@,
                    i as int + 1,
                ) == total_g,
                total_g == rolls_product(left@),
                total_g <= 0x100000,
                product_from(left@, i as int + 1) >= 1,
                1 <= prod,
            decreases freq - j,
        {
            proof {
                let a = prod as int;
                let k = (freq - j) as int;
                let rp1 = range_pow(range_i, k - 1);
                let pf1 = product_from(left@, i as int + 1);
                lemma_range_pow_pos(range_i, k - 1);
                assert(range_pow(range_i, k) == range_i * rp1);
                assert(a * (range_i * rp1) * pf1 == (a * range_i) * rp1 * pf1) by (nonlinear_arith);
                assert((a * range_i) * rp1 * pf1 >= (a * range_i) * 1 * 1 && (a * range_i) * 1 * 1
                    == a * range_i && a * range_i >= 1) by (nonlinear_arith)
                    requires
                        a >= 1,
                        range_i >= 1,
                        rp1 >= 1,
                        pf1 >= 1,
                ;
            }
            prod = prod * range;
            j += 1;
        }
        proof {
            assert(range_pow(range_i, 0) == 1);
            assert(prod as int * 1 * product_from(left@, i as int + 1) == prod as int
                * product_from(left@, i as int + 1)) by (nonlinear_arith);
        }
        i += 1;
    }
    proof {
        assert(product_from(left@, left@.len() as int) == 1);
    }
    prod
}

/// Each count in a table of positive counts is at most the sum.
pub proof fn lemma_count_le_sum(t: TableModel, k: int)
    requires
        counts_pos(t),
        0 <= k < t.len(),
    ensures
        t[k].1 <= sum_counts(t),
    decreases t.len(),
{
    if k == t.len() - 1 {
        lemma_sum_counts_nonneg(t.drop_last());
    } else {
        assert(t.drop_last()[k] == t[k]);
        lemma_count_le_sum(t.drop_last(), k);
    }
}

pub proof fn lemma_sum_counts_nonneg(t: TableModel)
    requires
        counts_pos(t),
    ensures
        sum_counts(t) >= 0,
    decreases t.len(),
{
    if t.len() > 0 {
        lemma_sum_counts_nonneg(t.drop_last());
    }
}

/// The model of a vector of hands.
pub open spec fn hands_model(v: Seq<PartialHand>) -> Seq<HandModel> {
    Seq::new(v.len(), |i: int| v[i].0@)
}

/// Everything the engine knows of a probability table for `h` under the
/// dice `d`: the exact grouped counts of all outcomes, which sum to the
/// total, and the shape of every key.
pub open spec fn ptr_post(h: HandModel, d: Seq<(Die, Frequency)>, r: ProbabilitiesToRoll) -> bool {
    let left = spec_leftover(d, h);
    let outs = spec_outcomes(h, left);
    let total = rolls_product(left);
    &&& table_model(r.table@) == spec_group(outs)
    &&& sum_counts(table_model(r.table@)) == total
    &&& 1 <= total <= 0x100000
    &&& 1 <= r.table@.len()
    &&& counts_pos(table_model(r.table@))
    &&& forall|k: int|
        0 <= k < r.table@.len() ==> (#[trigger] r.table@[k]).1.den as int == total && 1
            <= r.table@[k].1.num as int <= total
    &&& forall|k: int|
        0 <= k < r.table@.len() ==> {
            let key = (#[trigger] r.table@[k]).0.0@;
            &&& spec_is_full_hand(key, d)
            &&& hand_pips_ok(key)
            &&& dies_occur(key, d)
            &&& sub_fits(key, d)
            &&& key == spec_canon(key)
            &&& key.len() <= sum_freq(d)
        }
}

/// Enumerate every completion of `have` under the dice rules and group the
/// outcomes by canonical hand with their exact counts.
#[verifier::rlimit(60)]
pub fn probability_table(have: PartialHand, dice: &Dice) -> (r: ProbabilitiesToRoll)
    requires
        hand_ok(have.0@, dice.0@),
        crate::rules::dice_wf(*dice),
    ensures
        ptr_post(have.0@, dice.0@, r),
{
    let ghost dice_m = dice.0@;
    let ghost have_m = have.0@;
    let left = match leftover_of(&have, dice) {
        Some(l) => l,
        None => vstd::pervasive::unreached(),
    };
    let ghost left_m = left@;
    proof {
        assert forall|m: int| 0 <= m < left_m.len() implies (#[trigger] left_m[m]).0.0
            <= left_m[m].0.1 by {
            assert(left_m[m].0 == dice_m[m].0);
        }
        assert forall|m: int| 0 <= m < left_m.len() implies (#[trigger] left_m[m]).0 == (
        #[trigger] dice_m[m]).0 && left_m[m].1 <= dice_m[m].1 by {
            crate::global::lemma_count_die_bounds(have_m, dice_m[m].0);
        }
        lemma_rolls_product_mono(left_m, dice_m);
    }
    let total = total_of(&left);
    let ghost outs = spec_outcomes(have_m, left_m);
    proof {
        lemma_outcomes_len(have_m, left_m);
        lemma_outcomes_props(have_m, dice_m);
    }

    // enumerate all completions
    let mut hands: Vec<PartialHand> = Vec::new();
    hands.push(have);
    proof {
        assert(hands_model(hands@) =~= seq![have_m]);
    }
    let mut li: usize = 0;
    while li < left.len()
        invariant
            li <= left_m.len(),
            left@ == left_m,
            forall|m: int| 0 <= m < left_m.len() ==> (#[trigger] left_m[m]).0.0 <= left_m[m].0.1,
            expand_all_from(hands_model(hands@), left_m, li as int) == outs,
        decreases left_m.len() - li,
    {
        let ((dmin, dmax), dfreq) = left[li];
        let ghost d: Die = (dmin, dmax);
        let mut c: u8 = 0;
        while c < dfreq
            invariant
                c <= dfreq,
                li < left_m.len(),
                left@ == left_m,
                left_m[li as int] == (((dmin, dmax), dfreq)),
                dmin <= dmax,
                expand_all_from(
                    expand_times(hands_model(hands@), d, (dfreq - c) as int),
                    left_m,
                    li as int + 1,
                ) == outs,
                d == ((dmin, dmax)),
            decreases dfreq - c,
        {
            let ghost hm = hands_model(hands@);
            let mut new_hands: Vec<PartialHand> = Vec::new();
            let mut hi: usize = 0;
            proof {
                assert(hands_model(new_hands@) =~= Seq::<HandModel>::empty());
                assert(Seq::<HandModel>::empty() + expand1_from(hm, d, 0) =~= expand1_from(
                    hm,
                    d,
                    0,
                ));
            }
            while hi < hands.len()
                invariant
                    hi <= hands@.len(),
                    hands_model(hands@) == hm,
                    d == ((dmin, dmax)),
                    dmin <= dmax,
                    hands_model(new_hands@) + expand1_from(hm, d, hi as int) == expand1_from(
                        hm,
                        d,
                        0,
                    ),
                decreases hands@.len() - hi,
            {
                let mut pip: u16 = dmin as u16;
                proof {
                    assert(hands_model(new_hands@) + (append_pips_from(hm[hi as int], d, dmin as int)
                        + expand1_from(hm, d, hi as int + 1)) =~= hands_model(new_hands@)
                        + expand1_from(hm, d, hi as int));
                }
                while pip <= dmax as u16
                    invariant
                        dmin as int <= pip as int <= dmax as int + 1,
                        hi < hands@.len(),
                        hands_model(hands@) == hm,
                        d == ((dmin, dmax)),
                        hands_model(new_hands@) + (append_pips_from(hm[hi as int], d, pip as int)
                            + expand1_from(hm, d, hi as int + 1)) == expand1_from(hm, d, 0),
                    decreases dmax as int + 1 - pip as int,
                {
                    let ghost pre = hands_model(new_hands@);
                    let mut nh = copy_hand(&hands[hi]);
                    nh.0.push(((dmin, dmax), pip as u8));
                    new_hands.push(nh);
                    proof {
                        assert(hands_model(new_hands@) =~= pre.push(hm[hi as int].push(
                            (d, pip as u8),
                        )));
                        assert(append_pips_from(hm[hi as int], d, pip as int) == seq![
                            hm[hi as int].push((d, pip as u8)),
                        ] + append_pips_from(hm[hi as int], d, pip as int + 1));
                        assert(pre.push(hm[hi as int].push((d, pip as u8))) + (append_pips_from(
                            hm[hi as int],
                            d,
                            pip as int + 1,
                        ) + expand1_from(hm, d, hi as int + 1)) =~= pre + (append_pips_from(
                            hm[hi as int],
                            d,
                            pip as int,
                        ) + expand1_from(hm, d, hi as int + 1)));
                    }
                    pip += 1;
                }
                proof {
                    assert(append_pips_from(hm[hi as int], d, pip as int)
                        =~= Seq::<HandModel>::empty());
                    assert(hands_model(new_hands@) + (Seq::<HandModel>::empty() + expand1_from(
                        hm,
                        d,
                        hi as int + 1,
                    )) =~= hands_model(new_hands@) + expand1_from(hm, d, hi as int + 1));
                }
                hi += 1;
            }
            proof {
                assert(expand1_from(hm, d, hands@.len() as int) =~= Seq::<HandModel>::empty());
                assert(hands_model(new_hands@) + Seq::<HandModel>::empty() =~= hands_model(
                    new_hands@,
                ));
                assert(hands_model(new_hands@) == expand1_from(hm, d, 0));
                assert(expand_times(hm, d, (dfreq - c) as int) == expand_times(
                    expand1_from(hm, d, 0),
                    d,
                    (dfreq - c) as int - 1,
                ));
            }
            hands = new_hands;
            c += 1;
        }
        proof {
            assert(expand_times(hands_model(hands@), d, 0) == hands_model(hands@));
            assert(expand_all_from(hands_model(hands@), left_m, li as int + 1) == outs);
        }
        li += 1;
    }
    proof {
        assert(expand_all_from(hands_model(hands@), left_m, left_m.len() as int) == hands_model(
            hands@,
        ));
        assert(hands_model(hands@) == outs);
    }

    // group by canonical hand
    let mut table: Vec<(PartialHand, Probability)> = Vec::new();
    let mut oi: usize = 0;
    proof {
        assert(table_model(table@) =~= Seq::<(HandModel, int)>::empty());
    }
    while oi < hands.len()
        invariant
            oi <= hands@.len(),
            hands_model(hands@) == outs,
            outs.len() == total as int,
            1 <= total <= 0x100000,
            group_from(outs, oi as int, table_model(table@)) == spec_group(outs),
            sum_counts(table_model(table@)) == oi as int,
            counts_pos(table_model(table@)),
            forall|k: int| 0 <= k < table@.len() ==> (#[trigger] table@[k]).1.num as int <= oi as int,
            forall|k: int| 0 <= k < table@.len() ==> (#[trigger] table@[k]).1.den == total,
            forall|k: int|
                0 <= k < table@.len() ==> (#[trigger] table_model(table@)[k]).0 == table@[k].0.0@,
        decreases hands@.len() - oi,
    {
        let ghost tm = table_model(table@);
        let ch = hands[oi].canonicalized();
        proof {
            assert(hands_model(hands@)[oi as int] == hands@[oi as int].0@);
            assert(ch.0@ == spec_canon(outs[oi as int]));
            lemma_find_hand(tm, ch.0@);
        }
        let mut j: usize = 0;
        loop
            invariant
                j <= table@.len(),
                table_model(table@) == tm,
                forall|k: int| 0 <= k < j ==> (#[trigger] tm[k]).0 != ch.0@,
            ensures
                j <= table@.len(),
                forall|k: int| 0 <= k < j ==> (#[trigger] tm[k]).0 != ch.0@,
                j < table@.len() ==> tm[j as int].0 == ch.0@,
            decreases table@.len() - j,
        {
            if j == table.len() {
                break ;
            }
            if hand_eq(&table[j].0, &ch) {
                proof {
                    assert(tm[j as int].0 == table@[j as int].0.0@);
                }
                break ;
            }
            proof {
                assert(tm[j as int].0 == table@[j as int].0.0@);
            }
            j += 1;
        }
        if j < table.len() {
            proof {
                assert(find_hand(tm, ch.0@) == j as int) by {
                    lemma_find_hand(tm, ch.0@);
                    if find_hand(tm, ch.0@) < 0 {
                        assert(tm[j as int].0 != ch.0@);
                    } else {
                        let f = find_hand(tm, ch.0@);
                        if f < j {
                            assert(tm[f].0 != ch.0@);
                        } else if f > j {
                            assert(tm[j as int].0 != ch.0@);
                        }
                    }
                }
            }
            let mut e = table.remove(j);
            let ghost pre = table@;
            proof {
                assert(e.1.num as int <= oi as int) by {
                    assert(tm[j as int].1 == e.1.num as int);
                }
            }
            e.1.num = e.1.num + 1;
            table.insert(j, e);
            proof {
                assert(table@ =~= pre.insert(j as int, e));
                assert(table_model(table@) =~= bump(tm, ch.0@));
                lemma_bump_sum(tm, ch.0@);
                lemma_bump_pos(tm, ch.0@);
            }
        } else {
            proof {
                assert(find_hand(tm, ch.0@) < 0) by {
                    lemma_find_hand(tm, ch.0@);
                    if find_hand(tm, ch.0@) >= 0 {
                        let f = find_hand(tm, ch.0@);
                        assert(tm[f].0 != ch.0@);
                    }
                }
            }
            table.push((ch, Probability { num: 1, den: total }));
            proof {
                assert(table_model(table@) =~= bump(tm, ch.0@));
                lemma_bump_sum(tm, ch.0@);
                lemma_bump_pos(tm, ch.0@);
            }
        }
        proof {
            assert(group_from(outs, oi as int, tm) == group_from(
                outs,
                oi as int + 1,
                bump(tm, spec_canon(outs[oi as int])),
            ));
        }
        oi += 1;
    }
    proof {
        let tm = table_model(table@);
        assert(group_from(outs, outs.len() as int, tm) == tm);
        assert(tm == spec_group(outs));
        lemma_group_from(outs, 0, Seq::<(HandModel, int)>::empty());
        assert(keys_from(tm, outs));
        if table@.len() == 0 {
            assert(sum_counts(tm) == 0);
        }
        assert forall|k: int| 0 <= k < table@.len() implies {
            let key = (#[trigger] table@[k]).0.0@;
            &&& spec_is_full_hand(key, dice_m)
            &&& hand_pips_ok(key)
            &&& dies_occur(key, dice_m)
            &&& sub_fits(key, dice_m)
            &&& key == spec_canon(key)
            &&& key.len() <= sum_freq(dice_m)
        } by {
            let key = table@[k].0.0@;
            assert(tm[k].0 == key);
            let j = choose|j: int| 0 <= j < outs.len() && tm[k].0 == spec_canon(#[trigger] outs[j]);
            lemma_canon_hand_props(outs[j], dice_m);
            crate::global::lemma_canon_idempotent(outs[j]);
            assert forall|i: int| 0 <= i < dice_m.len() implies count_die(
                key,
                (#[trigger] dice_m[i]).0,
            ) <= dice_m[i].1 as int by {
                assert(count_die(key, dice_m[i].0) == dice_m[i].1 as int);
            }
            lemma_hand_len_le(key, dice_m);
        }
        assert forall|k: int| 0 <= k < table@.len() implies (#[trigger] table@[k]).1.den as int
            == rolls_product(left_m) && 1 <= table@[k].1.num as int <= rolls_product(left_m) by {
            assert(tm[k].1 == table@[k].1.num as int);
            lemma_count_le_sum(tm, k);
        }
    }
    ProbabilitiesToRoll { table }
}

} // verus!