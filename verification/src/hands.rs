//! Hand scorers: pure functions from a sorted multiset of pips to a score.

use vstd::prelude::*;
use crate::global::{Frequency, Pip, Score};

verus! {

/// How the identical-groups scorer values a matching hand.
#[derive(Clone, Copy, Debug, PartialEq, Eq)]
pub enum GroupScore {
    /// The sum of all pips (Three/Four of a Kind, Two Pairs).
    Total,
    /// A fixed score (Full House, Yahtzee, ...).
    Fixed(Score),
}

/// How often pip `p` occurs in `s`.
pub open spec fn count_pip(s: Seq<Pip>, p: Pip) -> int
    decreases s.len(),
{
    if s.len() == 0 {
        0
    } else {
        count_pip(s.drop_last(), p) + if s.last() == p {
            1int
        } else {
            0int
        }
    }
}

/// The sum of all pips in `s`.
pub open spec fn spec_total(s: Seq<Pip>) -> int
    decreases s.len(),
{
    if s.len() == 0 {
        0
    } else {
        spec_total(s.drop_last()) + s.last() as int
    }
}

/// Score of an upper-section field: pips equal to the field, times the field.
pub open spec fn spec_upper_section(field: Pip, s: Seq<Pip>) -> int {
    count_pip(s, field) * field as int
}

pub proof fn lemma_count_pip_le_len(s: Seq<Pip>, p: Pip)
    ensures
        0 <= count_pip(s, p) <= s.len(),
    decreases s.len(),
{
    if s.len() > 0 {
        lemma_count_pip_le_len(s.drop_last(), p);
    }
}

pub proof fn lemma_total_bound(s: Seq<Pip>, maxp: int)
    requires
        forall|i: int| 0 <= i < s.len() ==> (#[trigger] s[i]) as int <= maxp,
        maxp >= 0,
    ensures
        0 <= spec_total(s) <= s.len() * maxp,
    decreases s.len(),
{
    if s.len() > 0 {
        assert forall|i: int| 0 <= i < s.drop_last().len() implies (#[trigger] s.drop_last()[i]) as int
            <= maxp by {
            assert(s.drop_last()[i] == s[i]);
        }
        lemma_total_bound(s.drop_last(), maxp);
        assert(s.last() as int <= maxp);
        assert((s.len() - 1) * maxp + maxp == s.len() * maxp) by (nonlinear_arith);
    }
}

/// Upper section fields: count the pips equal to `field` and multiply by it.
///
/// `hand` need not be sorted; on the sorted hands the rules feed it, this
/// agrees with counting the one contiguous run of `field`s.
pub fn generic_upper_section(field: Pip, hand: &[Pip]) -> (r: Score)
    requires
        hand@.len() * field as int <= u16::MAX as int,
    ensures
        r as int == spec_upper_section(field, hand@),
{
    if field == 0 {
        return 0;
    }
    let mut cnt: usize = 0;
    let mut i: usize = 0;
    proof {
        assert(hand@.subrange(0, 0) =~= Seq::<Pip>::empty());
        lemma_count_pip_le_len(hand@, field);
    }
    while i < hand.len()
        invariant
            i <= hand@.len(),
            cnt == count_pip(hand@.subrange(0, i as int), field),
            cnt <= i,
        decreases hand@.len() - i,
    {
        proof {
            let s = hand@;
            assert(s.subrange(0, i + 1).drop_last() == s.subrange(0, i as int));
            assert(s.subrange(0, i + 1).last() == s[i as int]);
        }
        if hand[i] == field {
            cnt += 1;
        }
        i += 1;
    }
    proof {
        assert(hand@.subrange(0, hand@.len() as int) == hand@);
        assert(hand@.len() <= u16::MAX as int) by (nonlinear_arith)
            requires
                hand@.len() * field as int <= u16::MAX as int,
                field as int >= 1,
        ;
        assert(cnt * field as int <= hand@.len() * field as int) by (nonlinear_arith)
            requires
                0 <= cnt <= hand@.len(),
                field as int >= 0,
        ;
    }
    (cnt as u16) * (field as u16)
}

/// Calculate the sum of a hand.
pub fn total(hand: &[Pip]) -> (r: Score)
    requires
        hand@.len() <= 255,
    ensures
        r as int == spec_total(hand@),
{
    let mut acc: u32 = 0;
    let mut i: usize = 0;
    proof {
        assert(hand@.subrange(0, 0) =~= Seq::<Pip>::empty());
    }
    while i < hand.len()
        invariant
            i <= hand@.len(),
            hand@.len() <= 255,
            acc == spec_total(hand@.subrange(0, i as int)),
            acc <= 255 * i,
        decreases hand@.len() - i,
    {
        proof {
            let s = hand@;
            assert(s.subrange(0, i + 1).drop_last() == s.subrange(0, i as int));
            assert(s.subrange(0, i + 1).last() == s[i as int]);
        }
        acc += hand[i] as u32;
        i += 1;
    }
    proof {
        assert(hand@.subrange(0, hand@.len() as int) == hand@);
    }
    acc as u16
}

/// Whether a sequence of frequencies ascends.
pub open spec fn freqs_sorted(s: Seq<Frequency>) -> bool {
    forall|x: int, y: int| 0 <= x < y < s.len() ==> #[trigger] s[x] <= #[trigger] s[y]
}

/// Ascending sort of a frequency sequence.
pub open spec fn spec_sort_freqs(s: Seq<Frequency>) -> Seq<Frequency> {
    s.sort_by(|a: Frequency, b: Frequency| a <= b)
}

pub proof fn lemma_sort_freqs_ensures(s: Seq<Frequency>)
    ensures
        spec_sort_freqs(s).to_multiset() == s.to_multiset(),
        freqs_sorted(spec_sort_freqs(s)),
        spec_sort_freqs(s).len() == s.len(),
{
    let leq = |a: Frequency, b: Frequency| a <= b;
    s.lemma_sort_by_ensures(leq);
    s.to_multiset_ensures();
    spec_sort_freqs(s).to_multiset_ensures();
    let c = spec_sort_freqs(s);
    assert forall|x: int, y: int| 0 <= x < y < c.len() implies #[trigger] c[x] <= #[trigger] c[y] by {
        assert(leq(c[x], c[y]));
    }
}

pub proof fn lemma_freqs_sorted_unique(a: Seq<Frequency>, b: Seq<Frequency>)
    requires
        freqs_sorted(a),
        freqs_sorted(b),
        a.to_multiset() == b.to_multiset(),
    ensures
        a == b,
    decreases a.len(),
{
    a.to_multiset_ensures();
    b.to_multiset_ensures();
    if a.len() == 0 {
        assert(a =~= b);
    } else {
        assert(a.contains(a[0]));
        assert(a.to_multiset().count(a[0]) > 0);
        assert(b.to_multiset().count(a[0]) > 0);
        assert(b.contains(a[0]));
        assert(b.contains(b[0]));
        assert(b.to_multiset().count(b[0]) > 0);
        assert(a.to_multiset().count(b[0]) > 0);
        assert(a.contains(b[0]));
        let i = choose|i: int| 0 <= i < a.len() && a[i] == b[0];
        let j = choose|j: int| 0 <= j < b.len() && b[j] == a[0];
        assert(a[0] <= a[i] && b[0] <= b[j]);
        assert(a[0] == b[0]);
        let ar = a.remove(0);
        let br = b.remove(0);
        assert(ar.to_multiset() == br.to_multiset());
        assert forall|x: int, y: int| 0 <= x < y < ar.len() implies #[trigger] ar[x]
            <= #[trigger] ar[y] by {
            assert(ar[x] == a[x + 1] && ar[y] == a[y + 1]);
        }
        assert forall|x: int, y: int| 0 <= x < y < br.len() implies #[trigger] br[x]
            <= #[trigger] br[y] by {
            assert(br[x] == b[x + 1] && br[y] == b[y + 1]);
        }
        lemma_freqs_sorted_unique(ar, br);
        assert forall|k: int| 0 <= k < a.len() implies a[k] == b[k] by {
            if k > 0 {
                assert(a[k] == ar[k - 1] && b[k] == br[k - 1]);
            }
        }
        assert(a =~= b);
    }
}

/// Run lengths greater than one, scanned left to right over `s`, starting
/// in a run that has so far length `cur`.
pub open spec fn scan_groups(s: Seq<Pip>, i: int, cur: int, acc: Seq<Frequency>) -> Seq<Frequency>
    recommends
        1 <= i <= s.len(),
        cur >= 1,
    decreases s.len() - i,
{
    if i >= s.len() || i < 1 {
        if cur > 1 && cur <= 255 {
            acc.push(cur as Frequency)
        } else {
            acc
        }
    } else if s[i] == s[i - 1] {
        scan_groups(s, i + 1, cur + 1, acc)
    } else {
        scan_groups(
            s,
            i + 1,
            1,
            if cur > 1 && cur <= 255 {
                acc.push(cur as Frequency)
            } else {
                acc
            },
        )
    }
}

/// The frequencies of the repeated runs in `s`, ascending.
pub open spec fn spec_groups(s: Seq<Pip>) -> Seq<Frequency> {
    if s.len() == 0 {
        Seq::<Frequency>::empty()
    } else {
        spec_sort_freqs(scan_groups(s, 1, 1, Seq::<Frequency>::empty()))
    }
}

/// Frequency analysis over a hand: the lengths of all runs of equal pips
/// that are longer than one, sorted ascending.
pub fn identical(hand: &[Pip]) -> (r: Vec<Frequency>)
    requires
        hand@.len() <= 255,
    ensures
        r@ == spec_groups(hand@),
{
    let mut groups: Vec<Frequency> = Vec::new();
    if hand.len() == 0 {
        proof {
            assert(groups@ =~= spec_groups(hand@));
        }
        return groups;
    }
    let mut i: usize = 1;
    let mut cur: usize = 1;
    while i < hand.len()
        invariant
            1 <= i <= hand@.len(),
            hand@.len() <= 255,
            1 <= cur <= i,
            scan_groups(hand@, 1, 1, Seq::<Frequency>::empty()) == scan_groups(
                hand@,
                i as int,
                cur as int,
                groups@,
            ),
        decreases hand@.len() - i,
    {
        if hand[i] == hand[i - 1] {
            cur += 1;
        } else {
            if cur > 1 {
                groups.push(cur as Frequency);
            }
            cur = 1;
        }
        i += 1;
    }
    if cur > 1 {
        groups.push(cur as Frequency);
    }
    // now sort ascending by insertion
    let ghost unsorted = groups@;
    proof {
        assert(unsorted == scan_groups(hand@, 1, 1, Seq::<Frequency>::empty()));
    }
    let mut out: Vec<Frequency> = Vec::new();
    let mut k: usize = 0;
    proof {
        lemma_sort_freqs_ensures(unsorted);
        assert(out@ =~= unsorted.subrange(0, 0));
    }
    while k < groups.len()
        invariant
            k <= groups@.len(),
            groups@ == unsorted,
            out@.to_multiset() == unsorted.subrange(0, k as int).to_multiset(),
            freqs_sorted(out@),
        decreases groups@.len() - k,
    {
        let e = groups[k];
        let mut j: usize = 0;
        loop
            invariant
                j <= out@.len(),
                forall|m: int| 0 <= m < j ==> #[trigger] out@[m] <= e,
            ensures
                j <= out@.len(),
                forall|m: int| 0 <= m < j ==> #[trigger] out@[m] <= e,
                j < out@.len() ==> !(out@[j as int] <= e),
            decreases out@.len() - j,
        {
            if j == out.len() {
                break ;
            }
            if !(out[j] <= e) {
                break ;
            }
            j += 1;
        }
        let ghost pre = out@;
        out.insert(j, e);
        proof {
            let s = unsorted;
            assert(s.subrange(0, k + 1) == s.subrange(0, k as int).push(s[k as int]));
            s.subrange(0, k as int).to_multiset_ensures();
            assert(out@ == pre.insert(j as int, e));
            crate::global::lemma_insert_multiset(pre, j as int, e);
            assert forall|x: int, y: int| 0 <= x < y < out@.len() implies #[trigger] out@[x]
                <= #[trigger] out@[y] by {
                if y < j {
                    assert(out@[x] == pre[x] && out@[y] == pre[y]);
                } else if y == j {
                    assert(out@[x] == pre[x]);
                } else if x < j {
                    assert(out@[x] == pre[x] && out@[y] == pre[y - 1]);
                } else if x == j {
                    assert(out@[y] == pre[y - 1]);
                } else {
                    assert(out@[x] == pre[x - 1] && out@[y] == pre[y - 1]);
                }
            }
        }
        k += 1;
    }
    proof {
        assert(unsorted.subrange(0, unsorted.len() as int) == unsorted);
        lemma_freqs_sorted_unique(out@, spec_sort_freqs(unsorted));
    }
    out
}

/// Copy a vector of frequencies.
pub fn copy_freqs(v: &Vec<Frequency>) -> (r: Vec<Frequency>)
    ensures
        r@ == v@,
{
    let mut r: Vec<Frequency> = Vec::new();
    let mut i: usize = 0;
    proof {
        assert(r@ =~= v@.subrange(0, 0));
    }
    while i < v.len()
        invariant
            i <= v@.len(),
            r@ == v@.subrange(0, i as int),
        decreases v@.len() - i,
    {
        r.push(v[i]);
        proof {
            assert(v@.subrange(0, i + 1) == v@.subrange(0, i as int).push(v@[i as int]));
        }
        i += 1;
    }
    proof {
        assert(v@.subrange(0, v@.len() as int) == v@);
    }
    r
}

/// Greedy matching of required group sizes against present group sizes,
/// both ascending: each requirement consumes the first not-yet-consumed
/// group that is at least as large.
pub open spec fn greedy_matches(req: Seq<Frequency>, pres: Seq<Frequency>) -> bool
    decreases req.len() + pres.len(),
{
    if req.len() == 0 {
        true
    } else if pres.len() == 0 {
        false
    } else if pres[0] >= req[0] {
        greedy_matches(req.drop_first(), pres.drop_first())
    } else {
        greedy_matches(req, pres.drop_first())
    }
}

/// The score of the identical-groups scorer.
pub open spec fn spec_generic_identical(
    required: Seq<Frequency>,
    score: GroupScore,
    s: Seq<Pip>,
) -> int {
    if greedy_matches(required, spec_groups(s)) {
        match score {
            GroupScore::Total => spec_total(s),
            GroupScore::Fixed(v) => v as int,
        }
    } else {
        0
    }
}

/// Lower-section fields based on having identical pips, e.g. Three of a
/// Kind (`required = [3]`), Full House (`[2, 3]`), Yahtzee (`[5]`).
/// A larger group satisfies a smaller requirement, but each requirement
/// needs a group of its own.
pub fn generic_identical(required: Vec<Frequency>, score: GroupScore, hand: &[Pip]) -> (r: Score)
    requires
        hand@.len() <= 255,
    ensures
        r as int == spec_generic_identical(required@, score, hand@),
{
    let groups = identical(hand);
    let mut ri: usize = 0;
    let mut pi: usize = 0;
    proof {
        assert(required@.skip(0) =~= required@);
        assert(groups@.skip(0) =~= groups@);
    }
    loop
        invariant
            ri <= required@.len(),
            pi <= groups@.len(),
            greedy_matches(required@, groups@) == greedy_matches(
                required@.skip(ri as int),
                groups@.skip(pi as int),
            ),
        ensures
            greedy_matches(required@, groups@) == (ri == required@.len()),
        decreases required@.len() - ri + groups@.len() - pi,
    {
        if ri == required.len() {
            proof {
                assert(greedy_matches(required@.skip(ri as int), groups@.skip(pi as int)));
            }
            break ;
        }
        if pi == groups.len() {
            proof {
                assert(required@.skip(ri as int).len() > 0);
                assert(groups@.skip(pi as int).len() == 0);
                assert(!greedy_matches(required@.skip(ri as int), groups@.skip(pi as int)));
            }
            break ;
        }
        proof {
            let rq = required@.skip(ri as int);
            let pr = groups@.skip(pi as int);
            assert(rq[0] == required@[ri as int]);
            assert(pr[0] == groups@[pi as int]);
            assert(rq.drop_first() =~= required@.skip(ri as int + 1));
            assert(pr.drop_first() =~= groups@.skip(pi as int + 1));
        }
        if groups[pi] >= required[ri] {
            ri += 1;
        }
        pi += 1;
    }
    if ri == required.len() {
        match score {
            GroupScore::Total => total(hand),
            GroupScore::Fixed(v) => v,
        }
    } else {
        0
    }
}

/// The position where the scan of a run of consecutive pips stops, and the
/// number of distinct consecutive values seen, starting at index `i` with
/// the run `base, base+1, ..., base+count-1` already seen.
pub open spec fn scan_run(s: Seq<Pip>, i: int, base: int, count: int) -> (int, int)
    recommends
        0 <= i <= s.len(),
    decreases s.len() - i,
{
    if i < 0 || i >= s.len() {
        (i, count)
    } else if s[i] as int <= base + count {
        if s[i] as int == base + count {
            scan_run(s, i + 1, base, count + 1)
        } else {
            scan_run(s, i + 1, base, count)
        }
    } else {
        (i, count)
    }
}

pub proof fn lemma_scan_run_bounds(s: Seq<Pip>, i: int, base: int, count: int)
    requires
        0 <= i <= s.len(),
    ensures
        i <= scan_run(s, i, base, count).0 <= s.len(),
        scan_run(s, i, base, count).1 >= count,
    decreases s.len() - i,
{
    if i < s.len() && s[i] as int <= base + count {
        if s[i] as int == base + count {
            lemma_scan_run_bounds(s, i + 1, base, count + 1);
        } else {
            lemma_scan_run_bounds(s, i + 1, base, count);
        }
    }
}

/// Whether the hand, from index `i` on, contains a straight of at least
/// `length` consecutive distinct pips (duplicates do not break a run).
pub open spec fn spec_has_straight_from(s: Seq<Pip>, i: int, length: int) -> bool
    recommends
        0 <= i <= s.len(),
    decreases s.len() - i,
    when 0 <= i <= s.len()
    via spec_has_straight_from_decreases
{
    if i >= s.len() {
        false
    } else {
        let r = scan_run(s, i + 1, s[i] as int, 1);
        r.1 >= length || spec_has_straight_from(s, r.0, length)
    }
}

#[via_fn]
proof fn spec_has_straight_from_decreases(s: Seq<Pip>, i: int, length: int) {
    if i < s.len() {
        lemma_scan_run_bounds(s, i + 1, s[i] as int, 1);
    }
}

/// Whether the hand contains a straight of at least `length`.
pub open spec fn spec_has_straight(s: Seq<Pip>, length: int) -> bool {
    spec_has_straight_from(s, 0, length)
}

/// Lower-section straights: the hand must contain a run of at least
/// `length` consecutive ascending distinct pips, duplicates skipped.
/// Pays `score` if so, else 0.
pub fn generic_straight(length: Frequency, score: Score, hand: &[Pip]) -> (r: Score)
    requires
        hand@.len() <= 255,
    ensures
        r == if spec_has_straight(hand@, length as int) {
            score
        } else {
            0u16
        },
{
    let ghost s = hand@;
    let mut i: usize = 0;
    while i < hand.len()
        invariant
            s == hand@,
            0 <= i <= s.len(),
            s.len() <= 255,
            spec_has_straight(s, length as int) == spec_has_straight_from(
                s,
                i as int,
                length as int,
            ),
        decreases s.len() - i,
    {
        let base: u32 = hand[i] as u32;
        let mut count: u32 = 1;
        let mut j: usize = i + 1;
        loop
            invariant
                s == hand@,
                i < s.len(),
                base == s[i as int] as u32,
                i as int + 1 <= j as int <= s.len(),
                1 <= count <= j,
                s.len() <= 255,
                scan_run(s, i as int + 1, base as int, 1) == scan_run(
                    s,
                    j as int,
                    base as int,
                    count as int,
                ),
            ensures
                i as int + 1 <= j as int <= s.len(),
                count <= 255,
                scan_run(s, i as int + 1, base as int, 1) == (j as int, count as int),
            decreases s.len() - j,
        {
            if j == hand.len() {
                break ;
            }
            let p = hand[j] as u32;
            if p <= base + count {
                if p == base + count {
                    count += 1;
                }
                j += 1;
            } else {
                break ;
            }
        }
        if count >= length as u32 {
            return score;
        }
        proof {
            lemma_scan_run_bounds(s, i as int + 1, base as int, 1);
        }
        i = j;
    }
    0
}

} // verus!
