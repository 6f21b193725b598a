//! Global types and constants shared by the whole engine.

use vstd::prelude::*;

verus! {

/// Number on a die (1-6 for d6).
pub type Pip = u8;
/// Die with minimum and maximum, e.g. (1, 6) for d6.
pub type Die = (Pip, Pip);
/// Absolute frequency of a pip in a hand or of a die in the dice rules.
pub type Frequency = u8;
/// Score on the card, both individual hands and end results.
pub type Score = u16;
/// Reroll chip count.
pub type Chips = u8;
/// Rerolls left in a turn (negative values track a chip-funded extra reroll).
pub type Rerolls = i8;
/// Section index in the scorecard (upper or lower).
pub type Section = usize;
/// Field index within a section.
pub type Field = usize;

/// The regular six-sided die.
pub const D6: Die = (1, 6);
/// The ten-sided die of the Extreme variant, showing 0 through 9.
pub const D10: Die = (0, 9);

/// Permitted rerolls per turn.
pub const REROLLS: i8 = 2;
/// Index of the upper section.
pub const US: usize = 0;
/// Index of the lower section.
pub const LS: usize = 1;
/// Size of a Yahtzee (five equal dice).
pub const YAHTZEE_SIZE: Frequency = 5;
/// Index of the Yahtzee field in the lower section (zero-indexed).
pub const YAHTZEE_INDEX: usize = 5;

/// Score of a Full House.
pub const FULL_HOUSE_SCORE: Score = 25;
/// Score of a Small Straight.
pub const SMALL_STRAIGHT_SCORE: Score = 30;
/// Score of a Large Straight.
pub const LARGE_STRAIGHT_SCORE: Score = 40;
/// Score of a Yahtzee.
pub const YAHTZEE_SCORE: Score = 50;

/// The errors the engine surfaces.
#[derive(Clone, Copy, Debug, PartialEq, Eq, Structural)]
pub enum EngineError {
    /// A hand was handed to the probability enumerator that holds dice the
    /// rules do not roll.
    MismatchHandRules,
    /// An observed hand does not fit the dice multiset of the rules.
    HandShapeMismatch,
    /// A persisted cache was produced by an incompatible version.
    CacheVersionMismatch,
    /// A persisted cache could not be decoded.
    CacheDeserializeError,
    /// The named game is not known.
    UnknownGame,
}

/// Combination of dice in play: each entry is a die kind with the number of
/// copies rolled, e.g. `((1, 6), 5)` for the five d6 of regular Yahtzee.
#[derive(Clone, Debug, PartialEq)]
pub struct Dice(pub Vec<(Die, Frequency)>);

/// Partial hand: the dice currently kept or rolled, each with its pip.
/// Canonical form (sorted by die kind, then pip) is mandatory wherever a
/// hand is used as a cache key.
#[derive(Clone, Debug, PartialEq, Eq, Hash)]
pub struct PartialHand(pub Vec<(Die, Pip)>);

/// Lexicographic order on hand entries: first by die kind, then by pip.
pub open spec fn entry_le(a: (Die, Pip), b: (Die, Pip)) -> bool {
    let ((amin, amax), ap) = a;
    let ((bmin, bmax), bp) = b;
    if amin != bmin {
        amin < bmin
    } else if amax != bmax {
        amax < bmax
    } else {
        ap <= bp
    }
}

/// A hand is in canonical order when its entries ascend under `entry_le`.
pub open spec fn hand_sorted(s: Seq<(Die, Pip)>) -> bool {
    forall|x: int, y: int| 0 <= x < y < s.len() ==> entry_le(#[trigger] s[x], #[trigger] s[y])
}

/// The canonical (sorted) form of a hand.
pub open spec fn spec_canon(s: Seq<(Die, Pip)>) -> Seq<(Die, Pip)> {
    s.sort_by(|a: (Die, Pip), b: (Die, Pip)| entry_le(a, b))
}

/// Sortedness and contents of the canonical form.
pub proof fn lemma_canon_ensures(s: Seq<(Die, Pip)>)
    ensures
        spec_canon(s).to_multiset() == s.to_multiset(),
        hand_sorted(spec_canon(s)),
        spec_canon(s).len() == s.len(),
{
    let leq = |a: (Die, Pip), b: (Die, Pip)| entry_le(a, b);
    s.lemma_sort_by_ensures(leq);
    s.to_multiset_ensures();
    spec_canon(s).to_multiset_ensures();
    let c = spec_canon(s);
    assert forall|x: int, y: int| 0 <= x < y < c.len() implies entry_le(
        #[trigger] c[x],
        #[trigger] c[y],
    ) by {
        assert(leq(c[x], c[y]));
    }
}

/// Two hands in canonical order with the same dice are the same sequence.
pub proof fn lemma_hand_sorted_unique(a: Seq<(Die, Pip)>, b: Seq<(Die, Pip)>)
    requires
        hand_sorted(a),
        hand_sorted(b),
        a.to_multiset() == b.to_multiset(),
    ensures
        a == b,
    decreases a.len(),
{
    a.to_multiset_ensures();
    b.to_multiset_ensures();
    if a.len() == 0 {
        assert(a =~= b);
    } else {
        assert(a.contains(a[0]));
        assert(a.to_multiset().count(a[0]) > 0);
        assert(b.to_multiset().count(a[0]) > 0);
        assert(b.contains(a[0]));
        assert(b.contains(b[0]));
        assert(b.to_multiset().count(b[0]) > 0);
        assert(a.to_multiset().count(b[0]) > 0);
        assert(a.contains(b[0]));
        let i = choose|i: int| 0 <= i < a.len() && a[i] == b[0];
        let j = choose|j: int| 0 <= j < b.len() && b[j] == a[0];
        assert(entry_le(a[0], a[i]));
        assert(entry_le(b[0], b[j]));
        assert(a[0] == b[0]);
        let ar = a.remove(0);
        let br = b.remove(0);
        assert(ar.to_multiset() == br.to_multiset());
        assert forall|x: int, y: int| 0 <= x < y < ar.len() implies entry_le(
            #[trigger] ar[x],
            #[trigger] ar[y],
        ) by {
            assert(ar[x] == a[x + 1] && ar[y] == a[y + 1]);
        }
        assert forall|x: int, y: int| 0 <= x < y < br.len() implies entry_le(
            #[trigger] br[x],
            #[trigger] br[y],
        ) by {
            assert(br[x] == b[x + 1] && br[y] == b[y + 1]);
        }
        lemma_hand_sorted_unique(ar, br);
        assert forall|k: int| 0 <= k < a.len() implies a[k] == b[k] by {
            if k > 0 {
                assert(a[k] == ar[k - 1] && b[k] == br[k - 1]);
            }
        }
        assert(a =~= b);
    }
}

/// Canonicalization is idempotent: a canonical hand is its own canonical form.
pub proof fn lemma_canon_idempotent(s: Seq<(Die, Pip)>)
    ensures
        spec_canon(spec_canon(s)) == spec_canon(s),
{
    lemma_canon_ensures(s);
    lemma_canon_ensures(spec_canon(s));
    lemma_hand_sorted_unique(spec_canon(spec_canon(s)), spec_canon(s));
}

/// The number of dice the rules roll, as a machine integer.
pub fn dice_total(dice: &Dice) -> (r: u64)
    requires
        sum_freq(dice.0@) <= 0xFFFF,
    ensures
        r as int == sum_freq(dice.0@),
{
    let mut total: u128 = 0;
    let mut i: usize = 0;
    proof {
        assert(dice.0@.subrange(0, 0) =~= Seq::<(Die, Frequency)>::empty());
    }
    while i < dice.0.len()
        invariant
            i <= dice.0@.len(),
            total == sum_freq(dice.0@.subrange(0, i as int)),
            total <= 255 * i,
        decreases dice.0@.len() - i,
    {
        let (_die, freq) = dice.0[i];
        proof {
            let s = dice.0@;
            assert(s.subrange(0, i + 1).drop_last() == s.subrange(0, i as int));
            assert(s.subrange(0, i + 1).last() == s[i as int]);
        }
        total += freq as u128;
        i += 1;
    }
    proof {
        assert(dice.0@.subrange(0, dice.0@.len() as int) == dice.0@);
    }
    total as u64
}

impl PartialHand {
    /// Return the canonical form: same dice, sorted by die kind, then pip.
    pub fn canonicalized(&self) -> (r: PartialHand)
        ensures
            r.0@ == spec_canon(self.0@),
    {
        let mut out: Vec<(Die, Pip)> = Vec::new();
        let mut i: usize = 0;
        proof {
            lemma_canon_ensures(self.0@);
            assert(out@ =~= self.0@.subrange(0, 0));
        }
        while i < self.0.len()
            invariant
                i <= self.0@.len(),
                out@.to_multiset() == self.0@.subrange(0, i as int).to_multiset(),
                hand_sorted(out@),
            decreases self.0@.len() - i,
        {
            let e = self.0[i];
            // find the insertion point
            let mut j: usize = 0;
            loop
                invariant
                    j <= out@.len(),
                    forall|k: int| 0 <= k < j ==> entry_le(#[trigger] out@[k], e),
                ensures
                    j <= out@.len(),
                    forall|k: int| 0 <= k < j ==> entry_le(#[trigger] out@[k], e),
                    j < out@.len() ==> !entry_le(out@[j as int], e),
                decreases out@.len() - j,
            {
                if j == out.len() {
                    break ;
                }
                if !entry_le_exec(out[j], e) {
                    break ;
                }
                j += 1;
            }
            let ghost pre = out@;
            out.insert(j, e);
            proof {
                let s = self.0@;
                assert(s.subrange(0, i + 1) == s.subrange(0, i as int).push(s[i as int]));
                s.subrange(0, i as int).to_multiset_ensures();
                assert(out@ == pre.insert(j as int, e));
                lemma_insert_multiset(pre, j as int, e);
                lemma_insert_sorted(pre, j as int, e);
                assert(out@.to_multiset() == s.subrange(0, i + 1).to_multiset());
            }
            i += 1;
        }
        proof {
            assert(self.0@.subrange(0, self.0@.len() as int) == self.0@);
            lemma_hand_sorted_unique(out@, spec_canon(self.0@));
        }
        PartialHand(out)
    }
}

/// How often die kind `d` occurs in the hand `s`.
pub open spec fn count_die(s: Seq<(Die, Pip)>, d: Die) -> int
    decreases s.len(),
{
    if s.len() == 0 {
        0
    } else {
        count_die(s.drop_last(), d) + if s.last().0 == d {
            1int
        } else {
            0int
        }
    }
}

pub proof fn lemma_count_die_bounds(s: Seq<(Die, Pip)>, d: Die)
    ensures
        0 <= count_die(s, d) <= s.len(),
    decreases s.len(),
{
    if s.len() > 0 {
        lemma_count_die_bounds(s.drop_last(), d);
    }
}

/// Whether `s` is a full hand for the dice rules `dice`: each die kind
/// occurs exactly as often as the rules demand.
pub open spec fn spec_is_full_hand(s: Seq<(Die, Pip)>, dice: Seq<(Die, Frequency)>) -> bool {
    forall|i: int|
        0 <= i < dice.len() ==> count_die(s, (#[trigger] dice[i]).0) == dice[i].1 as int
}

/// Total number of dice the rules roll.
pub open spec fn sum_freq(dice: Seq<(Die, Frequency)>) -> int
    decreases dice.len(),
{
    if dice.len() == 0 {
        0
    } else {
        sum_freq(dice.drop_last()) + dice.last().1 as int
    }
}

/// The compact encoding of one hand entry: `min,max,pip`.
pub open spec fn spec_compact_entry(e: (Die, Pip)) -> Seq<char> {
    let ((min, max), pip) = e;
    crate::text::spec_dec(min as int) + seq![','] + crate::text::spec_dec(max as int) + seq![',']
        + crate::text::spec_dec(pip as int)
}

/// The compact encoding of a hand: entries joined by commas, empty for the
/// empty hand.
pub open spec fn spec_compact_hand(s: Seq<(Die, Pip)>) -> Seq<char>
    decreases s.len(),
{
    if s.len() == 0 {
        Seq::<char>::empty()
    } else if s.len() == 1 {
        spec_compact_entry(s[0])
    } else {
        spec_compact_hand(s.drop_last()) + seq![','] + spec_compact_entry(s.last())
    }
}

impl PartialHand {
    /// Compact format for cache keys: `min,max,pip` per die, joined by commas.
    pub fn compact_fmt(&self) -> (r: String)
        ensures
            r@ == spec_compact_hand(self.0@),
    {
        let mut out = String::new();
        let mut i: usize = 0;
        proof {
            assert(self.0@.subrange(0, 0) =~= Seq::<(Die, Pip)>::empty());
        }
        while i < self.0.len()
            invariant
                i <= self.0@.len(),
                out@ == spec_compact_hand(self.0@.subrange(0, i as int)),
            decreases self.0@.len() - i,
        {
            let ghost pre = out@;
            if i > 0 {
                crate::text::push_comma(&mut out);
            }
            let ((min, max), pip) = self.0[i];
            crate::text::push_u64(&mut out, min as u64);
            crate::text::push_comma(&mut out);
            crate::text::push_u64(&mut out, max as u64);
            crate::text::push_comma(&mut out);
            crate::text::push_u64(&mut out, pip as u64);
            proof {
                let s = self.0@;
                let cur = s.subrange(0, i + 1);
                assert(cur.drop_last() == s.subrange(0, i as int));
                assert(cur.last() == s[i as int]);
                if i == 0 {
                    assert(out@ =~= spec_compact_entry(s[0]));
                    assert(cur.len() == 1);
                    assert(cur[0] == s[0]);
                } else {
                    assert(out@ =~= spec_compact_hand(s.subrange(0, i as int)) + seq![',']
                        + spec_compact_entry(s[i as int]));
                }
            }
            i += 1;
        }
        proof {
            assert(self.0@.subrange(0, self.0@.len() as int) == self.0@);
        }
        out
    }

    /// Decide whether this is a full hand according to rules `dice`.
    pub fn is_full_hand(&self, dice: &Dice) -> (r: bool)
        ensures
            r == spec_is_full_hand(self.0@, dice.0@),
    {
        let mut i: usize = 0;
        while i < dice.0.len()
            invariant
                i <= dice.0@.len(),
                forall|k: int|
                    0 <= k < i ==> count_die(self.0@, (#[trigger] dice.0@[k]).0) == dice.0@[k].1 as int,
            decreases dice.0@.len() - i,
        {
            let (rules_die, freq) = dice.0[i];
            let cnt = self.count_of_die(rules_die);
            if cnt != freq as usize {
                return false;
            }
            i += 1;
        }
        true
    }

    /// Count the dice of kind `d` in this hand.
    pub fn count_of_die(&self, d: Die) -> (r: usize)
        ensures
            r == count_die(self.0@, d),
    {
        let mut cnt: usize = 0;
        let mut j: usize = 0;
        proof {
            assert(self.0@.subrange(0, 0) =~= Seq::<(Die, Pip)>::empty());
        }
        while j < self.0.len()
            invariant
                j <= self.0@.len(),
                cnt <= j,
                cnt == count_die(self.0@.subrange(0, j as int), d),
            decreases self.0@.len() - j,
        {
            let (hand_die, _pip) = self.0[j];
            proof {
                let s = self.0@;
                assert(s.subrange(0, j + 1).drop_last() == s.subrange(0, j as int));
                assert(s.subrange(0, j + 1).last() == s[j as int]);
            }
            if hand_die.0 == d.0 && hand_die.1 == d.1 {
                cnt += 1;
            }
            j += 1;
        }
        proof {
            assert(self.0@.subrange(0, self.0@.len() as int) == self.0@);
        }
        cnt
    }

    /// Decide whether this has the length of a full hand according to rules
    /// `dice`.
    pub fn has_full_hand_length(&self, dice: &Dice) -> (r: bool)
        ensures
            r == (self.0@.len() == sum_freq(dice.0@)),
    {
        let mut total: u128 = 0;
        let mut i: usize = 0;
        proof {
            assert(dice.0@.subrange(0, 0) =~= Seq::<(Die, Frequency)>::empty());
        }
        while i < dice.0.len()
            invariant
                i <= dice.0@.len(),
                total == sum_freq(dice.0@.subrange(0, i as int)),
                total <= 255 * i,
            decreases dice.0@.len() - i,
        {
            let (_die, freq) = dice.0[i];
            proof {
                let s = dice.0@;
                assert(s.subrange(0, i + 1).drop_last() == s.subrange(0, i as int));
                assert(s.subrange(0, i + 1).last() == s[i as int]);
            }
            total += freq as u128;
            i += 1;
        }
        proof {
            assert(dice.0@.subrange(0, dice.0@.len() as int) == dice.0@);
        }
        self.0.len() as u128 == total
    }
}

/// Executable comparison matching `entry_le`.
pub fn entry_le_exec(a: (Die, Pip), b: (Die, Pip)) -> (r: bool)
    ensures
        r == entry_le(a, b),
{
    let ((amin, amax), ap) = a;
    let ((bmin, bmax), bp) = b;
    if amin != bmin {
        amin < bmin
    } else if amax != bmax {
        amax < bmax
    } else {
        ap <= bp
    }
}

/// Inserting into a sequence inserts into its multiset.
pub proof fn lemma_insert_multiset<T>(s: Seq<T>, j: int, e: T)
    requires
        0 <= j <= s.len(),
    ensures
        s.insert(j, e).to_multiset() == s.to_multiset().insert(e),
{
    let left = s.subrange(0, j);
    let right = s.subrange(j, s.len() as int);
    assert(s.insert(j, e) =~= left.push(e) + right);
    vstd::seq_lib::lemma_multiset_commutative(left.push(e), right);
    left.to_multiset_ensures();
    vstd::seq_lib::lemma_multiset_commutative(left, right);
    assert(left + right =~= s);
    assert(left.to_multiset().insert(e).add(right.to_multiset()) =~= left.to_multiset().add(
        right.to_multiset(),
    ).insert(e));
}

proof fn lemma_insert_sorted(s: Seq<(Die, Pip)>, j: int, e: (Die, Pip))
    requires
        0 <= j <= s.len(),
        hand_sorted(s),
        forall|k: int| 0 <= k < j ==> entry_le(#[trigger] s[k], e),
        j < s.len() ==> !entry_le(s[j], e),
    ensures
        hand_sorted(s.insert(j, e)),
{
    let t = s.insert(j, e);
    assert forall|x: int, y: int| 0 <= x < y < t.len() implies entry_le(
        #[trigger] t[x],
        #[trigger] t[y],
    ) by {
        if x < j && y < j {
            assert(t[x] == s[x] && t[y] == s[y]);
        } else if x < j && y == j {
            assert(t[x] == s[x]);
        } else if x < j && y > j {
            assert(t[x] == s[x] && t[y] == s[y - 1]);
        } else if x == j && y > j {
            assert(t[y] == s[y - 1]);
            assert(!entry_le(s[j], e));
            assert(entry_le(e, s[j]));
            assert(entry_le(s[j], s[y - 1]) || j == y - 1);
        } else {
            assert(t[x] == s[x - 1] && t[y] == s[y - 1]);
        }
    }
}

} // verus!
