//! Populating the caches ahead of play.  Reading and writing cache files
//! is the host's business; the engine only computes and hands over the
//! cache value.

use vstd::prelude::*;
use crate::global::PartialHand;
use crate::rules;
use crate::strategy::{self, Caches};
use crate::yahtzee_bonus_rules as bonus;

verus! {

/// Play one opening move under the given variant, so that the transitive
/// recursion populates every reachable cache key for it.
fn warm_up_variant(caches: &mut Caches, extreme: bool, yahtzee_bonus: bonus::Rules)
    requires
        old(caches).wf(),
        extreme ==> yahtzee_bonus.policy == bonus::Policy::NoBonus,
        yahtzee_bonus.policy matches bonus::Policy::Constant(s, b) ==> s as int + b as int
            <= rules::POLICY_CAP as int,
        forall|c: char|
            #[trigger] old(caches).rules_seen@.contains_key(c) ==> c != (if extreme {
                'f'
            } else {
                yahtzee_bonus.short_name
            }),
        forall|c: char|
            #[trigger] old(caches).dice_seen@.contains_key(c) ==> c == 'a'
                && old(caches).dice_seen@[c] == seq![((1u8, 6u8), 5u8)],
        !extreme,
    ensures
        final(caches).wf(),
        forall|c: char|
            #[trigger] final(caches).rules_seen@.contains_key(c)
                ==> (old(caches).rules_seen@.contains_key(c) || c == yahtzee_bonus.short_name),
        forall|c: char|
            #[trigger] final(caches).dice_seen@.contains_key(c) ==> c == 'a'
                && final(caches).dice_seen@[c] == seq![((1u8, 6u8), 5u8)],
        strategy::caches_grow(*old(caches), *final(caches)),
        strategy::has_opening(
            *final(caches),
            yahtzee_bonus.short_name,
            strategy::spec_build_model(false, yahtzee_bonus.policy),
        ),
{
    let game_rules = rules::build_rules(false, yahtzee_bonus);
    let state = strategy::State::new_from_rules(&game_rules);
    let hand = PartialHand(Vec::new());
    proof {
        strategy::lemma_rules_model_wf(game_rules);
        assert(hand.0@ =~= Seq::<(crate::global::Die, crate::global::Pip)>::empty());
        assert forall|i: int|
            0 <= i < game_rules.dice.dice.0@.len() implies crate::global::count_die(
            hand.0@,
            (#[trigger] game_rules.dice.dice.0@[i]).0,
        ) <= game_rules.dice.dice.0@[i].1 as int by {
            assert(crate::global::count_die(hand.0@, game_rules.dice.dice.0@[i].0) == 0);
        }
        let sm = state.model();
        crate::strategy::lemma_count_true_le(sm.used0);
        crate::strategy::lemma_count_true_le(sm.used1);
        strategy::lemma_count_false(sm.used0);
        strategy::lemma_count_false(sm.used1);
        assert(sm.used0.len() + sm.used1.len() >= 1);
        assert(strategy::sm_unused(sm) >= 1);
        assert(caches.compat(game_rules));
    }
    proof {
        strategy::lemma_built_model(game_rules, false);
        assert(state.model() == strategy::initial_state_model(strategy::rules_model(game_rules)))
            by {
            let im = strategy::initial_state_model(strategy::rules_model(game_rules));
            assert(state.model().used0 =~= im.used0);
            assert(state.model().used1 =~= im.used1);
        }
    }
    let _ = strategy::choose_reroll(caches, &state, &hand, crate::global::REROLLS, &game_rules);
    proof {
        assert forall|c: char| caches.dice_seen@.contains_key(c) implies c == 'a'
            && caches.dice_seen@[c] == seq![((1u8, 6u8), 5u8)] by {
            assert((old(caches).dice_seen@.contains_key(c) && old(caches).dice_seen@[c]
                == caches.dice_seen@[c]) || (c == game_rules.dice.short_name
                && caches.dice_seen@[c] == game_rules.dice.dice.0@));
        }
        let bm = strategy::spec_build_model(false, yahtzee_bonus.policy);
        let k = choose|k: int|
            strategy::reroll_entry_at(
                *caches,
                k,
                state.model(),
                hand.0@,
                crate::global::REROLLS as int,
                game_rules.short_name,
            );
        assert(caches.rules_seen@.contains_key(game_rules.short_name)
            && caches.rules_seen@[game_rules.short_name] == strategy::rules_model(game_rules))
            by {
            let (st, h, rr, sn, v) = caches.reroll@[k];
            assert(caches.rules_seen@.contains_key(sn));
            assert(caches.rules_seen@[sn] == strategy::rules_model(game_rules));
        }
        assert(strategy::reroll_entry_at(
            *caches,
            k,
            strategy::initial_state_model(bm),
            Seq::<(crate::global::Die, crate::global::Pip)>::empty(),
            crate::global::REROLLS as int,
            yahtzee_bonus.short_name,
        ));
    }
}

/// Populate the caches by playing one opening move under every published
/// variant, the Extreme variant included; the transitive recursion then
/// covers every reachable key.
pub fn warm_up_caches(caches: &mut Caches)
    requires
        old(caches).wf(),
        old(caches).rules_seen@ =~= Map::<char, strategy::RulesModel>::empty(),
        old(caches).dice_seen@ =~= Map::<char, Seq<((u8, u8), u8)>>::empty(),
    ensures
        final(caches).wf(),
        strategy::has_opening(
            *final(caches),
            'a',
            strategy::spec_build_model(false, bonus::Policy::ForcedJoker),
        ),
        strategy::has_opening(
            *final(caches),
            'b',
            strategy::spec_build_model(false, bonus::Policy::FreeJoker),
        ),
        strategy::has_opening(
            *final(caches),
            'c',
            strategy::spec_build_model(false, bonus::Policy::Original),
        ),
        strategy::has_opening(
            *final(caches),
            'd',
            strategy::spec_build_model(false, bonus::Policy::Kniffel),
        ),
        strategy::has_opening(
            *final(caches),
            'e',
            strategy::spec_build_model(false, bonus::Policy::NoBonus),
        ),
        strategy::has_opening(
            *final(caches),
            'f',
            strategy::spec_build_model(true, bonus::Policy::NoBonus),
        ),
{
    warm_up_variant(caches, false, bonus::forced_joker());
    let ghost g1 = *caches;
    proof {
        assert(forall|c: char|
            caches.dice_seen@.contains_key(c) ==> c == 'a' && #[trigger] caches.dice_seen@[c]
                == seq![((1u8, 6u8), 5u8)]);
    }
    warm_up_variant(caches, false, bonus::free_joker());
    let ghost g2 = *caches;
    proof {
        assert(forall|c: char|
            caches.dice_seen@.contains_key(c) ==> c == 'a' && #[trigger] caches.dice_seen@[c]
                == seq![((1u8, 6u8), 5u8)]);
        strategy::lemma_grow_opening(
            g1,
            g2,
            'a',
            strategy::spec_build_model(false, bonus::Policy::ForcedJoker),
        );
    }
    warm_up_variant(caches, false, bonus::original());
    let ghost g3 = *caches;
    proof {
        assert(forall|c: char|
            caches.dice_seen@.contains_key(c) ==> c == 'a' && #[trigger] caches.dice_seen@[c]
                == seq![((1u8, 6u8), 5u8)]);
        strategy::lemma_grow_opening(
            g2,
            g3,
            'a',
            strategy::spec_build_model(false, bonus::Policy::ForcedJoker),
        );
        strategy::lemma_grow_opening(
            g2,
            g3,
            'b',
            strategy::spec_build_model(false, bonus::Policy::FreeJoker),
        );
    }
    warm_up_variant(caches, false, bonus::kniffel());
    let ghost g4 = *caches;
    proof {
        assert(forall|c: char|
            caches.dice_seen@.contains_key(c) ==> c == 'a' && #[trigger] caches.dice_seen@[c]
                == seq![((1u8, 6u8), 5u8)]);
        strategy::lemma_grow_opening(
            g3,
            g4,
            'a',
            strategy::spec_build_model(false, bonus::Policy::ForcedJoker),
        );
        strategy::lemma_grow_opening(
            g3,
            g4,
            'b',
            strategy::spec_build_model(false, bonus::Policy::FreeJoker),
        );
        strategy::lemma_grow_opening(
            g3,
            g4,
            'c',
            strategy::spec_build_model(false, bonus::Policy::Original),
        );
    }
    warm_up_variant(caches, false, bonus::no_bonus());
    let ghost g5 = *caches;
    proof {
        strategy::lemma_grow_opening(
            g4,
            g5,
            'a',
            strategy::spec_build_model(false, bonus::Policy::ForcedJoker),
        );
        strategy::lemma_grow_opening(
            g4,
            g5,
            'b',
            strategy::spec_build_model(false, bonus::Policy::FreeJoker),
        );
        strategy::lemma_grow_opening(
            g4,
            g5,
            'c',
            strategy::spec_build_model(false, bonus::Policy::Original),
        );
        strategy::lemma_grow_opening(
            g4,
            g5,
            'd',
            strategy::spec_build_model(false, bonus::Policy::Kniffel),
        );
    }
    // the Extreme variant rolls its own dice and rules short names
    let game_rules = rules::build_rules(true, bonus::no_bonus());
    let state = strategy::State::new_from_rules(&game_rules);
    let hand = PartialHand(Vec::new());
    proof {
        strategy::lemma_rules_model_wf(game_rules);
        assert(hand.0@ =~= Seq::<(crate::global::Die, crate::global::Pip)>::empty());
        assert forall|i: int|
            0 <= i < game_rules.dice.dice.0@.len() implies crate::global::count_die(
            hand.0@,
            (#[trigger] game_rules.dice.dice.0@[i]).0,
        ) <= game_rules.dice.dice.0@[i].1 as int by {
            assert(crate::global::count_die(hand.0@, game_rules.dice.dice.0@[i].0) == 0);
        }
        let sm = state.model();
        crate::strategy::lemma_count_true_le(sm.used0);
        crate::strategy::lemma_count_true_le(sm.used1);
        strategy::lemma_count_false(sm.used0);
        strategy::lemma_count_false(sm.used1);
        assert(strategy::sm_unused(sm) >= 1);
        assert(caches.compat(game_rules));
    }
    proof {
        strategy::lemma_built_model(game_rules, true);
        assert(state.model() == strategy::initial_state_model(strategy::rules_model(game_rules)))
            by {
            let im = strategy::initial_state_model(strategy::rules_model(game_rules));
            assert(state.model().used0 =~= im.used0);
            assert(state.model().used1 =~= im.used1);
        }
    }
    let _ = strategy::choose_reroll(caches, &state, &hand, crate::global::REROLLS, &game_rules);
    proof {
        let g6 = *caches;
        strategy::lemma_grow_opening(
            g5,
            g6,
            'a',
            strategy::spec_build_model(false, bonus::Policy::ForcedJoker),
        );
        strategy::lemma_grow_opening(
            g5,
            g6,
            'b',
            strategy::spec_build_model(false, bonus::Policy::FreeJoker),
        );
        strategy::lemma_grow_opening(
            g5,
            g6,
            'c',
            strategy::spec_build_model(false, bonus::Policy::Original),
        );
        strategy::lemma_grow_opening(
            g5,
            g6,
            'd',
            strategy::spec_build_model(false, bonus::Policy::Kniffel),
        );
        strategy::lemma_grow_opening(
            g5,
            g6,
            'e',
            strategy::spec_build_model(false, bonus::Policy::NoBonus),
        );
        let bm = strategy::spec_build_model(true, bonus::Policy::NoBonus);
        let k = choose|k: int|
            strategy::reroll_entry_at(
                *caches,
                k,
                state.model(),
                hand.0@,
                crate::global::REROLLS as int,
                game_rules.short_name,
            );
        assert(caches.rules_seen@.contains_key('f') && caches.rules_seen@['f']
            == strategy::rules_model(game_rules)) by {
            let (st, h, rr, sn, v) = caches.reroll@[k];
            assert(caches.rules_seen@.contains_key(sn));
            assert(caches.rules_seen@[sn] == strategy::rules_model(game_rules));
        }
        assert(strategy::reroll_entry_at(
            *caches,
            k,
            strategy::initial_state_model(bm),
            Seq::<(crate::global::Die, crate::global::Pip)>::empty(),
            crate::global::REROLLS as int,
            'f',
        ));
    }
}

/// Compute a fully warmed-up cache for every variant, ready to be
/// serialized by the host: for each of the six variants, the opening
/// recommendation is present, and with it every key its computation
/// reached.
pub fn pre_cache() -> (r: Caches)
    ensures
        r.wf(),
        strategy::has_opening(r, 'a', strategy::spec_build_model(false, bonus::Policy::ForcedJoker)),
        strategy::has_opening(r, 'b', strategy::spec_build_model(false, bonus::Policy::FreeJoker)),
        strategy::has_opening(r, 'c', strategy::spec_build_model(false, bonus::Policy::Original)),
        strategy::has_opening(r, 'd', strategy::spec_build_model(false, bonus::Policy::Kniffel)),
        strategy::has_opening(r, 'e', strategy::spec_build_model(false, bonus::Policy::NoBonus)),
        strategy::has_opening(r, 'f', strategy::spec_build_model(true, bonus::Policy::NoBonus)),
{
    let mut caches = Caches::new();
    warm_up_caches(&mut caches);
    caches
}

/// The end of a dotted version component: the first `.` at or after `i`.
pub open spec fn dot_end(s: Seq<char>, i: int) -> int
    decreases s.len() - i,
    when 0 <= i <= s.len()
{
    if i >= s.len() {
        i
    } else if s[i] == '.' {
        i
    } else {
        dot_end(s, i + 1)
    }
}

proof fn lemma_dot_end(s: Seq<char>, i: int)
    requires
        0 <= i <= s.len(),
    ensures
        i <= dot_end(s, i) <= s.len(),
        forall|k: int| i <= k < dot_end(s, i) ==> s[k] != '.',
        dot_end(s, i) < s.len() ==> s[dot_end(s, i)] == '.',
    decreases s.len() - i,
{
    if i < s.len() && s[i] != '.' {
        lemma_dot_end(s, i + 1);
    }
}

proof fn lemma_dot_end_stops(s: Seq<char>, from: int, at: int)
    requires
        0 <= from <= at <= s.len(),
        forall|k: int| from <= k < at ==> s[k] != '.',
        at == s.len() || s[at] == '.',
    ensures
        dot_end(s, from) == at,
    decreases at - from,
{
    if from < at {
        lemma_dot_end_stops(s, from + 1, at);
    }
}

/// One numeric version component: nonempty, digits only, within `u32`.
pub open spec fn spec_component(s: Seq<char>, i: int, end: int) -> Option<int> {
    if i < end && crate::repl::all_digits(s, i, end) && crate::repl::num_from(s, i, end, 0)
        <= 0xFFFFFFFF {
        Some(crate::repl::num_from(s, i, end, 0))
    } else {
        None
    }
}

/// The major, minor and patch numbers of a `major.minor.patch` version.
pub open spec fn spec_parse_version(s: Seq<char>) -> Option<(int, int, int)> {
    let d1 = dot_end(s, 0);
    if d1 >= s.len() {
        None
    } else {
        let d2 = dot_end(s, d1 + 1);
        if d2 >= s.len() {
            None
        } else {
            match (
                spec_component(s, 0, d1),
                spec_component(s, d1 + 1, d2),
                spec_component(s, d2 + 1, s.len() as int),
            ) {
                (Some(a), Some(b), Some(c)) => Some((a, b, c)),
                _ => None,
            }
        }
    }
}

/// Scan one numeric component of `s`, from `i` to the next dot or the end.
fn scan_component(input: &str, i: usize, n: usize) -> (r: Option<(u32, usize)>)
    requires
        i <= n,
        n == input@.len(),
    ensures
        ({
            let end = dot_end(input@, i as int);
            match r {
                Some((v, e)) => i <= e <= n && e as int == end && spec_component(
                    input@,
                    i as int,
                    end,
                ) == Some(v as int),
                None => spec_component(input@, i as int, end) is None,
            }
        }),
{
    let ghost s = input@;
    let mut j = i;
    let mut val: u64 = 0;
    let mut any = false;
    proof {
        lemma_dot_end(s, i as int);
    }
    loop
        invariant
            i <= j <= n,
            n == s.len(),
            s == input@,
            crate::repl::all_digits(s, i as int, j as int),
            dot_end(s, i as int) >= j,
            val <= 0xFFFFFFFF,
            val as int == crate::repl::num_from(s, i as int, j as int, 0),
            any <==> j > i,
        ensures
            i <= j <= n,
            crate::repl::all_digits(s, i as int, j as int),
            dot_end(s, i as int) == j,
            val <= 0xFFFFFFFF,
            val as int == crate::repl::num_from(s, i as int, j as int, 0),
            any <==> j > i,
        decreases n - j,
    {
        if j == n {
            proof {
                lemma_dot_end_stops(s, i as int, j as int);
            }
            break ;
        }
        let c = input.get_char(j);
        if c == '.' {
            proof {
                lemma_dot_end_stops(s, i as int, j as int);
            }
            break ;
        }
        match crate::repl::digit_of(c) {
            Some(v) => {
                proof {
                    crate::repl::lemma_num_from_step_pub(s, i as int, j as int, 0);
                    lemma_dot_end(s, i as int);
                    if dot_end(s, i as int) == j as int {
                        assert(s[j as int] == '.');
                    }
                }
                let next = val * 10 + v as u64;
                if next > 0xFFFFFFFF {
                    proof {
                        let end = dot_end(s, i as int);
                        assert(crate::repl::num_from(s, i as int, j as int + 1, 0) > 0xFFFFFFFF);
                        if crate::repl::all_digits(s, j as int + 1, end) {
                            crate::repl::lemma_num_from_grows_pub(
                                s,
                                i as int,
                                j as int + 1,
                                end,
                                0xFFFFFFFF,
                            );
                        } else {
                            assert(!crate::repl::all_digits(s, i as int, end));
                        }
                    }
                    return None;
                }
                val = next;
                any = true;
            },
            None => {
                proof {
                    lemma_dot_end(s, i as int);
                    if dot_end(s, i as int) == j as int {
                        assert(s[j as int] == '.');
                    }
                    assert(!crate::repl::all_digits(s, i as int, dot_end(s, i as int)));
                }
                return None;
            },
        }
        j += 1;
    }
    if !any {
        return None;
    }
    Some((val as u32, j))
}

/// The major, minor and patch of a version string, or nothing when it is
/// not a plain dotted version.
pub fn parse_version(input: &str) -> (r: Option<(u32, u32, u32)>)
    ensures
        match r {
            Some((a, b, c)) => spec_parse_version(input@) == Some((a as int, b as int, c as int)),
            None => spec_parse_version(input@) is None,
        },
{
    let n = input.unicode_len();
    let (major, d1) = match scan_component(input, 0, n) {
        Some(p) => p,
        None => {
            proof {
                lemma_dot_end(input@, 0);
            }
            return None;
        },
    };
    if d1 == n {
        return None;
    }
    let (minor, d2) = match scan_component(input, d1 + 1, n) {
        Some(p) => p,
        None => {
            return None;
        },
    };
    if d2 == n {
        return None;
    }
    let (patch, d3) = match scan_component(input, d2 + 1, n) {
        Some(p) => p,
        None => {
            proof {
                lemma_dot_end(input@, d2 as int + 1);
                let d3g = dot_end(input@, d2 as int + 1);
                if d3g < input@.len() {
                    assert(input@[d3g] == '.');
                    assert(crate::repl::digit_val(input@[d3g]) < 0);
                    assert(!crate::repl::all_digits(input@, d2 as int + 1, input@.len() as int));
                }
            }
            return None;
        },
    };
    if d3 != n {
        // a fourth component: not a plain dotted version
        proof {
            lemma_dot_end(input@, d2 as int + 1);
            assert(input@[d3 as int] == '.');
            assert(!crate::repl::all_digits(input@, d2 as int + 1, input@.len() as int)) by {
                assert(crate::repl::digit_val(input@[d3 as int]) < 0);
            }
        }
        return None;
    }
    Some((major, minor, patch))
}

/// Whether a cache produced under the `producer` version may serve a
/// client at the `current` version: both parse, and agree on major and
/// minor; the patch level is ignored.
pub open spec fn spec_versions_compatible(producer: Seq<char>, current: Seq<char>) -> bool {
    match (spec_parse_version(producer), spec_parse_version(current)) {
        (Some((a, b, _)), Some((x, y, _))) => a == x && b == y,
        _ => false,
    }
}

/// Decide whether a persisted cache from `producer` may be restored at
/// `current`: minor releases are forwards and backwards compatible, so
/// only the patch level may differ.
pub fn versions_compatible(producer: &str, current: &str) -> (r: bool)
    ensures
        r == spec_versions_compatible(producer@, current@),
{
    let p = parse_version(producer);
    let c = parse_version(current);
    match (p, c) {
        (Some((a, b, _)), Some((x, y, _))) => a == x && b == y,
        _ => false,
    }
}

} // verus!