//! The ranking aggregator: apply the bounded distance kernel to every entry
//! of a dictionary, keep the entries the kernel accepts, and hand them back
//! ordered from closest to farthest.
//!
//! The bound is an inclusive ceiling: a candidate survives exactly when its
//! distance to the query is at most `max_distance`.  The sequential
//! `spellcheck` breaks ties by the original dictionary order; the parallel
//! `spell_check_rayon` promises the same multiset of suggestions in some
//! non-decreasing distance order.

use vstd::prelude::*;

use crate::distance::lev;
use crate::distance::levenshtein_distance_with_max;
use rayon::iter::IntoParallelRefIterator;
use rayon::iter::ParallelIterator;
use rayon::slice::ParallelSliceMut;

verus! {

/// The entries among the first `i` of `dict` whose distance to `w` is
/// exactly `d`, in dictionary order.
pub open spec fn matches_upto<'a>(dict: Seq<&'a str>, w: Seq<char>, d: nat, i: int) -> Seq<&'a str>
    decreases i,
{
    if i <= 0 {
        Seq::empty()
    } else {
        matches_upto(dict, w, d, i - 1) + if lev(w, dict[i - 1]@) == d {
            seq![dict[i - 1]]
        } else {
            Seq::empty()
        }
    }
}

/// The entries of `dict` at distance exactly `d` from `w`, in dictionary
/// order.
pub open spec fn matches_at<'a>(dict: Seq<&'a str>, w: Seq<char>, d: nat) -> Seq<&'a str> {
    matches_upto(dict, w, d, dict.len() as int)
}

/// The suggestions with distances in `d ..= max`: the distance-`d` entries
/// first, then the farther ones.
pub open spec fn suggestions_from<'a>(dict: Seq<&'a str>, w: Seq<char>, d: nat, max: nat) -> Seq<
    &'a str,
>
    decreases max + 1 - d,
{
    if d > max {
        Seq::empty()
    } else {
        matches_at(dict, w, d) + suggestions_from(dict, w, (d + 1) as nat, max)
    }
}

/// All suggestions for `w` within distance `max`: the surviving dictionary
/// entries in ascending distance order, ties in dictionary order.
pub open spec fn suggestions<'a>(dict: Seq<&'a str>, w: Seq<char>, max: nat) -> Seq<&'a str> {
    suggestions_from(dict, w, 0, max)
}

/// The entries among the first `i` of `dict` within distance `max` of `w`,
/// in dictionary order.
pub open spec fn survivors_upto<'a>(dict: Seq<&'a str>, w: Seq<char>, max: nat, i: int) -> Seq<
    &'a str,
>
    decreases i,
{
    if i <= 0 {
        Seq::empty()
    } else {
        survivors_upto(dict, w, max, i - 1) + if lev(w, dict[i - 1]@) <= max {
            seq![dict[i - 1]]
        } else {
            Seq::empty()
        }
    }
}

/// The entries of `dict` within distance `max` of `w`, in dictionary order.
pub open spec fn survivors<'a>(dict: Seq<&'a str>, w: Seq<char>, max: nat) -> Seq<&'a str> {
    survivors_upto(dict, w, max, dict.len() as int)
}

/// Every entry of `matches_upto` is at distance exactly `d`.
proof fn lemma_matches_upto_elems<'a>(dict: Seq<&'a str>, w: Seq<char>, d: nat, i: int)
    ensures
        forall|t: int|
            0 <= t < matches_upto(dict, w, d, i).len() ==> lev(
                w,
                #[trigger] matches_upto(dict, w, d, i)[t]@,
            ) == d,
    decreases i,
{
    if i > 0 {
        lemma_matches_upto_elems(dict, w, d, i - 1);
        let prev = matches_upto(dict, w, d, i - 1);
        let cur = matches_upto(dict, w, d, i);
        assert forall|t: int| 0 <= t < cur.len() implies lev(w, #[trigger] cur[t]@) == d by {
            if t < prev.len() {
                assert(cur[t] == prev[t]);
            } else {
                assert(cur[t] == dict[i - 1]);
            }
        }
    }
}

/// `matches_upto` is empty when no entry is at distance `d`.
proof fn lemma_matches_upto_empty<'a>(dict: Seq<&'a str>, w: Seq<char>, d: nat, i: int)
    requires
        forall|t: int| 0 <= t < i ==> lev(w, #[trigger] dict[t]@) != d,
    ensures
        matches_upto(dict, w, d, i) == Seq::<&'a str>::empty(),
    decreases i,
{
    if i > 0 {
        lemma_matches_upto_empty(dict, w, d, i - 1);
        assert(matches_upto(dict, w, d, i) =~= Seq::<&'a str>::empty());
    }
}

/// Every suggestion listed from distance `d` on is at distance between `d`
/// and `max`.
proof fn lemma_suggestions_from_elems<'a>(dict: Seq<&'a str>, w: Seq<char>, d: nat, max: nat)
    ensures
        forall|t: int|
            0 <= t < suggestions_from(dict, w, d, max).len() ==> d <= lev(
                w,
                #[trigger] suggestions_from(dict, w, d, max)[t]@,
            ) <= max,
    decreases max + 1 - d,
{
    if d <= max {
        lemma_matches_upto_elems(dict, w, d, dict.len() as int);
        lemma_suggestions_from_elems(dict, w, (d + 1) as nat, max);
        let head = matches_at(dict, w, d);
        let rest = suggestions_from(dict, w, (d + 1) as nat, max);
        let cur = suggestions_from(dict, w, d, max);
        assert forall|t: int| 0 <= t < cur.len() implies d <= lev(w, #[trigger] cur[t]@)
            <= max by {
            if t < head.len() {
                assert(cur[t] == head[t]);
            } else {
                assert(cur[t] == rest[t - head.len()]);
            }
        }
    }
}

/// Suggestions from distance `d` on are listed in non-decreasing distance
/// order.
proof fn lemma_suggestions_from_sorted<'a>(dict: Seq<&'a str>, w: Seq<char>, d: nat, max: nat)
    ensures
        forall|s: int, t: int|
            0 <= s <= t < suggestions_from(dict, w, d, max).len() ==> lev(
                w,
                #[trigger] suggestions_from(dict, w, d, max)[s]@,
            ) <= lev(w, #[trigger] suggestions_from(dict, w, d, max)[t]@),
    decreases max + 1 - d,
{
    if d <= max {
        lemma_matches_upto_elems(dict, w, d, dict.len() as int);
        lemma_suggestions_from_elems(dict, w, (d + 1) as nat, max);
        lemma_suggestions_from_sorted(dict, w, (d + 1) as nat, max);
        let head = matches_at(dict, w, d);
        let rest = suggestions_from(dict, w, (d + 1) as nat, max);
        let cur = suggestions_from(dict, w, d, max);
        assert forall|s: int, t: int| 0 <= s <= t < cur.len() implies lev(
            w,
            #[trigger] cur[s]@,
        ) <= lev(w, #[trigger] cur[t]@) by {
            if s < head.len() {
                assert(cur[s] == head[s]);
            } else {
                assert(cur[s] == rest[s - head.len()]);
            }
            if t < head.len() {
                assert(cur[t] == head[t]);
            } else {
                assert(cur[t] == rest[t - head.len()]);
            }
        }
    }
}

/// Law: the distances of the suggestion list never decrease.
pub proof fn lemma_suggestions_sorted<'a>(dict: Seq<&'a str>, w: Seq<char>, max: nat)
    ensures
        forall|s: int, t: int|
            0 <= s <= t < suggestions(dict, w, max).len() ==> lev(
                w,
                #[trigger] suggestions(dict, w, max)[s]@,
            ) <= lev(w, #[trigger] suggestions(dict, w, max)[t]@),
{
    lemma_suggestions_from_sorted(dict, w, 0, max);
}

/// Law: no suggestion lies farther than the configured bound.
pub proof fn lemma_suggestions_within_bound<'a>(dict: Seq<&'a str>, w: Seq<char>, max: nat)
    ensures
        forall|t: int|
            0 <= t < suggestions(dict, w, max).len() ==> lev(
                w,
                #[trigger] suggestions(dict, w, max)[t]@,
            ) <= max,
{
    lemma_suggestions_from_elems(dict, w, 0, max);
}

/// Nothing is suggested from distance `d` on when every entry is either
/// closer than `d` or beyond the bound.
proof fn lemma_suggestions_from_exhausted<'a>(dict: Seq<&'a str>, w: Seq<char>, d: nat, max: nat)
    requires
        forall|t: int|
            0 <= t < dict.len() ==> lev(w, #[trigger] dict[t]@) > max || lev(w, dict[t]@) < d,
    ensures
        suggestions_from(dict, w, d, max) == Seq::<&'a str>::empty(),
    decreases max + 1 - d,
{
    if d <= max {
        lemma_matches_upto_empty(dict, w, d, dict.len() as int);
        lemma_suggestions_from_exhausted(dict, w, (d + 1) as nat, max);
        assert(suggestions_from(dict, w, d, max) =~= Seq::<&'a str>::empty());
    }
}

/// The suggestions with distances in `d ..= max`, drawn from the first `i`
/// entries only.
spec fn suggestions_from_upto<'a>(
    dict: Seq<&'a str>,
    w: Seq<char>,
    d: nat,
    max: nat,
    i: int,
) -> Seq<&'a str>
    decreases max + 1 - d,
{
    if d > max {
        Seq::empty()
    } else {
        matches_upto(dict, w, d, i) + suggestions_from_upto(dict, w, (d + 1) as nat, max, i)
    }
}

/// Over the whole dictionary, `suggestions_from_upto` is `suggestions_from`.
proof fn lemma_suggestions_from_upto_full<'a>(dict: Seq<&'a str>, w: Seq<char>, d: nat, max: nat)
    ensures
        suggestions_from_upto(dict, w, d, max, dict.len() as int) == suggestions_from(
            dict,
            w,
            d,
            max,
        ),
    decreases max + 1 - d,
{
    if d <= max {
        lemma_suggestions_from_upto_full(dict, w, (d + 1) as nat, max);
    }
}

/// Taking one more dictionary entry into account adds that entry to the
/// suggestion multiset exactly when its distance lies in `d ..= max`.
proof fn lemma_suggestions_from_upto_step<'a>(
    dict: Seq<&'a str>,
    w: Seq<char>,
    d: nat,
    max: nat,
    i: int,
)
    requires
        1 <= i <= dict.len(),
    ensures
        suggestions_from_upto(dict, w, d, max, i).to_multiset() == if d <= lev(
            w,
            dict[i - 1]@,
        ) <= max {
            suggestions_from_upto(dict, w, d, max, i - 1).to_multiset().insert(dict[i - 1])
        } else {
            suggestions_from_upto(dict, w, d, max, i - 1).to_multiset()
        },
    decreases max + 1 - d,
{
    broadcast use vstd::seq_lib::group_to_multiset_ensures;
    broadcast use vstd::multiset::group_multiset_axioms;

    if d <= max {
        lemma_suggestions_from_upto_step(dict, w, (d + 1) as nat, max, i);
        let x = dict[i - 1];
        let m_prev = matches_upto(dict, w, d, i - 1);
        let m_cur = matches_upto(dict, w, d, i);
        let s_prev = suggestions_from_upto(dict, w, (d + 1) as nat, max, i - 1);
        let s_cur = suggestions_from_upto(dict, w, (d + 1) as nat, max, i);
        vstd::seq_lib::lemma_multiset_commutative(m_cur, s_cur);
        vstd::seq_lib::lemma_multiset_commutative(m_prev, s_prev);
        if lev(w, x@) == d {
            assert(m_cur =~= m_prev.push(x));
            assert(m_cur.to_multiset() == m_prev.to_multiset().insert(x));
            assert((m_cur + s_cur).to_multiset() =~= (m_prev + s_prev).to_multiset().insert(x));
        } else {
            assert(m_cur =~= m_prev);
            if d + 1 <= lev(w, x@) <= max {
                assert((m_cur + s_cur).to_multiset() =~= (m_prev + s_prev).to_multiset().insert(
                    x,
                ));
            } else {
                assert((m_cur + s_cur).to_multiset() =~= (m_prev + s_prev).to_multiset());
            }
        }
    }
}

/// Law: the ordered suggestion list holds exactly the surviving dictionary
/// entries, with multiplicity — ordering them is all the aggregator does.
pub proof fn lemma_suggestions_are_survivors<'a>(dict: Seq<&'a str>, w: Seq<char>, max: nat)
    ensures
        suggestions(dict, w, max).to_multiset() == survivors(dict, w, max).to_multiset(),
{
    lemma_suggestions_from_upto_full(dict, w, 0, max);
    lemma_suggestions_survivors_upto(dict, w, max, dict.len() as int);
}

/// The multiset agreement of `suggestions_from_upto` and `survivors_upto`,
/// by induction over the dictionary.
proof fn lemma_suggestions_survivors_upto<'a>(dict: Seq<&'a str>, w: Seq<char>, max: nat, i: int)
    requires
        0 <= i <= dict.len(),
    ensures
        suggestions_from_upto(dict, w, 0, max, i).to_multiset() == survivors_upto(
            dict,
            w,
            max,
            i,
        ).to_multiset(),
    decreases i,
{
    broadcast use vstd::seq_lib::group_to_multiset_ensures;

    if i == 0 {
        assert(suggestions_from_upto(dict, w, 0, max, 0) =~= Seq::<&'a str>::empty()) by {
            lemma_suggestions_from_upto_zero(dict, w, 0, max);
        }
        assert(survivors_upto(dict, w, max, 0) =~= Seq::<&'a str>::empty());
    } else {
        lemma_suggestions_survivors_upto(dict, w, max, i - 1);
        lemma_suggestions_from_upto_step(dict, w, 0, max, i);
        let x = dict[i - 1];
        let sv_prev = survivors_upto(dict, w, max, i - 1);
        let sv_cur = survivors_upto(dict, w, max, i);
        if lev(w, x@) <= max {
            assert(sv_cur =~= sv_prev.push(x));
            assert(sv_cur.to_multiset() == sv_prev.to_multiset().insert(x));
        } else {
            assert(sv_cur =~= sv_prev);
        }
    }
}

/// With no dictionary entries in reach, nothing is suggested.
proof fn lemma_suggestions_from_upto_zero<'a>(dict: Seq<&'a str>, w: Seq<char>, d: nat, max: nat)
    ensures
        suggestions_from_upto(dict, w, d, max, 0) == Seq::<&'a str>::empty(),
    decreases max + 1 - d,
{
    if d <= max {
        lemma_suggestions_from_upto_zero(dict, w, (d + 1) as nat, max);
        assert(suggestions_from_upto(dict, w, d, max, 0) =~= Seq::<&'a str>::empty());
    }
}

/// Suggestions for `word` from `dictionary`, closest first.
///
/// A dictionary entry is kept exactly when its Levenshtein distance to
/// `word` is at most `max_distance` (the bound is an inclusive ceiling).
/// Survivors are ordered by ascending distance; entries at equal distance
/// keep their dictionary order.  The result borrows the dictionary's own
/// string references.
pub fn spellcheck<'a>(dictionary: &Vec<&'a str>, word: &str, max_distance: usize) -> (r: Vec<
    &'a str,
>)
    ensures
        r@ == suggestions(dictionary@, word@, max_distance as nat),
        forall|s: int, t: int|
            0 <= s <= t < r@.len() ==> lev(word@, #[trigger] r@[s]@) <= lev(
                word@,
                #[trigger] r@[t]@,
            ),
        forall|t: int| 0 <= t < r@.len() ==> lev(word@, #[trigger] r@[t]@) <= max_distance,
{
    let n: usize = dictionary.len();
    let mut dists: Vec<Option<usize>> = Vec::new();
    let mut k: usize = 0;
    while k < n
        invariant
            n == dictionary@.len(),
            k <= n,
            dists@.len() == k,
            forall|t: int|
                0 <= t < k ==> match #[trigger] dists@[t] {
                    Some(v) => v == lev(word@, dictionary@[t]@) && lev(word@, dictionary@[t]@)
                        <= max_distance,
                    None => lev(word@, dictionary@[t]@) > max_distance,
                },
        decreases n - k,
    {
        let dd: Option<usize> = levenshtein_distance_with_max(word, dictionary[k], max_distance);
        dists.push(dd);
        k += 1;
    }
    let mut dmax: usize = 0;
    let mut any: bool = false;
    k = 0;
    while k < n
        invariant
            n == dictionary@.len(),
            k <= n,
            dists@.len() == n,
            forall|t: int|
                0 <= t < n ==> match #[trigger] dists@[t] {
                    Some(v) => v == lev(word@, dictionary@[t]@) && lev(word@, dictionary@[t]@)
                        <= max_distance,
                    None => lev(word@, dictionary@[t]@) > max_distance,
                },
            forall|t: int|
                0 <= t < k ==> match #[trigger] dists@[t] {
                    Some(v) => v <= dmax,
                    None => true,
                },
            any ==> exists|t: int| 0 <= t < k && #[trigger] dists@[t] == Some(dmax),
            !any ==> forall|t: int| 0 <= t < k ==> #[trigger] dists@[t] is None,
        decreases n - k,
    {
        if let Some(v) = dists[k] {
            if !any || v > dmax {
                dmax = v;
            }
            any = true;
        }
        k += 1;
    }
    let mut acc: Vec<&'a str> = Vec::new();
    if !any {
        proof {
            assert forall|t: int| 0 <= t < dictionary@.len() implies lev(
                word@,
                #[trigger] dictionary@[t]@,
            ) > max_distance || lev(word@, dictionary@[t]@) < 0 by {
                assert(dists@[t] is None);
            }
            lemma_suggestions_from_exhausted(dictionary@, word@, 0, max_distance as nat);
            lemma_suggestions_sorted(dictionary@, word@, max_distance as nat);
            lemma_suggestions_within_bound(dictionary@, word@, max_distance as nat);
            assert(acc@ =~= suggestions(dictionary@, word@, max_distance as nat));
        }
        return acc;
    }
    proof {
        assert(dmax <= max_distance);
    }
    let ghost total = suggestions(dictionary@, word@, max_distance as nat);
    let mut d: usize = 0;
    loop
        invariant_except_break
            acc@ + suggestions_from(dictionary@, word@, d as nat, max_distance as nat) == total,
        invariant
            n == dictionary@.len(),
            dists@.len() == n,
            forall|t: int|
                0 <= t < n ==> match #[trigger] dists@[t] {
                    Some(v) => v == lev(word@, dictionary@[t]@) && lev(word@, dictionary@[t]@)
                        <= max_distance,
                    None => lev(word@, dictionary@[t]@) > max_distance,
                },
            forall|t: int|
                0 <= t < n ==> match #[trigger] dists@[t] {
                    Some(v) => v <= dmax,
                    None => true,
                },
            dmax <= max_distance,
            d <= dmax,
        ensures
            d == dmax,
            acc@ + suggestions_from(dictionary@, word@, (d + 1) as nat, max_distance as nat)
                == total,
        decreases dmax - d,
    {
        let ghost acc0 = acc@;
        let mut j: usize = 0;
        while j < n
            invariant
                n == dictionary@.len(),
                dists@.len() == n,
                j <= n,
                d <= dmax <= max_distance,
                forall|t: int|
                    0 <= t < n ==> match #[trigger] dists@[t] {
                        Some(v) => v == lev(word@, dictionary@[t]@) && lev(word@, dictionary@[t]@)
                            <= max_distance,
                        None => lev(word@, dictionary@[t]@) > max_distance,
                    },
                acc@ == acc0 + matches_upto(dictionary@, word@, d as nat, j as int),
            decreases n - j,
        {
            let keep: bool = match dists[j] {
                Some(v) => v == d,
                None => false,
            };
            if keep {
                acc.push(dictionary[j]);
            }
            proof {
                assert(acc@ =~= acc0 + matches_upto(
                    dictionary@,
                    word@,
                    d as nat,
                    j + 1,
                ));
            }
            j += 1;
        }
        proof {
            assert(acc@ + suggestions_from(
                dictionary@,
                word@,
                (d + 1) as nat,
                max_distance as nat,
            ) =~= total) by {
                assert(suggestions_from(
                    dictionary@,
                    word@,
                    d as nat,
                    max_distance as nat,
                ) == matches_at(dictionary@, word@, d as nat) + suggestions_from(
                    dictionary@,
                    word@,
                    (d + 1) as nat,
                    max_distance as nat,
                ));
                assert(acc0 + (matches_at(dictionary@, word@, d as nat) + suggestions_from(
                    dictionary@,
                    word@,
                    (d + 1) as nat,
                    max_distance as nat,
                )) =~= (acc0 + matches_at(dictionary@, word@, d as nat)) + suggestions_from(
                    dictionary@,
                    word@,
                    (d + 1) as nat,
                    max_distance as nat,
                ));
            }
        }
        if d == dmax {
            break ;
        }
        d += 1;
    }
    proof {
        assert forall|t: int|
            0 <= t < dictionary@.len() implies lev(word@, #[trigger] dictionary@[t]@)
            > max_distance || lev(word@, dictionary@[t]@) < d + 1 by {
            let dt = dists@[t];
            if dt is Some {
                assert(lev(word@, dictionary@[t]@) <= dmax);
            }
        }
        lemma_suggestions_from_exhausted(
            dictionary@,
            word@,
            (d + 1) as nat,
            max_distance as nat,
        );
        assert(acc@ =~= total);
        lemma_suggestions_sorted(dictionary@, word@, max_distance as nat);
        lemma_suggestions_within_bound(dictionary@, word@, max_distance as nat);
    }
    acc
}

/// The `(distance, entry)` pairs of the surviving entries among the first
/// `i` of `dict`, in dictionary order.
pub open spec fn scored_upto<'a>(dict: Seq<&'a str>, w: Seq<char>, max: nat, i: int) -> Seq<
    (usize, &'a str),
>
    decreases i,
{
    if i <= 0 {
        Seq::empty()
    } else {
        scored_upto(dict, w, max, i - 1) + if lev(w, dict[i - 1]@) <= max {
            seq![(lev(w, dict[i - 1]@) as usize, dict[i - 1])]
        } else {
            Seq::empty()
        }
    }
}

/// The `(distance, entry)` pairs of all surviving entries, in dictionary
/// order.
pub open spec fn scored_seq<'a>(dict: Seq<&'a str>, w: Seq<char>, max: nat) -> Seq<
    (usize, &'a str),
> {
    scored_upto(dict, w, max, dict.len() as int)
}

/// The entries of a pair sequence, with the distances dropped.
pub open spec fn words_of<'a>(s: Seq<(usize, &'a str)>) -> Seq<&'a str> {
    Seq::new(s.len(), |t: int| s[t].1)
}

/// Every scored pair records the exact distance of its entry, and that
/// distance is within the bound.
proof fn lemma_scored_upto_elems<'a>(dict: Seq<&'a str>, w: Seq<char>, max: nat, i: int)
    requires
        max <= usize::MAX,
    ensures
        forall|t: int|
            0 <= t < scored_upto(dict, w, max, i).len() ==> {
                let p = #[trigger] scored_upto(dict, w, max, i)[t];
                p.0 == lev(w, p.1@) && lev(w, p.1@) <= max
            },
    decreases i,
{
    if i > 0 {
        lemma_scored_upto_elems(dict, w, max, i - 1);
        let prev = scored_upto(dict, w, max, i - 1);
        let cur = scored_upto(dict, w, max, i);
        assert forall|t: int| 0 <= t < cur.len() implies {
            let p = #[trigger] cur[t];
            p.0 == lev(w, p.1@) && lev(w, p.1@) <= max
        } by {
            if t < prev.len() {
                assert(cur[t] == prev[t]);
            } else {
                assert(cur[t] == (lev(w, dict[i - 1]@) as usize, dict[i - 1]));
            }
        }
    }
}

/// Dropping the distances from the scored pairs leaves exactly the
/// survivors, in the same order.
proof fn lemma_scored_upto_words<'a>(dict: Seq<&'a str>, w: Seq<char>, max: nat, i: int)
    requires
        0 <= i <= dict.len(),
    ensures
        words_of(scored_upto(dict, w, max, i)) == survivors_upto(dict, w, max, i),
    decreases i,
{
    if i > 0 {
        lemma_scored_upto_words(dict, w, max, i - 1);
        assert(words_of(scored_upto(dict, w, max, i)) =~= survivors_upto(dict, w, max, i));
    } else {
        assert(words_of(scored_upto(dict, w, max, i)) =~= survivors_upto(dict, w, max, i));
    }
}

/// Two pair sequences that hold the same pairs (with multiplicity) hold the
/// same entries (with multiplicity).
proof fn lemma_words_of_multiset<'a>(s1: Seq<(usize, &'a str)>, s2: Seq<(usize, &'a str)>)
    requires
        s1.to_multiset() == s2.to_multiset(),
    ensures
        words_of(s1).to_multiset() == words_of(s2).to_multiset(),
    decreases s1.len(),
{
    broadcast use vstd::seq_lib::group_to_multiset_ensures;
    broadcast use vstd::multiset::group_multiset_axioms;

    if s1.len() == 0 {
        assert(s2.to_multiset().len() == 0);
        assert(words_of(s1) =~= words_of(s2));
    } else {
        let x = s1.last();
        let s1d = s1.drop_last();
        assert(s1 =~= s1d.push(x));
        assert(s1.to_multiset() == s1d.push(x).to_multiset());
        assert(s1.to_multiset().count(x) > 0);
        assert(s2.to_multiset().count(x) > 0);
        assert(s2.contains(x));
        let u = choose|u: int| 0 <= u < s2.len() && s2[u] == x;
        let s2r = s2.remove(u);
        assert(s2r.to_multiset() =~= s2.to_multiset().remove(x));
        assert(s1d.to_multiset() =~= s1.to_multiset().remove(x));
        lemma_words_of_multiset(s1d, s2r);
        assert(words_of(s1) =~= words_of(s1d).push(x.1));
        assert(words_of(s1).to_multiset() == words_of(s1d).to_multiset().insert(x.1));
        assert(words_of(s2r) =~= words_of(s2).remove(u));
        assert(words_of(s2).remove(u).to_multiset() =~= words_of(s2).to_multiset().remove(
            words_of(s2)[u],
        ));
        assert(words_of(s2)[u] == x.1);
        assert(words_of(s2).to_multiset().count(x.1) > 0);
        assert(words_of(s2).to_multiset().remove(x.1).insert(x.1) =~= words_of(s2).to_multiset());
        assert(words_of(s1).to_multiset() == words_of(s2).to_multiset());
    }
}

/// The bounded distance of one candidate, paired with the candidate, or
/// `None` when the candidate is beyond the bound.
fn scored<'a>(word: &str, candidate: &'a str, max_distance: usize) -> (r: Option<
    (usize, &'a str),
>)
    ensures
        match r {
            Some(p) => p.0 == lev(word@, candidate@) && p.1 == candidate && lev(word@, candidate@)
                <= max_distance,
            None => lev(word@, candidate@) > max_distance,
        },
{
    match levenshtein_distance_with_max(word, candidate, max_distance) {
        Some(d) => Some((d, candidate)),
        None => None,
    }
}

/// Relies on rayon's `par_iter().filter_map(..).collect::<Vec<_>>()`: the
/// closure runs once on every dictionary entry and the collected vector
/// holds exactly the `Some` results, each once; their order across worker
/// splits is left open here.
#[verifier::external_body]
fn scored_par<'a>(dictionary: &Vec<&'a str>, word: &str, max_distance: usize) -> (r: Vec<
    (usize, &'a str),
>)
    ensures
        r@.to_multiset() == scored_seq(dictionary@, word@, max_distance as nat).to_multiset(),
{
    dictionary.par_iter().filter_map(|c: &&'a str| scored(word, *c, max_distance)).collect()
}

/// Relies on rayon's `par_sort_unstable_by_key`: the slice is reordered into
/// a permutation of itself that is non-decreasing in the key; equal keys may
/// end up in any order.
#[verifier::external_body]
fn par_sort_by_distance<'a>(pairs: &mut Vec<(usize, &'a str)>)
    ensures
        final(pairs)@.to_multiset() == old(pairs)@.to_multiset(),
        forall|s: int, t: int|
            0 <= s <= t < final(pairs)@.len() ==> #[trigger] final(pairs)@[s].0
                <= #[trigger] final(pairs)@[t].0,
{
    pairs.par_sort_unstable_by_key(|p: &(usize, &str)| p.0);
}

/// Suggestions for `word` from `dictionary`, evaluated in parallel.
///
/// The result holds exactly the dictionary entries within `max_distance` of
/// `word` (as `spellcheck` would keep, with multiplicity), ordered by
/// non-decreasing distance.  Entries at equal distance may come out in any
/// order: the parallel sort is not stable.
pub fn spell_check_rayon<'a>(dictionary: &Vec<&'a str>, word: &str, max_distance: usize) -> (r:
    Vec<&'a str>)
    ensures
        r@.to_multiset() == survivors(dictionary@, word@, max_distance as nat).to_multiset(),
        forall|s: int, t: int|
            0 <= s <= t < r@.len() ==> lev(word@, #[trigger] r@[s]@) <= lev(
                word@,
                #[trigger] r@[t]@,
            ),
        forall|t: int| 0 <= t < r@.len() ==> lev(word@, #[trigger] r@[t]@) <= max_distance,
{
    broadcast use vstd::seq_lib::group_to_multiset_ensures;

    let ghost w = word@;
    let ghost goal = scored_seq(dictionary@, word@, max_distance as nat);
    let mut pairs: Vec<(usize, &'a str)> = scored_par(dictionary, word, max_distance);
    proof {
        lemma_scored_upto_elems(dictionary@, w, max_distance as nat, dictionary@.len() as int);
    }
    let ghost unsorted = pairs@;
    par_sort_by_distance(&mut pairs);
    proof {
        assert forall|t: int| 0 <= t < pairs@.len() implies {
            let p = #[trigger] pairs@[t];
            p.0 == lev(w, p.1@) && lev(w, p.1@) <= max_distance
        } by {
            let p = pairs@[t];
            assert(pairs@.contains(p));
            assert(pairs@.to_multiset().count(p) > 0);
            assert(goal.to_multiset().count(p) > 0);
            assert(goal.contains(p));
            let g = choose|g: int| 0 <= g < goal.len() && goal[g] == p;
            assert(goal[g].0 == lev(w, goal[g].1@) && lev(w, goal[g].1@) <= max_distance);
        }
    }
    let mut out: Vec<&'a str> = Vec::new();
    let mut k: usize = 0;
    proof {
        assert(out@ =~= words_of(pairs@).take(0));
    }
    while k < pairs.len()
        invariant
            k <= pairs@.len(),
            out@ == words_of(pairs@).take(k as int),
        decreases pairs@.len() - k,
    {
        let entry: &'a str = pairs[k].1;
        out.push(entry);
        proof {
            assert(out@ =~= words_of(pairs@).take(k + 1));
        }
        k += 1;
    }
    proof {
        assert(out@ =~= words_of(pairs@));
        lemma_words_of_multiset(pairs@, unsorted);
        lemma_words_of_multiset(unsorted, goal);
        lemma_scored_upto_words(dictionary@, w, max_distance as nat, dictionary@.len() as int);
        assert forall|s: int, t: int| 0 <= s <= t < out@.len() implies lev(
            w,
            #[trigger] out@[s]@,
        ) <= lev(w, #[trigger] out@[t]@) by {
            assert(out@[s] == pairs@[s].1);
            assert(out@[t] == pairs@[t].1);
            assert(pairs@[s].0 <= pairs@[t].0);
        }
        assert forall|t: int| 0 <= t < out@.len() implies lev(w, #[trigger] out@[t]@)
            <= max_distance by {
            assert(out@[t] == pairs@[t].1);
        }
    }
    out
}

} // verus!
