//! Laws of the scoring model, stated and proved once for all inputs.

use crate::model::{
    consumed_upto, first_match_from, lemma_match_pairs_props,
    lemma_prefix_len_bounds, lemma_raw_mismatches_le, match_count, match_pairs, prefix_len_from,
    raw_mismatches, spec_calculate, spec_score, transposition_count, used_set, win_end, win_range,
    win_start, Similarity,
};
use vstd::prelude::*;

verus! {

/// An empty input on either side decides the score by itself: two empty
/// strings are identical, and an empty string shares nothing with a nonempty
/// one, in whichever order the two are given.
pub proof fn lemma_empty_scores(a: Seq<u8>, b: Seq<u8>)
    ensures
        a.len() == 0 && b.len() == 0 ==> spec_score(a, b) == Similarity::Identical,
        a.len() == 0 && b.len() > 0 ==> spec_score(a, b) == Similarity::Disjoint,
        a.len() > 0 && b.len() == 0 ==> spec_score(a, b) == Similarity::Disjoint,
{
}

/// Swapping inputs of different lengths does not change the score: the
/// shorter of the two is matched against the longer whichever way they are
/// given.  (For inputs of equal length the scan order is kept as given; a
/// string against itself is covered by [`lemma_score_of_self`] and a zero
/// score by [`lemma_disjoint_symmetry_equal_lengths`].)
pub proof fn lemma_symmetry_distinct_lengths(a: Seq<u8>, b: Seq<u8>)
    requires
        a.len() != b.len(),
    ensures
        spec_score(a, b) == spec_score(b, a),
{
}

/// No position of `min` can see its byte anywhere inside its window of `max`.
spec fn no_window_match(min: Seq<u8>, max: Seq<u8>) -> bool {
    forall|i: int, j: int|
        0 <= i < min.len() && win_start(i, win_range(max.len() as int)) <= j < win_end(
            i,
            win_range(max.len() as int),
            max.len() as int,
        ) ==> min[i] != max[j]
}

/// A failed window scan rules out every position of the scanned range.
proof fn lemma_first_match_none(c: u8, max: Seq<u8>, used: Set<int>, j: int, end: int, jj: int)
    requires
        first_match_from(c, max, used, j, end) is None,
        j <= jj < end,
    ensures
        max[jj] != c || used.contains(jj),
    decreases jj - j,
{
    if j < jj {
        lemma_first_match_none(c, max, used, j + 1, end, jj);
    }
}

/// A window scan with nothing to find fails.
proof fn lemma_first_match_none_intro(c: u8, max: Seq<u8>, used: Set<int>, j: int, end: int)
    requires
        forall|jj: int| j <= jj < end ==> max[jj] != c || used.contains(jj),
    ensures
        first_match_from(c, max, used, j, end) is None,
    decreases end - j,
{
    if j < end {
        lemma_first_match_none_intro(c, max, used, j + 1, end);
    }
}

/// Later positions of `min` never lose recorded pairs.
proof fn lemma_match_pairs_monotone(min: Seq<u8>, max: Seq<u8>, i1: int, i2: int)
    requires
        0 <= i1 <= i2,
    ensures
        match_pairs(min, max, i1).len() <= match_pairs(min, max, i2).len(),
    decreases i2 - i1,
{
    if i1 < i2 {
        lemma_match_pairs_monotone(min, max, i1, i2 - 1);
    }
}

/// When no byte of `min` is visible inside its window, nothing is recorded.
proof fn lemma_no_window_match_pairs(min: Seq<u8>, max: Seq<u8>, i: int)
    requires
        0 <= i <= min.len() <= max.len(),
        no_window_match(min, max),
    ensures
        match_pairs(min, max, i).len() == 0,
    decreases i,
{
    if i > 0 {
        lemma_no_window_match_pairs(min, max, i - 1);
        let prev = match_pairs(min, max, i - 1);
        let r = win_range(max.len() as int);
        let start = win_start(i - 1, r);
        let end = win_end(i - 1, r, max.len() as int);
        assert forall|jj: int| start <= jj < end implies max[jj] != min[i - 1]
            || used_set(prev).contains(jj) by {
            assert(min[i - 1] != max[jj]);
        }
        lemma_first_match_none_intro(min[i - 1], max, used_set(prev), start, end);
    }
}

/// A scan that records nothing leaves every windowed byte distinct.
proof fn lemma_zero_matches_no_window(min: Seq<u8>, max: Seq<u8>)
    requires
        0 < min.len() <= max.len(),
        match_count(min, max) == 0,
    ensures
        no_window_match(min, max),
{
    let r = win_range(max.len() as int);
    assert forall|i: int, j: int|
        0 <= i < min.len() && win_start(i, r) <= j < win_end(i, r, max.len() as int) implies min[i]
        != max[j] by {
        lemma_match_pairs_monotone(min, max, i + 1, min.len() as int);
        let prev = match_pairs(min, max, i);
        assert(prev.len() == 0);
        assert(match_pairs(min, max, i + 1).len() == 0);
        assert(!used_set(prev).contains(j));
        assert(first_match_from(min[i], max, used_set(prev), win_start(i, r), win_end(i, r, max.len() as int)) is None);
        lemma_first_match_none(
            min[i],
            max,
            used_set(prev),
            win_start(i, r),
            win_end(i, r, max.len() as int),
            j,
        );
    }
}

/// For inputs of equal length the window relation is symmetric, so a score
/// of zero is symmetric too: when one scan order finds no match at all, the
/// other order finds none either.  (Together with
/// [`lemma_symmetry_distinct_lengths`] and [`lemma_score_of_self`], this
/// leaves only partial matches between distinct equal-length inputs without a
/// proved symmetry statement.)
pub proof fn lemma_disjoint_symmetry_equal_lengths(a: Seq<u8>, b: Seq<u8>)
    requires
        a.len() == b.len(),
        spec_score(a, b) == Similarity::Disjoint,
    ensures
        spec_score(b, a) == Similarity::Disjoint,
{
    let n = a.len() as int;
    let r = win_range(n);
    assert(match_count(a, b) == 0);
    lemma_zero_matches_no_window(a, b);
    assert forall|i: int, j: int|
        0 <= i < b.len() && win_start(i, r) <= j < win_end(i, r, n) implies b[i] != a[j] by {
        assert(win_start(j, r) <= i < win_end(j, r, n));
        assert(a[j] != b[i]);
    }
    lemma_no_window_match_pairs(b, a, n);
}

/// The quantities reported for a partial match keep the combined
/// floating-point score inside `[0, 1]`: each of `m/min_len`, `m/max_len`
/// and `(m - t)/m` lies in `[0, 1]`, so their mean `j` does, and the prefix
/// bonus `0.1 * p * (1 - j)` adds at most `0.4` of the remaining gap.
pub proof fn lemma_score_bounds(a: Seq<u8>, b: Seq<u8>)
    requires
        a.len() <= usize::MAX,
        b.len() <= usize::MAX,
    ensures
        (match spec_score(a, b) {
            Similarity::Partial { matches: m, transpositions: t, prefix_len: p, min_len, max_len } => {
                1 <= m && m <= min_len && min_len <= max_len && 2 * t <= m && p <= 4 && p
                    <= min_len
            },
            _ => true,
        }),
{
    if a.len() > 0 && b.len() > 0 {
        let min = if a.len() > b.len() {
            b
        } else {
            a
        };
        let max = if a.len() > b.len() {
            a
        } else {
            b
        };
        let pairs = match_pairs(min, max, min.len() as int);
        let js = consumed_upto(used_set(pairs), max.len() as int);
        lemma_match_pairs_props(min, max, min.len() as int);
        lemma_raw_mismatches_le(min, max, pairs, js, pairs.len() as int);
        lemma_prefix_len_bounds(min, max, 0);
        assert(spec_score(a, b) == spec_calculate(min, max));
    }
}

/// A string scored against itself matches at every position with no
/// transpositions and the full (capped) prefix; the floating-point
/// combination of these quantities is exactly 1.0.
pub proof fn lemma_score_of_self(a: Seq<u8>)
    ensures
        a.len() == 0 ==> spec_score(a, a) == Similarity::Identical,
        a.len() > 0 ==> spec_score(a, a) == (Similarity::Partial {
            matches: a.len() as usize,
            transpositions: 0,
            prefix_len: (if a.len() < 4 {
                a.len() as usize
            } else {
                4
            }),
            min_len: a.len() as usize,
            max_len: a.len() as usize,
        }),
{
    if a.len() > 0 {
        let n = a.len() as int;
        lemma_self_match(a, n);
        let pairs = match_pairs(a, a, n);
        assert(match_count(a, a) == n);
        let used = used_set(pairs);
        assert forall|j: int| 0 <= j < n implies used.contains(j) by {
            assert(identity_pairs(n)[j].1 == j);
        }
        lemma_consumed_full(used, n);
        let js = consumed_upto(used, n);
        lemma_raw_identity(a, identity_pairs(n), js, n);
        assert(transposition_count(a, a) == 0);
        lemma_prefix_of_self(a, 0);
        assert(spec_score(a, a) == spec_calculate(a, a));
    }
}

/// The pairs `(k, k)` for `k` below `i`: what matching a string against
/// itself records.
spec fn identity_pairs(i: int) -> Seq<(int, int)> {
    Seq::new(i as nat, |k: int| (k, k))
}

/// When every position before `target` is already consumed and `target`
/// itself holds the wanted byte and is free, the window scan lands exactly
/// on `target`.
proof fn lemma_first_match_hits(c: u8, max: Seq<u8>, used: Set<int>, j0: int, target: int, end: int)
    requires
        j0 <= target < end,
        max[target] == c,
        !used.contains(target),
        forall|j: int| j0 <= j < target ==> used.contains(j),
    ensures
        first_match_from(c, max, used, j0, end) == Some(target),
    decreases target - j0,
{
    if j0 < target {
        lemma_first_match_hits(c, max, used, j0 + 1, target, end);
    }
}

/// Matching a string against itself pairs every position with itself.
proof fn lemma_self_match(a: Seq<u8>, i: int)
    requires
        0 <= i <= a.len(),
    ensures
        match_pairs(a, a, i) == identity_pairs(i),
    decreases i,
{
    if i <= 0 {
        assert(match_pairs(a, a, i) =~= identity_pairs(i));
    } else {
        lemma_self_match(a, i - 1);
        let prev = identity_pairs(i - 1);
        let used = used_set(prev);
        assert forall|j: int| used.contains(j) implies 0 <= j < i - 1 by {
            let k = choose|k: int| 0 <= k < prev.len() && prev[k].1 == j;
        }
        assert forall|j: int| 0 <= j < i - 1 implies used.contains(j) by {
            assert(prev[j].1 == j);
        }
        let r = win_range(a.len() as int);
        let start = win_start(i - 1, r);
        let end = win_end(i - 1, r, a.len() as int);
        assert(start <= i - 1 < end);
        lemma_first_match_hits(a[i - 1], a, used, start, i - 1, end);
        assert(match_pairs(a, a, i) =~= identity_pairs(i));
    }
}

/// A set holding everything below `n` lists exactly `0, 1, ..., n - 1`.
proof fn lemma_consumed_full(used: Set<int>, n: int)
    requires
        forall|j: int| 0 <= j < n ==> used.contains(j),
    ensures
        consumed_upto(used, n) =~= Seq::new((if n >= 0 {
            n
        } else {
            0
        }) as nat, |k: int| k),
    decreases n,
{
    if n > 0 {
        lemma_consumed_full(used, n - 1);
    }
}

/// Pairing each position with itself never counts a mismatch.
proof fn lemma_raw_identity(a: Seq<u8>, pairs: Seq<(int, int)>, js: Seq<int>, k: int)
    requires
        0 <= k <= a.len(),
        pairs == identity_pairs(a.len() as int),
        js == Seq::new(a.len(), |j: int| j),
    ensures
        raw_mismatches(a, a, pairs, js, k) == 0,
    decreases k,
{
    if k > 0 {
        lemma_raw_identity(a, pairs, js, k - 1);
        assert(pairs[k - 1].0 == k - 1);
        assert(js[k - 1] == k - 1);
    }
}

/// Against itself a string's common prefix is its whole length, capped at 4.
proof fn lemma_prefix_of_self(a: Seq<u8>, i: int)
    requires
        0 <= i <= 4,
        i <= a.len(),
    ensures
        prefix_len_from(a, a, i) == (if a.len() < 4 {
            a.len() as int
        } else {
            4
        }),
    decreases 4 - i,
{
    if !(i >= 4 || i >= a.len()) {
        lemma_prefix_of_self(a, i + 1);
    }
}

} // verus!
