//! Mathematical model of the Jaro-Winkler quantities.
//!
//! The scorer works on the shorter input `min` and the longer input `max`.
//! For each position `i` of `min` it scans a bounded window of `max` from the
//! left and consumes the first position holding the same byte that no earlier
//! position of `min` has consumed.  The spec functions here define that greedy
//! matching, the left-to-right order of the consumed positions, the raw
//! mismatch count between paired bytes, and the common-prefix length, and
//! combine them into the [`Similarity`] value that the scorer returns.

use vstd::prelude::*;

verus! {

/// Everything the Jaro-Winkler score of two strings depends on.
///
/// `Identical` stands for the score 1.0 (both inputs empty) and `Disjoint`
/// for the score 0.0 (exactly one input empty, or no byte of one input can be
/// matched inside the other's window).  For `Partial`, the score is
/// `j + 0.1 * prefix_len * (1 - j)` where
/// `j = (m/min_len + m/max_len + (m - t)/m) / 3`,
/// `m = matches` and `t = transpositions`, all as 64-bit floats.
#[derive(Clone, Copy, Debug, PartialEq, Eq, Structural)]
pub enum Similarity {
    Identical,
    Disjoint,
    Partial {
        matches: usize,
        transpositions: usize,
        prefix_len: usize,
        min_len: usize,
        max_len: usize,
    },
}

/// Half the longer length, minus one, floored at zero: how far the matching
/// window extends on each side of a position.
pub open spec fn win_range(max_len: int) -> int {
    let half = max_len / 2;
    if half >= 1 {
        half - 1
    } else {
        0
    }
}

/// First position of the window that position `i` of the shorter input scans.
pub open spec fn win_start(i: int, range: int) -> int {
    if i > range {
        i - range
    } else {
        0
    }
}

/// One past the last position of the window that position `i` scans.
pub open spec fn win_end(i: int, range: int, max_len: int) -> int {
    if i + range + 1 < max_len {
        i + range + 1
    } else {
        max_len
    }
}

/// Positions of `max` already consumed by the given match pairs.
pub open spec fn used_set(pairs: Seq<(int, int)>) -> Set<int> {
    Set::new(|j: int| exists|k: int| 0 <= k < pairs.len() && pairs[k].1 == j)
}

/// First position in `[j, end)` of `max` that holds byte `c` and is not yet
/// consumed, scanning left to right.
pub open spec fn first_match_from(c: u8, max: Seq<u8>, used: Set<int>, j: int, end: int) -> Option<
    int,
>
    decreases end - j,
{
    if j >= end {
        None
    } else if max[j] == c && !used.contains(j) {
        Some(j)
    } else {
        first_match_from(c, max, used, j + 1, end)
    }
}

/// Match pairs `(i, j)` recorded after the first `i` positions of `min` have
/// been processed, in the order they were recorded.
pub open spec fn match_pairs(min: Seq<u8>, max: Seq<u8>, i: int) -> Seq<(int, int)>
    decreases i,
{
    if i <= 0 {
        Seq::empty()
    } else {
        let prev = match_pairs(min, max, i - 1);
        let r = win_range(max.len() as int);
        match first_match_from(
            min[i - 1],
            max,
            used_set(prev),
            win_start(i - 1, r),
            win_end(i - 1, r, max.len() as int),
        ) {
            Some(j) => prev.push((i - 1, j)),
            None => prev,
        }
    }
}

/// Total number of matches between the two inputs.
pub open spec fn match_count(min: Seq<u8>, max: Seq<u8>) -> int {
    match_pairs(min, max, min.len() as int).len() as int
}

/// The elements of `used` below `n`, listed in increasing order.
pub open spec fn consumed_upto(used: Set<int>, n: int) -> Seq<int>
    decreases n,
{
    if n <= 0 {
        Seq::empty()
    } else if used.contains(n - 1) {
        consumed_upto(used, n - 1).push(n - 1)
    } else {
        consumed_upto(used, n - 1)
    }
}

/// Number of the first `k` matches whose byte in `min` differs from the byte
/// of `max` at the k-th consumed position in left-to-right order.
pub open spec fn raw_mismatches(
    min: Seq<u8>,
    max: Seq<u8>,
    pairs: Seq<(int, int)>,
    js: Seq<int>,
    k: int,
) -> int
    decreases k,
{
    if k <= 0 {
        0
    } else {
        raw_mismatches(min, max, pairs, js, k - 1) + (if min[pairs[k - 1].0] != max[js[k - 1]] {
            1int
        } else {
            0int
        })
    }
}

/// Transposition count: half the raw mismatch count over all matches.
pub open spec fn transposition_count(min: Seq<u8>, max: Seq<u8>) -> int {
    let pairs = match_pairs(min, max, min.len() as int);
    let js = consumed_upto(used_set(pairs), max.len() as int);
    raw_mismatches(min, max, pairs, js, pairs.len() as int) / 2
}

/// Length of the common prefix counted from position `i`, capped at 4.
pub open spec fn prefix_len_from(min: Seq<u8>, max: Seq<u8>, i: int) -> int
    decreases 4 - i,
{
    if i >= 4 || i >= min.len() || i >= max.len() || min[i] != max[i] {
        i
    } else {
        prefix_len_from(min, max, i + 1)
    }
}

/// Length of the common prefix of the two inputs, capped at 4.
pub open spec fn common_prefix(min: Seq<u8>, max: Seq<u8>) -> int {
    prefix_len_from(min, max, 0)
}

/// Similarity of a nonempty shorter input `min` against a longer input `max`.
pub open spec fn spec_calculate(min: Seq<u8>, max: Seq<u8>) -> Similarity
    recommends
        0 < min.len() <= max.len(),
{
    let m = match_count(min, max);
    if m == 0 {
        Similarity::Disjoint
    } else {
        Similarity::Partial {
            matches: m as usize,
            transpositions: transposition_count(min, max) as usize,
            prefix_len: common_prefix(min, max) as usize,
            min_len: min.len() as usize,
            max_len: max.len() as usize,
        }
    }
}

/// Similarity of two byte strings: empty-input cases first, then the shorter
/// input is matched against the longer one.  Inputs of equal length keep
/// their given order.
pub open spec fn spec_score(a: Seq<u8>, b: Seq<u8>) -> Similarity {
    if a.len() == 0 && b.len() == 0 {
        Similarity::Identical
    } else if a.len() == 0 || b.len() == 0 {
        Similarity::Disjoint
    } else if a.len() > b.len() {
        spec_calculate(b, a)
    } else {
        spec_calculate(a, b)
    }
}

/// A successful window scan reports a position inside the scanned range that
/// holds the wanted byte and is still free.
proof fn lemma_first_match_from_props(c: u8, max: Seq<u8>, used: Set<int>, j: int, end: int)
    ensures
        first_match_from(c, max, used, j, end) matches Some(r) ==> j <= r < end && max[r] == c
            && !used.contains(r),
    decreases end - j,
{
    if j >= end {
    } else if max[j] == c && !used.contains(j) {
    } else {
        lemma_first_match_from_props(c, max, used, j + 1, end);
    }
}

/// Recording one more pair consumes exactly one more position.
pub proof fn lemma_used_set_push(pairs: Seq<(int, int)>, p: (int, int))
    ensures
        used_set(pairs.push(p)) =~= used_set(pairs).insert(p.1),
{
    assert forall|j: int| used_set(pairs.push(p)).contains(j) implies used_set(pairs).insert(
        p.1,
    ).contains(j) by {
        let k = choose|k: int| 0 <= k < pairs.push(p).len() && pairs.push(p)[k].1 == j;
        if k < pairs.len() {
            assert(pairs[k].1 == j);
        }
    }
    assert forall|j: int| used_set(pairs).insert(p.1).contains(j) implies used_set(
        pairs.push(p),
    ).contains(j) by {
        if used_set(pairs).contains(j) {
            let k = choose|k: int| 0 <= k < pairs.len() && pairs[k].1 == j;
            assert(pairs.push(p)[k].1 == j);
        } else {
            assert(pairs.push(p)[pairs.len() as int].1 == j);
        }
    }
}

/// The ordered listing below `n` only looks at membership below `n`.
proof fn lemma_consumed_upto_congruence(u1: Set<int>, u2: Set<int>, n: int)
    requires
        forall|x: int| 0 <= x < n ==> (u1.contains(x) <==> u2.contains(x)),
    ensures
        consumed_upto(u1, n) == consumed_upto(u2, n),
    decreases n,
{
    if n > 0 {
        lemma_consumed_upto_congruence(u1, u2, n - 1);
    }
}

/// Adding a fresh element below `n` lengthens the ordered listing by one.
proof fn lemma_consumed_upto_insert(used: Set<int>, n: int, j: int)
    requires
        0 <= j < n,
        !used.contains(j),
    ensures
        consumed_upto(used.insert(j), n).len() == consumed_upto(used, n).len() + 1,
    decreases n,
{
    let u2 = used.insert(j);
    if j == n - 1 {
        assert forall|x: int| 0 <= x < n - 1 implies (used.contains(x) <==> u2.contains(x)) by {}
        lemma_consumed_upto_congruence(used, u2, n - 1);
    } else {
        lemma_consumed_upto_insert(used, n - 1, j);
    }
}

/// A set with no element below `n` lists nothing.
proof fn lemma_consumed_upto_empty(used: Set<int>, n: int)
    requires
        forall|x: int| 0 <= x < n ==> !used.contains(x),
    ensures
        consumed_upto(used, n).len() == 0,
    decreases n,
{
    if n > 0 {
        lemma_consumed_upto_empty(used, n - 1);
    }
}

/// The ordered listing below `n` is strictly increasing, stays inside
/// `[0, n)`, and holds exactly the elements of `used` below `n`.
pub proof fn lemma_consumed_upto_props(used: Set<int>, n: int)
    ensures
        forall|k: int|
            0 <= k < consumed_upto(used, n).len() ==> 0 <= #[trigger] consumed_upto(used, n)[k] < n
                && used.contains(consumed_upto(used, n)[k]),
        forall|k1: int, k2: int|
            0 <= k1 < k2 < consumed_upto(used, n).len() ==> #[trigger] consumed_upto(used, n)[k1]
                < #[trigger] consumed_upto(used, n)[k2],
        forall|j: int|
            0 <= j < n && used.contains(j) ==> exists|k: int|
                0 <= k < consumed_upto(used, n).len() && #[trigger] consumed_upto(used, n)[k] == j,
    decreases n,
{
    if n > 0 {
        lemma_consumed_upto_props(used, n - 1);
        let prev = consumed_upto(used, n - 1);
        let cur = consumed_upto(used, n);
        assert forall|j: int|
            0 <= j < n && used.contains(j) implies exists|k: int|
            0 <= k < cur.len() && #[trigger] cur[k] == j by {
            if j < n - 1 {
                let k = choose|k: int| 0 <= k < prev.len() && prev[k] == j;
                assert(cur[k] == j);
            } else {
                assert(cur[cur.len() - 1] == j);
            }
        }
    }
}

/// Structure of the pairs recorded after `i` positions of `min`: no more
/// pairs than positions, each pair inside the two inputs, and as many
/// consumed positions of `max` as pairs.
pub proof fn lemma_match_pairs_props(min: Seq<u8>, max: Seq<u8>, i: int)
    requires
        0 <= i <= min.len() <= max.len(),
    ensures
        match_pairs(min, max, i).len() <= i,
        forall|k: int|
            0 <= k < match_pairs(min, max, i).len() ==> 0 <= (
            #[trigger] match_pairs(min, max, i)[k]).0 < i && 0 <= match_pairs(min, max, i)[k].1
                < max.len(),
        consumed_upto(used_set(match_pairs(min, max, i)), max.len() as int).len() == match_pairs(
            min,
            max,
            i,
        ).len(),
    decreases i,
{
    if i <= 0 {
        assert forall|x: int|
            0 <= x < max.len() implies !used_set(match_pairs(min, max, i)).contains(x) by {}
        lemma_consumed_upto_empty(used_set(match_pairs(min, max, i)), max.len() as int);
    } else {
        lemma_match_pairs_props(min, max, i - 1);
        let prev = match_pairs(min, max, i - 1);
        let r = win_range(max.len() as int);
        let start = win_start(i - 1, r);
        let end = win_end(i - 1, r, max.len() as int);
        lemma_first_match_from_props(min[i - 1], max, used_set(prev), start, end);
        match first_match_from(min[i - 1], max, used_set(prev), start, end) {
            Some(j) => {
                lemma_used_set_push(prev, (i - 1, j));
                lemma_consumed_upto_insert(used_set(prev), max.len() as int, j);
                lemma_consumed_upto_congruence(
                    used_set(prev).insert(j),
                    used_set(prev.push((i - 1, j))),
                    max.len() as int,
                );
            },
            None => {},
        }
    }
}

/// At most one mismatch is counted per match.
pub proof fn lemma_raw_mismatches_le(
    min: Seq<u8>,
    max: Seq<u8>,
    pairs: Seq<(int, int)>,
    js: Seq<int>,
    k: int,
)
    ensures
        0 <= raw_mismatches(min, max, pairs, js, k) <= (if k >= 0 {
            k
        } else {
            0
        }),
    decreases k,
{
    if k > 0 {
        lemma_raw_mismatches_le(min, max, pairs, js, k - 1);
    }
}

/// The common-prefix length never exceeds the cap of 4 nor either input.
pub proof fn lemma_prefix_len_bounds(min: Seq<u8>, max: Seq<u8>, i: int)
    requires
        0 <= i <= 4,
        i <= min.len(),
        i <= max.len(),
    ensures
        i <= prefix_len_from(min, max, i) <= 4,
        prefix_len_from(min, max, i) <= min.len(),
        prefix_len_from(min, max, i) <= max.len(),
    decreases 4 - i,
{
    if !(i >= 4 || i >= min.len() || i >= max.len() || min[i] != max[i]) {
        lemma_prefix_len_bounds(min, max, i + 1);
    }
}

/// Buffer length after a request for `required` slots on a buffer of
/// `current` slots: unchanged when large enough, else doubled (saturating at
/// `usize::MAX`), or the exact request when doubling still falls short.
pub open spec fn grown_capacity(current: int, required: int) -> int {
    let doubled = if 2 * current <= usize::MAX {
        2 * current
    } else {
        usize::MAX as int
    };
    if required <= current {
        current
    } else if doubled >= required {
        doubled
    } else {
        required
    }
}

} // verus!
