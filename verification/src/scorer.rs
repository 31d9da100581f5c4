//! The executable scorer and its correctness proofs.

use crate::model::{
    common_prefix, consumed_upto, first_match_from, grown_capacity, lemma_consumed_upto_props,
    lemma_match_pairs_props, lemma_prefix_len_bounds, lemma_used_set_push, match_count,
    match_pairs, prefix_len_from, raw_mismatches, spec_calculate, spec_score, transposition_count,
    used_set, win_end, win_range, win_start, Similarity,
};
use vstd::string::StringSliceAdditionalSpecFns;
use vstd::prelude::*;

verus! {

/// A Jaro-Winkler scorer that reuses one scratch buffer across calls to keep
/// heap allocations to a minimum.
///
/// The buffer holds the per-call match bookkeeping: the first `min_len` slots
/// record, in encounter order, the positions of the shorter input that found
/// a match, and the next `max_len` slots flag the consumed positions of the
/// longer input.  Between calls every slot is back at the sentinel `-1`, so
/// no clearing pass is needed at the start of a call; the buffer only ever
/// grows, never shrinks.
///
/// One call needs exclusive access to the buffer, so a scorer cannot be
/// shared across threads without outside synchronization; use one scorer per
/// thread instead of locking.
pub struct JaroWinkler {
    indices: Vec<isize>,
}

impl JaroWinkler {
    /// Number of scratch slots currently held.
    pub closed spec fn capacity(&self) -> nat {
        self.indices@.len()
    }

    /// The scratch buffer is in its resting state: every slot holds the
    /// sentinel `-1`.  Constructors establish this and `apply` restores it.
    pub closed spec fn wf(&self) -> bool {
        forall|k: int| 0 <= k < self.indices@.len() ==> self.indices@[k] == -1
    }

    /// Creates a scorer with the default scratch capacity of 128 slots.
    pub fn new() -> (s: Self)
        ensures
            s.wf(),
            s.capacity() == 128,
    {
        JaroWinkler::with_size(128)
    }

    /// Creates a scorer whose scratch buffer starts with `size` slots.
    pub fn with_size(size: usize) -> (s: Self)
        ensures
            s.wf(),
            s.capacity() == size,
    {
        JaroWinkler { indices: fill_sentinel(size) }
    }

    /// Grows the scratch buffer so that at least `capacity` slots are
    /// available: to double the current size, or to `capacity` itself when
    /// doubling falls short.  A large enough buffer is kept as it is; growth
    /// reallocates and refills with the sentinel.
    fn ensure_capacity(&mut self, capacity: usize)
        requires
            old(self).wf(),
        ensures
            final(self).wf(),
            final(self).capacity() == grown_capacity(
                old(self).capacity() as int,
                capacity as int,
            ),
            final(self).capacity() >= capacity,
            final(self).capacity() >= old(self).capacity(),
    {
        let current = self.indices.len();
        if capacity <= current {
            return;
        }
        let doubled = if current <= usize::MAX / 2 {
            current * 2
        } else {
            usize::MAX
        };
        let new_capacity = if doubled < capacity {
            capacity
        } else {
            doubled
        };
        self.indices = fill_sentinel(new_capacity);
    }

    /// Scores two strings, treated as raw byte sequences, and returns the
    /// exact integer quantities the Jaro-Winkler score is made of.
    ///
    /// Both inputs empty means identical; exactly one empty means no match.
    /// Otherwise the scratch buffer is grown to fit both inputs, the shorter
    /// is matched against the longer (equal lengths keep the given order),
    /// and the buffer ends back in its resting state, ready for the next
    /// call.  The result depends on the two inputs alone, never on how large
    /// the buffer happened to be.
    pub fn apply(&mut self, s1: &str, s2: &str) -> (r: Similarity)
        requires
            old(self).wf(),
            s1.spec_bytes().len() + s2.spec_bytes().len() <= usize::MAX,
        ensures
            final(self).wf(),
            final(self).capacity() >= old(self).capacity(),
            final(self).capacity() as int == (if s1.spec_bytes().len() == 0
                || s2.spec_bytes().len() == 0 {
                old(self).capacity() as int
            } else {
                grown_capacity(
                    old(self).capacity() as int,
                    (s1.spec_bytes().len() + s2.spec_bytes().len()) as int,
                )
            }),
            r == spec_score(s1.spec_bytes(), s2.spec_bytes()),
    {
        let b1 = s1.as_bytes();
        let b2 = s2.as_bytes();
        if b1.len() == 0 && b2.len() == 0 {
            return Similarity::Identical;
        }
        if b1.len() == 0 || b2.len() == 0 {
            return Similarity::Disjoint;
        }
        self.ensure_capacity(b1.len() + b2.len());
        if b1.len() > b2.len() {
            self.calculate(b2, b1)
        } else {
            self.calculate(b1, b2)
        }
    }

    /// Scores a nonempty shorter input against a longer one on the scratch
    /// buffer, leaving every slot back at the sentinel.
    fn calculate(&mut self, min: &[u8], max: &[u8]) -> (r: Similarity)
        requires
            old(self).wf(),
            0 < min@.len() <= max@.len(),
            min@.len() + max@.len() <= old(self).capacity(),
        ensures
            final(self).wf(),
            final(self).capacity() == old(self).capacity(),
            r == spec_calculate(min@, max@),
    {
        let m = matches(&mut self.indices, min, max);
        if m == 0 {
            proof {
                lemma_buffer_all_sentinel(
                    self.indices@,
                    match_pairs(min@, max@, min@.len() as int),
                    min@.len() as int,
                    max@.len() as int,
                );
            }
            return Similarity::Disjoint;
        }
        let t = transpositions(&mut self.indices, min, max, m);
        let p = prefix(min, max);
        proof {
            lemma_match_pairs_props(min@, max@, min@.len() as int);
            lemma_prefix_len_bounds(min@, max@, 0);
        }
        Similarity::Partial {
            matches: m,
            transpositions: t,
            prefix_len: p,
            min_len: min.len(),
            max_len: max.len(),
        }
    }
}

impl Default for JaroWinkler {
    /// A scorer with no scratch slots at all; the first call grows the
    /// buffer as needed.
    fn default() -> (s: Self)
        ensures
            s.wf(),
            s.capacity() == 0,
    {
        JaroWinkler { indices: Vec::new() }
    }
}

/// A buffer that went through the matching pass without recording any pair
/// still holds the sentinel everywhere.
proof fn lemma_buffer_all_sentinel(
    buf: Seq<isize>,
    pairs: Seq<(int, int)>,
    min_len: int,
    max_len: int,
)
    requires
        buffer_mid(buf, pairs, min_len, max_len),
        pairs.len() == 0,
        0 <= min_len,
        0 <= max_len,
        min_len + max_len <= buf.len(),
    ensures
        forall|k: int| 0 <= k < buf.len() ==> buf[k] == -1,
{
    assert forall|k: int| 0 <= k < buf.len() implies buf[k] == -1 by {
        if min_len <= k < min_len + max_len {
            assert(!used_set(pairs).contains(k - min_len));
            assert(buf[min_len + (k - min_len)] == -1isize);
        }
    }
}

/// Length of the common prefix of the two inputs, byte by byte from the
/// start, stopping at the first mismatch or after 4 bytes, whichever comes
/// first.
#[verifier::loop_isolation(false)]
fn prefix(min: &[u8], max: &[u8]) -> (p: usize)
    requires
        min@.len() <= max@.len(),
    ensures
        p as int == common_prefix(min@, max@),
{
    let bound = if min.len() < 4 {
        min.len()
    } else {
        4
    };
    let mut i: usize = 0;
    while i < bound && min[i] == max[i]
        invariant
            i <= bound,
            common_prefix(min@, max@) == prefix_len_from(min@, max@, i as int),
        decreases bound - i,
    {
        i += 1;
    }
    i
}

/// The scratch buffer as it stands between the matching pass and the
/// transposition pass, for the recorded pairs: the first slots hold the
/// matched positions of `min` in encounter order, the `max_len` slots after
/// position `min_len` flag each consumed position of `max` with 0, and every
/// other slot still holds the sentinel.
spec fn buffer_mid(
    buf: Seq<isize>,
    pairs: Seq<(int, int)>,
    min_len: int,
    max_len: int,
) -> bool {
    &&& forall|k: int| 0 <= k < pairs.len() ==> (#[trigger] buf[k]) as int == pairs[k].0
    &&& forall|k: int| pairs.len() <= k < min_len ==> #[trigger] buf[k] == -1
    &&& forall|j: int|
        0 <= j < max_len ==> #[trigger] buf[min_len + j] == (if used_set(pairs).contains(j) {
            0isize
        } else {
            -1isize
        })
    &&& forall|k: int| min_len + max_len <= k < buf.len() ==> #[trigger] buf[k] == -1
}

/// The matching pass: for each position `i` of `min`, scan the bounded
/// window of `max` left to right and consume the first unconsumed position
/// holding the same byte.  Records the matched positions of `min` in the
/// first buffer slots and flags each consumed position of `max` with 0.
#[verifier::loop_isolation(false)]
fn matches(indices: &mut Vec<isize>, min: &[u8], max: &[u8]) -> (m: usize)
    requires
        0 < min@.len() <= max@.len(),
        min@.len() + max@.len() <= old(indices)@.len(),
        forall|k: int| 0 <= k < old(indices)@.len() ==> old(indices)@[k] == -1,
    ensures
        final(indices)@.len() == old(indices)@.len(),
        m as int == match_count(min@, max@),
        buffer_mid(
            final(indices)@,
            match_pairs(min@, max@, min@.len() as int),
            min@.len() as int,
            max@.len() as int,
        ),
{
    let min_len = min.len();
    let max_len = max.len();
    let buf_len = indices.len();
    let half = max_len / 2;
    let range = if half >= 1 {
        half - 1
    } else {
        0
    };
    assert(range as int == win_range(max_len as int));
    // both regions fit the buffer, so every recorded position fits in isize
    assert(min_len as int <= isize::MAX as int);
    let mut m: usize = 0;
    let mut i: usize = 0;
    while i < min_len
        invariant
            i <= min_len,
            m as int == match_pairs(min@, max@, i as int).len(),
            indices@.len() == buf_len,
            buffer_mid(
                indices@,
                match_pairs(min@, max@, i as int),
                min_len as int,
                max_len as int,
            ),
        decreases min_len - i,
    {
        let ghost pairs = match_pairs(min@, max@, i as int);
        let ghost used = used_set(pairs);
        proof {
            lemma_match_pairs_props(min@, max@, i as int);
        }
        let c1 = min[i];
        let start = if i > range {
            i - range
        } else {
            0
        };
        assert(i + range + 1 <= min_len + max_len);
        let reach = i + range + 1;
        let end = if max_len < reach {
            max_len
        } else {
            reach
        };
        assert(start as int == win_start(i as int, range as int));
        assert(end as int == win_end(i as int, range as int, max_len as int));
        let mut j = start;
        let mut found = false;
        while j < end && !found
            invariant
                start <= j <= end,
                end <= max_len,
                indices@.len() == buf_len,
                !found ==> first_match_from(c1, max@, used, start as int, end as int)
                    == first_match_from(c1, max@, used, j as int, end as int),
                !found ==> m as int == pairs.len(),
                !found ==> buffer_mid(indices@, pairs, min_len as int, max_len as int),
                found ==> j < end,
                found ==> first_match_from(c1, max@, used, start as int, end as int) == Some(
                    j as int,
                ),
                found ==> m as int == pairs.len() + 1,
                found ==> buffer_mid(
                    indices@,
                    pairs.push((i as int, j as int)),
                    min_len as int,
                    max_len as int,
                ),
            decreases end - j, (if found {
                0int
            } else {
                1int
            }),
        {
            if max[j] == c1 && indices[min_len + j] != 0 {
                proof {
                    assert(!used.contains(j as int));
                    assert(first_match_from(c1, max@, used, j as int, end as int) == Some(
                        j as int,
                    ));
                }
                indices[m] = i as isize;
                indices[min_len + j] = 0;
                m += 1;
                found = true;
                proof {
                    lemma_used_set_push(pairs, (i as int, j as int));
                    assert(buffer_mid(
                        indices@,
                        pairs.push((i as int, j as int)),
                        min_len as int,
                        max_len as int,
                    ));
                }
            } else {
                proof {
                    if indices@[min_len + j] == 0 {
                        assert(used.contains(j as int));
                    }
                    assert(first_match_from(c1, max@, used, j as int, end as int)
                        == first_match_from(c1, max@, used, j as int + 1, end as int));
                }
                j += 1;
            }
        }
        proof {
            if found {
                assert(match_pairs(min@, max@, i as int + 1) == pairs.push((i as int, j as int)));
            } else {
                assert(j == end);
                assert(first_match_from(c1, max@, used, end as int, end as int) is None);
                assert(match_pairs(min@, max@, i as int + 1) == pairs);
            }
        }
        i += 1;
    }
    m
}

/// The transposition pass: pairs the k-th recorded match of `min` with the
/// k-th consumed position of `max` in left-to-right order, counts the
/// pairings whose bytes differ, and halves that raw count.  As a side effect
/// every touched slot is reset to the sentinel, leaving the whole buffer
/// ready for the next call without a separate clearing pass.
#[verifier::loop_isolation(false)]
fn transpositions(indices: &mut Vec<isize>, min: &[u8], max: &[u8], m: usize) -> (t: usize)
    requires
        0 < min@.len() <= max@.len(),
        min@.len() + max@.len() <= old(indices)@.len(),
        m as int == match_count(min@, max@),
        buffer_mid(
            old(indices)@,
            match_pairs(min@, max@, min@.len() as int),
            min@.len() as int,
            max@.len() as int,
        ),
    ensures
        final(indices)@.len() == old(indices)@.len(),
        forall|k: int| 0 <= k < final(indices)@.len() ==> final(indices)@[k] == -1,
        t as int == transposition_count(min@, max@),
{
    let ghost pairs = match_pairs(min@, max@, min@.len() as int);
    let ghost used = used_set(pairs);
    let ghost js = consumed_upto(used, max@.len() as int);
    proof {
        lemma_match_pairs_props(min@, max@, min@.len() as int);
        lemma_consumed_upto_props(used, max@.len() as int);
        assert(js.len() == m);
    }
    let min_len = min.len();
    let max_len = max.len();
    let buf_len = indices.len();
    let mut t_raw: usize = 0;
    let mut max_index: usize = 0;
    let mut k: usize = 0;
    while k < m
        invariant
            k <= m,
            t_raw as int == raw_mismatches(min@, max@, pairs, js, k as int),
            t_raw <= k,
            indices@.len() == buf_len,
            max_index as int == (if k == 0 {
                0int
            } else {
                js[k as int - 1] + 1
            }),
            forall|idx: int| 0 <= idx < k ==> #[trigger] indices@[idx] == -1,
            forall|idx: int|
                k <= idx < pairs.len() ==> (#[trigger] indices@[idx]) as int == pairs[idx].0,
            forall|idx: int| pairs.len() <= idx < min_len ==> #[trigger] indices@[idx] == -1,
            forall|j: int|
                0 <= j < max_len ==> #[trigger] indices@[min_len + j] == (if exists|idx: int|
                    k <= idx < js.len() && js[idx] == j {
                    0isize
                } else {
                    -1isize
                }),
            forall|kk: int| min_len + max_len <= kk < buf_len ==> #[trigger] indices@[kk] == -1,
        decreases m - k,
    {
        proof {
            assert(0 <= js[k as int] < max_len);
            assert(exists|idx: int| k <= idx < js.len() && js[idx] == js[k as int]);
        }
        while indices[min_len + max_index] != 0
            invariant
                max_index as int <= js[k as int],
            decreases js[k as int] - max_index,
        {
            proof {
                if max_index as int == js[k as int] {
                    assert(exists|idx: int| k <= idx < js.len() && js[idx] == js[k as int]);
                    assert(indices@[min_len + js[k as int]] == 0isize);
                }
            }
            max_index += 1;
        }
        proof {
            let hit = choose|idx: int| k <= idx < js.len() && js[idx] == max_index as int;
            assert(js[k as int] <= js[hit]);
            assert(max_index as int == js[k as int]);
        }
        let min_index_signed = indices[k];
        proof {
            assert((min_index_signed as int) == pairs[k as int].0);
            assert(0 <= pairs[k as int].0 < min_len);
        }
        let min_index = min_index_signed as usize;
        if min[min_index] != max[max_index] {
            t_raw += 1;
        }
        indices[k] = -1;
        indices[min_len + max_index] = -1;
        let ghost prev_k = k as int;
        max_index += 1;
        k += 1;
        proof {
            assert(t_raw as int == raw_mismatches(min@, max@, pairs, js, k as int));
            assert forall|j: int|
                0 <= j < max_len implies #[trigger] indices@[min_len + j] == (if exists|idx: int|
                k <= idx < js.len() && js[idx] == j {
                0isize
            } else {
                -1isize
            }) by {
                if j == js[prev_k] {
                    assert forall|idx: int| k <= idx < js.len() implies js[idx] != j by {
                        assert(js[prev_k] < js[idx]);
                    }
                } else {
                    if exists|idx: int| prev_k <= idx < js.len() && js[idx] == j {
                        let idx = choose|idx: int| prev_k <= idx < js.len() && js[idx] == j;
                        assert(idx != prev_k);
                        assert(k <= idx < js.len() && js[idx] == j);
                    }
                }
            }
        }
    }
    proof {
        assert forall|kk: int| 0 <= kk < indices@.len() implies indices@[kk] == -1 by {
            if min_len <= kk < min_len + max_len {
                assert(indices@[min_len as int + (kk - min_len)] == -1isize);
            }
        }
    }
    t_raw / 2
}

/// A vector of `n` slots, each holding the sentinel `-1`.
fn fill_sentinel(n: usize) -> (v: Vec<isize>)
    ensures
        v@.len() == n,
        forall|k: int| 0 <= k < n ==> v@[k] == -1,
{
    let mut v: Vec<isize> = Vec::new();
    let mut i: usize = 0;
    while i < n
        invariant
            i <= n,
            v@.len() == i,
            forall|k: int| 0 <= k < i ==> v@[k] == -1,
        decreases n - i,
    {
        v.push(-1);
        i += 1;
    }
    v
}

} // verus!
