//! Turning a root visit distribution into a played move: sampled in
//! proportion to the visit counts during the opening, by plain argmax
//! afterwards. Both branches are pinned to spec-level functions, so a
//! game replayed with the same seed picks the same moves.
use vstd::prelude::*;

use crate::rng::SeededRng;
use crate::rng::spec_xorshift64;

verus! {

/// The total weight of the first `k` entries.
pub open spec fn weights_total(w: Seq<u64>, k: int) -> int
    decreases k,
{
    if k <= 0 {
        0
    } else {
        weights_total(w, k - 1) + w[k - 1]
    }
}

/// The index the weighted draw `r` falls into, scanning from the front:
/// the first index whose cumulative weight exceeds `r`.
pub open spec fn weighted_pick(w: Seq<u64>, i: int, r: int) -> int
    decreases w.len() - i,
{
    if i + 1 >= w.len() {
        i
    } else if r < w[i] {
        i
    } else {
        weighted_pick(w, i + 1, r - w[i])
    }
}

/// The index of the first maximal weight.
pub open spec fn first_argmax_weights(w: Seq<u64>, i: int) -> int
    decreases w.len() - i,
{
    if i + 1 >= w.len() {
        i
    } else {
        let rest = first_argmax_weights(w, i + 1);
        if w[i] >= w[rest] {
            i
        } else {
            rest
        }
    }
}

/// The first-argmax lies in `[i, len)` and dominates the suffix.
pub proof fn lemma_first_argmax_weights_props(w: Seq<u64>, i: int)
    requires
        0 <= i < w.len(),
    ensures
        i <= first_argmax_weights(w, i) < w.len(),
        forall|k: int| i <= k < w.len() ==> (#[trigger] w[k]) <= w[first_argmax_weights(w, i)],
        forall|k: int|
            i <= k < first_argmax_weights(w, i) ==> (#[trigger] w[k]) < w[first_argmax_weights(
                w,
                i,
            )],
    decreases w.len() - i,
{
    if i + 1 < w.len() {
        lemma_first_argmax_weights_props(w, i + 1);
    }
}

/// Any index with the first-argmax properties is the first argmax.
pub proof fn lemma_first_argmax_weights_unique(w: Seq<u64>, b: int)
    requires
        1 <= w.len(),
        0 <= b < w.len(),
        forall|k: int| 0 <= k < w.len() ==> w[k] <= w[b],
        forall|k: int| 0 <= k < b ==> w[k] < w[b],
    ensures
        b == first_argmax_weights(w, 0),
{
    lemma_first_argmax_weights_props(w, 0);
    let f = first_argmax_weights(w, 0);
    if b < f {
        assert(w[b] < w[f]);
        assert(w[f] <= w[b]);
    } else if f < b {
        assert(w[f] < w[b]);
        assert(w[b] <= w[f]);
    }
}

/// Picks a move index from a visit distribution.
///
/// Before `inf_temp_move_count` moves have been played the index is
/// sampled with probability proportional to its weight (one fresh draw
/// from the generator); from that move on it is the first index of
/// maximal weight.
#[derive(Clone, Copy, PartialEq, Eq, Structural, Debug)]
pub struct MoveSelector {
    pub inf_temp_move_count: u32,
}

impl MoveSelector {
    /// Weighted sampling: the first index whose cumulative weight
    /// exceeds the draw. Runs from entry `i` with remaining draw `r`.
    fn pick_from(w: &Vec<u64>, i: usize, r: u64) -> (idx: usize)
        requires
            i < w@.len(),
            (r as int) < weights_total(w@, w@.len() as int) - weights_total(
                w@,
                i as int,
            ),
        ensures
            idx == weighted_pick(w@, i as int, r as int),
            i <= idx < w@.len(),
            w@[idx as int] > 0,
        decreases w@.len() - i,
    {
        if i >= w.len() - 1 {
            proof {
                assert(weights_total(w@, w@.len() as int) == weights_total(
                    w@,
                    i as int,
                ) + w@[i as int]);
            }
            i
        } else if r < w[i] {
            i
        } else {
            proof {
                assert(weights_total(w@, i as int + 1) == weights_total(
                    w@,
                    i as int,
                ) + w@[i as int]);
            }
            Self::pick_from(w, i + 1, r - w[i])
        }
    }

    /// Select a move index from the weights `policy` for move number
    /// `move_count`, drawing randomness from `rng` only in the sampling
    /// phase. The result is a deterministic function of the inputs.
    pub fn select(&self, move_count: u32, policy: &Vec<u64>, rng: &mut SeededRng) -> (idx: usize)
        requires
            policy@.len() >= 1,
            move_count < self.inf_temp_move_count ==> 1 <= weights_total(
                policy@,
                policy@.len() as int,
            ) <= u64::MAX,
        ensures
            idx < policy@.len(),
            move_count >= self.inf_temp_move_count ==> idx == first_argmax_weights(policy@, 0)
                && *final(rng) == *old(rng),
            move_count < self.inf_temp_move_count ==> idx == weighted_pick(
                policy@,
                0,
                spec_xorshift64(old(rng).state) as int % weights_total(
                    policy@,
                    policy@.len() as int,
                ),
            ) && policy@[idx as int] > 0 && final(rng).state == spec_xorshift64(old(rng).state),
    {
        if move_count >= self.inf_temp_move_count {
            // argmax play: first index of maximal weight
            let mut best: usize = 0;
            let mut i: usize = 1;
            while i < policy.len()
                invariant
                    best < i <= policy@.len(),
                    forall|k: int| 0 <= k < i ==> policy@[k] <= policy@[best as int],
                    forall|k: int| 0 <= k < best ==> policy@[k] < policy@[best as int],
                decreases policy@.len() - i,
            {
                if policy[i] > policy[best] {
                    best = i;
                }
                i = i + 1;
            }
            proof {
                lemma_first_argmax_weights_unique(policy@, best as int);
            }
            best
        } else {
            let total: u64 = Self::total(policy);
            let draw: u64 = rng.next_below(total);
            proof {
                assert(weights_total(policy@, 0int) == 0);
            }
            Self::pick_from(policy, 0, draw)
        }
    }

    /// The summed weight of the whole vector.
    fn total(w: &Vec<u64>) -> (t: u64)
        requires
            0 <= weights_total(w@, w@.len() as int) <= u64::MAX,
        ensures
            t == weights_total(w@, w@.len() as int),
    {
        proof {
            lemma_weights_total_nonneg(w@, w@.len() as int);
        }
        let mut t: u64 = 0;
        let mut i: usize = 0;
        while i < w.len()
            invariant
                i <= w@.len(),
                t == weights_total(w@, i as int),
                0 <= weights_total(w@, w@.len() as int) <= u64::MAX,
            decreases w@.len() - i,
        {
            proof {
                lemma_weights_total_monotonic(w@, i as int + 1, w@.len() as int);
                lemma_weights_total_nonneg(w@, i as int);
            }
            t = t + w[i];
            i = i + 1;
        }
        t
    }
}

/// Partial weight totals are non-negative.
pub proof fn lemma_weights_total_nonneg(w: Seq<u64>, k: int)
    requires
        k <= w.len(),
    ensures
        weights_total(w, k) >= 0,
    decreases k,
{
    if k > 0 {
        lemma_weights_total_nonneg(w, k - 1);
    }
}

/// Weight totals grow with the prefix length.
pub proof fn lemma_weights_total_monotonic(w: Seq<u64>, a: int, b: int)
    requires
        0 <= a <= b <= w.len(),
    ensures
        weights_total(w, a) <= weights_total(w, b),
    decreases b - a,
{
    if a < b {
        lemma_weights_total_monotonic(w, a, b - 1);
    }
}

} // verus!
