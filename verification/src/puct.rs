//! The PUCT selection rule in fixed-point arithmetic.
//!
//! For a child `c` of a node with `Np` visits the real-valued rule scores
//! `Q(c) + c_puct * P(c) * sqrt(Np) / (1 + N(c))`, where the exploitation
//! term `Q` discounts walks that are still in flight through their virtual
//! loss. Here everything is scaled by [`VALUE_SCALE`] and shifted so all
//! divisions run on non-negative integers: the score below is
//! `(Q + 1) + U`, scaled — a constant shift that leaves the argmax (and so
//! the walk) unchanged.
use vstd::prelude::*;

use crate::VALUE_SCALE;
use crate::board::Board;
use crate::tree::Node;
use crate::tree::Tree;

verus! {

/// The largest accepted exploration weight (fixed point, so `1024.0`);
/// keeping it small bounds every intermediate product of the score.
pub const MAX_EXPLORATION_WEIGHT: i64 = 0x400_0000;

/// `r` is the integer square root of `n`.
pub open spec fn is_isqrt(n: int, r: int) -> bool {
    0 <= r && r * r <= n && n < (r + 1) * (r + 1)
}

/// The integer square root as a spec-level function.
pub open spec fn spec_isqrt(n: int) -> int {
    choose|r: int| is_isqrt(n, r)
}

/// Integer square roots are unique.
pub proof fn lemma_isqrt_unique(n: int, r1: int, r2: int)
    requires
        is_isqrt(n, r1),
        is_isqrt(n, r2),
    ensures
        r1 == r2,
{
    if r1 < r2 {
        assert((r1 + 1) * (r1 + 1) <= r2 * r2) by (nonlinear_arith)
            requires
                0 <= r1,
                0 <= r2,
                r1 < r2,
        ;
    }
    if r2 < r1 {
        assert((r2 + 1) * (r2 + 1) <= r1 * r1) by (nonlinear_arith)
            requires
                0 <= r1,
                0 <= r2,
                r2 < r1,
        ;
    }
}

/// The integer square root of `n`, by binary search.
pub fn isqrt(n: u128) -> (r: u128)
    ensures
        is_isqrt(n as int, r as int),
        r == spec_isqrt(n as int),
        r <= 0x1_0000_0000_0000_0000u128,
{
    let mut lo: u128 = 0;
    let mut hi: u128 = 0x1_0000_0000_0000_0000;
    proof {
        assert((0x1_0000_0000_0000_0000 as int) * (0x1_0000_0000_0000_0000 as int) > u128::MAX
            as int) by (nonlinear_arith);
    }
    while lo + 1 < hi
        invariant
            lo < hi <= 0x1_0000_0000_0000_0000u128,
            lo * lo <= n,
            (n as int) < (hi as int) * (hi as int),
        decreases hi - lo,
    {
        let mid: u128 = lo + (hi - lo) / 2;
        proof {
            assert((mid as int) * (mid as int) <= u128::MAX as int) by (nonlinear_arith)
                requires
                    mid < 0x1_0000_0000_0000_0000u128,
            ;
        }
        if mid * mid <= n {
            lo = mid;
        } else {
            hi = mid;
        }
    }
    proof {
        assert(is_isqrt(n as int, lo as int));
        let w = spec_isqrt(n as int);
        assert(is_isqrt(n as int, w));
        lemma_isqrt_unique(n as int, lo as int, w);
    }
    lo
}

/// The shifted exploitation term of the PUCT score, scaled by
/// [`VALUE_SCALE`]: `(W - vl + m) * VALUE_SCALE / m` with
/// `m = max(1, N + vl)`, which is `(Q + 1)` scaled.
pub open spec fn spec_exploit<B: Board>(n: Node<B>) -> int {
    let m: int = if n.visits + n.virtual_loss >= 1 {
        n.visits + n.virtual_loss
    } else {
        1
    };
    (n.total_value - n.virtual_loss * VALUE_SCALE + m * VALUE_SCALE) / m
}

/// The exploration term of the PUCT score, scaled by [`VALUE_SCALE`]:
/// `c_puct * P * sqrt(Np) / (1 + N)` in fixed point.
pub open spec fn spec_explore<B: Board>(n: Node<B>, parent_visits: u64, exploration_weight: i64) -> int {
    exploration_weight * n.policy * spec_isqrt(
        parent_visits * VALUE_SCALE * VALUE_SCALE,
    ) / ((1 + n.visits) * VALUE_SCALE * VALUE_SCALE)
}

/// The full PUCT score of a child, scaled by [`VALUE_SCALE`] and shifted
/// by one so that it is non-negative whenever the node's statistics are
/// coherent.
pub open spec fn spec_puct<B: Board>(n: Node<B>, parent_visits: u64, exploration_weight: i64) -> int {
    spec_exploit(n) + spec_explore(n, parent_visits, exploration_weight)
}

/// The largest visit count the fixed-point score accepts; iteration
/// counts are capped here so no intermediate product can overflow.
pub const MAX_VISITS: u64 = 0x4000_0000_0000_0000;

/// Statistics of one node that keep the fixed-point score well-defined:
/// the node holds at most one virtual loss per visit, and the summed
/// value is bounded by the settled visit count.
pub open spec fn puct_input_ok<B: Board>(n: Node<B>) -> bool {
    &&& n.policy <= VALUE_SCALE
    &&& n.virtual_loss <= n.visits
    &&& n.visits <= MAX_VISITS
    &&& -((n.visits - n.virtual_loss) * VALUE_SCALE) <= n.total_value
    &&& n.total_value <= (n.visits - n.virtual_loss) * VALUE_SCALE
}

impl<B: Board> Node<B> {
    /// The PUCT score of this node as a child of a node with
    /// `parent_visits` visits. The result is the exact integer value of
    /// [`spec_puct`], so selection by this score is deterministic.
    pub fn uct(&self, exploration_weight: i64, parent_visits: u64) -> (r: i128)
        requires
            puct_input_ok(*self),
            0 < exploration_weight <= MAX_EXPLORATION_WEIGHT,
            parent_visits <= MAX_VISITS,
        ensures
            r == spec_puct(*self, parent_visits, exploration_weight),
            0 <= r,
    {
        let ghost vis: int = self.visits as int;
        let ghost vl: int = self.virtual_loss as int;
        let ghost s: int = VALUE_SCALE as int;
        proof {
            assert(s == 65536);
            assert((vis - vl) * s <= 0x4000_0000_0000_0000 * 65536 && 0 <= (vis - vl) * s)
                by (nonlinear_arith)
                requires
                    0 <= vis - vl <= 0x4000_0000_0000_0000,
                    s == 65536,
            ;
        }
        let s128: i128 = VALUE_SCALE as i128;
        let m64: u64 = if self.visits >= 1 || self.virtual_loss >= 1 {
            self.visits + self.virtual_loss
        } else {
            1
        };
        proof {
            assert((m64 as int) * s <= 2 * 0x4000_0000_0000_0000 * 65536 && 0 <= (m64 as int) * s
                && vl * s <= 0x4000_0000_0000_0000 * 65536 && 0 <= vl * s) by (nonlinear_arith)
                requires
                    0 <= m64 as int <= 2 * 0x4000_0000_0000_0000,
                    0 <= vl <= 0x4000_0000_0000_0000,
                    s == 65536,
            ;
        }
        let numer: i128 = self.total_value - (self.virtual_loss as i128) * s128 + (m64 as i128)
            * s128;
        proof {
            assert(numer >= 0) by (nonlinear_arith)
                requires
                    numer == self.total_value - vl * s + (m64 as int) * s,
                    -((vis - vl) * s) <= self.total_value,
                    m64 as int >= vis,
                    m64 as int >= 1,
                    0 <= vl <= vis,
                    s > 0,
            ;
        }
        let exploit: u128 = (numer as u128) / (m64 as u128);
        proof {
            assert(exploit as int == spec_exploit(*self));
        }
        let np: u128 = (parent_visits as u128) * (VALUE_SCALE as u128) * (VALUE_SCALE as u128);
        let sq: u128 = isqrt(np);
        let ew128: u128 = exploration_weight as u128;
        let pol128: u128 = self.policy as u128;
        proof {
            assert(ew128 as int == exploration_weight as int);
            assert(pol128 as int == self.policy as int);
            assert((ew128 as int) * (pol128 as int) * (sq as int) <= 0x400_0000 * 65536
                * 0x1_0000_0000_0000_0000 && 0 <= (ew128 as int) * (pol128 as int) * (sq as int)
                && (ew128 as int) * (pol128 as int) <= 0x400_0000 * 65536 && (1 + vis) * s * s
                <= (1 + 0x4000_0000_0000_0000) * 65536 * 65536 && 0 < (1 + vis) * s * s && (1
                + vis) * s <= (1 + 0x4000_0000_0000_0000) * 65536) by (nonlinear_arith)
                requires
                    0 < ew128 as int <= 0x400_0000,
                    0 <= pol128 as int <= 65536,
                    0 <= sq as int <= 0x1_0000_0000_0000_0000,
                    0 <= vis <= 0x4000_0000_0000_0000,
                    s == 65536,
            ;
        }
        let num2: u128 = ew128 * pol128 * sq;
        let den2: u128 = (1u128 + (self.visits as u128)) * (VALUE_SCALE as u128) * (
        VALUE_SCALE as u128);
        let explore: u128 = num2 / den2;
        proof {
            assert(explore <= num2);
            assert(explore as int == spec_explore(*self, parent_visits, exploration_weight));
        }
        (exploit as i128) + (explore as i128)
    }
}

/// The index of the first node with maximal PUCT score in
/// `nodes[start .. start + len]`.
pub open spec fn first_argmax_puct<B: Board>(
    nodes: Seq<Node<B>>,
    start: int,
    len: int,
    parent_visits: u64,
    exploration_weight: i64,
) -> int
    decreases len,
{
    if len <= 1 {
        start
    } else {
        let rest = first_argmax_puct(nodes, start + 1, len - 1, parent_visits, exploration_weight);
        if spec_puct(nodes[start], parent_visits, exploration_weight) >= spec_puct(
            nodes[rest],
            parent_visits,
            exploration_weight,
        ) {
            start
        } else {
            rest
        }
    }
}

/// `first_argmax_puct` lies in the run, dominates every entry, and
/// strictly dominates every earlier entry.
pub proof fn lemma_first_argmax_puct_props<B: Board>(
    nodes: Seq<Node<B>>,
    start: int,
    len: int,
    parent_visits: u64,
    exploration_weight: i64,
)
    requires
        len >= 1,
        0 <= start,
        start + len <= nodes.len(),
    ensures
        start <= first_argmax_puct(nodes, start, len, parent_visits, exploration_weight) < start
            + len,
        forall|i: int|
            start <= i < start + len ==> spec_puct(#[trigger] nodes[i], parent_visits, exploration_weight)
                <= spec_puct(
                nodes[first_argmax_puct(nodes, start, len, parent_visits, exploration_weight)],
                parent_visits,
                exploration_weight,
            ),
        forall|i: int|
            start <= i < first_argmax_puct(nodes, start, len, parent_visits, exploration_weight)
                ==> spec_puct(#[trigger] nodes[i], parent_visits, exploration_weight) < spec_puct(
                nodes[first_argmax_puct(nodes, start, len, parent_visits, exploration_weight)],
                parent_visits,
                exploration_weight,
            ),
    decreases len,
{
    if len > 1 {
        lemma_first_argmax_puct_props(nodes, start + 1, len - 1, parent_visits, exploration_weight);
    }
}

/// Any index with the first-argmax properties is the first argmax.
pub proof fn lemma_first_argmax_puct_unique<B: Board>(
    nodes: Seq<Node<B>>,
    start: int,
    len: int,
    parent_visits: u64,
    exploration_weight: i64,
    b: int,
)
    requires
        len >= 1,
        0 <= start,
        start + len <= nodes.len(),
        start <= b < start + len,
        forall|i: int|
            start <= i < start + len ==> spec_puct(#[trigger] nodes[i], parent_visits, exploration_weight)
                <= spec_puct(nodes[b], parent_visits, exploration_weight),
        forall|i: int|
            start <= i < b ==> spec_puct(#[trigger] nodes[i], parent_visits, exploration_weight)
                < spec_puct(nodes[b], parent_visits, exploration_weight),
    ensures
        b == first_argmax_puct(nodes, start, len, parent_visits, exploration_weight),
{
    lemma_first_argmax_puct_props(nodes, start, len, parent_visits, exploration_weight);
    let f = first_argmax_puct(nodes, start, len, parent_visits, exploration_weight);
    if b < f {
        assert(spec_puct(nodes[b], parent_visits, exploration_weight) < spec_puct(
            nodes[f],
            parent_visits,
            exploration_weight,
        ));
    } else if f < b {
        assert(spec_puct(nodes[f], parent_visits, exploration_weight) < spec_puct(
            nodes[b],
            parent_visits,
            exploration_weight,
        ));
    }
}

impl<B: Board> Tree<B> {
    /// The arena index the PUCT rule selects among `parent`'s children:
    /// the first child with maximal score. The result is pinned to the
    /// spec-level argmax, so a walk is a deterministic function of the
    /// tree it runs on.
    pub fn select_child(&self, parent: usize, exploration_weight: i64) -> (c: usize)
        requires
            self.wf(),
            parent < self.nodes@.len(),
            self.nodes@[parent as int].expanded(),
            0 < exploration_weight <= MAX_EXPLORATION_WEIGHT,
            self.nodes@[parent as int].visits <= MAX_VISITS,
            forall|k: int|
                0 <= k < self.nodes@[parent as int].children_length ==> puct_input_ok(
                    #[trigger] self.nodes@[self.nodes@[parent as int].children_start + k],
                ),
        ensures
            self.nodes@[parent as int].children_start <= c < self.nodes@[parent as int
            ].children_start + self.nodes@[parent as int].children_length,
            c == first_argmax_puct(
                self.nodes@,
                self.nodes@[parent as int].children_start as int,
                self.nodes@[parent as int].children_length as int,
                self.nodes@[parent as int].visits,
                exploration_weight,
            ),
    {
        proof {
            assert(self.node_struct_ok(parent as int));
        }
        let total: usize = self.nodes.len();
        let start: usize = self.nodes[parent].children_start;
        let length: usize = self.nodes[parent].children_length;
        let parent_visits: u64 = self.nodes[parent].visits;
        let end: usize = start + length;
        proof {
            assert(self.nodes@[start as int] == self.nodes@[start + 0]);
        }
        let mut best: usize = start;
        let mut best_score: i128 = self.nodes[start].uct(exploration_weight, parent_visits);
        let mut i: usize = start + 1;
        while i < end
            invariant
                start <= best < i <= end,
                best_score == spec_puct(
                    self.nodes@[best as int],
                    parent_visits,
                    exploration_weight,
                ),
                forall|k: int|
                    start <= k < i ==> spec_puct(
                        #[trigger] self.nodes@[k],
                        parent_visits,
                        exploration_weight,
                    ) <= best_score,
                forall|k: int|
                    start <= k < best ==> spec_puct(
                        #[trigger] self.nodes@[k],
                        parent_visits,
                        exploration_weight,
                    ) < best_score,
            decreases end - i,
        {
            proof {
                assert(self.nodes@[i as int] == self.nodes@[start + (i - start)]);
            }
            let score: i128 = self.nodes[i].uct(exploration_weight, parent_visits);
            if score > best_score {
                best = i;
                best_score = score;
            }
            i = i + 1;
        }
        proof {
            lemma_first_argmax_puct_unique(
                self.nodes@,
                start as int,
                length as int,
                parent_visits,
                exploration_weight,
                best as int,
            );
        }
        best
    }
}

} // verus!
