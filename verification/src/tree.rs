//! The arena-backed search tree: a growable vector of nodes addressed by
//! index. Node 0 is the root; the children of an expanded node occupy a
//! contiguous run strictly after their parent, and the tree is append-only,
//! so indices stay valid for the tree's lifetime.
//!
//! Each node carries a ghost copy of the board it stands for, which lets the
//! contracts speak about terminal positions and legal moves without the tree
//! storing real boards.
use vstd::prelude::*;

use crate::VALUE_SCALE;
use crate::board::Board;

verus! {

/// A contiguous run of node indices, `start .. start + length`.
/// `start` is never 0: node 0 is the root, which is nobody's child.
#[derive(Clone, Copy, PartialEq, Eq, Structural, Debug)]
pub struct IdxRange {
    pub start: usize,
    pub length: usize,
}

impl IdxRange {
    /// The run as an iterable index range.
    pub fn iter(&self) -> (r: core::ops::Range<usize>)
        requires
            self.start + self.length <= usize::MAX,
        ensures
            r.start == self.start,
            r.end == self.start + self.length,
    {
        self.start..(self.start + self.length)
    }

    /// The `index`-th node index of the run.
    pub fn get(&self, index: usize) -> (r: usize)
        requires
            index < self.length,
            self.start + self.length <= usize::MAX,
        ensures
            r == self.start + index,
    {
        self.start + index
    }
}

/// One entry of the tree arena.
///
/// `children_start == 0` means the node has not been expanded; otherwise
/// `children_start .. children_start + children_length` indexes its children.
/// `policy`, `evaluation` and `total_value` are fixed-point values scaled by
/// [`VALUE_SCALE`].
pub struct Node<B: Board> {
    /// The move that leads from the parent to this node; 0 for the root.
    pub mv: u64,
    /// First child index, or 0 while unexpanded.
    pub children_start: usize,
    /// Number of children; 0 while unexpanded.
    pub children_length: usize,
    /// The prior probability the network assigned to `mv` at the parent.
    pub policy: u64,
    /// The network value of this node's board, set at expansion time.
    pub evaluation: Option<i64>,
    /// How many walks have passed through this node.
    pub visits: u64,
    /// The sum of backed-up values at this node.
    pub total_value: i128,
    /// How many in-flight batched walks currently hold this node.
    pub virtual_loss: u64,
    /// The board this node stands for (ghost only).
    pub board: Ghost<B>,
}

impl<B: Board> Node<B> {
    /// Whether this node has been expanded.
    pub open spec fn expanded(self) -> bool {
        self.children_start != 0
    }

    /// Whether this node's board is terminal.
    pub open spec fn terminal(self) -> bool {
        self.board@.spec_outcome() is Some
    }

    /// A fresh unexpanded node for `board`, reached by `mv` with prior
    /// `policy`.
    pub fn new(mv: u64, policy: u64, board: Ghost<B>) -> (n: Node<B>)
        ensures
            n == (Node {
                mv,
                children_start: 0usize,
                children_length: 0usize,
                policy,
                evaluation: None::<i64>,
                visits: 0u64,
                total_value: 0i128,
                virtual_loss: 0u64,
                board,
            }),
    {
        Node {
            mv,
            children_start: 0,
            children_length: 0,
            policy,
            evaluation: None,
            visits: 0,
            total_value: 0,
            virtual_loss: 0,
            board,
        }
    }
}

impl<B: Board> Node<B> {
    /// The run of this node's children, or `None` while unexpanded.
    pub fn children(&self) -> (r: Option<IdxRange>)
        ensures
            match r {
                None => !self.expanded(),
                Some(rg) => self.expanded() && rg.start == self.children_start && rg.length
                    == self.children_length,
            },
    {
        if self.children_start != 0 {
            Some(IdxRange { start: self.children_start, length: self.children_length })
        } else {
            None
        }
    }

    /// The mean backed-up value of this node (scaled by [`VALUE_SCALE`],
    /// rounded toward zero): the summed value over the visit count.
    pub fn value(&self) -> (r: i128)
        requires
            self.visits >= 1,
            -0x4000_0000_0000_0000_0000i128 <= self.total_value
                <= 0x4000_0000_0000_0000_0000i128,
        ensures
            r == if self.total_value >= 0 {
                (self.total_value as int) / (self.visits as int)
            } else {
                -((-(self.total_value as int)) / (self.visits as int))
            },
    {
        let v: u128 = self.visits as u128;
        if self.total_value >= 0 {
            ((self.total_value as u128) / v) as i128
        } else {
            let mag: u128 = ((-self.total_value) as u128) / v;
            -(mag as i128)
        }
    }

    /// Point this node at its freshly allocated children run.
    pub fn set_children(&mut self, children: IdxRange)
        ensures
            *final(self) == (Node {
                children_start: children.start,
                children_length: children.length,
                ..*old(self)
            }),
    {
        self.children_start = children.start;
        self.children_length = children.length;
    }
}

/// The sum of the visit counts of `nodes[start .. start + len]`.
pub open spec fn sum_visits<B: Board>(nodes: Seq<Node<B>>, start: int, len: int) -> int
    decreases len,
{
    if len <= 0 {
        0
    } else {
        nodes[start].visits + sum_visits(nodes, start + 1, len - 1)
    }
}

/// A sum of visit counts over indices inside the sequence is non-negative,
/// and at most `len` times the largest visit count would bound it; only
/// non-negativity is needed here.
pub proof fn lemma_sum_visits_nonneg<B: Board>(nodes: Seq<Node<B>>, start: int, len: int)
    requires
        0 <= start,
        start + len <= nodes.len(),
    ensures
        sum_visits(nodes, start, len) >= 0,
    decreases len,
{
    if len > 0 {
        lemma_sum_visits_nonneg(nodes, start + 1, len - 1);
    }
}

/// Two sequences that agree on a run have the same visit sum over it.
pub proof fn lemma_sum_visits_frame<B: Board>(
    s1: Seq<Node<B>>,
    s2: Seq<Node<B>>,
    start: int,
    len: int,
)
    requires
        0 <= start,
        start + len <= s1.len(),
        start + len <= s2.len(),
        forall|i: int| start <= i < start + len ==> s1[i] == s2[i],
    ensures
        sum_visits(s1, start, len) == sum_visits(s2, start, len),
    decreases len,
{
    if len > 0 {
        lemma_sum_visits_frame(s1, s2, start + 1, len - 1);
    }
}

/// Changing the visit count of one index inside the run shifts the sum by
/// exactly the difference; all other entries of the run are unchanged.
pub proof fn lemma_sum_visits_update<B: Board>(
    s1: Seq<Node<B>>,
    s2: Seq<Node<B>>,
    start: int,
    len: int,
    k: int,
)
    requires
        0 <= start,
        start + len <= s1.len(),
        start + len <= s2.len(),
        start <= k < start + len,
        forall|i: int| start <= i < start + len && i != k ==> s1[i] == s2[i],
    ensures
        sum_visits(s2, start, len) == sum_visits(s1, start, len) + s2[k].visits - s1[k].visits,
    decreases len,
{
    if start == k {
        lemma_sum_visits_frame(s1, s2, start + 1, len - 1);
    } else {
        lemma_sum_visits_update(s1, s2, start + 1, len - 1, k);
    }
}

/// If every visit count in the run is zero, the sum is zero; conversely a
/// zero sum over the run forces every entry to zero.
pub proof fn lemma_sum_visits_zero<B: Board>(nodes: Seq<Node<B>>, start: int, len: int)
    requires
        0 <= start,
        start + len <= nodes.len(),
        sum_visits(nodes, start, len) == 0,
    ensures
        forall|i: int| start <= i < start + len ==> nodes[i].visits == 0,
    decreases len,
{
    if len > 0 {
        lemma_sum_visits_nonneg(nodes, start + 1, len - 1);
        lemma_sum_visits_zero(nodes, start + 1, len - 1);
    }
}

/// The search tree for one root position: the root board plus the node
/// arena. Node 0 is the root.
pub struct Tree<B: Board> {
    pub root_board: B,
    pub nodes: Vec<Node<B>>,
}

impl<B: Board> Tree<B> {
    /// Structural coherence of node `i`: its ghost board is well-formed,
    /// its prior is a probability, and if it is expanded its children run
    /// lies strictly after it, has one child per available move of its
    /// board in order, and carries the boards those moves lead to.
    pub open spec fn node_struct_ok(self, i: int) -> bool {
        let n = self.nodes@[i];
        &&& n.board@.wf()
        &&& n.policy <= VALUE_SCALE
        &&& if n.expanded() {
            &&& i < n.children_start
            &&& n.children_start + n.children_length <= self.nodes@.len()
            &&& n.children_length == n.board@.spec_moves().len()
            &&& n.children_length >= 1
            &&& !n.terminal()
            &&& forall|k: int|
                0 <= k < n.children_length ==> {
                    &&& (#[trigger] self.nodes@[n.children_start + k]).mv
                        == n.board@.spec_moves()[k]
                    &&& self.nodes@[n.children_start + k].board@ == n.board@.spec_play(
                        n.board@.spec_moves()[k],
                    )
                }
        } else {
            n.children_length == 0
        }
    }

    /// The children runs of two distinct expanded nodes never overlap, so
    /// every node has at most one parent.
    pub open spec fn ranges_disjoint_at(self, i: int, j: int) -> bool {
        let a = self.nodes@[i];
        let b = self.nodes@[j];
        a.expanded() && b.expanded() && i != j ==> (a.children_start + a.children_length
            <= b.children_start || b.children_start + b.children_length <= a.children_start)
    }

    /// Structural well-formedness of the whole tree.
    pub open spec fn wf(self) -> bool {
        &&& 1 <= self.nodes@.len()
        &&& self.root_board.wf()
        &&& self.nodes@[0].board@ == self.root_board
        &&& forall|i: int| 0 <= i < self.nodes@.len() ==> #[trigger] self.node_struct_ok(i)
        &&& forall|i: int, j: int|
            0 <= i < self.nodes@.len() && 0 <= j < self.nodes@.len()
                ==> #[trigger] self.ranges_disjoint_at(i, j)
    }

    /// The visit statistics of node `i` in a quiescent tree (no walks in
    /// flight): an expanded node has one more visit than its children
    /// combined, an unexpanded non-terminal node is unvisited, the summed
    /// value is bounded by the visit count, no virtual loss is held, and
    /// the root's visit count dominates.
    pub open spec fn node_stats_ok(self, i: int) -> bool {
        let n = self.nodes@[i];
        &&& n.expanded() ==> n.visits == 1 + sum_visits(
            self.nodes@,
            n.children_start as int,
            n.children_length as int,
        )
        &&& (!n.expanded() && !n.terminal()) ==> n.visits == 0
        &&& -(n.visits * VALUE_SCALE) <= n.total_value <= n.visits * VALUE_SCALE
        &&& n.virtual_loss == 0
        &&& n.visits <= self.nodes@[0].visits
    }

    /// Quiescent statistics for every node.
    pub open spec fn stats_ok(self) -> bool {
        forall|i: int| 0 <= i < self.nodes@.len() ==> #[trigger] self.node_stats_ok(i)
    }

    /// A tree holding the single unexpanded root for `root_board`.
    pub fn new(root_board: B) -> (t: Tree<B>)
        requires
            root_board.wf(),
        ensures
            t.wf(),
            t.stats_ok(),
            t.root_board == root_board,
            t.nodes@.len() == 1,
            t.nodes@[0] == (Node {
                mv: 0u64,
                children_start: 0usize,
                children_length: 0usize,
                policy: VALUE_SCALE,
                evaluation: None::<i64>,
                visits: 0u64,
                total_value: 0i128,
                virtual_loss: 0u64,
                board: Ghost(root_board),
            }),
    {
        let ghost_board: Ghost<B> = Ghost(root_board);
        let mut nodes: Vec<Node<B>> = Vec::new();
        nodes.push(Node::new(0, VALUE_SCALE, ghost_board));
        let t = Tree { root_board, nodes };
        proof {
            assert(t.node_struct_ok(0));
            assert(t.node_stats_ok(0));
        }
        t
    }

    /// The number of nodes in the arena.
    pub fn len(&self) -> (r: usize)
        ensures
            r == self.nodes@.len(),
    {
        self.nodes.len()
    }

    /// A reference to node `idx`; indices are bounds-checked by contract.
    pub fn get(&self, idx: usize) -> (n: &Node<B>)
        requires
            idx < self.nodes@.len(),
        ensures
            *n == self.nodes@[idx as int],
    {
        &self.nodes[idx]
    }
}

impl<B: Board> Tree<B> {
    /// Expand `parent`: allocate one child per entry of `moves` (with the
    /// matching prior from `priors`) as a contiguous run at the end of the
    /// arena, and point `parent` at the run. The move list must be exactly
    /// the parent board's available moves, so a terminal or already
    /// expanded parent is ruled out by contract.
    pub fn push_children(&mut self, parent: usize, moves: &Vec<u64>, priors: &Vec<u64>)
        requires
            old(self).wf(),
            parent < old(self).nodes@.len(),
            !old(self).nodes@[parent as int].expanded(),
            old(self).nodes@[parent as int].board@.spec_outcome() is None,
            moves@ == old(self).nodes@[parent as int].board@.spec_moves(),
            moves@.len() > 0,
            priors@.len() == moves@.len(),
            forall|k: int| 0 <= k < priors@.len() ==> priors@[k] <= VALUE_SCALE,
        ensures
            final(self).wf(),
            final(self).root_board == old(self).root_board,
            final(self).nodes@.len() == old(self).nodes@.len() + moves@.len(),
            forall|i: int|
                0 <= i < old(self).nodes@.len() && i != parent ==> final(self).nodes@[i] == old(
                    self,
                ).nodes@[i],
            final(self).nodes@[parent as int] == (Node {
                children_start: old(self).nodes@.len() as usize,
                children_length: moves@.len() as usize,
                ..old(self).nodes@[parent as int]
            }),
            forall|k: int|
                0 <= k < moves@.len() ==> final(self).nodes@[old(self).nodes@.len() + k] == (Node {
                    mv: moves@[k],
                    children_start: 0usize,
                    children_length: 0usize,
                    policy: priors@[k],
                    evaluation: None::<i64>,
                    visits: 0u64,
                    total_value: 0i128,
                    virtual_loss: 0u64,
                    board: Ghost(
                        old(self).nodes@[parent as int].board@.spec_play(moves@[k]),
                    ),
                }),
    {
        let start: usize = self.nodes.len();
        let ghost parent_board: B = self.nodes@[parent as int].board@;
        let mut k: usize = 0;
        while k < moves.len()
            invariant
                self.nodes@.len() == start + k,
                k <= moves@.len(),
                self.root_board == old(self).root_board,
                forall|i: int| 0 <= i < start ==> self.nodes@[i] == old(self).nodes@[i],
                forall|j: int|
                    0 <= j < k ==> self.nodes@[start + j] == (Node {
                        mv: moves@[j],
                        children_start: 0usize,
                        children_length: 0usize,
                        policy: priors@[j],
                        evaluation: None::<i64>,
                        visits: 0u64,
                        total_value: 0i128,
                        virtual_loss: 0u64,
                        board: Ghost(parent_board.spec_play(moves@[j])),
                    }),
            decreases moves@.len() - k,
        {
            let ghost child_board: B = parent_board.spec_play(moves@[k as int]);
            let node: Node<B> = Node::new(moves[k], priors[k], Ghost(child_board));
            self.nodes.push(node);
            k = k + 1;
        }
        let length: usize = moves.len();
        let entry = &mut self.nodes[parent];
        entry.children_start = start;
        entry.children_length = length;
        proof {
            let post = *self;
            let pre = *old(self);
            let n = post.nodes@[parent as int];
            assert(n == (Node {
                children_start: start,
                children_length: length,
                ..pre.nodes@[parent as int]
            }));
            // the parent's run is coherent with its board
            assert(pre.node_struct_ok(parent as int));
            pre.nodes@[parent as int].board@.lemma_moves_nonempty();
            assert(post.node_struct_ok(parent as int)) by {
                assert(pre.node_struct_ok(parent as int));
                assert forall|k2: int| 0 <= k2 < n.children_length implies {
                    &&& (#[trigger] post.nodes@[n.children_start + k2]).mv
                        == n.board@.spec_moves()[k2]
                    &&& post.nodes@[n.children_start + k2].board@ == n.board@.spec_play(
                        n.board@.spec_moves()[k2],
                    )
                } by {
                    assert(post.nodes@[start + k2] == (Node {
                        mv: moves@[k2],
                        children_start: 0usize,
                        children_length: 0usize,
                        policy: priors@[k2],
                        evaluation: None::<i64>,
                        visits: 0u64,
                        total_value: 0i128,
                        virtual_loss: 0u64,
                        board: Ghost(parent_board.spec_play(moves@[k2])),
                    }));
                }
            }
            // all other nodes keep their structure
            assert forall|i: int|
                0 <= i < post.nodes@.len() && i != parent implies #[trigger] post.node_struct_ok(
                i,
            ) by {
                if i < start {
                    assert(pre.node_struct_ok(i));
                    let m = pre.nodes@[i];
                    if m.expanded() {
                        assert forall|k2: int| 0 <= k2 < m.children_length implies {
                            &&& (#[trigger] post.nodes@[m.children_start + k2]).mv
                                == m.board@.spec_moves()[k2]
                            &&& post.nodes@[m.children_start + k2].board@ == m.board@.spec_play(
                                m.board@.spec_moves()[k2],
                            )
                        } by {
                            assert(m.children_start + k2 != parent ==> post.nodes@[m.children_start
                                + k2] == pre.nodes@[m.children_start + k2]);
                            if m.children_start + k2 == parent {
                                assert(post.nodes@[parent as int].mv == pre.nodes@[
                                    parent as int].mv);
                                assert(post.nodes@[parent as int].board@ == pre.nodes@[
                                    parent as int].board@);
                            }
                        }
                    }
                } else {
                    assert(post.nodes@[i] == (Node {
                        mv: moves@[i - start],
                        children_start: 0usize,
                        children_length: 0usize,
                        policy: priors@[i - start],
                        evaluation: None::<i64>,
                        visits: 0u64,
                        total_value: 0i128,
                        virtual_loss: 0u64,
                        board: Ghost(parent_board.spec_play(moves@[i - start])),
                    }));
                    pre.nodes@[parent as int].board@.lemma_play(moves@[i - start]);
                }
            }
            // runs stay disjoint: the new run lies beyond every old one
            assert forall|i: int, j: int|
                0 <= i < post.nodes@.len() && 0 <= j
                    < post.nodes@.len() implies #[trigger] post.ranges_disjoint_at(i, j) by {
                if i >= start {
                    assert(post.nodes@[i] == (Node {
                        mv: moves@[i - start],
                        children_start: 0usize,
                        children_length: 0usize,
                        policy: priors@[i - start],
                        evaluation: None::<i64>,
                        visits: 0u64,
                        total_value: 0i128,
                        virtual_loss: 0u64,
                        board: Ghost(parent_board.spec_play(moves@[i - start])),
                    }));
                    assert(!post.nodes@[i].expanded());
                }
                if j >= start {
                    assert(post.nodes@[j] == (Node {
                        mv: moves@[j - start],
                        children_start: 0usize,
                        children_length: 0usize,
                        policy: priors@[j - start],
                        evaluation: None::<i64>,
                        visits: 0u64,
                        total_value: 0i128,
                        virtual_loss: 0u64,
                        board: Ghost(parent_board.spec_play(moves@[j - start])),
                    }));
                    assert(!post.nodes@[j].expanded());
                }
                if i < start && j < start {
                    assert(pre.ranges_disjoint_at(i, j));
                    if i == parent && j != parent {
                        // the fresh run starts at the old length, beyond j's run
                        assert(pre.node_struct_ok(j));
                        assert(post.nodes@[j].expanded() ==> post.nodes@[j].children_start
                            + post.nodes@[j].children_length <= start);
                    } else if j == parent && i != parent {
                        assert(pre.node_struct_ok(i));
                        assert(post.nodes@[i].expanded() ==> post.nodes@[i].children_start
                            + post.nodes@[i].children_length <= start);
                    }
                }
            }
        }
    }
}

/// The value backpropagation adds at position `j` of a walk of length `m`:
/// the leaf value `value`, negated once per step between the leaf and `j`,
/// and once more at the leaf itself, so every stored contribution is seen
/// from the perspective of the player choosing at the node's parent.
pub open spec fn backprop_delta(value: i64, m: int, j: int) -> int {
    if (m - j) % 2 == 1 {
        -(value as int)
    } else {
        value as int
    }
}

/// Bounds on one node that let a walk update it without overflow.
pub open spec fn node_update_ok<B: Board>(n: Node<B>) -> bool {
    &&& n.visits < 0x7fff_ffff_ffff_ffffu64
    &&& -0x4000_0000_0000_0000_0000i128 <= n.total_value <= 0x4000_0000_0000_0000_0000i128
    &&& n.virtual_loss < 0x7fff_ffff_ffff_ffffu64
}

impl<B: Board> Tree<B> {
    /// Walk `path` leaf-to-root, giving every node one more visit and the
    /// alternating share of `value`. Everything else is untouched.
    #[verifier::rlimit(60)]
    #[verifier::spinoff_prover]
    pub(crate) fn backprop(&mut self, path: &Vec<usize>, value: i64)
        requires
            forall|j: int| 0 <= j < path@.len() ==> path@[j] < old(self).nodes@.len(),
            forall|a: int, b: int| 0 <= a < b < path@.len() ==> path@[a] < path@[b],
            forall|j: int|
                0 <= j < path@.len() ==> node_update_ok(#[trigger] old(self).nodes@[path@[j] as int]),
            -(VALUE_SCALE as int) <= value <= VALUE_SCALE as int,
        ensures
            final(self).root_board == old(self).root_board,
            final(self).nodes@.len() == old(self).nodes@.len(),
            forall|i: int|
                0 <= i < old(self).nodes@.len() && !path@.contains(i as usize)
                    ==> final(self).nodes@[i] == old(self).nodes@[i],
            forall|j: int|
                0 <= j < path@.len() ==> final(self).nodes@[path@[j] as int] == (Node {
                    visits: (old(self).nodes@[path@[j] as int].visits + 1) as u64,
                    total_value: (old(self).nodes@[path@[j] as int].total_value + backprop_delta(
                        value,
                        path@.len() as int,
                        j,
                    )) as i128,
                    ..old(self).nodes@[path@[j] as int]
                }),
    {
        let ghost m: int = path@.len() as int;
        let mut v: i64 = value;
        let mut j: usize = path.len();
        while j > 0
            invariant
                j <= path@.len(),
                v as int == if (m - j) % 2 == 0 {
                    value as int
                } else {
                    -(value as int)
                },
                -(VALUE_SCALE as int) <= v <= VALUE_SCALE as int,
                self.root_board == old(self).root_board,
                self.nodes@.len() == old(self).nodes@.len(),
                forall|i: int|
                    0 <= i < old(self).nodes@.len() && !path@.subrange(j as int, m).contains(
                        i as usize,
                    ) ==> self.nodes@[i] == old(self).nodes@[i],
                forall|k: int|
                    j <= k < m ==> self.nodes@[path@[k] as int] == (Node {
                        visits: (old(self).nodes@[path@[k] as int].visits + 1) as u64,
                        total_value: (old(self).nodes@[path@[k] as int].total_value
                            + backprop_delta(value, m, k)) as i128,
                        ..old(self).nodes@[path@[k] as int]
                    }),
            decreases j,
        {
            j = j - 1;
            v = -v;
            proof {
                assert(!path@.subrange(j + 1, m).contains(path@[j as int])) by {
                    if path@.subrange(j + 1, m).contains(path@[j as int]) {
                        let w = choose|w: int|
                            0 <= w < m - j - 1 && (#[trigger] path@.subrange(j + 1, m)[w])
                                == path@[j as int];
                        assert(path@[j + 1 + w] == path@[j as int]);
                    }
                }
                assert(self.nodes@[path@[j as int] as int] == old(self).nodes@[path@[
                    j as int] as int]);
            }
            let idx: usize = path[j];
            let entry = &mut self.nodes[idx];
            entry.visits = entry.visits + 1;
            entry.total_value = entry.total_value + (v as i128);
            proof {
                assert forall|i: int|
                    0 <= i < old(self).nodes@.len() && !path@.subrange(j as int, m).contains(
                        i as usize,
                    ) implies self.nodes@[i] == old(self).nodes@[i] by {
                    assert(i != idx) by {
                        assert(path@.subrange(j as int, m)[0] == path@[j as int]);
                    }
                    assert(!path@.subrange(j + 1, m).contains(i as usize)) by {
                        if path@.subrange(j + 1, m).contains(i as usize) {
                            let w = choose|w: int|
                                0 <= w < m - j - 1 && (#[trigger] path@.subrange(j + 1, m)[w])
                                    == i as usize;
                            assert(path@.subrange(j as int, m)[w + 1] == path@[j + 1 + w]);
                        }
                    }
                }
                assert forall|k: int| j <= k < m implies self.nodes@[path@[k] as int] == (Node {
                    visits: (old(self).nodes@[path@[k] as int].visits + 1) as u64,
                    total_value: (old(self).nodes@[path@[k] as int].total_value + backprop_delta(
                        value,
                        m,
                        k,
                    )) as i128,
                    ..old(self).nodes@[path@[k] as int]
                }) by {
                    if k > j {
                        assert(path@[k as int] != path@[j as int]);
                    }
                }
            }
        }
        proof {
            assert(forall|i: int|
                0 <= i < old(self).nodes@.len() && !path@.contains(i as usize) ==> !path@.subrange(
                    0,
                    m,
                ).contains(i as usize) && self.nodes@[i] == old(self).nodes@[i]) by {
                assert(path@.subrange(0, m) =~= path@);
            }
        }
    }
}

impl<B: Board> Tree<B> {
    /// Commit an in-flight walk: give every node of `path` one tentative
    /// visit and one virtual loss. Everything else is untouched.
    #[verifier::rlimit(60)]
    #[verifier::spinoff_prover]
    pub(crate) fn commit_walk(&mut self, path: &Vec<usize>)
        requires
            forall|j: int| 0 <= j < path@.len() ==> path@[j] < old(self).nodes@.len(),
            forall|a: int, b: int| 0 <= a < b < path@.len() ==> path@[a] < path@[b],
            forall|j: int|
                0 <= j < path@.len() ==> node_update_ok(
                    #[trigger] old(self).nodes@[path@[j] as int],
                ),
        ensures
            final(self).root_board == old(self).root_board,
            final(self).nodes@.len() == old(self).nodes@.len(),
            forall|i: int|
                0 <= i < old(self).nodes@.len() && !path@.contains(i as usize)
                    ==> final(self).nodes@[i] == old(self).nodes@[i],
            forall|j: int|
                0 <= j < path@.len() ==> final(self).nodes@[path@[j] as int] == (Node {
                    visits: (old(self).nodes@[path@[j] as int].visits + 1) as u64,
                    virtual_loss: (old(self).nodes@[path@[j] as int].virtual_loss + 1) as u64,
                    ..old(self).nodes@[path@[j] as int]
                }),
    {
        let ghost m: int = path@.len() as int;
        let mut j: usize = path.len();
        while j > 0
            invariant
                j <= path@.len(),
                self.root_board == old(self).root_board,
                self.nodes@.len() == old(self).nodes@.len(),
                forall|i: int|
                    0 <= i < old(self).nodes@.len() && !path@.subrange(j as int, m).contains(
                        i as usize,
                    ) ==> self.nodes@[i] == old(self).nodes@[i],
                forall|k: int|
                    j <= k < m ==> self.nodes@[path@[k] as int] == (Node {
                        visits: (old(self).nodes@[path@[k] as int].visits + 1) as u64,
                        virtual_loss: (old(self).nodes@[path@[k] as int].virtual_loss + 1) as u64,
                        ..old(self).nodes@[path@[k] as int]
                    }),
            decreases j,
        {
            j = j - 1;
            proof {
                assert(!path@.subrange(j + 1, m).contains(path@[j as int])) by {
                    if path@.subrange(j + 1, m).contains(path@[j as int]) {
                        let w = choose|w: int|
                            0 <= w < m - j - 1 && (#[trigger] path@.subrange(j + 1, m)[w])
                                == path@[j as int];
                        assert(path@[j + 1 + w] == path@[j as int]);
                    }
                }
                assert(self.nodes@[path@[j as int] as int] == old(self).nodes@[path@[
                    j as int] as int]);
            }
            let idx: usize = path[j];
            let entry = &mut self.nodes[idx];
            entry.visits = entry.visits + 1;
            entry.virtual_loss = entry.virtual_loss + 1;
            proof {
                assert forall|i: int|
                    0 <= i < old(self).nodes@.len() && !path@.subrange(j as int, m).contains(
                        i as usize,
                    ) implies self.nodes@[i] == old(self).nodes@[i] by {
                    assert(i != idx) by {
                        assert(path@.subrange(j as int, m)[0] == path@[j as int]);
                    }
                    assert(!path@.subrange(j + 1, m).contains(i as usize)) by {
                        if path@.subrange(j + 1, m).contains(i as usize) {
                            let w = choose|w: int|
                                0 <= w < m - j - 1 && (#[trigger] path@.subrange(j + 1, m)[w])
                                    == i as usize;
                            assert(path@.subrange(j as int, m)[w + 1] == path@[j + 1 + w]);
                        }
                    }
                }
                assert forall|k: int| j <= k < m implies self.nodes@[path@[k] as int] == (Node {
                    visits: (old(self).nodes@[path@[k] as int].visits + 1) as u64,
                    virtual_loss: (old(self).nodes@[path@[k] as int].virtual_loss + 1) as u64,
                    ..old(self).nodes@[path@[k] as int]
                }) by {
                    if k > j {
                        assert(path@[k as int] != path@[j as int]);
                    }
                }
            }
        }
        proof {
            assert(path@.subrange(0, m) =~= path@);
        }
    }

    /// Resolve a previously committed walk once its leaf value is known:
    /// add the alternating share of `value` at every node of `path` and
    /// release the virtual loss. Visits stay as committed.
    #[verifier::rlimit(60)]
    #[verifier::spinoff_prover]
    pub(crate) fn resolve_walk(&mut self, path: &Vec<usize>, value: i64)
        requires
            forall|j: int| 0 <= j < path@.len() ==> path@[j] < old(self).nodes@.len(),
            forall|a: int, b: int| 0 <= a < b < path@.len() ==> path@[a] < path@[b],
            forall|j: int|
                0 <= j < path@.len() ==> node_update_ok(
                    #[trigger] old(self).nodes@[path@[j] as int],
                ) && old(self).nodes@[path@[j] as int].virtual_loss >= 1,
            -(VALUE_SCALE as int) <= value <= VALUE_SCALE as int,
        ensures
            final(self).root_board == old(self).root_board,
            final(self).nodes@.len() == old(self).nodes@.len(),
            forall|i: int|
                0 <= i < old(self).nodes@.len() && !path@.contains(i as usize)
                    ==> final(self).nodes@[i] == old(self).nodes@[i],
            forall|j: int|
                0 <= j < path@.len() ==> final(self).nodes@[path@[j] as int] == (Node {
                    total_value: (old(self).nodes@[path@[j] as int].total_value + backprop_delta(
                        value,
                        path@.len() as int,
                        j,
                    )) as i128,
                    virtual_loss: (old(self).nodes@[path@[j] as int].virtual_loss - 1) as u64,
                    ..old(self).nodes@[path@[j] as int]
                }),
    {
        let ghost m: int = path@.len() as int;
        let mut v: i64 = value;
        let mut j: usize = path.len();
        while j > 0
            invariant
                j <= path@.len(),
                v as int == if (m - j) % 2 == 0 {
                    value as int
                } else {
                    -(value as int)
                },
                -(VALUE_SCALE as int) <= v <= VALUE_SCALE as int,
                self.root_board == old(self).root_board,
                self.nodes@.len() == old(self).nodes@.len(),
                forall|i: int|
                    0 <= i < old(self).nodes@.len() && !path@.subrange(j as int, m).contains(
                        i as usize,
                    ) ==> self.nodes@[i] == old(self).nodes@[i],
                forall|k: int|
                    j <= k < m ==> self.nodes@[path@[k] as int] == (Node {
                        total_value: (old(self).nodes@[path@[k] as int].total_value
                            + backprop_delta(value, m, k)) as i128,
                        virtual_loss: (old(self).nodes@[path@[k] as int].virtual_loss - 1) as u64,
                        ..old(self).nodes@[path@[k] as int]
                    }),
            decreases j,
        {
            j = j - 1;
            v = -v;
            proof {
                assert(!path@.subrange(j + 1, m).contains(path@[j as int])) by {
                    if path@.subrange(j + 1, m).contains(path@[j as int]) {
                        let w = choose|w: int|
                            0 <= w < m - j - 1 && (#[trigger] path@.subrange(j + 1, m)[w])
                                == path@[j as int];
                        assert(path@[j + 1 + w] == path@[j as int]);
                    }
                }
                assert(self.nodes@[path@[j as int] as int] == old(self).nodes@[path@[
                    j as int] as int]);
            }
            let idx: usize = path[j];
            let entry = &mut self.nodes[idx];
            entry.total_value = entry.total_value + (v as i128);
            entry.virtual_loss = entry.virtual_loss - 1;
            proof {
                assert forall|i: int|
                    0 <= i < old(self).nodes@.len() && !path@.subrange(j as int, m).contains(
                        i as usize,
                    ) implies self.nodes@[i] == old(self).nodes@[i] by {
                    assert(i != idx) by {
                        assert(path@.subrange(j as int, m)[0] == path@[j as int]);
                    }
                    assert(!path@.subrange(j + 1, m).contains(i as usize)) by {
                        if path@.subrange(j + 1, m).contains(i as usize) {
                            let w = choose|w: int|
                                0 <= w < m - j - 1 && (#[trigger] path@.subrange(j + 1, m)[w])
                                    == i as usize;
                            assert(path@.subrange(j as int, m)[w + 1] == path@[j + 1 + w]);
                        }
                    }
                }
                assert forall|k: int| j <= k < m implies self.nodes@[path@[k] as int] == (Node {
                    total_value: (old(self).nodes@[path@[k] as int].total_value + backprop_delta(
                        value,
                        m,
                        k,
                    )) as i128,
                    virtual_loss: (old(self).nodes@[path@[k] as int].virtual_loss - 1) as u64,
                    ..old(self).nodes@[path@[k] as int]
                }) by {
                    if k > j {
                        assert(path@[k as int] != path@[j as int]);
                    }
                }
            }
        }
        proof {
            assert(path@.subrange(0, m) =~= path@);
        }
    }
}

/// Step `k` of a root-to-leaf walk: `p[k]` is an expanded node and
/// `p[k+1]` is one of its children.
pub open spec fn chain_step<B: Board>(t: Tree<B>, p: Seq<usize>, k: int) -> bool {
    &&& p[k] < t.nodes@.len()
    &&& t.nodes@[p[k] as int].expanded()
    &&& t.nodes@[p[k] as int].children_start <= p[k + 1] as int
    &&& (p[k + 1] as int) < t.nodes@[p[k] as int].children_start + t.nodes@[p[k]
        as int].children_length
}

/// `p` is a walk that starts at the root and descends parent to child.
pub open spec fn is_chain<B: Board>(t: Tree<B>, p: Seq<usize>) -> bool {
    &&& p.len() >= 1
    &&& p[0] == 0
    &&& (p.last() as int) < t.nodes@.len()
    &&& forall|k: int| 0 <= k < p.len() - 1 ==> #[trigger] chain_step(t, p, k)
}

/// Along a chain of a well-formed tree, indices strictly increase: every
/// child lies strictly after its parent in the arena.
pub proof fn lemma_chain_lt<B: Board>(t: Tree<B>, p: Seq<usize>, a: int, b: int)
    requires
        t.wf(),
        is_chain(t, p),
        0 <= a < b < p.len(),
    ensures
        p[a] < p[b],
    decreases b - a,
{
    if b == a + 1 {
        assert(chain_step(t, p, a));
        assert(t.node_struct_ok(p[a] as int));
    } else {
        lemma_chain_lt(t, p, a, b - 1);
        lemma_chain_lt(t, p, b - 1, b);
    }
}

/// The whole chain is strictly increasing and in bounds.
pub proof fn lemma_chain_increasing<B: Board>(t: Tree<B>, p: Seq<usize>)
    requires
        t.wf(),
        is_chain(t, p),
    ensures
        forall|a: int, b: int| 0 <= a < b < p.len() ==> p[a] < p[b],
        forall|k: int| 0 <= k < p.len() ==> p[k] < t.nodes@.len(),
{
    assert forall|a: int, b: int| 0 <= a < b < p.len() implies p[a] < p[b] by {
        lemma_chain_lt(t, p, a, b);
    }
    assert forall|k: int| 0 <= k < p.len() implies p[k] < t.nodes@.len() by {
        if k < p.len() - 1 {
            lemma_chain_lt(t, p, k, p.len() - 1);
        }
    }
}

/// `a` and `b` agree on everything but the walk statistics (visits,
/// summed value, network evaluation, virtual loss).
pub open spec fn same_shape<B: Board>(a: Node<B>, b: Node<B>) -> bool {
    b == (Node {
        visits: b.visits,
        total_value: b.total_value,
        evaluation: b.evaluation,
        virtual_loss: b.virtual_loss,
        ..a
    })
}

/// Structural well-formedness only reads the node shapes, so any update
/// that touches walk statistics alone preserves it.
pub proof fn lemma_wf_preserved<B: Board>(pre: Tree<B>, post: Tree<B>)
    requires
        pre.wf(),
        post.root_board == pre.root_board,
        post.nodes@.len() == pre.nodes@.len(),
        forall|i: int|
            0 <= i < pre.nodes@.len() ==> same_shape(
                #[trigger] pre.nodes@[i],
                #[trigger] post.nodes@[i],
            ),
    ensures
        post.wf(),
{
    assert forall|i: int| 0 <= i < post.nodes@.len() implies #[trigger] post.node_struct_ok(
        i,
    ) by {
        assert(pre.node_struct_ok(i));
        let n = post.nodes@[i];
        if n.expanded() {
            assert forall|k: int| 0 <= k < n.children_length implies {
                &&& (#[trigger] post.nodes@[n.children_start + k]).mv == n.board@.spec_moves()[k]
                &&& post.nodes@[n.children_start + k].board@ == n.board@.spec_play(
                    n.board@.spec_moves()[k],
                )
            } by {
                assert(same_shape(
                    pre.nodes@[n.children_start + k],
                    post.nodes@[n.children_start + k],
                ));
            }
        }
    }
    assert forall|i: int, j: int|
        0 <= i < post.nodes@.len() && 0 <= j < post.nodes@.len() implies #[trigger] post.ranges_disjoint_at(
        i,
        j,
    ) by {
        assert(pre.ranges_disjoint_at(i, j));
    }
}

/// The index of the first node with maximal visit count in
/// `nodes[start .. start + len]`.
pub open spec fn first_argmax_visits<B: Board>(nodes: Seq<Node<B>>, start: int, len: int) -> int
    decreases len,
{
    if len <= 1 {
        start
    } else {
        let rest = first_argmax_visits(nodes, start + 1, len - 1);
        if nodes[start].visits >= nodes[rest].visits {
            start
        } else {
            rest
        }
    }
}

/// `first_argmax_visits` lies in the run, dominates every entry of the
/// run, and strictly dominates every earlier entry.
pub proof fn lemma_first_argmax_props<B: Board>(nodes: Seq<Node<B>>, start: int, len: int)
    requires
        len >= 1,
        0 <= start,
        start + len <= nodes.len(),
    ensures
        start <= first_argmax_visits(nodes, start, len) < start + len,
        forall|i: int|
            start <= i < start + len ==> (#[trigger] nodes[i].visits) <= nodes[
                first_argmax_visits(nodes, start, len)].visits,
        forall|i: int|
            start <= i < first_argmax_visits(nodes, start, len) ==> (#[trigger] nodes[i].visits)
                < nodes[first_argmax_visits(nodes, start, len)].visits,
    decreases len,
{
    if len > 1 {
        lemma_first_argmax_props(nodes, start + 1, len - 1);
    }
}

/// Any index with the first-argmax properties is the first argmax.
pub proof fn lemma_first_argmax_unique<B: Board>(
    nodes: Seq<Node<B>>,
    start: int,
    len: int,
    b: int,
)
    requires
        len >= 1,
        0 <= start,
        start + len <= nodes.len(),
        start <= b < start + len,
        forall|i: int| start <= i < start + len ==> nodes[i].visits <= nodes[b].visits,
        forall|i: int| start <= i < b ==> nodes[i].visits < nodes[b].visits,
    ensures
        b == first_argmax_visits(nodes, start, len),
{
    lemma_first_argmax_props(nodes, start, len);
    let f = first_argmax_visits(nodes, start, len);
    if b < f {
        assert(nodes[b].visits < nodes[f].visits);
        assert(nodes[f].visits <= nodes[b].visits);
    } else if f < b {
        assert(nodes[f].visits < nodes[b].visits);
        assert(nodes[b].visits <= nodes[f].visits);
    }
}

impl<B: Board> Tree<B> {
    /// The arena index of the root child `best_move` picks.
    pub open spec fn spec_best_child(self) -> int {
        first_argmax_visits(
            self.nodes@,
            self.nodes@[0].children_start as int,
            self.nodes@[0].children_length as int,
        )
    }

    /// The move `best_move` picks.
    pub open spec fn spec_best_move(self) -> u64 {
        self.nodes@[self.spec_best_child()].mv
    }

    /// The move of the root child with the highest visit count; ties go to
    /// the lowest child index, so the result is a deterministic function
    /// of the tree.
    pub fn best_move(&self) -> (r: u64)
        requires
            self.wf(),
            self.nodes@[0].expanded(),
        ensures
            r == self.spec_best_move(),
            self.root_board.spec_moves().contains(r),
    {
        proof {
            assert(self.node_struct_ok(0));
        }
        let total: usize = self.nodes.len();
        let start: usize = self.nodes[0].children_start;
        let length: usize = self.nodes[0].children_length;
        let end: usize = start + length;
        let mut best: usize = start;
        let mut i: usize = start + 1;
        while i < end
            invariant
                start <= best < i <= end,
                forall|k: int| start <= k < i ==> self.nodes@[k].visits
                    <= self.nodes@[best as int].visits,
                forall|k: int| start <= k < best ==> self.nodes@[k].visits
                    < self.nodes@[best as int].visits,
            decreases end - i,
        {
            if self.nodes[i].visits > self.nodes[best].visits {
                best = i;
            }
            i = i + 1;
        }
        proof {
            lemma_first_argmax_unique(self.nodes@, start as int, length as int, best as int);
            assert(self.nodes@[start + (best - start)] == self.nodes@[best as int]);
            assert(self.nodes@[best as int].mv == self.nodes@[0].board@.spec_moves()[
                best - start]);
        }
        self.nodes[best].mv
    }

    /// The training policy target at the root: one `(move, visits)` pair
    /// per root child, in move order.
    pub fn policy_target(&self) -> (r: Vec<(u64, u64)>)
        requires
            self.wf(),
            self.nodes@[0].expanded(),
        ensures
            r@.len() == self.nodes@[0].children_length,
            forall|k: int|
                0 <= k < r@.len() ==> #[trigger] r@[k] == (
                    self.nodes@[self.nodes@[0].children_start + k].mv,
                    self.nodes@[self.nodes@[0].children_start + k].visits,
                ),
            forall|k: int|
                0 <= k < r@.len() ==> r@[k].0 == self.root_board.spec_moves()[k],
    {
        proof {
            assert(self.node_struct_ok(0));
        }
        let total: usize = self.nodes.len();
        let start: usize = self.nodes[0].children_start;
        let length: usize = self.nodes[0].children_length;
        let mut r: Vec<(u64, u64)> = Vec::new();
        let mut k: usize = 0;
        while k < length
            invariant
                k <= length,
                start + length <= self.nodes@.len(),
                r@.len() == k,
                forall|j: int|
                    0 <= j < k ==> #[trigger] r@[j] == (
                        self.nodes@[start + j].mv,
                        self.nodes@[start + j].visits,
                    ),
            decreases length - k,
        {
            let c = start + k;
            r.push((self.nodes[c].mv, self.nodes[c].visits));
            k = k + 1;
        }
        r
    }
}

/// In a quiescent tree the summed visit counts of the root's children are
/// exactly one less than the root's own visit count: every walk but the one
/// that expanded the root descended into some child. Normalising the policy
/// target by this total therefore yields a distribution that sums to
/// exactly one.
pub proof fn lemma_policy_target_total<B: Board>(t: Tree<B>)
    requires
        t.wf(),
        t.stats_ok(),
        t.nodes@[0].expanded(),
    ensures
        sum_visits(
            t.nodes@,
            t.nodes@[0].children_start as int,
            t.nodes@[0].children_length as int,
        ) == t.nodes@[0].visits - 1,
{
    assert(t.node_stats_ok(0));
}

/// A quiescent tree whose root holds a single visit — the tree a one
/// iteration search builds — has an expanded root, no visited children,
/// and a best move that falls back to the first root child.
pub proof fn lemma_single_visit_tree<B: Board>(t: Tree<B>)
    requires
        t.wf(),
        t.stats_ok(),
        t.nodes@[0].expanded(),
        t.nodes@[0].visits == 1,
    ensures
        forall|k: int|
            0 <= k < t.nodes@[0].children_length ==> (#[trigger] t.nodes@[t.nodes@[
                0].children_start + k]).visits == 0,
        t.spec_best_child() == t.nodes@[0].children_start,
        t.spec_best_move() == t.root_board.spec_moves()[0],
{
    let start = t.nodes@[0].children_start as int;
    let len = t.nodes@[0].children_length as int;
    assert(t.node_stats_ok(0));
    assert(t.node_struct_ok(0));
    assert(sum_visits(t.nodes@, start, len) == 0);
    lemma_sum_visits_zero(t.nodes@, start, len);
    lemma_first_argmax_unique(t.nodes@, start, len, start);
    assert(t.nodes@[start + 0] == t.nodes@[start]);
}

/// The visit sum only reads visit counts, so sequences that agree on
/// them over the run have the same sum.
pub proof fn lemma_sum_visits_frame_visits<B: Board>(
    s1: Seq<Node<B>>,
    s2: Seq<Node<B>>,
    start: int,
    len: int,
)
    requires
        0 <= start,
        start + len <= s1.len(),
        start + len <= s2.len(),
        forall|i: int| start <= i < start + len ==> s1[i].visits == s2[i].visits,
    ensures
        sum_visits(s1, start, len) == sum_visits(s2, start, len),
    decreases len,
{
    if len > 0 {
        lemma_sum_visits_frame_visits(s1, s2, start + 1, len - 1);
    }
}

/// Splitting the last entry off a visit sum.
pub proof fn lemma_sum_visits_snoc<B: Board>(nodes: Seq<Node<B>>, start: int, len: int)
    requires
        0 <= start,
        1 <= len,
        start + len <= nodes.len(),
    ensures
        sum_visits(nodes, start, len) == sum_visits(nodes, start, len - 1) + nodes[start + len
            - 1].visits,
    decreases len,
{
    if len > 1 {
        lemma_sum_visits_snoc(nodes, start + 1, len - 1);
    } else {
        assert(sum_visits(nodes, start + 1, 0) == 0);
        assert(sum_visits(nodes, start, 0) == 0);
    }
}

/// A run of unvisited nodes sums to zero.
pub proof fn lemma_sum_visits_all_zero<B: Board>(nodes: Seq<Node<B>>, start: int, len: int)
    requires
        0 <= start,
        start + len <= nodes.len(),
        forall|i: int| start <= i < start + len ==> (#[trigger] nodes[i]).visits == 0,
    ensures
        sum_visits(nodes, start, len) == 0,
    decreases len,
{
    if len > 0 {
        lemma_sum_visits_all_zero(nodes, start + 1, len - 1);
    }
}

} // verus!
