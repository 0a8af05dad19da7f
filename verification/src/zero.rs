//! The AlphaZero-style search drivers: an `Evaluator` capability that maps
//! boards to (value, policy) pairs, an unbatched tree builder that runs one
//! walk per evaluation, and a batched builder that collects a batch of
//! leaves under virtual loss before calling the evaluator once.
use vstd::prelude::*;

use crate::VALUE_SCALE;
use crate::board::Board;
use crate::puct::MAX_EXPLORATION_WEIGHT;
use crate::puct::MAX_VISITS;
use crate::puct::puct_input_ok;
use crate::tree::Node;
use crate::tree::Tree;
use crate::tree::backprop_delta;
use crate::tree::is_chain;
use crate::tree::chain_step;
use crate::tree::lemma_chain_increasing;
use crate::tree::lemma_sum_visits_frame;
use crate::tree::lemma_sum_visits_frame_visits;
use crate::tree::lemma_sum_visits_update;
use crate::tree::lemma_wf_preserved;
use crate::tree::node_update_ok;
use crate::tree::same_shape;
use crate::tree::sum_visits;

verus! {

/// What the network returns for one board: a value in `[-1, 1]` (fixed
/// point, scaled by [`VALUE_SCALE`]) from the perspective of the side to
/// move, and one prior in `[0, 1]` per available move, in move order.
pub struct Evaluation {
    pub value: i64,
    pub policy: Vec<u64>,
}

/// Well-formedness of an evaluation for a given board.
pub open spec fn evaluation_ok<B: Board>(e: Evaluation, b: B) -> bool {
    &&& -(VALUE_SCALE as int) <= e.value <= VALUE_SCALE as int
    &&& e.policy@.len() == b.spec_moves().len()
    &&& forall|k: int| 0 <= k < e.policy@.len() ==> e.policy@[k] <= VALUE_SCALE
}

/// The batched (board -> value, policy) oracle the search consumes. The
/// contract promises only shape and ranges, never particular numbers, so
/// everything proved of the search holds for every implementation.
pub trait Evaluator<B: Board> {
    /// Evaluate a batch of live boards, one evaluation per board.
    fn evaluate_batch(&mut self, boards: &Vec<B>) -> (r: Vec<Evaluation>)
        requires
            forall|i: int|
                0 <= i < boards@.len() ==> (#[trigger] boards@[i]).wf() && boards@[
                    i].spec_outcome() is None,
        ensures
            r@.len() == boards@.len(),
            forall|i: int| 0 <= i < r@.len() ==> evaluation_ok(#[trigger] r@[i], boards@[i]),
    ;
}

/// A deterministic reference evaluator: value `0` and a uniform policy
/// over the available moves. It makes the search a pure function of the
/// board and the search parameters, which the reproducibility tests use.
pub struct UniformEvaluator;

impl<B: Board> Evaluator<B> for UniformEvaluator {
    fn evaluate_batch(&mut self, boards: &Vec<B>) -> (r: Vec<Evaluation>) {
        let mut r: Vec<Evaluation> = Vec::new();
        let mut i: usize = 0;
        while i < boards.len()
            invariant
                i <= boards@.len(),
                r@.len() == i,
                forall|k: int|
                    0 <= k < boards@.len() ==> (#[trigger] boards@[k]).wf() && boards@[
                        k].spec_outcome() is None,
                forall|k: int| 0 <= k < i ==> evaluation_ok(#[trigger] r@[k], boards@[k]),
            decreases boards@.len() - i,
        {
            let b = &boards[i];
            let moves = b.available_moves();
            let n: usize = moves.len();
            proof {
                b.lemma_moves_nonempty();
            }
            let share: u64 = VALUE_SCALE / (n as u64);
            let mut policy: Vec<u64> = Vec::new();
            let mut k: usize = 0;
            while k < n
                invariant
                    k <= n,
                    policy@.len() == k,
                    share <= VALUE_SCALE,
                    forall|j: int| 0 <= j < k ==> policy@[j] == share,
                decreases n - k,
            {
                policy.push(share);
                k = k + 1;
            }
            r.push(Evaluation { value: 0, policy });
            i = i + 1;
        }
        r
    }
}

/// How many of the in-flight walk paths pass through node `i`.
pub open spec fn count_paths_through(paths: Seq<Seq<usize>>, i: usize) -> int
    decreases paths.len(),
{
    if paths.len() == 0 {
        0
    } else {
        (if paths[0].contains(i) {
            1int
        } else {
            0int
        }) + count_paths_through(paths.drop_first(), i)
    }
}

/// The pending count is between zero and the number of walks.
pub proof fn lemma_count_paths_bounds(paths: Seq<Seq<usize>>, i: usize)
    ensures
        0 <= count_paths_through(paths, i) <= paths.len(),
    decreases paths.len(),
{
    if paths.len() > 0 {
        lemma_count_paths_bounds(paths.drop_first(), i);
    }
}

/// The statistics of node `i` while the walks of `paths` are in flight:
/// the node holds one virtual loss and one tentative visit per pending
/// walk through it, the visit equation of expanded nodes holds with the
/// tentative visits included, and the summed value is bounded by the
/// settled visits. With no walks in flight this is exactly
/// [`Tree::node_stats_ok`].
pub open spec fn node_pending_ok<B: Board>(t: Tree<B>, paths: Seq<Seq<usize>>, i: int) -> bool {
    let n = t.nodes@[i];
    let c = count_paths_through(paths, i as usize);
    &&& n.virtual_loss == c
    &&& c <= n.visits
    &&& n.expanded() ==> n.visits == 1 + sum_visits(
        t.nodes@,
        n.children_start as int,
        n.children_length as int,
    )
    &&& (!n.expanded() && !n.terminal()) ==> n.visits == c && c <= 1
    &&& -((n.visits - c) * VALUE_SCALE) <= n.total_value <= (n.visits - c) * VALUE_SCALE
    &&& n.visits <= t.nodes@[0].visits
}

/// After a completed walk is backpropagated — one more visit at every
/// node of `path` and the alternating share of `value` added — the
/// per-node statistics hold again, for the same set of in-flight walks.
/// The walk's leaf is either a terminal node, or a node that was expanded
/// by this walk and still carries zero visits.
pub(crate) proof fn lemma_walk_backprop_stats<B: Board>(
    mid: Tree<B>,
    post: Tree<B>,
    pend: Seq<Seq<usize>>,
    path: Seq<usize>,
    value: i64,
)
    requires
        mid.wf(),
        is_chain(mid, path),
        mid.nodes@.len() <= usize::MAX,
        mid.nodes@[0].visits < MAX_VISITS,
        forall|i: int|
            0 <= i < mid.nodes@.len() && i != path.last() as int ==> node_pending_ok(mid, pend, i),
        ({
            let leaf = path.last() as int;
            ||| (mid.nodes@[leaf].terminal() && !mid.nodes@[leaf].expanded() && node_pending_ok(
                mid,
                pend,
                leaf,
            ))
            ||| (mid.nodes@[leaf].expanded() && mid.nodes@[leaf].visits == 0 && mid.nodes@[
                leaf].total_value == 0 && mid.nodes@[leaf].virtual_loss == 0
                && count_paths_through(pend, path.last()) == 0 && forall|k: int|
                0 <= k < mid.nodes@[leaf].children_length ==> (#[trigger] mid.nodes@[mid.nodes@[
                    leaf].children_start + k]).visits == 0)
        }),
        post.root_board == mid.root_board,
        post.nodes@.len() == mid.nodes@.len(),
        forall|i: int|
            0 <= i < mid.nodes@.len() && !path.contains(i as usize) ==> post.nodes@[i]
                == mid.nodes@[i],
        forall|j: int|
            0 <= j < path.len() ==> post.nodes@[path[j] as int] == (Node {
                visits: (mid.nodes@[path[j] as int].visits + 1) as u64,
                total_value: (mid.nodes@[path[j] as int].total_value + backprop_delta(
                    value,
                    path.len() as int,
                    j,
                )) as i128,
                ..mid.nodes@[path[j] as int]
            }),
        -(VALUE_SCALE as int) <= value <= VALUE_SCALE as int,
    ensures
        post.wf(),
        post.nodes@[0].visits == mid.nodes@[0].visits + 1,
        forall|i: int| 0 <= i < post.nodes@.len() ==> node_pending_ok(post, pend, i),
        forall|i: int|
            0 <= i < post.nodes@.len() ==> same_shape(
                #[trigger] mid.nodes@[i],
                #[trigger] post.nodes@[i],
            ),
{
    lemma_chain_increasing(mid, path);
    let m = path.len() as int;
    let leaf = path.last() as int;
    assert(path[m - 1] == path.last());
    assert(path.contains(path[m - 1]));
    // visit counts stay below the cap, so the u64 casts below are exact
    assert forall|i: int| 0 <= i < mid.nodes@.len() implies mid.nodes@[i].visits
        < 0xffff_ffff_ffff_ffffu64 by {
        if i != leaf {
            assert(node_pending_ok(mid, pend, i));
        }
    }
    // shape preservation gives structural well-formedness
    assert forall|i: int| 0 <= i < mid.nodes@.len() implies same_shape(
        #[trigger] mid.nodes@[i],
        #[trigger] post.nodes@[i],
    ) by {
        if path.contains(i as usize) {
            let j = choose|j: int|
                0 <= j < path.len() && (#[trigger] path[j]) == i as usize;
            assert(path[j] as int == i);
            assert(post.nodes@[i] == (Node {
                visits: (mid.nodes@[i].visits + 1) as u64,
                total_value: (mid.nodes@[i].total_value + backprop_delta(value, m, j)) as i128,
                ..mid.nodes@[i]
            }));
        }
    }
    lemma_wf_preserved(mid, post);
    // the root is the first element of every walk
    assert(post.nodes@[path[0] as int] == (Node {
        visits: (mid.nodes@[path[0] as int].visits + 1) as u64,
        total_value: (mid.nodes@[path[0] as int].total_value + backprop_delta(value, m, 0))
            as i128,
        ..mid.nodes@[path[0] as int]
    }));
    assert(post.nodes@[0].visits == mid.nodes@[0].visits + 1);
    // per-node statistics
    assert forall|i: int| 0 <= i < post.nodes@.len() implies node_pending_ok(post, pend, i) by {
        lemma_count_paths_bounds(pend, i as usize);
        let c = count_paths_through(pend, i as usize);
        let n_mid = mid.nodes@[i];
        let n_post = post.nodes@[i];
        if !path.contains(i as usize) {
            assert(n_post == n_mid);
            assert(i != leaf);
            assert(node_pending_ok(mid, pend, i));
            if n_mid.expanded() {
                let cs = n_mid.children_start as int;
                let cl = n_mid.children_length as int;
                assert(mid.node_struct_ok(i));
                assert forall|q: int| cs <= q < cs + cl implies post.nodes@[q] == mid.nodes@[
                    q] by {
                    if path.contains(q as usize) {
                        let k = choose|k: int|
                            0 <= k < path.len() && (#[trigger] path[k]) == q as usize;
                        assert(path[k] as int == q);
                        assert(q >= 1);
                        assert(path[0] == 0);
                        assert(k >= 1) by {
                            if k == 0 {
                                assert(path[0] as int == q);
                            }
                        }
                        assert(chain_step(mid, path, k - 1));
                        let p2 = path[k - 1] as int;
                        assert(mid.ranges_disjoint_at(i, p2));
                        assert(p2 != i);
                        assert(false);
                    }
                }
                lemma_sum_visits_frame(mid.nodes@, post.nodes@, cs, cl);
            }
        } else {
            let j = choose|j: int|
                0 <= j < path.len() && (#[trigger] path[j]) == i as usize;
            assert(path[j] as int == i);
            assert(n_post == (Node {
                visits: (n_mid.visits + 1) as u64,
                total_value: (n_mid.total_value + backprop_delta(value, m, j)) as i128,
                ..n_mid
            }));
            let d = backprop_delta(value, m, j);
            assert(-(VALUE_SCALE as int) <= d <= VALUE_SCALE as int);
            if j < m - 1 {
                // an interior node of the walk: i != leaf by injectivity
                assert(i != leaf) by {
                    if i == leaf {
                        assert(path[j] == path[m - 1]);
                        assert(path[j] < path[m - 1]);
                    }
                }
                assert(node_pending_ok(mid, pend, i));
                assert(chain_step(mid, path, j));
                let cs = n_mid.children_start as int;
                let cl = n_mid.children_length as int;
                assert(mid.node_struct_ok(i));
                // among i's children exactly path[j+1] was updated
                assert forall|q: int|
                    cs <= q < cs + cl && q != path[j + 1] as int implies post.nodes@[q]
                    == mid.nodes@[q] by {
                    if path.contains(q as usize) {
                        let k = choose|k: int|
                            0 <= k < path.len() && (#[trigger] path[k]) == q as usize;
                        assert(path[k] as int == q);
                        assert(q >= 1);
                        assert(k >= 1) by {
                            if k == 0 {
                                assert(path[0] as int == q);
                            }
                        }
                        assert(chain_step(mid, path, k - 1));
                        let p2 = path[k - 1] as int;
                        assert(mid.ranges_disjoint_at(i, p2));
                        // q lies in both children runs, so the parents agree
                        assert(p2 == i);
                        // path is injective, so k - 1 == j and q == path[j + 1]
                        assert(k - 1 == j) by {
                            if k - 1 < j {
                                assert(path[k - 1] < path[j]);
                            }
                            if j < k - 1 {
                                assert(path[j] < path[k - 1]);
                            }
                        }
                        assert(false);
                    }
                }
                assert(path.contains(path[j + 1]));
                assert(post.nodes@[path[j + 1] as int].visits == mid.nodes@[path[j
                    + 1] as int].visits + 1);
                lemma_sum_visits_update(mid.nodes@, post.nodes@, cs, cl, path[j + 1] as int);
                assert(sum_visits(post.nodes@, cs, cl) == sum_visits(mid.nodes@, cs, cl) + 1);
            } else {
                // the leaf itself
                assert(i == leaf);
                if mid.nodes@[leaf].expanded() {
                    let cs = n_mid.children_start as int;
                    let cl = n_mid.children_length as int;
                    assert(mid.node_struct_ok(i));
                    // the fresh children lie beyond every walk index
                    assert forall|q: int| cs <= q < cs + cl implies post.nodes@[q] == mid.nodes@[
                        q] && post.nodes@[q].visits == 0 by {
                        assert(i < cs);
                        if path.contains(q as usize) {
                            let k = choose|k: int|
                                0 <= k < path.len() && (#[trigger] path[k]) == q as usize;
                            assert(path[k] as int == q);
                            assert(path[k] <= path[m - 1]) by {
                                if k < m - 1 {
                                    assert(path[k] < path[m - 1]);
                                }
                            }
                            assert(false);
                        }
                        assert(mid.nodes@[cs + (q - cs)].visits == 0);
                    }
                    crate::tree::lemma_sum_visits_all_zero(post.nodes@, cs, cl);
                    assert(sum_visits(post.nodes@, cs, cl) == 0);
                }
            }
            // value bound, with the settled-visit discount
            assert(c <= n_mid.visits && -((n_mid.visits - c) * VALUE_SCALE) <= n_mid.total_value
                <= (n_mid.visits - c) * VALUE_SCALE) by {
                if i != leaf {
                    assert(node_pending_ok(mid, pend, i));
                } else if !mid.nodes@[leaf].expanded() {
                    assert(node_pending_ok(mid, pend, i));
                }
            }
            assert(-((n_post.visits - c) * VALUE_SCALE) <= n_post.total_value <= (n_post.visits
                - c) * VALUE_SCALE) by (nonlinear_arith)
                requires
                    n_post.visits == n_mid.visits + 1,
                    n_post.total_value == n_mid.total_value + d,
                    -((n_mid.visits - c) * VALUE_SCALE) <= n_mid.total_value <= (n_mid.visits - c)
                        * VALUE_SCALE,
                    -(VALUE_SCALE as int) <= d <= VALUE_SCALE as int,
                    0 <= c <= n_mid.visits,
            ;
        }
    }
}

/// Appending a walk raises the count of exactly the nodes on it.
pub proof fn lemma_count_push(paths: Seq<Seq<usize>>, p: Seq<usize>, i: usize)
    ensures
        count_paths_through(paths.push(p), i) == count_paths_through(paths, i) + (if p.contains(i) {
            1int
        } else {
            0int
        }),
    decreases paths.len(),
{
    if paths.len() == 0 {
        assert(paths.push(p)[0] == p);
        assert(paths.push(p).drop_first() =~~= Seq::<Seq<usize>>::empty());
        assert(count_paths_through(paths.push(p), i) == (if p.contains(i) {
            1int
        } else {
            0int
        }) + count_paths_through(Seq::<Seq<usize>>::empty(), i));
    } else {
        assert(paths.push(p)[0] == paths[0]);
        assert(paths.push(p).drop_first() =~~= paths.drop_first().push(p));
        lemma_count_push(paths.drop_first(), p, i);
        assert(count_paths_through(paths.push(p), i) == (if paths[0].contains(i) {
            1int
        } else {
            0int
        }) + count_paths_through(paths.drop_first().push(p), i));
    }
}

/// Committing a fresh walk — one tentative visit and one virtual loss at
/// every node of `path` — moves the tree from the statistics of `pend` to
/// the statistics of `pend` with the walk appended. The walk's leaf must
/// be an unclaimed, unexpanded, live node.
pub(crate) proof fn lemma_commit_stats<B: Board>(
    mid: Tree<B>,
    post: Tree<B>,
    pend: Seq<Seq<usize>>,
    path: Seq<usize>,
)
    requires
        mid.wf(),
        is_chain(mid, path),
        mid.nodes@.len() <= usize::MAX,
        mid.nodes@[0].visits < MAX_VISITS,
        forall|i: int| 0 <= i < mid.nodes@.len() ==> node_pending_ok(mid, pend, i),
        !mid.nodes@[path.last() as int].expanded(),
        !mid.nodes@[path.last() as int].terminal(),
        count_paths_through(pend, path.last()) == 0,
        post.root_board == mid.root_board,
        post.nodes@.len() == mid.nodes@.len(),
        forall|i: int|
            0 <= i < mid.nodes@.len() && !path.contains(i as usize) ==> post.nodes@[i]
                == mid.nodes@[i],
        forall|j: int|
            0 <= j < path.len() ==> post.nodes@[path[j] as int] == (Node {
                visits: (mid.nodes@[path[j] as int].visits + 1) as u64,
                virtual_loss: (mid.nodes@[path[j] as int].virtual_loss + 1) as u64,
                ..mid.nodes@[path[j] as int]
            }),
    ensures
        post.wf(),
        post.nodes@[0].visits == mid.nodes@[0].visits + 1,
        forall|i: int| 0 <= i < post.nodes@.len() ==> node_pending_ok(post, pend.push(path), i),
        forall|i: int|
            0 <= i < post.nodes@.len() ==> same_shape(
                #[trigger] mid.nodes@[i],
                #[trigger] post.nodes@[i],
            ),
{
    lemma_chain_increasing(mid, path);
    let m = path.len() as int;
    let leaf = path.last() as int;
    assert(path[m - 1] == path.last());
    assert(path.contains(path[m - 1]));
    assert forall|i: int| 0 <= i < mid.nodes@.len() implies mid.nodes@[i].visits
        < 0xffff_ffff_ffff_ffffu64 && mid.nodes@[i].virtual_loss < 0xffff_ffff_ffff_ffffu64 by {
        assert(node_pending_ok(mid, pend, i));
        lemma_count_paths_bounds(pend, i as usize);
    }
    assert forall|i: int| 0 <= i < mid.nodes@.len() implies same_shape(
        #[trigger] mid.nodes@[i],
        #[trigger] post.nodes@[i],
    ) by {
        if path.contains(i as usize) {
            let j = choose|j: int| 0 <= j < path.len() && (#[trigger] path[j]) == i as usize;
            assert(path[j] as int == i);
        }
    }
    lemma_wf_preserved(mid, post);
    assert(post.nodes@[path[0] as int] == (Node {
        visits: (mid.nodes@[path[0] as int].visits + 1) as u64,
        virtual_loss: (mid.nodes@[path[0] as int].virtual_loss + 1) as u64,
        ..mid.nodes@[path[0] as int]
    }));
    assert(post.nodes@[0].visits == mid.nodes@[0].visits + 1);
    assert forall|i: int| 0 <= i < post.nodes@.len() implies node_pending_ok(
        post,
        pend.push(path),
        i,
    ) by {
        lemma_count_paths_bounds(pend, i as usize);
        lemma_count_push(pend, path, i as usize);
        let c = count_paths_through(pend, i as usize);
        let n_mid = mid.nodes@[i];
        let n_post = post.nodes@[i];
        assert(node_pending_ok(mid, pend, i));
        if !path.contains(i as usize) {
            assert(n_post == n_mid);
            if n_mid.expanded() {
                let cs = n_mid.children_start as int;
                let cl = n_mid.children_length as int;
                assert(mid.node_struct_ok(i));
                assert forall|q: int| cs <= q < cs + cl implies post.nodes@[q] == mid.nodes@[
                    q] by {
                    if path.contains(q as usize) {
                        let k = choose|k: int|
                            0 <= k < path.len() && (#[trigger] path[k]) == q as usize;
                        assert(path[k] as int == q);
                        assert(q >= 1);
                        assert(k >= 1) by {
                            if k == 0 {
                                assert(path[0] as int == q);
                            }
                        }
                        assert(chain_step(mid, path, k - 1));
                        let p2 = path[k - 1] as int;
                        assert(mid.ranges_disjoint_at(i, p2));
                        assert(p2 != i);
                        assert(false);
                    }
                }
                lemma_sum_visits_frame(mid.nodes@, post.nodes@, cs, cl);
            }
        } else {
            let j = choose|j: int| 0 <= j < path.len() && (#[trigger] path[j]) == i as usize;
            assert(path[j] as int == i);
            assert(n_post == (Node {
                visits: (n_mid.visits + 1) as u64,
                virtual_loss: (n_mid.virtual_loss + 1) as u64,
                ..n_mid
            }));
            if j < m - 1 {
                assert(i != leaf) by {
                    if i == leaf {
                        assert(path[j] < path[m - 1]);
                    }
                }
                assert(chain_step(mid, path, j));
                let cs = n_mid.children_start as int;
                let cl = n_mid.children_length as int;
                assert(mid.node_struct_ok(i));
                assert forall|q: int|
                    cs <= q < cs + cl && q != path[j + 1] as int implies post.nodes@[q]
                    == mid.nodes@[q] by {
                    if path.contains(q as usize) {
                        let k = choose|k: int|
                            0 <= k < path.len() && (#[trigger] path[k]) == q as usize;
                        assert(path[k] as int == q);
                        assert(q >= 1);
                        assert(k >= 1) by {
                            if k == 0 {
                                assert(path[0] as int == q);
                            }
                        }
                        assert(chain_step(mid, path, k - 1));
                        let p2 = path[k - 1] as int;
                        assert(mid.ranges_disjoint_at(i, p2));
                        assert(p2 == i);
                        assert(k - 1 == j) by {
                            if k - 1 < j {
                                assert(path[k - 1] < path[j]);
                            }
                            if j < k - 1 {
                                assert(path[j] < path[k - 1]);
                            }
                        }
                        assert(false);
                    }
                }
                assert(path.contains(path[j + 1]));
                assert(post.nodes@[path[j + 1] as int].visits == mid.nodes@[path[j
                    + 1] as int].visits + 1);
                lemma_sum_visits_update(mid.nodes@, post.nodes@, cs, cl, path[j + 1] as int);
            } else {
                assert(i == leaf);
                assert(n_mid.visits == c);
                assert(c == 0);
            }
            // the settled visit count is unchanged, so the value bound holds
            assert((n_post.visits - (c + 1)) == (n_mid.visits - c));
        }
    }
}

/// Resolving the first in-flight walk — adding the alternating share of
/// its leaf value and releasing its virtual losses, after its leaf was
/// expanded — moves the tree from the statistics of `pend` to those of
/// the remaining walks. The leaf must have been expanded with exactly its
/// one tentative visit and unvisited children.
pub(crate) proof fn lemma_resolve_stats<B: Board>(
    mid: Tree<B>,
    post: Tree<B>,
    pend: Seq<Seq<usize>>,
    value: i64,
)
    requires
        mid.wf(),
        pend.len() >= 1,
        is_chain(mid, pend[0]),
        mid.nodes@.len() <= usize::MAX,
        mid.nodes@[0].visits <= MAX_VISITS,
        forall|i: int| 0 <= i < mid.nodes@.len() ==> node_pending_ok(mid, pend, i),
        mid.nodes@[pend[0].last() as int].expanded(),
        mid.nodes@[pend[0].last() as int].visits == 1,
        post.root_board == mid.root_board,
        post.nodes@.len() == mid.nodes@.len(),
        forall|i: int|
            0 <= i < mid.nodes@.len() && !pend[0].contains(i as usize) ==> post.nodes@[i]
                == mid.nodes@[i],
        forall|j: int|
            0 <= j < pend[0].len() ==> post.nodes@[pend[0][j] as int] == (Node {
                total_value: (mid.nodes@[pend[0][j] as int].total_value + backprop_delta(
                    value,
                    pend[0].len() as int,
                    j,
                )) as i128,
                virtual_loss: (mid.nodes@[pend[0][j] as int].virtual_loss - 1) as u64,
                ..mid.nodes@[pend[0][j] as int]
            }),
        -(VALUE_SCALE as int) <= value <= VALUE_SCALE as int,
    ensures
        post.wf(),
        post.nodes@[0].visits == mid.nodes@[0].visits,
        forall|i: int| 0 <= i < post.nodes@.len() ==> node_pending_ok(post, pend.drop_first(), i),
        forall|i: int|
            0 <= i < post.nodes@.len() ==> same_shape(
                #[trigger] mid.nodes@[i],
                #[trigger] post.nodes@[i],
            ),
{
    let path = pend[0];
    lemma_chain_increasing(mid, path);
    let m = path.len() as int;
    let leaf = path.last() as int;
    assert(path[m - 1] == path.last());
    assert(path.contains(path[m - 1]));
    assert forall|i: int|
        0 <= i < mid.nodes@.len() && path.contains(i as usize) implies mid.nodes@[i].virtual_loss
        >= 1 && (-0x4000_0000_0000_0000_0000i128 <= mid.nodes@[i].total_value
        <= 0x4000_0000_0000_0000_0000i128) by {
        assert(node_pending_ok(mid, pend, i));
        lemma_count_paths_bounds(pend.drop_first(), i as usize);
        let n = mid.nodes@[i];
        let c = count_paths_through(pend, i as usize);
        assert(c >= 1);
        assert(-0x4000_0000_0000_0000_0000i128 <= n.total_value
            <= 0x4000_0000_0000_0000_0000i128) by (nonlinear_arith)
            requires
                0 <= c <= n.visits <= 0x4000_0000_0000_0000u64,
                -((n.visits - c) * VALUE_SCALE) <= n.total_value <= (n.visits - c) * VALUE_SCALE,
                VALUE_SCALE == 65536,
        ;
    }
    assert forall|i: int| 0 <= i < mid.nodes@.len() implies same_shape(
        #[trigger] mid.nodes@[i],
        #[trigger] post.nodes@[i],
    ) by {
        if path.contains(i as usize) {
            let j = choose|j: int| 0 <= j < path.len() && (#[trigger] path[j]) == i as usize;
            assert(path[j] as int == i);
        }
    }
    lemma_wf_preserved(mid, post);
    assert(post.nodes@[path[0] as int] == (Node {
        total_value: (mid.nodes@[path[0] as int].total_value + backprop_delta(value, m, 0))
            as i128,
        virtual_loss: (mid.nodes@[path[0] as int].virtual_loss - 1) as u64,
        ..mid.nodes@[path[0] as int]
    }));
    assert(post.nodes@[0].visits == mid.nodes@[0].visits);
    assert forall|i: int| 0 <= i < post.nodes@.len() implies node_pending_ok(
        post,
        pend.drop_first(),
        i,
    ) by {
        lemma_count_paths_bounds(pend.drop_first(), i as usize);
        let c = count_paths_through(pend, i as usize);
        let c2 = count_paths_through(pend.drop_first(), i as usize);
        assert(c == (if path.contains(i as usize) {
            1int
        } else {
            0int
        }) + c2);
        let n_mid = mid.nodes@[i];
        let n_post = post.nodes@[i];
        assert(node_pending_ok(mid, pend, i));
        // visit counts are untouched, so every children sum is unchanged
        assert forall|q: int| 0 <= q < mid.nodes@.len() implies post.nodes@[q].visits
            == mid.nodes@[q].visits by {
            if path.contains(q as usize) {
                let k = choose|k: int|
                    0 <= k < path.len() && (#[trigger] path[k]) == q as usize;
                assert(path[k] as int == q);
            }
        }
        if n_mid.expanded() {
            assert(mid.node_struct_ok(i));
            lemma_sum_visits_frame_visits(
                mid.nodes@,
                post.nodes@,
                n_mid.children_start as int,
                n_mid.children_length as int,
            );
        }
        if !path.contains(i as usize) {
            assert(n_post == n_mid);
            assert(c2 == c);
        } else {
            let j = choose|j: int| 0 <= j < path.len() && (#[trigger] path[j]) == i as usize;
            assert(path[j] as int == i);
            assert(n_post == (Node {
                total_value: (n_mid.total_value + backprop_delta(value, m, j)) as i128,
                virtual_loss: (n_mid.virtual_loss - 1) as u64,
                ..n_mid
            }));
            assert(c2 == c - 1);
            let d = backprop_delta(value, m, j);
            assert(-(VALUE_SCALE as int) <= d <= VALUE_SCALE as int);
            if j < m - 1 {
                assert(chain_step(mid, path, j));
                assert(mid.nodes@[i].expanded());
            }
            if j == m - 1 {
                // the freshly expanded leaf: one visit, all of it pending
                assert(i == leaf);
                assert(n_mid.visits == 1);
                assert(c >= 1);
                assert(c == 1);
                assert(n_mid.total_value == 0) by {
                    assert(-((n_mid.visits - c) * VALUE_SCALE) <= n_mid.total_value <= (
                    n_mid.visits - c) * VALUE_SCALE);
                }
            }
            assert(-((n_post.visits - c2) * VALUE_SCALE) <= n_post.total_value <= (n_post.visits
                - c2) * VALUE_SCALE) by (nonlinear_arith)
                requires
                    n_post.visits == n_mid.visits,
                    n_post.total_value == n_mid.total_value + d,
                    -((n_mid.visits - c) * VALUE_SCALE) <= n_mid.total_value <= (n_mid.visits - c)
                        * VALUE_SCALE,
                    -(VALUE_SCALE as int) <= d <= VALUE_SCALE as int,
                    c2 == c - 1,
                    1 <= c <= n_mid.visits,
                    VALUE_SCALE == 65536,
            ;
        }
    }
}

/// A walk that passes through `i` contributes to the count.
pub proof fn lemma_count_at_least_one(paths: Seq<Seq<usize>>, i: usize, w: int)
    requires
        0 <= w < paths.len(),
        paths[w].contains(i),
    ensures
        count_paths_through(paths, i) >= 1,
    decreases paths.len(),
{
    lemma_count_paths_bounds(paths.drop_first(), i);
    if w > 0 {
        assert(paths.drop_first()[w - 1] == paths[w]);
        lemma_count_at_least_one(paths.drop_first(), i, w - 1);
    }
}

/// Two distinct walks through `i` put the count at two or more.
pub proof fn lemma_count_at_least_two(paths: Seq<Seq<usize>>, i: usize, w1: int, w2: int)
    requires
        0 <= w1 < w2 < paths.len(),
        paths[w1].contains(i),
        paths[w2].contains(i),
    ensures
        count_paths_through(paths, i) >= 2,
    decreases paths.len(),
{
    if w1 == 0 {
        assert(paths.drop_first()[w2 - 1] == paths[w2]);
        lemma_count_at_least_one(paths.drop_first(), i, w2 - 1);
    } else {
        assert(paths.drop_first()[w1 - 1] == paths[w1]);
        assert(paths.drop_first()[w2 - 1] == paths[w2]);
        lemma_count_at_least_two(paths.drop_first(), i, w1 - 1, w2 - 1);
    }
}

/// A node no walk passes through has count zero.
pub proof fn lemma_count_absent(paths: Seq<Seq<usize>>, i: usize)
    requires
        forall|w: int| 0 <= w < paths.len() ==> !(#[trigger] paths[w]).contains(i),
    ensures
        count_paths_through(paths, i) == 0,
    decreases paths.len(),
{
    if paths.len() > 0 {
        assert(paths[0].contains(i) == false);
        assert forall|w: int| 0 <= w < paths.drop_first().len() implies !(
        #[trigger] paths.drop_first()[w]).contains(i) by {
            assert(paths.drop_first()[w] == paths[w + 1]);
        }
        lemma_count_absent(paths.drop_first(), i);
    }
}

/// A chain stays a chain under any update that keeps every node's shape
/// and does not shrink the arena.
pub proof fn lemma_chain_preserved<B: Board>(pre: Tree<B>, post: Tree<B>, p: Seq<usize>)
    requires
        is_chain(pre, p),
        post.nodes@.len() >= pre.nodes@.len(),
        forall|i: int|
            0 <= i < pre.nodes@.len() ==> same_shape(
                #[trigger] pre.nodes@[i],
                #[trigger] post.nodes@[i],
            ),
        forall|k: int| 0 <= k < p.len() ==> (p[k] as int) < pre.nodes@.len(),
    ensures
        is_chain(post, p),
{
    assert forall|k: int| 0 <= k < p.len() - 1 implies chain_step(post, p, k) by {
        assert(chain_step(pre, p, k));
        assert(same_shape(pre.nodes@[p[k] as int], post.nodes@[p[k] as int]));
    }
}

/// Build a search tree for `board` by running `iterations` PUCT walks,
/// one evaluator call per freshly reached leaf.
///
/// The contract pins the externally visible state of the finished tree:
/// it is structurally coherent, the root holds exactly `iterations`
/// visits, every expanded node's visits exceed its children's combined
/// visits by exactly one, every summed value is bounded by the visit
/// count, and no virtual loss is left anywhere.
pub fn mcts_zero_build_tree<B: Board, E: Evaluator<B>>(
    board: &B,
    iterations: u64,
    exploration_weight: i64,
    network: &mut E,
) -> (t: Tree<B>)
    requires
        board.wf(),
        board.spec_outcome() is None,
        1 <= iterations <= MAX_VISITS,
        0 < exploration_weight <= MAX_EXPLORATION_WEIGHT,
    ensures
        t.wf(),
        t.stats_ok(),
        t.root_board == *board,
        t.nodes@[0].visits == iterations,
        t.nodes@[0].expanded(),
{
    let mut tree: Tree<B> = Tree::new(board.clone_board());
    let mut iter: u64 = 0;
    while iter < iterations
        invariant
            tree.wf(),
            tree.stats_ok(),
            tree.root_board == *board,
            tree.nodes@[0].visits == iter,
            iter <= iterations,
            iter >= 1 ==> tree.nodes@[0].expanded(),
        decreases iterations - iter,
    {
        // ---- selection: descend while the current node is expanded ----
        let mut path: Vec<usize> = Vec::new();
        let mut curr: usize = 0;
        let mut curr_board: B = board.clone_board();
        proof {
            assert(tree.node_struct_ok(0));
            assert(path@.push(0usize)[0] == 0usize);
            assert(path@.push(0usize).last() == 0usize);
            assert(is_chain(tree, path@.push(curr)));
        }
        while tree.nodes[curr].children_start != 0
            invariant
                tree.wf(),
                tree.stats_ok(),
                tree.root_board == *board,
                tree.nodes@[0].visits == iter,
                iter < iterations,
                iterations <= MAX_VISITS,
                0 < exploration_weight <= MAX_EXPLORATION_WEIGHT,
                curr < tree.nodes@.len(),
                is_chain(tree, path@.push(curr)),
                curr_board == tree.nodes@[curr as int].board@,
            decreases tree.nodes@.len() - curr,
        {
            let ghost full_old: Seq<usize> = path@.push(curr);
            proof {
                assert(tree.node_struct_ok(curr as int));
                assert(tree.node_stats_ok(curr as int));
                assert(tree.node_stats_ok(0));
                assert forall|k: int|
                    0 <= k < tree.nodes@[curr as int].children_length implies puct_input_ok(
                    #[trigger] tree.nodes@[tree.nodes@[curr as int].children_start + k],
                ) by {
                    let q = tree.nodes@[curr as int].children_start + k;
                    assert(tree.node_stats_ok(q));
                    assert(tree.node_struct_ok(q));
                    assert(tree.node_stats_ok(0));
                }
            }
            path.push(curr);
            let next: usize = tree.select_child(curr, exploration_weight);
            let mv: u64 = tree.nodes[next].mv;
            proof {
                let cs = tree.nodes@[curr as int].children_start as int;
                let k = next as int - cs;
                assert(tree.nodes@[cs + k] == tree.nodes@[next as int]);
                assert(mv == curr_board.spec_moves()[k]);
                assert(curr_board.spec_moves().contains(mv));
                assert(tree.nodes@[next as int].board@ == curr_board.spec_play(mv));
            }
            curr_board.play(mv);
            proof {
                let full_new: Seq<usize> = path@.push(next);
                assert(full_new.len() == full_old.len() + 1);
                assert forall|k: int| 0 <= k < full_new.len() - 1 implies chain_step(
                    tree,
                    full_new,
                    k,
                ) by {
                    if k < full_old.len() - 1 {
                        assert(chain_step(tree, full_old, k));
                        assert(full_new[k] == full_old[k]);
                        assert(full_new[k + 1] == full_old[k + 1]);
                    } else {
                        assert(full_new[k] == curr);
                        assert(full_new[k + 1] == next);
                    }
                }
                assert(is_chain(tree, full_new));
            }
            curr = next;
        }
        // ---- the walk has reached a leaf ----
        let ghost pre: Tree<B> = tree;
        let ghost full: Seq<usize> = path@.push(curr);
        proof {
            assert(pre.node_struct_ok(curr as int));
            lemma_chain_increasing(pre, full);
        }
        let total_pre: usize = tree.nodes.len();
        let outc = curr_board.outcome();
        let leaf_value: i64;
        if let Some(oc) = outc {
            // terminal leaf: the exact game value, from the side to move
            let np = curr_board.next_player();
            let sgn: i8 = oc.sign(np);
            proof {
                assert(-1 <= sgn <= 1);
            }
            leaf_value = (sgn as i64) * 65536i64;
            proof {
                assert(-(VALUE_SCALE as int) <= leaf_value <= VALUE_SCALE as int);
            }
        } else {
            // unexpanded live leaf: evaluate and expand
            let moves = curr_board.available_moves();
            proof {
                curr_board.lemma_moves_nonempty();
            }
            let mut batch: Vec<B> = Vec::new();
            batch.push(curr_board.clone_board());
            let evals = network.evaluate_batch(&batch);
            let ev = &evals[0];
            leaf_value = ev.value;
            tree.push_children(curr, &moves, &ev.policy);
            let ghost after_push: Tree<B> = tree;
            let entry = &mut tree.nodes[curr];
            entry.evaluation = Some(leaf_value);
            proof {
                assert forall|i: int| 0 <= i < after_push.nodes@.len() implies same_shape(
                    #[trigger] after_push.nodes@[i],
                    #[trigger] tree.nodes@[i],
                ) by {}
                lemma_wf_preserved(after_push, tree);
                assert forall|i2: int|
                    pre.nodes@.len() <= i2 < tree.nodes@.len() implies {
                    &&& !(#[trigger] tree.nodes@[i2]).expanded()
                    &&& tree.nodes@[i2].visits == 0
                    &&& tree.nodes@[i2].total_value == 0
                    &&& tree.nodes@[i2].virtual_loss == 0
                    &&& tree.nodes@[i2].children_length == 0
                } by {
                    let k2 = i2 - pre.nodes@.len();
                    assert(i2 != curr as int);
                    assert(after_push.nodes@[pre.nodes@.len() + k2] == (Node {
                        mv: moves@[k2],
                        children_start: 0usize,
                        children_length: 0usize,
                        policy: ev.policy@[k2],
                        evaluation: None::<i64>,
                        visits: 0u64,
                        total_value: 0i128,
                        virtual_loss: 0u64,
                        board: Ghost(pre.nodes@[curr as int].board@.spec_play(moves@[k2])),
                    }));
                    assert(tree.nodes@[pre.nodes@.len() + k2] == after_push.nodes@[
                        pre.nodes@.len() + k2]);
                }
            }
        }
        path.push(curr);
        let total_mid: usize = tree.nodes.len();
        let ghost mid: Tree<B> = tree;
        let ghost pend: Seq<Seq<usize>> = Seq::empty();
        proof {
            assert(path@ == full);
            assert(full.last() == curr);
            assert(count_paths_through(pend, curr) == 0);
            // the walk is still a chain of the (possibly expanded) tree
            assert forall|k: int| 0 <= k < full.len() - 1 implies chain_step(mid, full, k) by {
                assert(chain_step(pre, full, k));
                assert(full[k] as int != curr as int) by {
                    assert(full[k] < full[full.len() - 1]);
                }
                assert(mid.nodes@[full[k] as int] == pre.nodes@[full[k] as int]);
            }
            assert(is_chain(mid, full));
            // every node but the leaf keeps its quiescent statistics
            assert forall|i: int|
                0 <= i < mid.nodes@.len() && i != curr as int implies node_pending_ok(
                mid,
                pend,
                i,
            ) by {
                lemma_count_paths_bounds(pend, i as usize);
                assert(count_paths_through(pend, i as usize) == 0);
                assert(mid.nodes@[0].visits == pre.nodes@[0].visits);
                if i >= pre.nodes@.len() {
                    assert(!mid.nodes@[i].expanded());
                    assert(mid.nodes@[i].visits == 0);
                    assert(mid.nodes@[i].total_value == 0);
                    assert(mid.nodes@[i].virtual_loss == 0);
                }
                if i < pre.nodes@.len() {
                    assert(pre.node_stats_ok(i));
                    assert(mid.nodes@[i] == pre.nodes@[i]);
                    assert(mid.nodes@[0].visits == pre.nodes@[0].visits);
                    let n = mid.nodes@[i];
                    if n.expanded() {
                        assert(pre.node_struct_ok(i));
                        let cs = n.children_start as int;
                        let cl = n.children_length as int;
                        assert forall|q: int| cs <= q < cs + cl implies mid.nodes@[q].visits
                            == pre.nodes@[q].visits by {
                            if q == curr as int {
                            }
                        }
                        lemma_sum_visits_frame_visits(pre.nodes@, mid.nodes@, cs, cl);
                    }
                }
            }
            // the leaf: terminal, or freshly expanded with zero visits
            assert(mid.nodes@[curr as int].terminal() == (curr_board.spec_outcome() is Some));
            if outc is None {
                assert(pre.node_stats_ok(curr as int));
                assert(!pre.nodes@[curr as int].expanded());
                assert(!pre.nodes@[curr as int].terminal());
                assert(pre.nodes@[curr as int].visits == 0);
                assert(mid.nodes@[curr as int].expanded());
                assert(mid.nodes@[curr as int].visits == 0);
                assert(mid.nodes@[curr as int].total_value == 0);
                assert(mid.nodes@[curr as int].virtual_loss == 0);
                assert forall|k: int|
                    0 <= k < mid.nodes@[curr as int].children_length implies (
                #[trigger] mid.nodes@[mid.nodes@[curr as int].children_start + k]).visits
                    == 0 by {}
            } else {
                assert(!mid.nodes@[curr as int].expanded());
                assert(pre.node_stats_ok(curr as int));
                assert(node_pending_ok(mid, pend, curr as int));
            }
            // bounds that let the backprop update every node on the walk
            lemma_chain_increasing(mid, full);
            assert forall|j: int| 0 <= j < full.len() implies node_update_ok(
                #[trigger] mid.nodes@[full[j] as int],
            ) by {
                let n = mid.nodes@[full[j] as int];
                if full[j] as int != curr as int {
                    assert(node_pending_ok(mid, pend, full[j] as int));
                } else if outc is None {
                } else {
                    assert(node_pending_ok(mid, pend, full[j] as int));
                }
                assert(n.visits <= MAX_VISITS) by {
                    assert(n.visits <= mid.nodes@[0].visits || n.visits == 0);
                }
                assert(-((n.visits - n.virtual_loss) * VALUE_SCALE) <= n.total_value <= (n.visits
                    - n.virtual_loss) * VALUE_SCALE || n.total_value == 0);
                assert(-0x4000_0000_0000_0000_0000i128 <= n.total_value
                    <= 0x4000_0000_0000_0000_0000i128) by (nonlinear_arith)
                    requires
                        0 <= n.virtual_loss <= n.visits <= 0x4000_0000_0000_0000u64,
                        -((n.visits - n.virtual_loss) * VALUE_SCALE) <= n.total_value <= (n.visits
                            - n.virtual_loss) * VALUE_SCALE || n.total_value == 0,
                        VALUE_SCALE == 65536,
                ;
            }
            assert(mid.nodes@[0].visits < MAX_VISITS);
            assert(mid.nodes@.len() <= usize::MAX) by {
                assert(total_mid == mid.nodes@.len());
            }
        }
        tree.backprop(&path, leaf_value);
        proof {
            lemma_walk_backprop_stats(mid, tree, pend, full, leaf_value);
            assert forall|i: int| 0 <= i < tree.nodes@.len() implies #[trigger] tree.node_stats_ok(
                i,
            ) by {
                assert(node_pending_ok(tree, pend, i));
                assert(count_paths_through(pend, i as usize) == 0);
            }
            assert(mid.nodes@[0].expanded()) by {
                assert(full[0] == 0usize);
                if full.len() >= 2 {
                    assert(chain_step(mid, full, 0));
                } else {
                    assert(full[full.len() - 1] == curr);
                    assert(curr == 0);
                    assert(curr_board == pre.nodes@[0].board@);
                    assert(curr_board.spec_outcome() is None);
                    assert(outc is None);
                }
            }
            assert(tree.nodes@[0].expanded()) by {
                assert(tree.nodes@[full[0] as int] == (Node {
                    visits: (mid.nodes@[full[0] as int].visits + 1) as u64,
                    total_value: (mid.nodes@[full[0] as int].total_value + backprop_delta(
                        leaf_value,
                        full.len() as int,
                        0,
                    )) as i128,
                    ..mid.nodes@[full[0] as int]
                }));
            }
        }
        iter = iter + 1;
    }
    tree
}

/// The spec-level views of a vector of recorded walk paths.
pub open spec fn path_views(paths: Seq<Vec<usize>>) -> Seq<Seq<usize>> {
    paths.map_values(|p: Vec<usize>| p@)
}

/// Build a search tree for `board` by running `iterations` PUCT walks,
/// collecting evaluator requests in batches of up to `batch_size`.
///
/// Each collected walk marks its whole path with a tentative visit and a
/// virtual loss, which steers later walks of the same batch away from it;
/// walks that end in a terminal position are settled immediately, and a
/// walk that reaches a leaf already claimed by this batch closes the
/// batch early. The contract is the one of [`mcts_zero_build_tree`]: in
/// particular the root ends at exactly `iterations` visits and no virtual
/// loss is left on any node.
#[verifier::rlimit(100)]
#[verifier::spinoff_prover]
pub fn mcts_zero_build_tree_batched<B: Board, E: Evaluator<B>>(
    board: &B,
    iterations: u64,
    batch_size: usize,
    exploration_weight: i64,
    network: &mut E,
) -> (t: Tree<B>)
    requires
        board.wf(),
        board.spec_outcome() is None,
        1 <= iterations <= MAX_VISITS,
        1 <= batch_size,
        0 < exploration_weight <= MAX_EXPLORATION_WEIGHT,
    ensures
        t.wf(),
        t.stats_ok(),
        t.root_board == *board,
        t.nodes@[0].visits == iterations,
        t.nodes@[0].expanded(),
{
    let mut tree: Tree<B> = Tree::new(board.clone_board());
    let mut root_visits: u64 = 0;
    while root_visits < iterations
        invariant
            tree.wf(),
            tree.stats_ok(),
            tree.root_board == *board,
            root_visits == tree.nodes@[0].visits,
            root_visits <= iterations,
        decreases iterations - root_visits,
    {
        let ghost round_start: u64 = root_visits;
        let mut leaves: Vec<usize> = Vec::new();
        let mut boards: Vec<B> = Vec::new();
        let mut paths: Vec<Vec<usize>> = Vec::new();
        let mut collided: bool = false;
        proof {
            assert(path_views(paths@) =~= Seq::<Seq<usize>>::empty());
            assert forall|i: int| 0 <= i < tree.nodes@.len() implies node_pending_ok(
                tree,
                path_views(paths@),
                i,
            ) by {
                assert(tree.node_stats_ok(i));
            }
        }
        while !collided && leaves.len() < batch_size && root_visits < iterations
            invariant
                tree.wf(),
                tree.root_board == *board,
                root_visits == tree.nodes@[0].visits,
                root_visits <= iterations,
                round_start <= root_visits,
                boards@.len() == leaves@.len(),
                paths@.len() == leaves@.len(),
                leaves@.len() <= batch_size,
                round_start + paths@.len() <= root_visits,
                collided ==> paths@.len() >= 1,
                forall|i: int|
                    0 <= i < tree.nodes@.len() ==> node_pending_ok(tree, path_views(paths@), i),
                forall|w: int|
                    0 <= w < paths@.len() ==> {
                        &&& is_chain(tree, (#[trigger] paths@[w])@)
                        &&& paths@[w]@.len() >= 1
                        &&& paths@[w]@.last() == leaves@[w]
                        &&& (leaves@[w] as int) < tree.nodes@.len()
                        &&& !tree.nodes@[leaves@[w] as int].expanded()
                        &&& !tree.nodes@[leaves@[w] as int].terminal()
                        &&& boards@[w] == tree.nodes@[leaves@[w] as int].board@
                    },
            decreases iterations - root_visits, (if collided {
                0int
            } else {
                1int
            }),
        {
            // ---- read-only descent under the current virtual losses ----
            let mut path: Vec<usize> = Vec::new();
            let mut curr: usize = 0;
            let mut curr_board: B = board.clone_board();
            proof {
                assert(tree.node_struct_ok(0));
                assert(path@.push(0usize)[0] == 0usize);
                assert(path@.push(0usize).last() == 0usize);
                assert(is_chain(tree, path@.push(curr)));
            }
            while tree.nodes[curr].children_start != 0
                invariant
                    tree.wf(),
                    tree.root_board == *board,
                    root_visits == tree.nodes@[0].visits,
                    root_visits < iterations,
                    iterations <= MAX_VISITS,
                    0 < exploration_weight <= MAX_EXPLORATION_WEIGHT,
                    curr < tree.nodes@.len(),
                    is_chain(tree, path@.push(curr)),
                    curr_board == tree.nodes@[curr as int].board@,
                    forall|i: int|
                        0 <= i < tree.nodes@.len() ==> node_pending_ok(
                            tree,
                            path_views(paths@),
                            i,
                        ),
                decreases tree.nodes@.len() - curr,
            {
                let ghost full_old: Seq<usize> = path@.push(curr);
                proof {
                    assert(tree.node_struct_ok(curr as int));
                    assert(node_pending_ok(tree, path_views(paths@), curr as int));
                    assert(node_pending_ok(tree, path_views(paths@), 0));
                    assert forall|k: int|
                        0 <= k < tree.nodes@[curr as int].children_length implies puct_input_ok(
                        #[trigger] tree.nodes@[tree.nodes@[curr as int].children_start + k],
                    ) by {
                        let q = tree.nodes@[curr as int].children_start + k;
                        assert(node_pending_ok(tree, path_views(paths@), q));
                        lemma_count_paths_bounds(path_views(paths@), q as usize);
                        assert(tree.node_struct_ok(q));
                    }
                }
                path.push(curr);
                let next: usize = tree.select_child(curr, exploration_weight);
                let mv: u64 = tree.nodes[next].mv;
                proof {
                    let cs = tree.nodes@[curr as int].children_start as int;
                    let k = next as int - cs;
                    assert(tree.nodes@[cs + k] == tree.nodes@[next as int]);
                    assert(mv == curr_board.spec_moves()[k]);
                    assert(curr_board.spec_moves().contains(mv));
                    assert(tree.nodes@[next as int].board@ == curr_board.spec_play(mv));
                }
                curr_board.play(mv);
                proof {
                    let full_new: Seq<usize> = path@.push(next);
                    assert(full_new.len() == full_old.len() + 1);
                    assert forall|k: int| 0 <= k < full_new.len() - 1 implies chain_step(
                        tree,
                        full_new,
                        k,
                    ) by {
                        if k < full_old.len() - 1 {
                            assert(chain_step(tree, full_old, k));
                            assert(full_new[k] == full_old[k]);
                            assert(full_new[k + 1] == full_old[k + 1]);
                        } else {
                            assert(full_new[k] == curr);
                            assert(full_new[k + 1] == next);
                        }
                    }
                    assert(is_chain(tree, full_new));
                }
                curr = next;
            }
            // ---- the walk has reached a leaf ----
            let ghost full: Seq<usize> = path@.push(curr);
            let total_mid: usize = tree.nodes.len();
            proof {
                assert(tree.node_struct_ok(curr as int));
            }
            let outc = curr_board.outcome();
            proof {
                lemma_chain_increasing(tree, full);
                assert forall|j: int| 0 <= j < full.len() implies node_update_ok(
                    #[trigger] tree.nodes@[full[j] as int],
                ) by {
                    let n = tree.nodes@[full[j] as int];
                    assert(node_pending_ok(tree, path_views(paths@), full[j] as int));
                    lemma_count_paths_bounds(path_views(paths@), full[j] as usize);
                    let c = count_paths_through(path_views(paths@), full[j] as usize);
                    assert(-0x4000_0000_0000_0000_0000i128 <= n.total_value
                        <= 0x4000_0000_0000_0000_0000i128) by (nonlinear_arith)
                        requires
                            0 <= c <= n.visits <= 0x4000_0000_0000_0000u64,
                            -((n.visits - c) * VALUE_SCALE) <= n.total_value <= (n.visits - c)
                                * VALUE_SCALE,
                            VALUE_SCALE == 65536,
                    ;
                }
                assert(tree.nodes@.len() <= usize::MAX) by {
                    assert(total_mid == tree.nodes@.len());
                }
            }
            if let Some(oc) = outc {
                // terminal walk: settle it synchronously
                let np = curr_board.next_player();
                let sgn: i8 = oc.sign(np);
                proof {
                    assert(-1 <= sgn <= 1);
                }
                let leaf_value: i64 = (sgn as i64) * 65536i64;
                proof {
                    assert(-(VALUE_SCALE as int) <= leaf_value <= VALUE_SCALE as int);
                }
                path.push(curr);
                let ghost mid: Tree<B> = tree;
                proof {
                    assert(path@ == full);
                    assert(mid.nodes@[curr as int].terminal());
                    assert(node_pending_ok(mid, path_views(paths@), curr as int));
                }
                tree.backprop(&path, leaf_value);
                proof {
                    lemma_walk_backprop_stats(
                        mid,
                        tree,
                        path_views(paths@),
                        full,
                        leaf_value,
                    );
                    assert forall|w: int| 0 <= w < paths@.len() implies {
                        &&& is_chain(tree, (#[trigger] paths@[w])@)
                        &&& paths@[w]@.len() >= 1
                        &&& paths@[w]@.last() == leaves@[w]
                        &&& (leaves@[w] as int) < tree.nodes@.len()
                        &&& !tree.nodes@[leaves@[w] as int].expanded()
                        &&& !tree.nodes@[leaves@[w] as int].terminal()
                        &&& boards@[w] == tree.nodes@[leaves@[w] as int].board@
                    } by {
                        lemma_chain_increasing(mid, paths@[w]@);
                        lemma_chain_preserved(mid, tree, paths@[w]@);
                        assert(same_shape(
                            mid.nodes@[leaves@[w] as int],
                            tree.nodes@[leaves@[w] as int],
                        ));
                    }
                }
                root_visits = root_visits + 1;
            } else if tree.nodes[curr].virtual_loss > 0 {
                // the leaf is already claimed by this batch: close it
                proof {
                    assert(node_pending_ok(tree, path_views(paths@), curr as int));
                    lemma_count_paths_bounds(path_views(paths@), curr as usize);
                    assert(path_views(paths@).len() >= 1);
                    assert(paths@.len() >= 1);
                }
                collided = true;
            } else {
                // claim the leaf for the batch
                path.push(curr);
                let ghost mid: Tree<B> = tree;
                proof {
                    assert(path@ == full);
                    assert(node_pending_ok(mid, path_views(paths@), curr as int));
                }
                tree.commit_walk(&path);
                let ghost pend_new: Seq<Seq<usize>> = path_views(paths@).push(full);
                proof {
                    lemma_commit_stats(mid, tree, path_views(paths@), full);
                    assert forall|w: int| 0 <= w < paths@.len() implies {
                        &&& is_chain(tree, (#[trigger] paths@[w])@)
                        &&& !tree.nodes@[leaves@[w] as int].expanded()
                        &&& !tree.nodes@[leaves@[w] as int].terminal()
                        &&& boards@[w] == tree.nodes@[leaves@[w] as int].board@
                    } by {
                        lemma_chain_increasing(mid, paths@[w]@);
                        lemma_chain_preserved(mid, tree, paths@[w]@);
                        assert(same_shape(
                            mid.nodes@[leaves@[w] as int],
                            tree.nodes@[leaves@[w] as int],
                        ));
                    }
                    lemma_chain_increasing(mid, full);
                    lemma_chain_preserved(mid, tree, full);
                    assert(same_shape(mid.nodes@[curr as int], tree.nodes@[curr as int]));
                }
                let ghost paths_old: Seq<Vec<usize>> = paths@;
                let ghost leaves_old: Seq<usize> = leaves@;
                let ghost boards_old: Seq<B> = boards@;
                leaves.push(curr);
                boards.push(curr_board);
                paths.push(path);
                proof {
                    assert(path_views(paths@) =~= pend_new);
                    assert forall|w: int| 0 <= w < paths@.len() implies {
                        &&& is_chain(tree, (#[trigger] paths@[w])@)
                        &&& paths@[w]@.len() >= 1
                        &&& paths@[w]@.last() == leaves@[w]
                        &&& (leaves@[w] as int) < tree.nodes@.len()
                        &&& !tree.nodes@[leaves@[w] as int].expanded()
                        &&& !tree.nodes@[leaves@[w] as int].terminal()
                        &&& boards@[w] == tree.nodes@[leaves@[w] as int].board@
                    } by {
                        if w < paths@.len() - 1 {
                            assert(paths@[w] == paths_old[w]);
                            assert(leaves@[w] == leaves_old[w]);
                            assert(boards@[w] == boards_old[w]);
                            assert(paths_old[w]@.len() >= 1);
                        } else {
                            assert(paths@[w] == path);
                            assert(leaves@[w] == curr);
                            assert(full.last() == curr);
                            assert(!tree.nodes@[curr as int].expanded());
                        }
                    }
                }
                root_visits = root_visits + 1;
            }
        }
        // ---- flush: evaluate the batch and settle every collected walk ----
        if leaves.len() > 0 {
            proof {
                assert forall|w: int| 0 <= w < boards@.len() implies (
                #[trigger] boards@[w]).wf() && boards@[w].spec_outcome() is None by {
                    assert(paths@[w]@.len() >= 1);
                    assert(tree.node_struct_ok(leaves@[w] as int));
                }
            }
            let evals = network.evaluate_batch(&boards);
            let mut w: usize = 0;
            proof {
                assert(path_views(paths@).subrange(0, paths@.len() as int) =~= path_views(
                    paths@,
                ));
            }
            while w < leaves.len()
                invariant
                    tree.wf(),
                    tree.root_board == *board,
                    root_visits == tree.nodes@[0].visits,
                    root_visits <= iterations,
                    iterations <= MAX_VISITS,
                    w <= leaves@.len(),
                    boards@.len() == leaves@.len(),
                    paths@.len() == leaves@.len(),
                    evals@.len() == leaves@.len(),
                    forall|w2: int|
                        0 <= w2 < evals@.len() ==> evaluation_ok(
                            #[trigger] evals@[w2],
                            boards@[w2],
                        ),
                    forall|i: int|
                        0 <= i < tree.nodes@.len() ==> node_pending_ok(
                            tree,
                            path_views(paths@).subrange(w as int, paths@.len() as int),
                            i,
                        ),
                    forall|w2: int|
                        w <= w2 < paths@.len() ==> {
                            &&& is_chain(tree, (#[trigger] paths@[w2])@)
                            &&& paths@[w2]@.len() >= 1
                            &&& paths@[w2]@.last() == leaves@[w2]
                            &&& (leaves@[w2] as int) < tree.nodes@.len()
                            &&& !tree.nodes@[leaves@[w2] as int].expanded()
                            &&& !tree.nodes@[leaves@[w2] as int].terminal()
                            &&& boards@[w2] == tree.nodes@[leaves@[w2] as int].board@
                        },
                decreases leaves@.len() - w,
            {
                let ghost pend_w: Seq<Seq<usize>> = path_views(paths@).subrange(
                    w as int,
                    paths@.len() as int,
                );
                let leaf: usize = leaves[w];
                let leaf_board = &boards[w];
                let moves = leaf_board.available_moves();
                proof {
                    leaf_board.lemma_moves_nonempty();
                    assert(pend_w[0] == paths@[w as int]@);
                    assert(pend_w[0].last() == leaf);
                    assert(pend_w[0].contains(leaf)) by {
                        assert(pend_w[0][pend_w[0].len() - 1] == leaf);
                    }
                    lemma_count_at_least_one(pend_w, leaf, 0);
                    assert(node_pending_ok(tree, pend_w, leaf as int));
                }
                let ghost pre_x: Tree<B> = tree;
                let total_pre_x: usize = tree.nodes.len();
                tree.push_children(leaf, &moves, &evals[w].policy);
                let ghost after_push: Tree<B> = tree;
                let ev_value: i64 = evals[w].value;
                let entry = &mut tree.nodes[leaf];
                entry.evaluation = Some(ev_value);
                let ghost mid2: Tree<B> = tree;
                let total_mid2: usize = tree.nodes.len();
                proof {
                    assert forall|i: int| 0 <= i < after_push.nodes@.len() implies same_shape(
                        #[trigger] after_push.nodes@[i],
                        #[trigger] tree.nodes@[i],
                    ) by {}
                    lemma_wf_preserved(after_push, tree);
                    // fresh children are unexpanded and unvisited
                    assert forall|i2: int|
                        pre_x.nodes@.len() <= i2 < mid2.nodes@.len() implies {
                        &&& !(#[trigger] mid2.nodes@[i2]).expanded()
                        &&& mid2.nodes@[i2].visits == 0
                        &&& mid2.nodes@[i2].total_value == 0
                        &&& mid2.nodes@[i2].virtual_loss == 0
                    } by {
                        let k2 = i2 - pre_x.nodes@.len();
                        assert(i2 != leaf as int);
                        assert(after_push.nodes@[pre_x.nodes@.len() + k2] == (Node {
                            mv: moves@[k2],
                            children_start: 0usize,
                            children_length: 0usize,
                            policy: evals@[w as int].policy@[k2],
                            evaluation: None::<i64>,
                            visits: 0u64,
                            total_value: 0i128,
                            virtual_loss: 0u64,
                            board: Ghost(
                                pre_x.nodes@[leaf as int].board@.spec_play(moves@[k2]),
                            ),
                        }));
                        assert(mid2.nodes@[i2] == after_push.nodes@[i2]);
                    }
                    // pending paths only touch the old arena
                    assert forall|w2: int, k: int|
                        w <= w2 < paths@.len() && 0 <= k < paths@[w2]@.len() implies ((
                    #[trigger] paths@[w2]@[k]) as int) < pre_x.nodes@.len() by {
                        lemma_chain_increasing(pre_x, paths@[w2]@);
                    }
                    // every node keeps (or newly earns) its pending statistics
                    assert forall|i: int| 0 <= i < mid2.nodes@.len() implies node_pending_ok(
                        mid2,
                        pend_w,
                        i,
                    ) by {
                        lemma_count_paths_bounds(pend_w, i as usize);
                        if i >= pre_x.nodes@.len() {
                            assert forall|w3: int| 0 <= w3 < pend_w.len() implies !(
                            #[trigger] pend_w[w3]).contains(i as usize) by {
                                assert(pend_w[w3] == paths@[w as int + w3]@);
                                if pend_w[w3].contains(i as usize) {
                                    let k = choose|k: int|
                                        0 <= k < pend_w[w3].len() && (#[trigger] pend_w[w3][k])
                                            == i as usize;
                                    assert((paths@[w as int + w3]@[k] as int)
                                        < pre_x.nodes@.len());
                                }
                            }
                            lemma_count_absent(pend_w, i as usize);
                            assert(!mid2.nodes@[i].expanded());
                        } else if i == leaf as int {
                            // the freshly expanded leaf satisfies the visit equation
                            let n = mid2.nodes@[i];
                            assert(n.expanded());
                            assert(n.visits == 1);
                            assert(n.virtual_loss == 1);
                            assert(n.children_start == pre_x.nodes@.len());
                            assert forall|q: int|
                                n.children_start <= q < n.children_start
                                    + n.children_length implies (
                            #[trigger] mid2.nodes@[q]).visits == 0 by {}
                            crate::tree::lemma_sum_visits_all_zero(
                                mid2.nodes@,
                                n.children_start as int,
                                n.children_length as int,
                            );
                            assert(count_paths_through(pend_w, leaf) == 1) by {
                                assert(node_pending_ok(pre_x, pend_w, leaf as int));
                            }
                        } else {
                            assert(node_pending_ok(pre_x, pend_w, i));
                            assert(mid2.nodes@[i] == pre_x.nodes@[i]);
                            assert(mid2.nodes@[0].visits == pre_x.nodes@[0].visits);
                            let n = mid2.nodes@[i];
                            if n.expanded() {
                                assert(pre_x.node_struct_ok(i));
                                let cs = n.children_start as int;
                                let cl = n.children_length as int;
                                assert forall|q: int| cs <= q < cs + cl implies mid2.nodes@[
                                    q].visits == pre_x.nodes@[q].visits by {
                                    if q == leaf as int {
                                    }
                                }
                                lemma_sum_visits_frame_visits(pre_x.nodes@, mid2.nodes@, cs, cl);
                            }
                        }
                    }
                    // the walk is still a chain after the expansion
                    assert forall|w2: int| w <= w2 < paths@.len() implies is_chain(
                        mid2,
                        (#[trigger] paths@[w2])@,
                    ) by {
                        let p = paths@[w2]@;
                        assert forall|k: int| 0 <= k < p.len() - 1 implies chain_step(
                            mid2,
                            p,
                            k,
                        ) by {
                            assert(chain_step(pre_x, p, k));
                            assert(p[k] as int != leaf as int) by {
                                if p[k] as int == leaf as int {
                                    assert(!pre_x.nodes@[p[k] as int].expanded()) by {
                                        if w2 == w {
                                            lemma_chain_increasing(pre_x, p);
                                            assert(p[k] < p[p.len() - 1]);
                                            assert(false);
                                        } else {
                                            assert(!pre_x.nodes@[leaves@[w2 as int]
                                                as int].expanded());
                                            // two walks cannot share an unexpanded node
                                            assert(pend_w[0].contains(leaf));
                                            assert(pend_w[w2 - w].contains(p[k]));
                                            lemma_count_at_least_two(
                                                pend_w,
                                                leaf,
                                                0,
                                                w2 - w,
                                            );
                                            assert(node_pending_ok(
                                                pre_x,
                                                pend_w,
                                                leaf as int,
                                            ));
                                            assert(false);
                                        }
                                    }
                                }
                            }
                            assert(mid2.nodes@[p[k] as int] == pre_x.nodes@[p[k] as int]);
                        }
                    }
                    assert(is_chain(mid2, pend_w[0]));
                    assert(mid2.nodes@.len() <= usize::MAX) by {
                        assert(total_mid2 == mid2.nodes@.len());
                    }
                    assert(mid2.nodes@[pend_w[0].last() as int].expanded());
                    assert(mid2.nodes@[pend_w[0].last() as int].visits == 1);
                }
                proof {
                    lemma_chain_increasing(mid2, pend_w[0]);
                    assert(paths@[w as int]@ == pend_w[0]);
                    assert(evaluation_ok(evals@[w as int], boards@[w as int]));
                    assert forall|j: int| 0 <= j < pend_w[0].len() implies node_update_ok(
                        #[trigger] mid2.nodes@[pend_w[0][j] as int],
                    ) && mid2.nodes@[pend_w[0][j] as int].virtual_loss >= 1 by {
                        let idx = pend_w[0][j] as int;
                        assert(node_pending_ok(mid2, pend_w, idx));
                        lemma_count_paths_bounds(pend_w, pend_w[0][j]);
                        lemma_count_paths_bounds(pend_w.drop_first(), pend_w[0][j]);
                        assert(pend_w[0].contains(pend_w[0][j]));
                        let c = count_paths_through(pend_w, pend_w[0][j]);
                        assert(c >= 1);
                        let n = mid2.nodes@[idx];
                        assert(n.visits <= mid2.nodes@[0].visits);
                        assert(node_pending_ok(mid2, pend_w, 0));
                        assert(-0x4000_0000_0000_0000_0000i128 <= n.total_value
                            <= 0x4000_0000_0000_0000_0000i128) by (nonlinear_arith)
                            requires
                                0 <= c <= n.visits <= 0x4000_0000_0000_0000u64,
                                -((n.visits - c) * VALUE_SCALE) <= n.total_value <= (n.visits
                                    - c) * VALUE_SCALE,
                                VALUE_SCALE == 65536,
                        ;
                    }
                }
                tree.resolve_walk(&paths[w], ev_value);
                proof {
                    lemma_resolve_stats(mid2, tree, pend_w, ev_value);
                    assert(pend_w.drop_first() =~= path_views(paths@).subrange(
                        w as int + 1,
                        paths@.len() as int,
                    ));
                    // the remaining walks keep their chains and leaf facts
                    assert forall|w2: int| w + 1 <= w2 < paths@.len() implies {
                        &&& is_chain(tree, (#[trigger] paths@[w2])@)
                        &&& !tree.nodes@[leaves@[w2] as int].expanded()
                        &&& !tree.nodes@[leaves@[w2] as int].terminal()
                        &&& boards@[w2] == tree.nodes@[leaves@[w2] as int].board@
                    } by {
                        lemma_chain_increasing(mid2, paths@[w2]@);
                        lemma_chain_preserved(mid2, tree, paths@[w2]@);
                        assert(same_shape(
                            mid2.nodes@[leaves@[w2] as int],
                            tree.nodes@[leaves@[w2] as int],
                        ));
                        assert(same_shape(
                            pre_x.nodes@[leaves@[w2] as int],
                            mid2.nodes@[leaves@[w2] as int],
                        )) by {
                            assert(leaves@[w2] as int != leaf as int) by {
                                if leaves@[w2] as int == leaf as int {
                                    assert(pend_w[0].contains(leaf));
                                    assert(pend_w[w2 - w].contains(leaves@[w2])) by {
                                        assert(pend_w[w2 - w] == paths@[w2]@);
                                        assert(pend_w[w2 - w][pend_w[w2 - w].len() - 1]
                                            == leaves@[w2]);
                                    }
                                    lemma_count_at_least_two(pend_w, leaf, 0, w2 - w);
                                    assert(node_pending_ok(pre_x, pend_w, leaf as int));
                                    assert(false);
                                }
                            }
                            assert(mid2.nodes@[leaves@[w2] as int] == pre_x.nodes@[leaves@[
                                w2] as int]);
                        }
                    }
                }
                w = w + 1;
            }
            proof {
                assert(path_views(paths@).subrange(
                    paths@.len() as int,
                    paths@.len() as int,
                ) =~= Seq::<Seq<usize>>::empty());
                assert forall|i: int|
                    0 <= i < tree.nodes@.len() implies #[trigger] tree.node_stats_ok(i) by {
                    assert(node_pending_ok(tree, Seq::<Seq<usize>>::empty(), i));
                    assert(count_paths_through(Seq::<Seq<usize>>::empty(), i as usize) == 0);
                }
            }
        } else {
            proof {
                assert(paths@.len() == 0);
                assert(path_views(paths@) =~= Seq::<Seq<usize>>::empty());
                assert forall|i: int|
                    0 <= i < tree.nodes@.len() implies #[trigger] tree.node_stats_ok(i) by {
                    assert(node_pending_ok(tree, path_views(paths@), i));
                    assert(count_paths_through(Seq::<Seq<usize>>::empty(), i as usize) == 0);
                }
            }
        }
    }
    proof {
        // a root with a visit and a live board must have been expanded
        assert(tree.node_stats_ok(0));
        if !tree.nodes@[0].expanded() {
            assert(!tree.nodes@[0].terminal());
            assert(tree.nodes@[0].visits == 0);
        }
    }
    tree
}

/// The search bundled with its parameters and its network: the bot
/// interface the self-play harness drives.
pub struct MCTSZeroBot<B: Board, E: Evaluator<B>> {
    pub iterations: u64,
    pub exploration_weight: i64,
    pub network: E,
    pub game: core::marker::PhantomData<B>,
}

impl<B: Board, E: Evaluator<B>> MCTSZeroBot<B, E> {
    /// Parameters under which every search of this bot is well-defined.
    pub open spec fn wf(&self) -> bool {
        &&& 1 <= self.iterations <= MAX_VISITS
        &&& 0 < self.exploration_weight <= MAX_EXPLORATION_WEIGHT
    }

    /// A bot from a per-move iteration budget, an exploration weight
    /// (fixed point) and a network.
    pub fn new(iterations: u64, exploration_weight: i64, network: E) -> (r: Self)
        requires
            1 <= iterations <= MAX_VISITS,
            0 < exploration_weight <= MAX_EXPLORATION_WEIGHT,
        ensures
            r.wf(),
            r.iterations == iterations,
            r.exploration_weight == exploration_weight,
            r.network == network,
    {
        MCTSZeroBot { iterations, exploration_weight, network, game: core::marker::PhantomData }
    }

    /// Build the search tree for one move of `board`.
    pub fn build_tree(&mut self, board: &B) -> (t: Tree<B>)
        requires
            old(self).wf(),
            board.wf(),
            board.spec_outcome() is None,
        ensures
            t.wf(),
            t.stats_ok(),
            t.root_board == *board,
            t.nodes@[0].visits == old(self).iterations,
            t.nodes@[0].expanded(),
            final(self).iterations == old(self).iterations,
            final(self).exploration_weight == old(self).exploration_weight,
    {
        let iterations = self.iterations;
        let exploration_weight = self.exploration_weight;
        mcts_zero_build_tree(board, iterations, exploration_weight, &mut self.network)
    }

    /// The move the bot plays on `board`: `None` once the game is over,
    /// otherwise the most visited root child of a fresh search.
    pub fn play(&mut self, board: &B) -> (r: Option<u64>)
        requires
            old(self).wf(),
            board.wf(),
        ensures
            board.spec_outcome() is Some ==> r is None,
            board.spec_outcome() is None ==> r is Some && board.spec_moves().contains(
                r.unwrap(),
            ),
    {
        if board.is_done() {
            None
        } else {
            let tree = self.build_tree(board);
            Some(tree.best_move())
        }
    }
}

} // verus!
