//! The per-game self-play logic: a counter that hands out games to
//! workers, the training-record types, and the loop that plays one game to
//! the end, recording a position with its policy target at every move.
//!
//! Everything here is sequential and deterministic given the seed; the
//! thread pool, channels and file output that drive it live outside the
//! library.
use vstd::prelude::*;

use crate::board::Board;
use crate::board::Outcome;
use crate::puct::MAX_EXPLORATION_WEIGHT;
use crate::puct::MAX_VISITS;
use crate::rng::SeededRng;
use crate::selector::MoveSelector;
use crate::selector::weights_total;
use crate::tree::lemma_policy_target_total;
use crate::tree::lemma_sum_visits_snoc;
use crate::tree::sum_visits;
use crate::tree::Node;
use crate::tree::Tree;
use crate::zero::Evaluator;
use crate::zero::mcts_zero_build_tree_batched;

verus! {

/// Hands out the remaining number of games to start.
#[derive(Clone, Copy, PartialEq, Eq, Structural, Debug)]
pub struct StartGameCounter {
    pub left: u64,
}

impl StartGameCounter {
    /// A counter with `left` games to hand out.
    pub fn new(left: u64) -> (r: StartGameCounter)
        ensures
            r.left == left,
    {
        StartGameCounter { left }
    }

    /// Claim up to `max_count` games; returns how many were granted.
    #[must_use]
    pub fn request_up_to(&mut self, max_count: u64) -> (picked: u64)
        ensures
            picked == if old(self).left < max_count {
                old(self).left
            } else {
                max_count
            },
            final(self).left == old(self).left - picked,
    {
        let picked = if self.left < max_count {
            self.left
        } else {
            max_count
        };
        self.left = self.left - picked;
        picked
    }
}

/// A single recorded position: the board, the terminal value seen from
/// its side to move (`-1`, `0` or `+1`), and the root visit distribution
/// as `(move, visits)` pairs in move order.
pub struct Position<B: Board> {
    pub board: B,
    pub value: i64,
    pub policy: Vec<(u64, u64)>,
}

/// A full recorded game: its outcome and its positions in play order.
pub struct Simulation<B: Board> {
    pub outcome: Outcome,
    pub positions: Vec<Position<B>>,
}

/// A message a worker sends to the collector.
pub enum Message<B: Board> {
    Simulation(Simulation<B>),
    Counter { evals: u64, moves: u64 },
}

/// A recorded position is coherent: a live well-formed board, a value in
/// `[-1, 1]`, and one policy entry per available move, in move order.
pub open spec fn position_ok<B: Board>(p: Position<B>) -> bool {
    &&& p.board.wf()
    &&& p.board.spec_outcome() is None
    &&& -1 <= p.value <= 1
    &&& p.policy@.len() == p.board.spec_moves().len()
    &&& forall|k: int| 0 <= k < p.policy@.len() ==> (#[trigger] p.policy@[k]).0
        == p.board.spec_moves()[k]
}

/// Two consecutive recorded boards are one legal move apart.
pub open spec fn position_link<B: Board>(a: B, b: B) -> bool {
    exists|mv: u64| a.spec_moves().contains(mv) && b == a.spec_play(mv)
}

/// A coherent recorded game: every position is coherent, consecutive
/// positions are one move apart, the first position is the given start,
/// every value is the outcome seen from that position's side to move, and
/// the last position has a legal move into a terminal board with the
/// recorded outcome.
pub open spec fn simulation_ok<B: Board>(s: Simulation<B>, start: B) -> bool {
    &&& s.positions@.len() >= 1
    &&& s.positions@[0].board == start
    &&& forall|i: int| 0 <= i < s.positions@.len() ==> position_ok(#[trigger] s.positions@[i])
    &&& forall|i: int|
        0 <= i < s.positions@.len() - 1 ==> position_link(
            (#[trigger] s.positions@[i]).board,
            s.positions@[i + 1].board,
        )
    &&& forall|i: int|
        0 <= i < s.positions@.len() ==> (#[trigger] s.positions@[i]).value
            == s.outcome.spec_outcome_sign(s.positions@[i].board.spec_next_player()) as int
    &&& exists|mv: u64|
        s.positions@.last().board.spec_moves().contains(mv)
            && s.positions@.last().board.spec_play(mv).spec_outcome() == Some(s.outcome)
}

/// Play one complete game of self-play from `start`: per move, build a
/// batched search tree, record the position with its policy target, pick
/// a move through `selector`, and play it; when the game ends, fill in
/// every recorded value with the outcome seen from that position's side
/// to move.
pub fn play_game<B: Board, E: Evaluator<B>>(
    start: &B,
    iterations: u64,
    batch_size: usize,
    exploration_weight: i64,
    selector: &MoveSelector,
    network: &mut E,
    rng: &mut SeededRng,
) -> (sim: Simulation<B>)
    requires
        start.wf(),
        start.spec_outcome() is None,
        1 <= iterations <= MAX_VISITS,
        1 <= batch_size,
        0 < exploration_weight <= MAX_EXPLORATION_WEIGHT,
        selector.inf_temp_move_count == 0 || iterations >= 2,
    ensures
        simulation_ok(sim, *start),
{
    let mut positions: Vec<Position<B>> = Vec::new();
    let mut cur: B = start.clone_board();
    let mut move_count: u32 = 0;
    while !cur.is_done()
        invariant
            cur.wf(),
            iterations <= MAX_VISITS,
            positions@.len() == 0 ==> cur == *start,
            positions@.len() >= 1 ==> positions@[0].board == *start,
            forall|i: int|
                0 <= i < positions@.len() ==> position_ok(#[trigger] positions@[i])
                    && positions@[i].value == 0,
            forall|i: int|
                0 <= i < positions@.len() - 1 ==> position_link(
                    (#[trigger] positions@[i]).board,
                    positions@[i + 1].board,
                ),
            positions@.len() >= 1 ==> position_link(positions@.last().board, cur),
        decreases cur.height(),
    {
        let tree: Tree<B> = mcts_zero_build_tree_batched(
            &cur,
            iterations,
            batch_size,
            exploration_weight,
            network,
        );
        let policy: Vec<(u64, u64)> = tree.policy_target();
        // the sampling weights are the child visit counts
        let mut weights: Vec<u64> = Vec::new();
        let mut k: usize = 0;
        while k < policy.len()
            invariant
                k <= policy@.len(),
                weights@.len() == k,
                forall|j: int| 0 <= j < k ==> weights@[j] == (#[trigger] policy@[j]).1,
            decreases policy@.len() - k,
        {
            weights.push(policy[k].1);
            k = k + 1;
        }
        proof {
            assert(tree.node_struct_ok(0));
            lemma_policy_target_total(tree);
            lemma_weights_match_sum(
                tree,
                weights@,
                tree.nodes@[0].children_start as int,
                weights@.len() as int,
            );
            assert(weights_total(weights@, weights@.len() as int) == tree.nodes@[0].visits - 1);
        }
        let idx: usize = selector.select(move_count, &weights, rng);
        let mv: u64 = policy[idx].0;
        proof {
            assert(policy@[idx as int].0 == cur.spec_moves()[idx as int]);
            assert(cur.spec_moves().contains(mv));
        }
        let recorded: B = cur.clone_board();
        positions.push(Position { board: recorded, value: 0, policy });
        proof {
            cur.lemma_play(mv);
        }
        cur.play(mv);
        if move_count < 0xffff_ffffu32 {
            move_count = move_count + 1;
        }
        proof {
            let last = positions@.len() - 1;
            assert(positions@[last].board.spec_moves().contains(mv));
            assert(cur == positions@[last].board.spec_play(mv));
            assert(position_link(positions@.last().board, cur));
            assert forall|i: int| 0 <= i < positions@.len() implies position_ok(
                #[trigger] positions@[i],
            ) && positions@[i].value == 0 by {
                if i < last {
                }
            }
        }
    }
    // the game is over: read its outcome and fill in the value targets
    let outcome: Outcome = match cur.outcome() {
        Some(oc) => oc,
        None => {
            proof {
                assert(false);
            }
            Outcome::Draw
        },
    };
    proof {
        assert(positions@.len() >= 1);
    }
    let ghost before_values: Seq<Position<B>> = positions@;
    let mut i: usize = 0;
    while i < positions.len()
        invariant
            positions@.len() == before_values.len(),
            forall|j: int|
                0 <= j < positions@.len() ==> (#[trigger] positions@[j]).board
                    == before_values[j].board && positions@[j].policy == before_values[j].policy,
            forall|j: int|
                i <= j < positions@.len() ==> #[trigger] positions@[j] == before_values[j],
            forall|j: int|
                0 <= j < i ==> (#[trigger] positions@[j]).value == outcome.spec_outcome_sign(
                    positions@[j].board.spec_next_player(),
                ) as int,
            forall|j: int| 0 <= j < positions@.len() ==> position_ok(#[trigger] before_values[j]),
        decreases positions@.len() - i,
    {
        proof {
            assert(position_ok(before_values[i as int]));
        }
        let np = positions[i].board.next_player();
        let sgn: i8 = outcome.sign(np);
        let entry = &mut positions[i];
        entry.value = sgn as i64;
        i = i + 1;
    }
    let sim = Simulation { outcome, positions };
    proof {
        assert forall|i2: int| 0 <= i2 < sim.positions@.len() implies position_ok(
            #[trigger] sim.positions@[i2],
        ) by {
            assert(position_ok(before_values[i2]));
            assert(-1 <= sim.positions@[i2].value <= 1);
        }
        assert forall|i2: int| 0 <= i2 < sim.positions@.len() - 1 implies position_link(
            (#[trigger] sim.positions@[i2]).board,
            sim.positions@[i2 + 1].board,
        ) by {
            assert(position_link(before_values[i2].board, before_values[i2 + 1].board));
        }
        assert(sim.positions@.last().board == before_values.last().board);
        assert(position_link(before_values.last().board, cur));
        let mvw = choose|mv: u64|
            before_values.last().board.spec_moves().contains(mv) && cur == before_values.last(
            ).board.spec_play(mv);
        assert(sim.positions@.last().board.spec_moves().contains(mvw) && sim.positions@.last(
        ).board.spec_play(mvw).spec_outcome() == Some(sim.outcome));
    }
    sim
}

/// If each weight equals the visit count of the matching child, the
/// weight total equals the children's summed visits.
pub proof fn lemma_weights_match_sum<B: Board>(t: Tree<B>, w: Seq<u64>, start: int, k: int)
    requires
        0 <= start,
        start + k <= t.nodes@.len(),
        k <= w.len(),
        forall|j: int| 0 <= j < k ==> w[j] == t.nodes@[start + j].visits,
    ensures
        weights_total(w, k) == sum_visits(t.nodes@, start, k),
    decreases k,
{
    if k > 0 {
        lemma_weights_match_sum(t, w, start, k - 1);
        lemma_sum_visits_snoc(t.nodes@, start, k);
    }
}

} // verus!
