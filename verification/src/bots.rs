//! Baseline move-picking bots: uniformly random play, rollout counting,
//! and exact bounded solving. Each one promises to return a legal move.
use vstd::prelude::*;

use crate::board::Board;
use crate::rng::SeededRng;
use crate::solver::MAX_SOLVER_DEPTH;
use crate::solver::SOLVER_BOUND;
use crate::solver::lemma_solver_value_bounded;
use crate::solver::solver_value;

verus! {

/// Something that picks a move on a live board.
pub trait Bot<B: Board> {
    /// The move this bot plays on `board`; always one of the available
    /// moves.
    fn select_move(&mut self, board: &B) -> (mv: u64)
        requires
            board.wf(),
            board.spec_outcome() is None,
        ensures
            board.spec_moves().contains(mv),
    ;
}

/// Plays a uniformly random available move.
pub struct RandomBot {
    pub rng: SeededRng,
}

impl RandomBot {
    /// A random bot drawing from `rng`.
    pub fn new(rng: SeededRng) -> (r: RandomBot)
        ensures
            r.rng == rng,
    {
        RandomBot { rng }
    }
}

impl<B: Board> Bot<B> for RandomBot {
    fn select_move(&mut self, board: &B) -> (mv: u64) {
        let moves = board.available_moves();
        proof {
            board.lemma_moves_nonempty();
        }
        let idx = self.rng.next_below(moves.len() as u64);
        let mv = moves[idx as usize];
        proof {
            assert(board.spec_moves()[idx as int] == mv);
        }
        mv
    }
}

/// Scores each move by a number of random playouts and plays the move
/// with the best summed outcome, ties to the lowest move index.
pub struct RolloutBot {
    pub rollouts_per_move: u32,
    pub rng: SeededRng,
}

impl RolloutBot {
    /// A rollout bot playing `rollouts_per_move` playouts per candidate.
    pub fn new(rollouts_per_move: u32, rng: SeededRng) -> (r: RolloutBot)
        ensures
            r.rollouts_per_move == rollouts_per_move,
            r.rng == rng,
    {
        RolloutBot { rollouts_per_move, rng }
    }

    /// Play random moves until the game ends; the sign of the outcome
    /// from `pov`.
    fn rollout<B: Board>(&mut self, start: &B, pov: crate::board::Player) -> (r: i8)
        requires
            start.wf(),
        ensures
            -1 <= r <= 1,
            final(self).rollouts_per_move == old(self).rollouts_per_move,
    {
        let mut cur: B = start.clone_board();
        loop
            invariant
                cur.wf(),
                self.rollouts_per_move == old(self).rollouts_per_move,
            decreases cur.height(),
        {
            match cur.outcome() {
                Some(oc) => {
                    return oc.sign(pov);
                },
                None => {
                    let moves = cur.available_moves();
                    proof {
                        cur.lemma_moves_nonempty();
                    }
                    let idx = self.rng.next_below(moves.len() as u64);
                    let mv = moves[idx as usize];
                    proof {
                        assert(cur.spec_moves()[idx as int] == mv);
                        assert(cur.spec_moves().contains(mv));
                        cur.lemma_play(mv);
                    }
                    cur.play(mv);
                },
            }
        }
    }
}

impl<B: Board> Bot<B> for RolloutBot {
    fn select_move(&mut self, board: &B) -> (mv: u64) {
        let pov = board.next_player();
        let moves = board.available_moves();
        proof {
            board.lemma_moves_nonempty();
        }
        let mut best_idx: usize = 0;
        let mut best_score: i64 = i64::MIN;
        let mut i: usize = 0;
        while i < moves.len()
            invariant
                moves@ == board.spec_moves(),
                board.wf(),
                board.spec_outcome() is None,
                moves@.len() >= 1,
                best_idx < moves@.len(),
                i <= moves@.len(),
            decreases moves@.len() - i,
        {
            proof {
                assert(board.spec_moves()[i as int] == moves@[i as int]);
                assert(board.spec_moves().contains(moves@[i as int]));
                board.lemma_play(moves@[i as int]);
            }
            let child = board.clone_and_play(moves[i]);
            let mut score: i64 = 0;
            let mut n: u32 = 0;
            let rollouts: u32 = self.rollouts_per_move;
            while n < rollouts
                invariant
                    child.wf(),
                    n <= rollouts,
                    -(n as int) <= score <= n as int,
                decreases rollouts - n,
            {
                let s = self.rollout(&child, pov);
                score = score + (s as i64);
                n = n + 1;
            }
            if score > best_score {
                best_score = score;
                best_idx = i;
            }
            i = i + 1;
        }
        let mv = moves[best_idx];
        proof {
            assert(board.spec_moves()[best_idx as int] == mv);
        }
        mv
    }
}

/// Plays the exact negamax move of a bounded search: the move whose
/// negated child value is maximal, ties to the lowest move index.
pub struct SolverBot {
    pub depth: u32,
    pub rng: SeededRng,
}

impl SolverBot {
    /// A solver bot searching `depth` plies deep.
    pub fn new(depth: u32, rng: SeededRng) -> (r: SolverBot)
        requires
            1 <= depth <= MAX_SOLVER_DEPTH,
        ensures
            r.depth == depth,
            r.rng == rng,
    {
        SolverBot { depth, rng }
    }
}

impl<B: Board> Bot<B> for SolverBot {
    fn select_move(&mut self, board: &B) -> (mv: u64) {
        let moves = board.available_moves();
        proof {
            board.lemma_moves_nonempty();
        }
        let depth: u32 = if self.depth >= 1 && self.depth <= MAX_SOLVER_DEPTH {
            self.depth
        } else {
            1
        };
        let mut best_idx: usize = 0;
        let mut best_score: i64 = -SOLVER_BOUND - 1;
        let mut i: usize = 0;
        while i < moves.len()
            invariant
                moves@ == board.spec_moves(),
                board.wf(),
                board.spec_outcome() is None,
                moves@.len() >= 1,
                best_idx < moves@.len(),
                i <= moves@.len(),
                1 <= depth <= MAX_SOLVER_DEPTH,
            decreases moves@.len() - i,
        {
            proof {
                assert(board.spec_moves()[i as int] == moves@[i as int]);
                assert(board.spec_moves().contains(moves@[i as int]));
                board.lemma_play(moves@[i as int]);
            }
            let child = board.clone_and_play(moves[i]);
            let child_value = solver_value(&child, depth - 1, 1);
            proof {
                lemma_solver_value_bounded(child, depth as int - 1, 1);
            }
            let negated: i64 = -child_value;
            if negated > best_score {
                best_score = negated;
                best_idx = i;
            }
            i = i + 1;
        }
        let mv = moves[best_idx];
        proof {
            assert(board.spec_moves()[best_idx as int] == mv);
        }
        mv
    }
}

} // verus!
