//! A small exact solver: bounded negamax with a win-distance heuristic,
//! plus the forced-winner and double-forced-draw queries built on it.
use vstd::prelude::*;

use crate::board::Board;
use crate::board::Outcome;
use crate::board::Player;

verus! {

/// The heuristic bound: scores live strictly inside `(-BOUND, BOUND)`.
pub const SOLVER_BOUND: i64 = 0x7fff_ffff;

/// The deepest search the solver accepts, so `BOUND - length` never
/// underflows.
pub const MAX_SOLVER_DEPTH: u32 = 0xffff;

/// Scores a position `length` plies below the search root: a known
/// outcome is worth `BOUND - length` toward its winner and zero when
/// drawn, so the sign of a minimax value says who forces a win and its
/// magnitude prefers the shortest win and the longest loss.
#[derive(Clone, Copy, PartialEq, Eq, Structural, Debug)]
pub struct SolverHeuristic;

impl SolverHeuristic {
    /// The score of a decided or horizon position, from the side to move.
    pub open spec fn spec_value<B: Board>(b: B, length: int) -> int {
        match b.spec_outcome() {
            Some(oc) => oc.spec_outcome_sign(b.spec_next_player()) * (SOLVER_BOUND - length),
            None => 0,
        }
    }

    /// An upper bound on every heuristic score.
    pub fn bound(&self) -> (r: i64)
        ensures
            r == SOLVER_BOUND,
    {
        SOLVER_BOUND
    }

    /// The heuristic score of `board` at depth `length`.
    pub fn value<B: Board>(&self, board: &B, length: u32) -> (r: i64)
        requires
            board.wf(),
            length <= MAX_SOLVER_DEPTH,
        ensures
            r == Self::spec_value(*board, length as int),
    {
        match board.outcome() {
            Some(oc) => {
                let sgn: i8 = oc.sign(board.next_player());
                proof {
                    assert(-1 <= sgn <= 1);
                    assert(SOLVER_BOUND == 0x7fff_ffff);
                    assert(-0x7fff_ffff <= (sgn as int) * (SOLVER_BOUND - (length as int))
                        <= 0x7fff_ffff) by (nonlinear_arith)
                        requires
                            -1 <= sgn as int <= 1,
                            0 <= SOLVER_BOUND - (length as int) <= 0x7fff_ffff,
                    ;
                }
                (sgn as i64) * (SOLVER_BOUND - (length as i64))
            },
            None => 0,
        }
    }
}

/// The negamax value of `b` searched `depth` plies deep, `length` plies
/// below the root: the heuristic at decided or horizon positions, else
/// the best negated child value.
pub open spec fn spec_solver_value<B: Board>(b: B, depth: int, length: int) -> int
    decreases depth, b.spec_moves().len() + 1,
{
    if b.spec_outcome() is Some || depth <= 0 {
        SolverHeuristic::spec_value(b, length)
    } else {
        spec_solver_best(b, depth, length, 0)
    }
}

/// The maximum of the negated child values from move index `i` on.
pub open spec fn spec_solver_best<B: Board>(b: B, depth: int, length: int, i: int) -> int
    decreases depth, b.spec_moves().len() - i,
{
    if depth <= 0 || i < 0 || i >= b.spec_moves().len() {
        -SOLVER_BOUND
    } else {
        let child = -spec_solver_value(b.spec_play(b.spec_moves()[i]), depth - 1, length + 1);
        let rest = spec_solver_best(b, depth, length, i + 1);
        if child >= rest {
            child
        } else {
            rest
        }
    }
}

/// The exact negamax value of `board`.
pub fn solver_value<B: Board>(board: &B, depth: u32, length: u32) -> (r: i64)
    requires
        board.wf(),
        depth + length <= MAX_SOLVER_DEPTH,
    ensures
        r == spec_solver_value(*board, depth as int, length as int),
    decreases depth,
{
    let heuristic = SolverHeuristic;
    if depth == 0 {
        return heuristic.value(board, length);
    }
    match board.outcome() {
        Some(_) => heuristic.value(board, length),
        None => {
            let moves = board.available_moves();
            let mut best: i64 = -SOLVER_BOUND;
            let mut i: usize = moves.len();
            proof {
                assert(spec_solver_best(*board, depth as int, length as int, i as int)
                    == -SOLVER_BOUND);
            }
            while i > 0
                invariant
                    i <= moves@.len(),
                    moves@ == board.spec_moves(),
                    board.wf(),
                    board.spec_outcome() is None,
                    depth >= 1,
                    depth + length <= MAX_SOLVER_DEPTH,
                    best == spec_solver_best(*board, depth as int, length as int, i as int),
                decreases i,
            {
                i = i - 1;
                proof {
                    assert(board.spec_moves().contains(moves@[i as int])) by {
                        assert(board.spec_moves()[i as int] == moves@[i as int]);
                    }
                    board.lemma_play(moves@[i as int]);
                }
                let child_board = board.clone_and_play(moves[i]);
                let child_value = solver_value(&child_board, depth - 1, length + 1);
                proof {
                    assert(-0x8000_0000 <= child_value <= 0x8000_0000) by {
                        lemma_solver_value_bounded(
                            child_board,
                            depth as int - 1,
                            length as int + 1,
                        );
                    }
                }
                let negated: i64 = -child_value;
                if negated >= best {
                    best = negated;
                }
            }
            best
        },
    }
}

/// Negamax values stay within the heuristic bound.
pub proof fn lemma_solver_value_bounded<B: Board>(b: B, depth: int, length: int)
    requires
        0 <= length <= MAX_SOLVER_DEPTH,
        depth + length <= MAX_SOLVER_DEPTH,
    ensures
        -SOLVER_BOUND <= spec_solver_value(b, depth, length) <= SOLVER_BOUND,
    decreases depth, b.spec_moves().len() + 1,
{
    if b.spec_outcome() is Some || depth <= 0 {
        let oc = b.spec_outcome();
        if oc is Some {
            let s = oc.unwrap().spec_outcome_sign(b.spec_next_player()) as int;
            let t = SOLVER_BOUND - length;
            assert(-1 <= s <= 1);
            assert(-0x7fff_ffff <= s * t <= 0x7fff_ffff) by (nonlinear_arith)
                requires
                    -1 <= s <= 1,
                    0 <= t <= 0x7fff_ffff,
            ;
        }
    } else {
        lemma_solver_best_bounded(b, depth, length, 0);
    }
}

/// Partial negamax maxima stay within the heuristic bound.
pub proof fn lemma_solver_best_bounded<B: Board>(b: B, depth: int, length: int, i: int)
    requires
        0 <= length <= MAX_SOLVER_DEPTH,
        depth + length <= MAX_SOLVER_DEPTH,
    ensures
        -SOLVER_BOUND <= spec_solver_best(b, depth, length, i) <= SOLVER_BOUND,
    decreases depth, b.spec_moves().len() - i,
{
    if depth <= 0 || i < 0 || i >= b.spec_moves().len() {
    } else {
        lemma_solver_value_bounded(b.spec_play(b.spec_moves()[i]), depth - 1, length + 1);
        lemma_solver_best_bounded(b, depth, length, i + 1);
    }
}

/// The player who can force a win within `depth` plies, if the bounded
/// search can tell: the sign of the negamax value names the winner.
pub fn find_forcing_winner<B: Board>(board: &B, depth: u32) -> (r: Option<Player>)
    requires
        board.wf(),
        depth <= MAX_SOLVER_DEPTH,
    ensures
        ({
            let v = spec_solver_value(*board, depth as int, 0);
            r == if v > 0 {
                Some(board.spec_next_player())
            } else if v < 0 {
                Some(board.spec_next_player().spec_other())
            } else {
                None::<Player>
            }
        }),
{
    let value = solver_value(board, depth, 0);
    if value > 0 {
        Some(board.next_player())
    } else if value < 0 {
        Some(board.next_player().other())
    } else {
        None
    }
}

/// Whether `b` is a double forced draw when searched `depth` plies deep:
/// `Some(true)` when every line ends in a draw, `Some(false)` when some
/// line can end decisively, `None` when the horizon cuts the answer off.
pub open spec fn spec_double_forced_draw<B: Board>(b: B, depth: int) -> Option<bool>
    decreases depth, b.spec_moves().len() + 1,
{
    match b.spec_outcome() {
        Some(oc) => Some(oc == Outcome::Draw),
        None => {
            if depth <= 0 {
                None
            } else {
                spec_double_forced_draw_all(b, depth, 0)
            }
        },
    }
}

/// The fold of `spec_double_forced_draw` over the children from move
/// index `i` on: a decisive child answers `Some(false)`, an unknown child
/// leaves the whole question unknown, and a drawing child moves on.
pub open spec fn spec_double_forced_draw_all<B: Board>(b: B, depth: int, i: int) -> Option<bool>
    decreases depth, b.spec_moves().len() - i,
{
    if depth <= 0 || i < 0 || i >= b.spec_moves().len() {
        Some(true)
    } else {
        match spec_double_forced_draw(b.spec_play(b.spec_moves()[i]), depth - 1) {
            Some(true) => spec_double_forced_draw_all(b, depth, i + 1),
            Some(false) => Some(false),
            None => None::<bool>,
        }
    }
}

/// Whether this board is a double forced draw: no matter what either
/// player does, the game can only end in a draw. `None` when the bounded
/// search cannot tell.
pub fn is_double_forced_draw<B: Board>(board: &B, depth: u32) -> (r: Option<bool>)
    requires
        board.wf(),
    ensures
        r == spec_double_forced_draw(*board, depth as int),
    decreases depth,
{
    match board.outcome() {
        Some(oc) => Some(oc == Outcome::Draw),
        None => {
            if depth == 0 {
                return None;
            }
            let moves = board.available_moves();
            let mut i: usize = 0;
            while i < moves.len()
                invariant
                    i <= moves@.len(),
                    moves@ == board.spec_moves(),
                    board.wf(),
                    board.spec_outcome() is None,
                    depth >= 1,
                    spec_double_forced_draw_all(*board, depth as int, 0)
                        == spec_double_forced_draw_all(*board, depth as int, i as int),
                decreases moves@.len() - i,
            {
                proof {
                    assert(board.spec_moves().contains(moves@[i as int])) by {
                        assert(board.spec_moves()[i as int] == moves@[i as int]);
                    }
                    board.lemma_play(moves@[i as int]);
                }
                let child_board = board.clone_and_play(moves[i]);
                match is_double_forced_draw(&child_board, depth - 1) {
                    Some(true) => {},
                    Some(false) => {
                        return Some(false);
                    },
                    None => {
                        return None;
                    },
                }
                i = i + 1;
            }
            Some(true)
        },
    }
}

} // verus!
