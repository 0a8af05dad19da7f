//! A Monte Carlo tree search engine in the AlphaZero style, together with the
//! self-play machinery that drives it: an arena-backed search tree, a PUCT
//! selection rule, an unbatched and a batched tree builder, a move selector,
//! and the per-game self-play loop that records training positions.
//!
//! All evaluations are carried as fixed-point integers: a network value of
//! `1.0` is stored as [`VALUE_SCALE`]. This keeps every quantity the search
//! touches in integer arithmetic, where the contracts below pin it down
//! exactly.
#![verifier::loop_isolation(false)]
use vstd::prelude::*;

pub mod board;
pub mod bots;
pub mod codec;
pub mod games;
pub mod puct;
pub mod rng;
pub mod selector;
pub mod selfplay;
pub mod solver;
pub mod tree;
pub mod wdl;
pub mod zero;

verus! {

/// Fixed-point scale: the integer that stands for the real value `1.0`.
pub const VALUE_SCALE: u64 = 65536;

} // verus!
