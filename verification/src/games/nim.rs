//! A tiny deterministic reference game used throughout the test-suite: a
//! misère take-away game over a small heap of tokens. The player to move
//! takes one token (move code 0) or two tokens (move code 1, only with at
//! least two tokens left); whoever takes the last token loses. At an empty
//! heap the game is over and the player to move — who did not take the last
//! token — has won.
use vstd::prelude::*;

use crate::board::Board;
use crate::board::Outcome;
use crate::board::Player;

verus! {

/// Move code: take a single token.
pub const NIM_TAKE_ONE: u64 = 0;

/// Move code: take two tokens.
pub const NIM_TAKE_TWO: u64 = 1;

/// A misère take-away position: the heap size and the player to move.
#[derive(Clone, Copy, PartialEq, Eq, Structural, Debug)]
pub struct NimBoard {
    pub tokens: u64,
    pub next: Player,
}

impl NimBoard {
    /// A fresh position with `tokens` tokens and player `A` to move.
    pub fn new(tokens: u64) -> (b: NimBoard)
        ensures
            b == (NimBoard { tokens, next: Player::A }),
    {
        NimBoard { tokens, next: Player::A }
    }
}

impl Board for NimBoard {
    open spec fn wf(&self) -> bool {
        true
    }

    open spec fn spec_next_player(&self) -> Player {
        self.next
    }

    open spec fn spec_outcome(&self) -> Option<Outcome> {
        if self.tokens == 0 {
            Some(Outcome::WonBy(self.next))
        } else {
            None
        }
    }

    open spec fn spec_moves(&self) -> Seq<u64> {
        if self.tokens >= 2 {
            seq![NIM_TAKE_ONE, NIM_TAKE_TWO]
        } else {
            seq![NIM_TAKE_ONE]
        }
    }

    open spec fn spec_play(&self, mv: u64) -> NimBoard {
        let taken: u64 = if mv == NIM_TAKE_ONE {
            1u64
        } else {
            2u64
        };
        NimBoard { tokens: (self.tokens - taken) as u64, next: self.next.spec_other() }
    }

    open spec fn height(&self) -> nat {
        self.tokens as nat
    }

    open spec fn spec_encode(&self) -> Seq<u64> {
        seq![self.tokens, self.next.spec_index() as u64]
    }

    open spec fn spec_decode(data: Seq<u64>) -> Option<NimBoard> {
        if data.len() == 2 && data[1] <= 1 {
            Some(
                NimBoard {
                    tokens: data[0],
                    next: if data[1] == 0 {
                        Player::A
                    } else {
                        Player::B
                    },
                },
            )
        } else {
            None
        }
    }

    proof fn lemma_moves_nonempty(&self) {
    }

    proof fn lemma_play(&self, mv: u64) {
        assert(self.spec_moves().contains(mv));
        if self.tokens >= 2 {
            assert(self.spec_moves()[0] == NIM_TAKE_ONE);
            assert(self.spec_moves()[1] == NIM_TAKE_TWO);
        } else {
            assert(self.spec_moves()[0] == NIM_TAKE_ONE);
        }
    }

    proof fn lemma_codec(&self) {
    }

    fn next_player(&self) -> (p: Player) {
        self.next
    }

    fn outcome(&self) -> (o: Option<Outcome>) {
        if self.tokens == 0 {
            Some(Outcome::WonBy(self.next))
        } else {
            None
        }
    }

    fn is_done(&self) -> (d: bool) {
        self.tokens == 0
    }

    fn available_moves(&self) -> (mvs: Vec<u64>) {
        let mut mvs: Vec<u64> = Vec::new();
        mvs.push(NIM_TAKE_ONE);
        if self.tokens >= 2 {
            mvs.push(NIM_TAKE_TWO);
        }
        proof {
            assert(mvs@ =~= self.spec_moves());
        }
        mvs
    }

    fn is_available_move(&self, mv: u64) -> (r: bool) {
        proof {
            if self.tokens >= 2 {
                assert(self.spec_moves()[0] == NIM_TAKE_ONE);
                assert(self.spec_moves()[1] == NIM_TAKE_TWO);
            } else {
                assert(self.spec_moves()[0] == NIM_TAKE_ONE);
            }
        }
        if mv == NIM_TAKE_ONE {
            true
        } else if mv == NIM_TAKE_TWO {
            self.tokens >= 2
        } else {
            false
        }
    }

    fn play(&mut self, mv: u64) {
        proof {
            assert(old(self).spec_moves().contains(mv));
            if old(self).tokens < 2 {
                assert(old(self).spec_moves()[0] == NIM_TAKE_ONE);
            }
        }
        let taken: u64 = if mv == NIM_TAKE_ONE {
            1
        } else {
            2
        };
        self.tokens = self.tokens - taken;
        self.next = self.next.other();
    }

    fn clone_board(&self) -> (b: NimBoard) {
        NimBoard { tokens: self.tokens, next: self.next }
    }

    fn clone_and_play(&self, mv: u64) -> (b: NimBoard) {
        let mut b = self.clone_board();
        b.play(mv);
        b
    }

    fn encode(&self) -> (e: Vec<u64>) {
        let mut e: Vec<u64> = Vec::new();
        e.push(self.tokens);
        e.push(self.next.index() as u64);
        proof {
            assert(e@ =~= self.spec_encode());
        }
        e
    }

    fn decode(data: &Vec<u64>) -> (r: Option<NimBoard>) {
        if data.len() == 2 && data[1] <= 1 {
            Some(
                NimBoard {
                    tokens: data[0],
                    next: if data[1] == 0 {
                        Player::A
                    } else {
                        Player::B
                    },
                },
            )
        } else {
            None
        }
    }
}

} // verus!
