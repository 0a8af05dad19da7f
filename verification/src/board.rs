//! The game abstraction the search is generic over: players, outcomes, and
//! the `Board` trait. Moves are carried as `u64` codes; mapping a move code
//! to anything richer is the concrete game's responsibility.
use vstd::prelude::*;

verus! {

/// One of the two players.
#[derive(Clone, Copy, PartialEq, Eq, Structural, Debug)]
pub enum Player {
    A,
    B,
}

/// How a finished game ended.
#[derive(Clone, Copy, PartialEq, Eq, Structural, Debug)]
pub enum Outcome {
    WonBy(Player),
    Draw,
}

impl Player {
    pub open spec fn spec_other(self) -> Player {
        match self {
            Player::A => Player::B,
            Player::B => Player::A,
        }
    }

    /// The opponent of this player.
    pub fn other(self) -> (r: Player)
        ensures
            r == self.spec_other(),
    {
        match self {
            Player::A => Player::B,
            Player::B => Player::A,
        }
    }

    pub open spec fn spec_index(self) -> u8 {
        match self {
            Player::A => 0u8,
            Player::B => 1u8,
        }
    }

    /// A stable small index for this player: `A` is 0, `B` is 1.
    pub fn index(self) -> (r: u8)
        ensures
            r == self.spec_index(),
    {
        match self {
            Player::A => 0,
            Player::B => 1,
        }
    }

    pub open spec fn spec_sign(self, pov: Player) -> i8 {
        if self == pov {
            1i8
        } else {
            -1i8
        }
    }

    /// `+1` when this player is `pov`, `-1` otherwise.
    pub fn sign(self, pov: Player) -> (r: i8)
        ensures
            r == self.spec_sign(pov),
    {
        if self == pov {
            1
        } else {
            -1
        }
    }
}

impl Outcome {
    pub open spec fn spec_outcome_other(self) -> Outcome {
        match self {
            Outcome::WonBy(player) => Outcome::WonBy(player.spec_other()),
            Outcome::Draw => Outcome::Draw,
        }
    }

    /// The same outcome seen with the players swapped.
    pub fn other(self) -> (r: Outcome)
        ensures
            r == self.spec_outcome_other(),
    {
        match self {
            Outcome::WonBy(player) => Outcome::WonBy(player.other()),
            Outcome::Draw => Outcome::Draw,
        }
    }

    /// The winning player of a decided game.
    pub fn unwrap_player(self) -> (r: Player)
        requires
            self is WonBy,
        ensures
            self == Outcome::WonBy(r),
    {
        match self {
            Outcome::WonBy(player) => player,
            Outcome::Draw => Player::A,  // unreachable under the precondition
        }
    }

    pub open spec fn spec_outcome_sign(self, pov: Player) -> i8 {
        match self {
            Outcome::WonBy(player) => player.spec_sign(pov),
            Outcome::Draw => 0i8,
        }
    }

    /// `+1` if `pov` won, `-1` if the other player won, `0` for a draw.
    pub fn sign(self, pov: Player) -> (r: i8)
        ensures
            r == self.spec_outcome_sign(pov),
    {
        match self {
            Outcome::WonBy(player) => player.sign(pov),
            Outcome::Draw => 0,
        }
    }
}

/// An abstract two-player, perfect-information, finite game position.
///
/// Every operation is mirrored by a spec-level function so that the search
/// can reason about boards it never executes on. Implementations also owe
/// three laws: a live position has a move, playing a legal move preserves
/// well-formedness and strictly shrinks `height` (so every game ends), and
/// `decode` inverts `encode`.
pub trait Board: Sized {
    /// Well-formedness of the position.
    spec fn wf(&self) -> bool;

    /// The player to move; for a finished game, the player who did not
    /// play the last move.
    spec fn spec_next_player(&self) -> Player;

    /// `Some` once the game is decided, `None` while it is still running.
    spec fn spec_outcome(&self) -> Option<Outcome>;

    /// The codes of the currently available moves, in a fixed order.
    spec fn spec_moves(&self) -> Seq<u64>;

    /// The position after playing `mv`.
    spec fn spec_play(&self, mv: u64) -> Self;

    /// An upper bound on the number of moves still to be played.
    spec fn height(&self) -> nat;

    /// The flat integer encoding of the position.
    spec fn spec_encode(&self) -> Seq<u64>;

    /// The inverse of `spec_encode`, `None` on ill-formed input.
    spec fn spec_decode(data: Seq<u64>) -> Option<Self>;

    /// A live well-formed position always offers at least one move.
    proof fn lemma_moves_nonempty(&self)
        requires
            self.wf(),
            self.spec_outcome() is None,
        ensures
            self.spec_moves().len() > 0,
    ;

    /// Playing a legal move keeps the position well-formed and strictly
    /// decreases its height.
    proof fn lemma_play(&self, mv: u64)
        requires
            self.wf(),
            self.spec_outcome() is None,
            self.spec_moves().contains(mv),
        ensures
            self.spec_play(mv).wf(),
            self.spec_play(mv).height() < self.height(),
    ;

    /// Decoding an encoded position gives the position back.
    proof fn lemma_codec(&self)
        requires
            self.wf(),
        ensures
            Self::spec_decode(self.spec_encode()) == Some(*self),
    ;

    /// The player to move.
    fn next_player(&self) -> (p: Player)
        requires
            self.wf(),
        ensures
            p == self.spec_next_player(),
    ;

    /// The outcome of this board; `None` while the game is not done.
    fn outcome(&self) -> (o: Option<Outcome>)
        requires
            self.wf(),
        ensures
            o == self.spec_outcome(),
    ;

    /// Whether this game is done.
    fn is_done(&self) -> (d: bool)
        requires
            self.wf(),
        ensures
            d == (self.spec_outcome() is Some),
    ;

    /// The available moves; never empty on a live board.
    fn available_moves(&self) -> (mvs: Vec<u64>)
        requires
            self.wf(),
            self.spec_outcome() is None,
        ensures
            mvs@ == self.spec_moves(),
    ;

    /// Whether `mv` is one of the available moves.
    fn is_available_move(&self, mv: u64) -> (r: bool)
        requires
            self.wf(),
            self.spec_outcome() is None,
        ensures
            r == self.spec_moves().contains(mv),
    ;

    /// Play the move `mv`, modifying this board.
    fn play(&mut self, mv: u64)
        requires
            old(self).wf(),
            old(self).spec_outcome() is None,
            old(self).spec_moves().contains(mv),
        ensures
            *final(self) == old(self).spec_play(mv),
    ;

    /// An exact copy of this board.
    fn clone_board(&self) -> (b: Self)
        ensures
            b == *self,
    ;

    /// Clone this board, play `mv` on the clone, and return it.
    fn clone_and_play(&self, mv: u64) -> (b: Self)
        requires
            self.wf(),
            self.spec_outcome() is None,
            self.spec_moves().contains(mv),
        ensures
            b == self.spec_play(mv),
    ;

    /// Encode the position as a flat integer vector.
    fn encode(&self) -> (e: Vec<u64>)
        requires
            self.wf(),
        ensures
            e@ == self.spec_encode(),
    ;

    /// Decode a position from its flat encoding; `None` on invalid data.
    fn decode(data: &Vec<u64>) -> (r: Option<Self>)
        ensures
            r == Self::spec_decode(data@),
            r is Some ==> r.unwrap().wf(),
    ;
}

} // verus!
