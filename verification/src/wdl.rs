//! Win/draw/loss bookkeeping: a relative outcome, a `[win, draw, loss]`
//! tally, and the `POV` / `Flip` conversions between the absolute and the
//! relative view.
use vstd::prelude::*;

use crate::board::Outcome;
use crate::board::Player;

verus! {

/// The outcome of a game from the point of view of one player.
#[derive(Clone, Copy, PartialEq, Eq, Structural, Debug)]
pub enum OutcomeWDL {
    Win,
    Draw,
    Loss,
}

/// A collection of win, draw and loss counts (or scores).
#[derive(Clone, Copy, PartialEq, Eq, Structural, Debug)]
pub struct WDL {
    pub win: i64,
    pub draw: i64,
    pub loss: i64,
}

/// Conversion of an absolute outcome to a relative one.
pub trait POV {
    type Output;

    /// The value of `pov` applied at the spec level.
    spec fn spec_pov(self, pov: Player) -> Self::Output;

    /// View this outcome from the point of view of `pov`.
    fn pov(self, pov: Player) -> (r: Self::Output)
        ensures
            r == self.spec_pov(pov),
    ;
}

/// Swapping the two players' points of view.
pub trait Flip: Sized {
    /// The value of `flip` at the spec level.
    spec fn spec_flip(self) -> Self;

    /// Flip this outcome.
    fn flip(self) -> (r: Self)
        ensures
            r == self.spec_flip(),
    ;
}

impl OutcomeWDL {
    pub open spec fn spec_to_wdl(self) -> WDL {
        match self {
            OutcomeWDL::Win => WDL { win: 1i64, draw: 0i64, loss: 0i64 },
            OutcomeWDL::Draw => WDL { win: 0i64, draw: 1i64, loss: 0i64 },
            OutcomeWDL::Loss => WDL { win: 0i64, draw: 0i64, loss: 1i64 },
        }
    }

    /// A tally with a one at this outcome's place and zeros otherwise.
    pub fn to_wdl(self) -> (r: WDL)
        ensures
            r == self.spec_to_wdl(),
    {
        match self {
            OutcomeWDL::Win => WDL { win: 1, draw: 0, loss: 0 },
            OutcomeWDL::Draw => WDL { win: 0, draw: 1, loss: 0 },
            OutcomeWDL::Loss => WDL { win: 0, draw: 0, loss: 1 },
        }
    }

    pub open spec fn spec_sign(self) -> i64 {
        match self {
            OutcomeWDL::Win => 1i64,
            OutcomeWDL::Draw => 0i64,
            OutcomeWDL::Loss => -1i64,
        }
    }

    /// A win is `1`, a draw `0`, a loss `-1`.
    pub fn sign(self) -> (r: i64)
        ensures
            r == self.spec_sign(),
    {
        match self {
            OutcomeWDL::Win => 1,
            OutcomeWDL::Draw => 0,
            OutcomeWDL::Loss => -1,
        }
    }

    /// The minimax combination of child outcomes, where `None` is unknown:
    /// a known win wins, otherwise any unknown leaves the result unknown,
    /// otherwise all losses lose and anything else draws.
    pub open spec fn spec_best(children: Seq<Option<OutcomeWDL>>) -> Option<OutcomeWDL> {
        if exists|i: int| 0 <= i < children.len() && children[i] == Some(OutcomeWDL::Win) {
            Some(OutcomeWDL::Win)
        } else if exists|i: int| 0 <= i < children.len() && children[i] is None {
            None
        } else if forall|i: int|
            0 <= i < children.len() ==> children[i] == Some(OutcomeWDL::Loss) {
            Some(OutcomeWDL::Loss)
        } else {
            Some(OutcomeWDL::Draw)
        }
    }

    /// Combine child outcomes minimax-style; `None` means unknown.
    pub fn best(children: &Vec<Option<OutcomeWDL>>) -> (r: Option<OutcomeWDL>)
        ensures
            r == Self::spec_best(children@),
    {
        let mut any_unknown = false;
        let mut all_known_are_loss = true;
        let mut idx: usize = 0;
        while idx < children.len()
            invariant
                idx <= children.len(),
                forall|i: int| 0 <= i < idx ==> children@[i] != Some(OutcomeWDL::Win),
                any_unknown == exists|i: int| 0 <= i < idx && children@[i] is None,
                all_known_are_loss == forall|i: int|
                    0 <= i < idx ==> children@[i] == Some(OutcomeWDL::Loss),
            decreases children.len() - idx,
        {
            match children[idx] {
                None => {
                    any_unknown = true;
                    all_known_are_loss = false;
                },
                Some(OutcomeWDL::Win) => {
                    return Some(OutcomeWDL::Win);
                },
                Some(OutcomeWDL::Draw) => {
                    all_known_are_loss = false;
                },
                Some(OutcomeWDL::Loss) => {
                },
            }
            idx = idx + 1;
        }
        if any_unknown {
            None
        } else if all_known_are_loss {
            Some(OutcomeWDL::Loss)
        } else {
            Some(OutcomeWDL::Draw)
        }
    }
}

impl WDL {
    pub open spec fn spec_value(self) -> int {
        self.win - self.loss
    }

    /// The expected sign of this tally: wins minus losses.
    pub fn value(self) -> (r: i64)
        requires
            -0x8000_0000_0000_0000 <= self.win - self.loss <= 0x7fff_ffff_ffff_ffff,
        ensures
            r == self.spec_value(),
    {
        self.win - self.loss
    }

    pub open spec fn spec_sum(self) -> int {
        self.win + self.draw + self.loss
    }

    /// The total number of games in this tally.
    pub fn sum(self) -> (r: i64)
        requires
            -0x8000_0000_0000_0000 <= self.win + self.draw <= 0x7fff_ffff_ffff_ffff,
            -0x8000_0000_0000_0000 <= self.win + self.draw + self.loss
                <= 0x7fff_ffff_ffff_ffff,
        ensures
            r == self.spec_sum(),
    {
        self.win + self.draw + self.loss
    }
}

impl POV for Outcome {
    type Output = OutcomeWDL;

    open spec fn spec_pov(self, pov: Player) -> OutcomeWDL {
        match self {
            Outcome::WonBy(player) => if player == pov {
                OutcomeWDL::Win
            } else {
                OutcomeWDL::Loss
            },
            Outcome::Draw => OutcomeWDL::Draw,
        }
    }

    fn pov(self, pov: Player) -> (r: OutcomeWDL) {
        match self {
            Outcome::WonBy(player) => if player == pov {
                OutcomeWDL::Win
            } else {
                OutcomeWDL::Loss
            },
            Outcome::Draw => OutcomeWDL::Draw,
        }
    }
}

impl<I: POV> POV for Option<I> {
    type Output = Option<I::Output>;

    open spec fn spec_pov(self, pov: Player) -> Option<I::Output> {
        match self {
            Some(inner) => Some(inner.spec_pov(pov)),
            None => None,
        }
    }

    fn pov(self, pov: Player) -> (r: Option<I::Output>) {
        match self {
            Some(inner) => Some(inner.pov(pov)),
            None => None,
        }
    }
}

impl Flip for OutcomeWDL {
    open spec fn spec_flip(self) -> OutcomeWDL {
        match self {
            OutcomeWDL::Win => OutcomeWDL::Loss,
            OutcomeWDL::Draw => OutcomeWDL::Draw,
            OutcomeWDL::Loss => OutcomeWDL::Win,
        }
    }

    fn flip(self) -> (r: OutcomeWDL) {
        match self {
            OutcomeWDL::Win => OutcomeWDL::Loss,
            OutcomeWDL::Draw => OutcomeWDL::Draw,
            OutcomeWDL::Loss => OutcomeWDL::Win,
        }
    }
}

impl Flip for WDL {
    open spec fn spec_flip(self) -> WDL {
        WDL { win: self.loss, draw: self.draw, loss: self.win }
    }

    fn flip(self) -> (r: WDL) {
        WDL { win: self.loss, draw: self.draw, loss: self.win }
    }
}

impl<I: Flip> Flip for Option<I> {
    open spec fn spec_flip(self) -> Option<I> {
        match self {
            Some(inner) => Some(inner.spec_flip()),
            None => None,
        }
    }

    fn flip(self) -> (r: Option<I>) {
        match self {
            Some(inner) => Some(inner.flip()),
            None => None,
        }
    }
}

} // verus!
