//! A small deterministic pseudo-random number generator (xorshift64).
//! The self-play components take their randomness from this generator so
//! that a run is a pure function of its seed, which is what makes recorded
//! games reproducible.
use vstd::prelude::*;

verus! {

/// The xorshift64 step.
pub open spec fn spec_xorshift64(x: u64) -> u64 {
    let a = x ^ (x << 13);
    let b = a ^ (a >> 7);
    b ^ (b << 17)
}

/// A deterministic xorshift64 generator.
#[derive(Clone, Copy, PartialEq, Eq, Structural, Debug)]
pub struct SeededRng {
    pub state: u64,
}

impl SeededRng {
    /// A generator from a seed; a zero seed is replaced by a fixed
    /// non-zero constant, since zero is a fixed point of xorshift.
    pub fn new(seed: u64) -> (r: SeededRng)
        ensures
            seed != 0 ==> r.state == seed,
            seed == 0 ==> r.state == 0x9e37_79b9_7f4a_7c15u64,
    {
        if seed == 0 {
            SeededRng { state: 0x9e37_79b9_7f4a_7c15 }
        } else {
            SeededRng { state: seed }
        }
    }

    /// The next pseudo-random value; advances the state by one step.
    pub fn next_u64(&mut self) -> (r: u64)
        ensures
            r == spec_xorshift64(old(self).state),
            final(self).state == r,
    {
        let x0 = self.state;
        let x1 = x0 ^ (x0 << 13);
        let x2 = x1 ^ (x1 >> 7);
        let x3 = x2 ^ (x2 << 17);
        self.state = x3;
        x3
    }

    /// A pseudo-random value below `bound`.
    pub fn next_below(&mut self, bound: u64) -> (r: u64)
        requires
            bound > 0,
        ensures
            r == spec_xorshift64(old(self).state) % bound,
            final(self).state == spec_xorshift64(old(self).state),
    {
        let x = self.next_u64();
        x % bound
    }
}

} // verus!
