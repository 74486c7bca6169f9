//! The seeded pseudo-random stream that drives stochastic sampling.
//!
//! A linear-congruential generator with the MMIX constants: the stream is a
//! pure function of the seed, so a session that reuses a seed reproduces its
//! draws exactly (the determinism contract).

use vstd::prelude::*;

verus! {

/// Multiplier of the linear-congruential step.
pub const LCG_MUL: u64 = 6364136223846793005;

/// Increment of the linear-congruential step.
pub const LCG_INC: u64 = 1442695040888963407;

/// The state following `s`: `(s * LCG_MUL + LCG_INC) mod 2^64`.
pub open spec fn spec_next_state(s: u64) -> u64 {
    vstd::wrapping::u64_specs::wrapping_add(
        vstd::wrapping::u64_specs::wrapping_mul(s, LCG_MUL),
        LCG_INC,
    )
}

/// A seeded random stream; the state is the entire identity of the stream.
#[derive(Clone, Copy, Debug, PartialEq, Eq, Structural)]
pub struct SampleRng {
    pub state: u64,
}

impl SampleRng {
    pub fn new(seed: u64) -> (r: SampleRng)
        ensures
            r.state == seed,
    {
        SampleRng { state: seed }
    }

    /// Advance the stream once and return the new raw value.
    pub fn next_u64(&mut self) -> (r: u64)
        ensures
            final(self).state == spec_next_state(old(self).state),
            r == spec_next_state(old(self).state),
    {
        self.state = self.state.wrapping_mul(LCG_MUL).wrapping_add(LCG_INC);
        self.state
    }

    /// Draw a value in `[0, bound)`, advancing the stream exactly once.
    pub fn next_below(&mut self, bound: u64) -> (r: u64)
        requires
            bound > 0,
        ensures
            final(self).state == spec_next_state(old(self).state),
            r == spec_next_state(old(self).state) % bound,
            r < bound,
    {
        let x = self.next_u64();
        x % bound
    }
}

} // verus!
