//! Core of an interactive, autoregressive text-generation driver.
//!
//! The library owns the decoding state machine: incremental context-window
//! management, logits post-processing (repeat penalty), sampling
//! (greedy, temperature-scaled, nucleus/top-p), vocabulary lookup, and the
//! per-prompt generation loop with its cache-reset discipline.  The
//! transformer forward pass and the tokenizer are external capabilities,
//! reached through traits so the loop can be exercised against deterministic
//! stubs.
//!
//! Scores are held in fixed point: a logit value `v: i64` stands for the real
//! number `v / SCALE`.

use vstd::prelude::*;

pub mod context;
pub mod generation;
pub mod penalty;
pub mod rng;
pub mod sampler;
pub mod vocab;

verus! {

/// One fixed-point unit: an `i64` logit `v` denotes the real value `v / SCALE`.
pub const SCALE: i64 = 1024;

/// Largest magnitude a logit may take, so that rescaling by a `Ratio`
/// stays inside `i64`/`u64` arithmetic.
pub const MAX_LOGIT: i64 = 0x100_0000_0000;

/// Largest numerator or denominator a `Ratio` may take.
pub const MAX_RATIO: u32 = 0x10_0000;

/// Error taxonomy of the generation core.
#[derive(Clone, Copy, Debug, PartialEq, Eq, Structural)]
pub enum GenError {
    /// The prompt encoded to zero tokens; fatal to that prompt only.
    EmptyPrompt,
    /// The vocabulary lacks a required special token (the end-of-sequence
    /// marker); fatal to the session.
    UnknownSpecialToken,
    /// Degenerate logits (empty vector); fatal to that prompt.
    Sampling,
    /// The model's forward pass failed; fatal to the session.
    ModelForward,
}

/// Why a prompt's generation stopped.
#[derive(Clone, Copy, Debug, PartialEq, Eq, Structural)]
pub enum StopReason {
    /// The end-of-sequence token was sampled.
    Eos,
    /// The per-prompt token budget was exhausted.
    MaxLength,
}

/// A positive rational `num / den`, used for the repeat penalty, the
/// temperature, and the top-p cutoff.
#[derive(Clone, Copy, Debug, PartialEq, Eq, Structural)]
pub struct Ratio {
    pub num: u32,
    pub den: u32,
}

impl Ratio {
    /// Both parts positive and small enough that rescaling a bounded logit
    /// cannot overflow.
    pub open spec fn wf(self) -> bool {
        0 < self.num <= MAX_RATIO && 0 < self.den <= MAX_RATIO
    }

    /// The rational equals one; a penalty of one disables the filter.
    pub open spec fn is_one(self) -> bool {
        self.num == self.den
    }

    pub fn new(num: u32, den: u32) -> (r: Ratio)
        requires
            0 < num <= MAX_RATIO,
            0 < den <= MAX_RATIO,
        ensures
            r.wf(),
            r.num == num,
            r.den == den,
    {
        Ratio { num, den }
    }

    /// The ratio one, the neutral penalty.
    pub fn one() -> (r: Ratio)
        ensures
            r.wf(),
            r.is_one(),
            r.num == 1,
            r.den == 1,
    {
        Ratio { num: 1, den: 1 }
    }
}

/// An element-for-element copy of a token sequence.
pub fn copy_u32s(v: &Vec<u32>) -> (r: Vec<u32>)
    ensures
        r@ == v@,
{
    let mut r: Vec<u32> = Vec::new();
    let mut i: usize = 0;
    while i < v.len()
        invariant
            i <= v@.len(),
            r@ == v@.take(i as int),
        decreases v@.len() - i,
    {
        r.push(v[i]);
        proof {
            assert(r@ =~= v@.take(i + 1));
        }
        i = i + 1;
    }
    proof {
        assert(r@ =~= v@);
    }
    r
}

/// An element-for-element copy of a logits vector.
pub fn copy_i64s(v: &Vec<i64>) -> (r: Vec<i64>)
    ensures
        r@ == v@,
{
    let mut r: Vec<i64> = Vec::new();
    let mut i: usize = 0;
    while i < v.len()
        invariant
            i <= v@.len(),
            r@ == v@.take(i as int),
        decreases v@.len() - i,
    {
        r.push(v[i]);
        proof {
            assert(r@ =~= v@.take(i + 1));
        }
        i = i + 1;
    }
    proof {
        assert(r@ =~= v@);
    }
    r
}

} // verus!
