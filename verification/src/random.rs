//! Reproducible randomness.
//!
//! Every draw is the first sample of a `rand::rngs::StdRng` seeded with the
//! current state of a [`RandomSource`]; the state then moves on by a fixed
//! odd stride, so that it visits every 64-bit value before it repeats. A draw
//! is therefore a function of the state alone, which is what lets the
//! contracts of this crate say exactly what a run returns for a given seed.

use crate::model::Ratio;
use rand::rngs::StdRng;
use rand::{Rng, SeedableRng};
use vstd::prelude::*;

verus! {

/// The distance between the states of two successive draws.
pub const STRIDE: u64 = 0x9E37_79B9_7F4A_7C15;

/// The first value that `StdRng::seed_from_u64(seed)` samples from
/// `0..bound`.
pub uninterp spec fn seeded_index(seed: u64, bound: u64) -> u64;

/// The first answer that `StdRng::seed_from_u64(seed)` gives to a trial that
/// succeeds `numerator` times out of `denominator`.
pub uninterp spec fn seeded_chance(seed: u64, numerator: u32, denominator: u32) -> bool;

/// Calls `SeedableRng::seed_from_u64` and, on the generator it returns,
/// `Rng::gen_range(0..bound)`.
///
/// Trusted: the generator is a ChaCha stream cipher keyed from `seed` and
/// from nothing else (no clock, no operating-system entropy), and sampling
/// a `u64` range uses 64-bit integer arithmetic only, so the sample depends
/// on `seed` and `bound` alone, on every machine. `gen_range` returns a
/// value of the range it is given. It panics on an empty range, which
/// `bound > 0` rules out.
#[verifier::external_body]
fn draw_index(seed: u64, bound: u64) -> (index: u64)
    requires
        bound > 0,
    ensures
        index == seeded_index(seed, bound),
        index < bound,
{
    StdRng::seed_from_u64(seed).gen_range(0..bound)
}

/// Calls `SeedableRng::seed_from_u64` and, on the generator it returns,
/// `Rng::gen_ratio(numerator, denominator)`.
///
/// Trusted: the generator is keyed from `seed` and from nothing else, so the
/// answer depends on the three arguments alone; `gen_ratio` always answers
/// `true` when the numerator equals the denominator and `false` when the
/// numerator is zero. It panics on a zero denominator and on a numerator
/// above the denominator, which the precondition rules out.
#[verifier::external_body]
fn draw_chance(seed: u64, numerator: u32, denominator: u32) -> (hit: bool)
    requires
        denominator > 0,
        numerator <= denominator,
    ensures
        hit == seeded_chance(seed, numerator, denominator),
        numerator == denominator ==> hit,
        numerator == 0 ==> !hit,
{
    StdRng::seed_from_u64(seed).gen_ratio(numerator, denominator)
}

/// The state that follows `state`.
pub open spec fn advance(state: u64) -> u64 {
    state.wrapping_add(STRIDE)
}

/// The index below `bound` that is drawn in `state`. No generator returns
/// an index outside the range it is asked for; should the name stand for
/// one, it is read as zero.
pub open spec fn index_at(state: u64, bound: nat) -> int {
    if seeded_index(state, bound as u64) < bound {
        seeded_index(state, bound as u64) as int
    } else {
        0
    }
}

/// Whether a trial with the given `odds` succeeds in `state`.
pub open spec fn chance_at(state: u64, odds: Ratio) -> bool {
    seeded_chance(state, odds.numerator, odds.denominator)
}

/// A stream of random draws that is fixed by the seed it starts from.
#[derive(Clone, Copy, Debug, PartialEq, Eq)]
pub struct RandomSource {
    state: u64,
}

impl View for RandomSource {
    type V = u64;

    /// The state the next draw is made in.
    closed spec fn view(&self) -> u64 {
        self.state
    }
}

impl RandomSource {
    /// A source whose first draw is made in state `seed`.
    pub fn new(seed: u64) -> (source: RandomSource)
        ensures
            source@ == seed,
    {
        RandomSource { state: seed }
    }

    /// Draws an index below `bound`.
    pub fn index_below(&mut self, bound: usize) -> (index: usize)
        requires
            bound > 0,
        ensures
            index == index_at(old(self)@, bound as nat),
            index < bound,
            final(self)@ == advance(old(self)@),
    {
        let drawn = draw_index(self.state, bound as u64);
        self.state = self.state.wrapping_add(STRIDE);
        drawn as usize
    }

    /// Runs one trial that succeeds with probability `odds`.
    pub fn chance(&mut self, odds: Ratio) -> (hit: bool)
        requires
            odds.is_probability(),
        ensures
            hit == chance_at(old(self)@, odds),
            odds.numerator == odds.denominator ==> hit,
            odds.numerator == 0 ==> !hit,
            final(self)@ == advance(old(self)@),
    {
        let hit = draw_chance(self.state, odds.numerator, odds.denominator);
        self.state = self.state.wrapping_add(STRIDE);
        hit
    }
}

} // verus!
