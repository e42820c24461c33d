//! The leveling policy of a skip list: a biased coin, flipped until it fails.
//!
//! A tower grows by one level for every flip that succeeds and stops at the
//! first failure or at the configured maximum, which gives a geometric
//! distribution truncated at the maximum.  The coin is driven by a small
//! deterministic generator, so that a seed fixes every tower height that a
//! list will ever draw.

use vstd::prelude::*;

verus! {

/// Multiplier of the generator's 64-bit linear congruential step.
pub const STEP_MULTIPLIER: u64 = 6364136223846793005;

/// Increment of the generator's 64-bit linear congruential step.
pub const STEP_INCREMENT: u64 = 1442695040888963407;

/// The seed that a source starts from when none is supplied.
pub const DEFAULT_SEED: u64 = 0x853c_49e6_748f_ea9b;

/// Why a configuration is refused.
#[derive(Clone, Copy, Debug, PartialEq, Eq, Structural)]
pub enum ConfigError {
    /// A tower of `max_level + 1` levels cannot be counted in a `usize`.
    MaxLevelTooLarge,
    /// The promotion probability does not lie strictly between 0 and 1.
    ProbabilityOutOfRange,
}

/// A probability written as a fraction of two integers.
#[derive(Clone, Copy, Debug, PartialEq, Eq, Structural)]
pub struct Probability {
    pub numerator: u32,
    pub denominator: u32,
}

impl Probability {
    /// A promotion probability has to lie strictly between 0 and 1.
    pub open spec fn in_open_unit_interval(self) -> bool {
        0 < self.numerator < self.denominator
    }

    /// One half, the customary promotion probability.
    pub fn half() -> (p: Probability)
        ensures
            p == (Probability { numerator: 1, denominator: 2 }),
            p.in_open_unit_interval(),
    {
        Probability { numerator: 1, denominator: 2 }
    }

    /// Tells whether the fraction lies strictly between 0 and 1.
    pub fn is_valid(&self) -> (valid: bool)
        ensures
            valid == self.in_open_unit_interval(),
    {
        0 < self.numerator && self.numerator < self.denominator
    }
}

/// The generator state that follows `state`.
pub open spec fn next_state(state: u64) -> u64 {
    state.wrapping_mul(STEP_MULTIPLIER).wrapping_add(STEP_INCREMENT)
}

/// The number that a state yields: its upper 32 bits.
pub open spec fn draw_of(state: u64) -> u32 {
    (state / 0x1_0000_0000) as u32
}

/// Whether the flip made in `state` succeeds: the draw, reduced modulo the
/// denominator, falls below the numerator.
pub open spec fn promotes(state: u64, probability: Probability) -> bool {
    draw_of(state) % probability.denominator < probability.numerator
}

/// The level reached, and the state left behind, when `reached` flips have
/// succeeded so far: flipping goes on until one fails or `max_level` is hit.
pub open spec fn level_run(
    state: u64,
    probability: Probability,
    max_level: nat,
    reached: nat,
) -> (nat, u64)
    decreases max_level - reached,
{
    if reached >= max_level {
        (reached, state)
    } else {
        let flipped = next_state(state);
        if promotes(flipped, probability) {
            level_run(flipped, probability, max_level, reached + 1)
        } else {
            (reached, flipped)
        }
    }
}

/// The source of tower heights of one list.
#[derive(Clone, Copy, Debug)]
pub struct LevelSource {
    max_level: usize,
    probability: Probability,
    state: u64,
}

impl LevelSource {
    /// The highest level that the source hands out.
    pub closed spec fn max_level(&self) -> usize {
        self.max_level
    }

    /// The probability with which one more level is added.
    pub closed spec fn probability(&self) -> Probability {
        self.probability
    }

    /// The generator's current state.
    pub closed spec fn state(&self) -> u64 {
        self.state
    }

    /// A source is usable when its probability lies strictly between 0 and 1.
    pub open spec fn wf(&self) -> bool {
        self.probability().in_open_unit_interval()
    }

    /// The level that the next call of `random_level` returns.
    pub open spec fn upcoming_level(&self) -> nat {
        level_run(self.state(), self.probability(), self.max_level() as nat, 0).0
    }

    /// The state in which the next call of `random_level` leaves the generator.
    pub open spec fn upcoming_state(&self) -> u64 {
        level_run(self.state(), self.probability(), self.max_level() as nat, 0).1
    }

    /// A source for towers of at most `max_level + 1` levels, started from
    /// `seed`.  A probability outside the open unit interval is refused.
    pub fn new(max_level: usize, probability: Probability, seed: u64) -> (made: Result<
        LevelSource,
        ConfigError,
    >)
        ensures
            !probability.in_open_unit_interval() ==> made == Err::<LevelSource, ConfigError>(
                ConfigError::ProbabilityOutOfRange,
            ),
            probability.in_open_unit_interval() ==> made is Ok && made->Ok_0.wf()
                && made->Ok_0.max_level() == max_level && made->Ok_0.probability() == probability
                && made->Ok_0.state() == seed,
    {
        if !probability.is_valid() {
            return Err(ConfigError::ProbabilityOutOfRange);
        }
        Ok(LevelSource { max_level, probability, state: seed })
    }

    /// The generator's current state.
    pub fn current_state(&self) -> (state: u64)
        ensures
            state == self.state(),
    {
        self.state
    }

    /// The highest level that the source hands out.
    pub fn level_limit(&self) -> (limit: usize)
        ensures
            limit == self.max_level(),
    {
        self.max_level
    }

    /// Flips the coin once.
    fn flip(&mut self) -> (heads: bool)
        requires
            old(self).wf(),
        ensures
            final(self).wf(),
            final(self).max_level() == old(self).max_level(),
            final(self).probability() == old(self).probability(),
            final(self).state() == next_state(old(self).state()),
            heads == promotes(final(self).state(), old(self).probability()),
    {
        let flipped = self.state.wrapping_mul(STEP_MULTIPLIER).wrapping_add(STEP_INCREMENT);
        self.state = flipped;
        assert(flipped >> 32 == flipped / 0x1_0000_0000) by (bit_vector);
        let draw = (flipped >> 32) as u32;
        draw % self.probability.denominator < self.probability.numerator
    }

    /// Draws the level of a new tower: the number of flips that succeed
    /// before the first failure, at most `max_level`.
    pub fn random_level(&mut self) -> (level: usize)
        requires
            old(self).wf(),
        ensures
            final(self).wf(),
            final(self).max_level() == old(self).max_level(),
            final(self).probability() == old(self).probability(),
            level == old(self).upcoming_level(),
            final(self).state() == old(self).upcoming_state(),
            level <= old(self).max_level(),
    {
        let mut level: usize = 0;
        while level < self.max_level
            invariant_except_break
                level_run(self.state(), self.probability(), self.max_level() as nat, level as nat)
                    == level_run(
                    old(self).state(),
                    old(self).probability(),
                    old(self).max_level() as nat,
                    0,
                ),
            invariant
                self.wf(),
                self.max_level() == old(self).max_level(),
                self.probability() == old(self).probability(),
                level <= self.max_level(),
            ensures
                (level as nat, self.state()) == level_run(
                    old(self).state(),
                    old(self).probability(),
                    old(self).max_level() as nat,
                    0,
                ),
            decreases self.max_level() - level,
        {
            if !self.flip() {
                break ;
            }
            level = level + 1;
        }
        level
    }
}

} // verus!
