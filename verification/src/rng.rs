//! A tiny deterministic pseudo-random generator (xorshift style).
//!
//! The seed is fixed on purpose: given the same sequence of calls, the
//! generator yields the same sequence of values in every run, which keeps
//! the order in which words are picked reproducible.

use vstd::prelude::*;

verus! {

/// The fixed, non-zero starting state of every generator.
pub const SEED: u64 = 0x1337133713371337;

/// A deterministic pseudo-random generator over a single 64-bit state word.
pub struct Rng(u64);

impl Rng {
    /// The state of the generator, for use in contracts.
    pub closed spec fn state(self) -> u64 {
        self.0
    }

    /// The successor state: three xor-shift rounds over the state word.
    pub open spec fn step(s: u64) -> u64 {
        let a = s ^ (s << 13);
        let b = a ^ (a >> 17);
        b ^ (b << 43)
    }

    /// Creates a generator in its fixed starting state.
    pub fn new() -> (r: Self)
        ensures
            r.state() == SEED,
    {
        Self(SEED)
    }

    /// Returns the current state as the drawn value and advances the state.
    ///
    /// Both the result and the new state are exact functions of the old
    /// state, so two generators in the same state draw the same value and
    /// agree again afterwards.
    pub fn rand(&mut self) -> (r: u64)
        ensures
            r == old(self).state(),
            final(self).state() == Self::step(old(self).state()),
    {
        let ret = self.0;
        self.0 ^= self.0 << 13;
        self.0 ^= self.0 >> 17;
        self.0 ^= self.0 << 43;
        ret
    }

    /// Draws a value and folds it into the inclusive range `[min, max]`.
    pub fn range(&mut self, min: u64, max: u64) -> (r: u64)
        requires
            min <= max,
            max - min < u64::MAX,
        ensures
            r == old(self).state() as int % (max - min + 1) + min,
            min <= r <= max,
            final(self).state() == Self::step(old(self).state()),
    {
        (self.rand() % (max - min + 1)) + min
    }
}

} // verus!
