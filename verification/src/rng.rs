//! A deterministic xorshift pseudo-random number generator.
//!
//! The generator is used only to lay out initial body populations; the
//! simulation core itself is deterministic. Its whole behaviour is stated
//! exactly: each draw returns the current state and advances the state by
//! three fixed shift-xor steps.

use vstd::prelude::*;

verus! {

/// One shift-xor round of the generator: the state after a call to
/// [`Rng::rand`] whose state before the call was `s`.
pub open spec fn xorshift_step(s: u64) -> u64 {
    let a = s ^ (s << 13);
    let b = a ^ (a >> 17);
    b ^ (b << 43)
}

/// A deterministic PRNG (xorshift)
pub struct Rng(u64);

impl Rng {
    /// The current state of the generator.
    pub closed spec fn view(&self) -> u64 {
        self.0
    }

    /// Creates a new RNG
    pub fn new(seed: u64) -> (rng: Self)
        ensures
            rng@ == seed,
    {
        Self(seed)
    }

    /// Returns a pseudo-random (predetermined) number
    pub fn rand(&mut self) -> (ret: u64)
        ensures
            ret == old(self)@,
            final(self)@ == xorshift_step(old(self)@),
    {
        let ret = self.0;
        self.0 ^= self.0 << 13;
        self.0 ^= self.0 >> 17;
        self.0 ^= self.0 << 43;
        ret
    }

    /// Returns a pseudo-random (predetermined) number within a given range
    pub fn range(&mut self, min: u64, max: u64) -> (r: u64)
        requires
            min <= max,
            max - min < u64::MAX,
        ensures
            min <= r <= max,
            r == min + (old(self)@ as int) % (max - min + 1),
            final(self)@ == xorshift_step(old(self)@),
    {
        (self.rand() % (max - min + 1)) + min
    }
}

} // verus!
