//! Deterministic pseudo-random numbers for the Poppy game engine.
//!
//! With the same seed, every draw of a game session plays out identically.
use vstd::prelude::*;

pub mod schema;
pub use schema::poppy_schema;

verus! {

/// One xorshift64 step of the generator state.
pub open spec fn xorshift(x: u64) -> u64 {
    let a = x ^ (x >> 12u64);
    let b = a ^ (a << 25u64);
    b ^ (b >> 27u64)
}

/// The output scramble of xorshift64*: the state times `0x2545F4914F6CDD1D`, modulo 2^64.
pub open spec fn scramble(x: u64) -> u64 {
    vstd::wrapping::u64_specs::wrapping_mul(x, 0x2545_F491_4F6C_DD1Du64)
}

/// A deterministic xorshift64* pseudo-random number generator.
#[derive(Debug)]
pub struct PoppyRng {
    state: u64,
}

impl View for PoppyRng {
    type V = u64;

    closed spec fn view(&self) -> u64 {
        self.state
    }
}

impl PoppyRng {
    /// Creates a new generator from a 64-bit seed; a zero seed becomes 1.
    pub fn new(seed: u64) -> (rng: PoppyRng)
        ensures
            rng@ == if seed == 0 { 1 } else { seed },
    {
        PoppyRng { state: if seed == 0 { 1 } else { seed } }
    }

    /// Current internal state.
    pub fn state(&self) -> (state: u64)
        ensures
            state == self@,
    {
        self.state
    }

    /// Advances the state one xorshift step and returns it scrambled.
    pub fn next_u64(&mut self) -> (value: u64)
        ensures
            final(self)@ == xorshift(old(self)@),
            value == scramble(final(self)@),
    {
        let mut x = self.state;
        x = x ^ (x >> 12u64);
        x = x ^ (x << 25u64);
        x = x ^ (x >> 27u64);
        self.state = x;
        x.wrapping_mul(0x2545_F491_4F6C_DD1D)
    }

    /// A draw in `[min, max]`: `min` itself, without a draw, when `min >= max`; else `min`
    /// plus the next value modulo the width of the range. The full `i64` range has a
    /// width of 2^64, which does not fit the `u64` the width is computed in.
    pub fn random_int(&mut self, min: i64, max: i64) -> (value: i64)
        requires
            max - min + 1 < 0x1_0000_0000_0000_0000,
        ensures
            min >= max ==> value == min && final(self)@ == old(self)@,
            min < max ==> final(self)@ == xorshift(old(self)@)
                && value == min + (scramble(final(self)@) as int) % (max - min + 1),
            min <= value,
            min < max ==> value <= max,
    {
        if min >= max {
            return min;
        }
        let range = (max as i128 - min as i128 + 1) as u64;
        let offset = self.next_u64() % range;
        (min as i128 + offset as i128) as i64
    }
}

} // verus!
