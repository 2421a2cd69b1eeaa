//! The 32-bit xorshift generator that drives the synthesizer's noise source.
//! The synthesis side reads each new state as a signed 32-bit integer and
//! scales it by `2^-31` into a sample in `[-1, 1)`.

use vstd::prelude::*;

verus! {

/// One xorshift step: `x ^= x << 13; x ^= x >> 17; x ^= x << 5` on 32 bits.
pub open spec fn xorshift_step(x: u32) -> u32 {
    let a = x ^ (x << 13u32);
    let b = a ^ (a >> 17u32);
    b ^ (b << 5u32)
}

/// 32-bit xorshift LFSR.
#[derive(Clone, Copy, Debug)]
pub struct Xorshift32 {
    state: u32,
}

/// The generator's state.
impl View for Xorshift32 {
    type V = u32;

    closed spec fn view(&self) -> u32 {
        self.state
    }
}

impl Xorshift32 {
    pub const DEFAULT_SEED: u32 = 0xACE1_ACE1;

    /// A generator at [`Xorshift32::DEFAULT_SEED`].
    pub fn new() -> (r: Self)
        ensures
            r@ == 0xACE1_ACE1u32,
    {
        Xorshift32 { state: Self::DEFAULT_SEED }
    }

    /// A generator at `seed`.
    pub fn with_seed(seed: u32) -> (r: Self)
        ensures
            r@ == seed,
    {
        Xorshift32 { state: seed }
    }

    /// The current state, as its 32 bits.
    pub fn state(&self) -> (r: u32)
        ensures
            r == self@,
    {
        self.state
    }

    /// Advance the generator and return its new state, read as a signed
    /// 32-bit integer (the sample before scaling).
    pub fn next_raw(&mut self) -> (r: i32)
        ensures
            final(self)@ == xorshift_step(old(self)@),
            r as u32 == final(self)@,
    {
        let x = self.state;
        let a = x ^ (x << 13u32);
        let b = a ^ (a >> 17u32);
        let c = b ^ (b << 5u32);
        self.state = c;
        let r = c as i32;
        assert(r as u32 == c) by (bit_vector)
            requires
                r == c as i32;
        r
    }

    /// Return to `seed`.
    pub fn reset(&mut self, seed: u32)
        ensures
            final(self)@ == seed,
    {
        self.state = seed;
    }
}

impl Default for Xorshift32 {
    fn default() -> (r: Self)
        ensures
            r@ == 0xACE1_ACE1u32,
    {
        Self::new()
    }
}

/// A zero state stays zero: the generator must be seeded with a nonzero
/// value to produce noise.
pub proof fn zero_state_is_stuck()
    ensures
        xorshift_step(0) == 0,
{
    assert(xorshift_step(0) == 0) by (bit_vector);
}

/// A nonzero state never steps to zero, so a nonzero seed keeps producing
/// noise forever.
pub proof fn nonzero_state_stays_nonzero(x: u32)
    requires
        x != 0,
    ensures
        xorshift_step(x) != 0,
{
    let a = x ^ (x << 13u32);
    let b = a ^ (a >> 17u32);
    assert(x != 0 ==> (x ^ (x << 13u32)) != 0) by (bit_vector);
    assert(a != 0 ==> (a ^ (a >> 17u32)) != 0) by (bit_vector);
    assert(b != 0 ==> (b ^ (b << 5u32)) != 0) by (bit_vector);
}

} // verus!
