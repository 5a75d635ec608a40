//! The two small number generators the house runs on: a person's whims and
//! the hiss under a fly's buzz.
//!
//! Both are deterministic on purpose. A person who wanders differently on each
//! run makes every visual regression an argument, and the audio thread cannot
//! afford a real generator and does not need one.
use vstd::prelude::*;

verus! {

/// Numerical Recipes' linear congruential step, modulo `2^32`.
pub open spec fn lcg(state: u32) -> u32 {
    ((state as int * 1664525 + 1013904223) % 0x1_0000_0000) as u32
}

/// A person's private source of small decisions.
pub struct Whim {
    pub state: u32,
}

/// Where everybody's whims start.
pub const WHIM_SEED: u32 = 0x5eed_1e55;

impl Whim {
    /// A source of whims starting from `seed`.
    pub fn new(seed: u32) -> (w: Whim)
        ensures
            w.state == seed,
    {
        Whim { state: seed }
    }

    /// The whims everybody starts with.
    pub fn seeded() -> (w: Whim)
        ensures
            w.state == WHIM_SEED,
    {
        Whim { state: WHIM_SEED }
    }

    /// Step the generator and give its top 24 bits: a draw in `0..2^24`,
    /// which divided by `2^24` is a fraction in `[0, 1)`.
    pub fn draw(&mut self) -> (d: u32)
        ensures
            final(self).state == lcg(old(self).state),
            d == lcg(old(self).state) / 256,
            d < 0x100_0000,
    {
        self.state = self.state.wrapping_mul(1_664_525).wrapping_add(1_013_904_223);
        proof {
            let s = old(self).state as int;
            assert((s * 1664525) % 0x1_0000_0000 + 1013904223 < 2 * 0x1_0000_0000);
            assert(((s * 1664525) % 0x1_0000_0000 + 1013904223) % 0x1_0000_0000 == (s * 1664525
                + 1013904223) % 0x1_0000_0000) by (nonlinear_arith);
        }
        let s = self.state;
        let d = s >> 8;
        assert(s >> 8 == s / 256) by (bit_vector);
        d
    }
}

/// One step of xorshift32.
pub open spec fn xorshift(x: u32) -> u32 {
    let a = x ^ ((x << 13u32) as u32);
    let b = a ^ (a >> 17u32);
    b ^ ((b << 5u32) as u32)
}

/// The white noise under a fly's buzz.
pub struct Hiss {
    pub state: u32,
}

/// Where the hiss starts: the golden ratio's bits, which are not zero.
pub const HISS_SEED: u32 = 0x9E37_79B9;

impl Hiss {
    /// The hiss every buzz starts with.
    pub fn new() -> (h: Hiss)
        ensures
            h.state == HISS_SEED,
    {
        Hiss { state: HISS_SEED }
    }

    /// The next 32 bits of noise.
    pub fn next_bits(&mut self) -> (bits: u32)
        ensures
            final(self).state == xorshift(old(self).state),
            bits == final(self).state,
    {
        let mut x = self.state;
        x ^= x << 13;
        x ^= x >> 17;
        x ^= x << 5;
        self.state = x;
        x
    }
}

/// xorshift never reaches zero from anything else, so a hiss seeded nonzero
/// never falls silent; and zero is where it would stay for good.
pub proof fn the_hiss_never_dies(x: u32)
    ensures
        x != 0 ==> xorshift(x) != 0,
        xorshift(0) == 0,
{
    assert(x != 0 ==> xorshift(x) != 0) by (bit_vector);
    assert(xorshift(0) == 0) by (bit_vector);
}

} // verus!
