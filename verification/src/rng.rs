//! A small deterministic pseudo-random generator (a permuted
//! multiplicative congruential generator on 128 bits), used to sample
//! candidate magic multipliers. The whole sequence is a function of the
//! seed, so builds are reproducible.

use vstd::prelude::*;

verus! {

/// The state multiplier of the generator.
pub const PCG_MULTIPLIER: u128 = 0x2360ED051FC65DA44385DF649FCCF645;

/// The fixed default seed; it is odd, as a multiplicative generator's
/// state must be.
pub const DEFAULT_SEED: u128 = 0xE926E6210D9E3487;

/// The generator's state after one step.
#[verifier::opaque]
pub open spec fn rng_step(s: u128) -> u128 {
    vstd::wrapping::u128_specs::wrapping_mul(s, PCG_MULTIPLIER)
}

/// The generator's state after `n` steps.
pub open spec fn rng_nth_state(s: u128, n: nat) -> u128
    decreases n,
{
    if n == 0 {
        s
    } else {
        rng_step(rng_nth_state(s, (n - 1) as nat))
    }
}

/// `x` rotated right by `r` bit positions, for `r` below 64.
pub open spec fn rotr64(x: u64, r: u64) -> u64
    recommends
        r < 64,
{
    if r == 0 {
        x
    } else {
        (x >> r) | (x << ((64 - r) as u64))
    }
}

/// The value a state yields: the xor of the state's halves, rotated by
/// the state's top six bits.
#[verifier::opaque]
pub open spec fn rng_output(s: u128) -> u64 {
    rotr64(((s >> 64) as u64) ^ (s as u64), (s >> 122) as u64)
}

/// A deterministic stream of 64-bit values.
pub struct Rng(u128);

impl View for Rng {
    type V = u128;

    closed spec fn view(&self) -> u128 {
        self.0
    }
}

impl Default for Rng {
    fn default() -> (r: Self)
        ensures
            r@ == DEFAULT_SEED,
    {
        Rng(0xE926E6210D9E3487)
    }
}

impl Rng {
    /// A generator started from the given state.
    pub fn from_state(state: u128) -> (r: Rng)
        ensures
            r@ == state,
    {
        Rng(state)
    }

    /// Steps the state once and yields the drawn value.
    pub fn next_u64(&mut self) -> (r: u64)
        ensures
            final(self)@ == rng_step(old(self)@),
            r == rng_output(final(self)@),
    {
        proof {
            reveal(rng_step);
            reveal(rng_output);
        }
        self.0 = self.0.wrapping_mul(PCG_MULTIPLIER);
        let ghost snew: u128 = self.0;
        proof {
            assert((snew >> 122) < 64) by (bit_vector);
            assert((snew >> 64) <= 0xffff_ffff_ffff_ffff) by (bit_vector);
        }
        let rot: u64 = (self.0 >> 122) as u64;
        let xsl: u64 = ((self.0 >> 64) as u64) ^ (#[verifier::truncate] (self.0 as u64));
        if rot == 0 {
            xsl
        } else {
            (xsl >> rot) | (xsl << (64 - rot))
        }
    }
}

} // verus!
