//! The engine's seeded pseudo-random generator (xorshift64*): the same seed
//! always gives the same stream, so seeded effects reproduce exactly.
use vstd::prelude::*;

verus! {

/// Multiplier that spreads a seed over the state bits.
pub const SEED_MIX: u64 = 0x9E37_79B9_7F4A_7C15;

/// Output multiplier of xorshift64*.
pub const OUTPUT_MIX: u64 = 0x2545_F491_4F6C_DD1D;

/// The generator state made from `seed`: mixed, and odd so that it is never
/// the fixed point zero.
pub open spec fn seeded_state(seed: u64) -> u64 {
    vstd::wrapping::u64_specs::wrapping_mul(seed, SEED_MIX) | 1u64
}

/// One xorshift step of the state.
pub open spec fn xorshift(x: u64) -> u64 {
    let a = x ^ (x >> 12u64);
    let b = a ^ (a << 25u64);
    b ^ (b >> 27u64)
}

/// The number handed out for a (new) state.
pub open spec fn output_of(state: u64) -> u64 {
    vstd::wrapping::u64_specs::wrapping_mul(state, OUTPUT_MIX)
}

/// The state after `k` steps from `state`.
pub open spec fn state_after(state: u64, k: nat) -> u64
    decreases k,
{
    if k == 0 { state } else { xorshift(state_after(state, (k - 1) as nat)) }
}

/// Small, fast, deterministic PRNG (xorshift64*). The field is its state.
#[derive(Debug, Clone)]
pub struct Rng(pub u64);

impl Rng {
    /// A generator whose state is `seed` mixed and made odd.
    pub fn new(seed: u64) -> (r: Self)
        ensures
            r.0 == seeded_state(seed),
    {
        Rng(seed.wrapping_mul(SEED_MIX) | 1)
    }

    /// Steps the state and returns the next number of the stream.
    pub fn next_u64(&mut self) -> (r: u64)
        ensures
            final(self).0 == xorshift(old(self).0),
            r == output_of(final(self).0),
    {
        let mut x = self.0;
        x = x ^ (x >> 12u64);
        x = x ^ (x << 25u64);
        x = x ^ (x >> 27u64);
        self.0 = x;
        x.wrapping_mul(OUTPUT_MIX)
    }
}

} // verus!
