//! Tiny dependency-free PRNG (xorshift128+), so the simulation is
//! deterministic for a given seed.

use vstd::prelude::*;

verus! {

/// The SplitMix64 increment (the golden ratio in 64-bit fixed point).
pub const GOLDEN_GAMMA: u64 = 0x9E37_79B9_7F4A_7C15;

/// The SplitMix64 output mix applied to a counter value `z`.
pub open spec fn splitmix_mix(z: u64) -> u64 {
    let x1 = (z ^ (z >> 30u64)).wrapping_mul(0xBF58_476D_1CE4_E5B9u64);
    let x2 = (x1 ^ (x1 >> 27u64)).wrapping_mul(0x94D0_49BB_1331_11EBu64);
    x2 ^ (x2 >> 31u64)
}

/// The state a generator seeded with `seed` starts in: the next two SplitMix64
/// outputs after `seed + GOLDEN_GAMMA`, each forced odd.
pub open spec fn seeded_state(seed: u64) -> (u64, u64) {
    let z0 = seed.wrapping_add(GOLDEN_GAMMA);
    let z1 = z0.wrapping_add(GOLDEN_GAMMA);
    let z2 = z1.wrapping_add(GOLDEN_GAMMA);
    (splitmix_mix(z1) | 1u64, splitmix_mix(z2) | 1u64)
}

/// One xorshift128+ state transition.
pub open spec fn xorshift_next(s: (u64, u64)) -> (u64, u64) {
    let x1 = s.0 ^ (s.0 << 23u64);
    let x2 = x1 ^ (x1 >> 17u64);
    let x3 = x2 ^ (s.1 ^ (s.1 >> 26u64));
    (s.1, x3)
}

/// The value xorshift128+ outputs when it leaves state `s`: the wrapping sum
/// of the two words of the next state.
pub open spec fn xorshift_output(s: (u64, u64)) -> u64 {
    let n = xorshift_next(s);
    n.1.wrapping_add(n.0)
}

/// xorshift128+ generator state.
pub struct Rng {
    s0: u64,
    s1: u64,
}

impl View for Rng {
    type V = (u64, u64);

    closed spec fn view(&self) -> (u64, u64) {
        (self.s0, self.s1)
    }
}

fn splitmix_step(z: &mut u64) -> (x: u64)
    ensures
        *final(z) == (*old(z)).wrapping_add(GOLDEN_GAMMA),
        x == splitmix_mix(*final(z)),
{
    *z = z.wrapping_add(GOLDEN_GAMMA);
    let mut x = *z;
    x = (x ^ (x >> 30)).wrapping_mul(0xBF58_476D_1CE4_E5B9);
    x = (x ^ (x >> 27)).wrapping_mul(0x94D0_49BB_1331_11EB);
    x ^ (x >> 31)
}

impl Rng {
    /// A generator seeded with `seed`; SplitMix64 spreads the single seed
    /// into two non-zero (odd) state words.
    pub fn new(seed: u64) -> (g: Rng)
        ensures
            g@ == seeded_state(seed),
            g@.0 % 2 == 1,
            g@.1 % 2 == 1,
    {
        let mut z = seed.wrapping_add(GOLDEN_GAMMA);
        let a = splitmix_step(&mut z);
        let b = splitmix_step(&mut z);
        let s0 = a | 1;
        let s1 = b | 1;
        assert(s0 % 2 == 1 && s1 % 2 == 1) by (bit_vector)
            requires
                s0 == a | 1,
                s1 == b | 1,
        ;
        Rng { s0, s1 }
    }

    /// The next 64-bit output of xorshift128+.
    pub fn next_u64(&mut self) -> (x: u64)
        ensures
            final(self)@ == xorshift_next(old(self)@),
            x == xorshift_output(old(self)@),
    {
        let mut x = self.s0;
        let y = self.s1;
        self.s0 = y;
        x ^= x << 23;
        x ^= x >> 17;
        x ^= y ^ (y >> 26);
        self.s1 = x;
        x.wrapping_add(y)
    }

    /// The top 24 bits of the next output: the numerator `m` of the uniform
    /// draw `m / 2^24` in `[0, 1)`.
    pub fn next_unit_bits(&mut self) -> (m: u32)
        ensures
            final(self)@ == xorshift_next(old(self)@),
            m == xorshift_output(old(self)@) >> 40u64,
            m < 0x100_0000,
    {
        let x = self.next_u64();
        assert(x >> 40u64 < 0x100_0000) by (bit_vector);
        (x >> 40) as u32
    }

    /// True with the probability whose odds out of `2^24` are `odds`: the next
    /// uniform draw `m / 2^24` falls below `odds / 2^24`.
    pub fn chance_odds(&mut self, odds: u32) -> (b: bool)
        ensures
            final(self)@ == xorshift_next(old(self)@),
            b == ((xorshift_output(old(self)@) >> 40u64) < odds),
    {
        self.next_unit_bits() < odds
    }

    /// Uniform integer in `[0, n)`; `0` without drawing when `n == 0`.
    pub fn below(&mut self, n: usize) -> (i: usize)
        ensures
            n == 0 ==> i == 0 && final(self)@ == old(self)@,
            n > 0 ==> i < n && i == xorshift_output(old(self)@) % (n as u64) && final(self)@
                == xorshift_next(old(self)@),
    {
        if n == 0 {
            0
        } else {
            (self.next_u64() % n as u64) as usize
        }
    }
}

/// xorshift128+ never reaches the all-zero state from any other state, so a
/// generator that starts non-zero (as every seeded one does) never gets stuck
/// emitting a constant stream.
pub proof fn lemma_state_stays_nonzero(s: (u64, u64))
    requires
        s.0 != 0 || s.1 != 0,
    ensures
        xorshift_next(s).0 != 0 || xorshift_next(s).1 != 0,
{
    let a = s.0;
    let b = s.1;
    if b == 0 {
        assert(a != 0 ==> ((a ^ (a << 23u64)) ^ ((a ^ (a << 23u64)) >> 17u64)) ^ (0u64 ^ (0u64 >> 26u64)) != 0)
            by (bit_vector);
    }
}

/// Every seeded generator starts in a non-zero state, so (by
/// `lemma_state_stays_nonzero`) its state is non-zero forever.
pub proof fn lemma_seeded_state_nonzero(seed: u64)
    ensures
        seeded_state(seed).0 != 0,
        seeded_state(seed).1 != 0,
{
    let a = splitmix_mix(seed.wrapping_add(GOLDEN_GAMMA).wrapping_add(GOLDEN_GAMMA));
    let b = splitmix_mix(
        seed.wrapping_add(GOLDEN_GAMMA).wrapping_add(GOLDEN_GAMMA).wrapping_add(GOLDEN_GAMMA),
    );
    assert((a | 1u64) != 0 && (b | 1u64) != 0) by (bit_vector);
}

} // verus!
