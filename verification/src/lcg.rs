//! Linear congruential generators that seed the benchmark inputs.
use vstd::prelude::*;

verus! {

/// Multiplier shared by every generator in the benchmarks.
pub const LCG_MULTIPLIER: u64 = 6364136223846793005;

/// One step of the generator `s -> s * LCG_MULTIPLIER + increment (mod 2^64)`.
pub open spec fn lcg_step(s: u64, increment: u64) -> u64 {
    s.wrapping_mul(LCG_MULTIPLIER).wrapping_add(increment)
}

/// The state after `k` steps from `seed`.
pub open spec fn lcg_state(seed: u64, increment: u64, k: nat) -> u64
    decreases k,
{
    if k == 0 {
        seed
    } else {
        lcg_step(lcg_state(seed, increment, (k - 1) as nat), increment)
    }
}

/// The first `n` outputs of the generator: output `i` is the state after `i + 1` steps.
pub open spec fn lcg_outputs(seed: u64, increment: u64, n: nat) -> Seq<u64> {
    Seq::new(n, |i: int| lcg_state(seed, increment, (i + 1) as nat))
}

/// Advances `state` by one step of the generator with increment 1 and returns the new state.
pub fn next_rand(state: &mut u64) -> (r: u64)
    ensures
        *final(state) == lcg_step(*old(state), 1),
        r == *final(state),
{
    *state = state.wrapping_mul(LCG_MULTIPLIER).wrapping_add(1);
    *state
}

/// Deterministic generator with increment 1.
pub struct Lcg {
    pub state: u64,
}

impl Lcg {
    pub fn new(seed: u64) -> (r: Self)
        ensures
            r.state == seed,
    {
        Lcg { state: seed }
    }

    pub fn next_u64(&mut self) -> (r: u64)
        ensures
            final(self).state == lcg_step(old(self).state, 1),
            r == final(self).state,
    {
        self.state = self.state.wrapping_mul(LCG_MULTIPLIER).wrapping_add(1);
        self.state
    }

    /// Advances the generator and returns the top 53 bits of the new state: the
    /// mantissa of a uniform number in `[0, 1)`.
    pub fn next_u53(&mut self) -> (r: u64)
        ensures
            final(self).state == lcg_step(old(self).state, 1),
            r == final(self).state >> 11u64,
            r < 0x20_0000_0000_0000,
    {
        let x = self.next_u64();
        assert(x >> 11u64 < 0x20_0000_0000_0000u64) by (bit_vector);
        x >> 11u64
    }
}

} // verus!
