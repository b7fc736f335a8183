use vstd::prelude::*;

verus! {

/// Multiplier of the linear-congruential step.
pub const LCG_MUL: u64 = 6364136223846793005;

/// Increment of the linear-congruential step.
pub const LCG_INC: u64 = 1442695040888963407;

/// One step of the generator: a 64-bit linear congruence.
pub open spec fn lcg_next(s: u64) -> u64 {
    ((s * LCG_MUL + LCG_INC) % 0x10000000000000000) as u64
}

/// The value drawn from a state: the high 32 bits, reduced modulo `n`.
pub open spec fn lcg_draw(s: u64, n: u64) -> u64 {
    (s >> 32) % n
}

/// Seedable pseudo-random source injected into the economy and expansion
/// components, so that runs are fully reproducible.
#[derive(Clone, Copy, Debug)]
pub struct Prng {
    pub state: u64,
}

impl Prng {
    /// Start a generator from a seed.
    pub fn new(seed: u64) -> (r: Prng)
        ensures
            r.state == seed,
    {
        Prng { state: seed }
    }

    /// Draw a value uniformly below `n`.
    pub fn draw_below(&mut self, n: u64) -> (r: u64)
        requires
            1 <= n <= 0x100000000,
        ensures
            final(self).state == lcg_next(old(self).state),
            r == lcg_draw(final(self).state, n),
            r < n,
    {
        proof {
            assert((self.state as int) * (LCG_MUL as int) <= (u64::MAX as int) * (u64::MAX as int))
                by (nonlinear_arith)
                requires
                    self.state <= u64::MAX,
            ;
        }
        let wide: u128 = (self.state as u128) * (LCG_MUL as u128) + (LCG_INC as u128);
        let next: u64 = (wide % 0x10000000000000000) as u64;
        self.state = next;
        (next >> 32) % n
    }
}

} // verus!
