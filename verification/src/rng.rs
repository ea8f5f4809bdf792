//! Pseudo-random numbers for the kernel (tunnel keys and the like).
use vstd::prelude::*;

verus! {

/// A source of pseudo-random numbers.
pub trait RandomGenerator {
    fn next(&mut self) -> usize;
}

/// The multiplier of the generator (the one of `java.util.Random`).
pub const LCG_MULTIPLIER: u64 = 25214903917;

/// 2^48: the generator's numbers are taken modulo this.
pub open spec fn lcg_modulus() -> nat {
    0x1_0000_0000_0000
}

/// The number that follows `seed`.
pub open spec fn lcg_step(seed: usize) -> usize {
    ((LCG_MULTIPLIER as nat * seed as nat) % lcg_modulus()) as usize
}

/// A multiplicative linear congruential generator modulo 2^48.
pub struct LcGenerator {
    seed: usize,
}

impl LcGenerator {
    pub closed spec fn state(&self) -> usize {
        self.seed
    }

    pub fn new(seed: usize) -> (r: LcGenerator)
        ensures
            r.state() == seed,
    {
        Self { seed }
    }
}

/// The state after `n` numbers were drawn from state `seed`.
pub open spec fn lcg_state(seed: usize, n: nat) -> usize
    decreases n,
{
    if n == 0 {
        seed
    } else {
        lcg_step(lcg_state(seed, (n - 1) as nat))
    }
}

/// The generator is deterministic: two generators made from the same seed draw the
/// same numbers, the `n`-th being [`lcg_state`]`(seed, n)`; seed 0 draws only zeros.
pub proof fn lemma_lcg_deterministic(seed: usize, n: nat)
    ensures
        lcg_state(seed, n + 1) == lcg_step(lcg_state(seed, n)),
        lcg_state(0, n) == 0,
    decreases n,
{
    if n > 0 {
        lemma_lcg_deterministic(0, (n - 1) as nat);
    }
    assert(lcg_step(0) == 0);
}

proof fn lemma_mask_48(x: u64)
    ensures
        x & 0xFFFF_FFFF_FFFFu64 == x % 0x1_0000_0000_0000u64,
{
    assert(x & 0xFFFF_FFFF_FFFFu64 == x % 0x1_0000_0000_0000u64) by (bit_vector);
}

impl RandomGenerator for LcGenerator {
    /// Advances the generator and returns its new state: the old state times the
    /// multiplier, modulo 2^48.
    fn next(&mut self) -> (r: usize)
        ensures
            r == lcg_step(old(self).state()),
            final(self).state() == r,
    {
        let seed = self.seed as u64;
        let product = LCG_MULTIPLIER.wrapping_mul(seed);
        let next = (product & 0xFFFF_FFFF_FFFF) as usize;
        proof {
            let n = LCG_MULTIPLIER as nat * self.seed as nat;
            lemma_mask_48(product);
            vstd::arithmetic::div_mod::lemma_mod_mod(n as int, 0x1_0000_0000_0000int, 0x1_0000int);
            assert(0x1_0000_0000_0000int * 0x1_0000int == 0x1_0000_0000_0000_0000int);
        }
        self.seed = next;
        next
    }
}

} // verus!
