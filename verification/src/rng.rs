//! SplitMix64: the deterministic 64-bit generator used to seed random
//! containers and synthetic test data.
use vstd::prelude::*;
use vstd::arithmetic::div_mod::{lemma_mul_mod_noop_left, lemma_mod_multiples_vanish, lemma_small_mod,
    lemma_mod_equivalence};

verus! {

/// Additive step of the generator (the 64-bit golden ratio).
pub const GOLDEN_GAMMA: u64 = 0x9e3779b97f4a7c15;

/// SplitMix64 output mixing function.
pub open spec fn mix64(z: u64) -> u64 {
    let z1 = (z ^ (z >> 30u64)).wrapping_mul(0xbf58476d1ce4e5b9u64);
    let z2 = (z1 ^ (z1 >> 27u64)).wrapping_mul(0x94d049bb133111ebu64);
    z2 ^ (z2 >> 31u64)
}

/// Generator state after `k` steps from `seed`.
pub open spec fn state_after(seed: u64, k: nat) -> u64
    decreases k,
{
    if k == 0 {
        seed
    } else {
        state_after(seed, (k - 1) as nat).wrapping_add(GOLDEN_GAMMA)
    }
}

/// The `k`-th output (counting from 1) of the generator seeded with `seed`.
pub open spec fn output(seed: u64, k: nat) -> u64 {
    mix64(state_after(seed, k))
}

/// SplitMix64 pseudo-random generator.
pub struct Rng(pub u64);

impl Rng {
    /// Generator seeded with `seed`.
    pub fn new(seed: u64) -> (r: Self)
        ensures
            r.0 == seed,
    {
        Self(seed)
    }

    /// Advance the state by the golden gamma and return the mixed state.
    pub fn next_u64(&mut self) -> (r: u64)
        ensures
            final(self).0 == old(self).0.wrapping_add(GOLDEN_GAMMA),
            r == mix64(final(self).0),
    {
        self.0 = self.0.wrapping_add(GOLDEN_GAMMA);
        let mut z = self.0;
        z = (z ^ (z >> 30u64)).wrapping_mul(0xbf58476d1ce4e5b9u64);
        z = (z ^ (z >> 27u64)).wrapping_mul(0x94d049bb133111ebu64);
        z ^ (z >> 31u64)
    }
}

/// Multiplying by `c` and then by `cinv` modulo 2^64 gives `x` back when
/// `c * cinv` is 1 modulo 2^64.
proof fn lemma_mul_undo(x: int, c: int, cinv: int, k: int)
    requires
        0 <= x < 0x1_0000_0000_0000_0000,
        c * cinv == 1 + k * 0x1_0000_0000_0000_0000,
    ensures
        ((x * c) % 0x1_0000_0000_0000_0000) * cinv % 0x1_0000_0000_0000_0000 == x,
{
    let m = 0x1_0000_0000_0000_0000int;
    lemma_mul_mod_noop_left(x * c, cinv, m);
    assert(x * c * cinv == m * (x * k) + x) by (nonlinear_arith)
        requires
            c * cinv == 1 + k * m,
    ;
    lemma_mod_multiples_vanish(x * k, x, m);
    lemma_small_mod(x as nat, m as nat);
}

proof fn lemma_mul_c1_injective(x: u64, y: u64)
    requires
        x.wrapping_mul(0xbf58476d1ce4e5b9u64) == y.wrapping_mul(0xbf58476d1ce4e5b9u64),
    ensures
        x == y,
{
    lemma_mul_undo(x as int, 0xbf58476d1ce4e5b9, 0x96de1b173f119089, 8125545580553827436);
    lemma_mul_undo(y as int, 0xbf58476d1ce4e5b9, 0x96de1b173f119089, 8125545580553827436);
}

proof fn lemma_mul_c2_injective(x: u64, y: u64)
    requires
        x.wrapping_mul(0x94d049bb133111ebu64) == y.wrapping_mul(0x94d049bb133111ebu64),
    ensures
        x == y,
{
    lemma_mul_undo(x as int, 0x94d049bb133111eb, 0x319642b2d24d8ec3, 2077064247507883091);
    lemma_mul_undo(y as int, 0x94d049bb133111eb, 0x319642b2d24d8ec3, 2077064247507883091);
}

/// The output mixer is a bijection of the 64-bit words: different states
/// give different outputs.
pub proof fn lemma_mix64_injective(x: u64, y: u64)
    requires
        mix64(x) == mix64(y),
    ensures
        x == y,
{
    let x1 = (x ^ (x >> 30u64)).wrapping_mul(0xbf58476d1ce4e5b9u64);
    let y1 = (y ^ (y >> 30u64)).wrapping_mul(0xbf58476d1ce4e5b9u64);
    let x2 = (x1 ^ (x1 >> 27u64)).wrapping_mul(0x94d049bb133111ebu64);
    let y2 = (y1 ^ (y1 >> 27u64)).wrapping_mul(0x94d049bb133111ebu64);
    assert(x2 ^ (x2 >> 31u64) == y2 ^ (y2 >> 31u64) ==> x2 == y2) by (bit_vector);
    lemma_mul_c2_injective(x1 ^ (x1 >> 27u64), y1 ^ (y1 >> 27u64));
    assert(x1 ^ (x1 >> 27u64) == y1 ^ (y1 >> 27u64) ==> x1 == y1) by (bit_vector);
    lemma_mul_c1_injective(x ^ (x >> 30u64), y ^ (y >> 30u64));
    assert(x ^ (x >> 30u64) == y ^ (y >> 30u64) ==> x == y) by (bit_vector);
}

/// The state after `k` steps is `seed + k * GOLDEN_GAMMA` modulo 2^64.
pub proof fn lemma_state_after(seed: u64, k: nat)
    ensures
        state_after(seed, k) as int == (seed + k * GOLDEN_GAMMA) % 0x1_0000_0000_0000_0000,
    decreases k,
{
    let m = 0x1_0000_0000_0000_0000int;
    if k == 0 {
        lemma_small_mod(seed as nat, m as nat);
    } else {
        lemma_state_after(seed, (k - 1) as nat);
        let prev = state_after(seed, (k - 1) as nat);
        let a = seed + (k - 1) * GOLDEN_GAMMA;
        // prev == a % m, and the new state is (prev + gamma) % m
        assert(prev.wrapping_add(GOLDEN_GAMMA) as int == (prev + GOLDEN_GAMMA) % m);
        assert(a == m * (a / m) + a % m) by (nonlinear_arith)
            requires
                m > 0,
        ;
        lemma_mod_multiples_vanish(a / m, prev + GOLDEN_GAMMA, m);
        assert(seed + k * GOLDEN_GAMMA == m * (a / m) + (prev + GOLDEN_GAMMA)) by (nonlinear_arith)
            requires
                prev == a % m,
                a == m * (a / m) + a % m,
                a == seed + (k - 1) * GOLDEN_GAMMA,
        ;
    }
}

/// A period of 2^64: the generator's outputs number 1 to 2^64 from one
/// seed are pairwise distinct.
pub proof fn lemma_outputs_distinct(seed: u64, i: nat, j: nat)
    requires
        1 <= i < j <= 0x1_0000_0000_0000_0000,
    ensures
        output(seed, i) != output(seed, j),
{
    let m = 0x1_0000_0000_0000_0000int;
    if output(seed, i) == output(seed, j) {
        lemma_mix64_injective(state_after(seed, i), state_after(seed, j));
        lemma_state_after(seed, i);
        lemma_state_after(seed, j);
        let a = seed + j * GOLDEN_GAMMA;
        let b = seed + i * GOLDEN_GAMMA;
        lemma_mod_equivalence(a, b, m);
        let d = (j - i) as int;
        assert(a - b == d * GOLDEN_GAMMA) by (nonlinear_arith)
            requires
                a == seed + j * GOLDEN_GAMMA,
                b == seed + i * GOLDEN_GAMMA,
                d == j - i,
        ;
        assert((d * GOLDEN_GAMMA) % m == 0);
        lemma_mul_undo(d, GOLDEN_GAMMA as int, 0xf1de83e19937733d, 10771413168148108919);
        assert(0int * 0xf1de83e19937733dint % m == 0);
        assert(false);
    }
}

} // verus!
