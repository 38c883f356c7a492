//! A small deterministic generator (SplitMix64), so that a run is reproducible from one seed.
use crate::types::two64;
use vstd::arithmetic::div_mod::{
    lemma_fundamental_div_mod, lemma_fundamental_div_mod_converse, lemma_small_mod,
};
use vstd::prelude::*;

verus! {

/// What the state advances by with each draw.
pub const GOLDEN: u64 = 0x9E37_79B9_7F4A_7C15;

/// The inverse of [`GOLDEN`] modulo 2^64.
pub const GOLDEN_INVERSE: u64 = 0xF1DE_83E1_9937_733D;

/// The state whose output is one.
pub const STATE_OF_ONE: u64 = 0x966D_BFC1_6913_C5D2;

/// The generator.
#[derive(Clone, Copy, Debug)]
pub struct SplitMix64 {
    pub state: u64,
}

/// The state after one draw.
pub open spec fn stepped(state: u64) -> u64 {
    state.wrapping_add(GOLDEN)
}

/// The output that belongs to a state.
pub open spec fn mixed(state: u64) -> u64 {
    let a = (state ^ (state >> 30u64)).wrapping_mul(0xBF58_476D_1CE4_E5B9);
    let b = (a ^ (a >> 27u64)).wrapping_mul(0x94D0_49BB_1331_11EB);
    b ^ (b >> 31u64)
}

/// Draws until the state is [`STATE_OF_ONE`].
pub open spec fn draws_to_one(state: u64) -> int {
    ((STATE_OF_ONE - state) * GOLDEN_INVERSE) % two64()
}

/// The low 64 bits of `x * n`.
pub open spec fn low_product(x: u64, n: u64) -> int {
    (x * n) % two64()
}

/// Low products below this are rejected, so that every value below `n` is as likely.
pub open spec fn rejection_bound(n: u64) -> int {
    (two64() - n) % (n as int)
}

/// The state in which a draw below `n` ends, from a state whose output is to be tried.
pub open spec fn accepted_state(state: u64, n: u64) -> u64
    decreases draws_to_one(state),
        when n > 0
        via accepted_state_decreases
{
    if low_product(mixed(state), n) < rejection_bound(n) {
        accepted_state(stepped(state), n)
    } else {
        state
    }
}

#[via_fn]
proof fn accepted_state_decreases(state: u64, n: u64) {
    if low_product(mixed(state), n) < rejection_bound(n) {
        lemma_one_is_accepted(state, n);
        lemma_draw_comes_closer(state);
    }
}

/// The value below `n` that an accepted state stands for.
pub open spec fn value_below(state: u64, n: u64) -> int {
    (mixed(state) * n) / two64()
}

/// The output of [`STATE_OF_ONE`] is one.
proof fn lemma_state_of_one()
    ensures
        mixed(STATE_OF_ONE) == 1,
{
    let s: u64 = 0x966D_BFC1_6913_C5D2;
    assert(s ^ (s >> 30u64) == 0x966D_BFC3_30A5_3AD7) by (bit_vector)
        requires
            s == 0x966D_BFC1_6913_C5D2u64,
    ;
    let a: u64 = 0x966D_BFC3_30A5_3AD7u64.wrapping_mul(0xBF58_476D_1CE4_E5B9);
    assert(a == 0x3196_42B4_E085_D85F);
    assert(a ^ (a >> 27u64) == 0x3196_42B2_D24D_8EC3) by (bit_vector)
        requires
            a == 0x3196_42B4_E085_D85Fu64,
    ;
    let b: u64 = 0x3196_42B2_D24D_8EC3u64.wrapping_mul(0x94D0_49BB_1331_11EB);
    assert(b == 1);
    assert(b ^ (b >> 31u64) == 1) by (bit_vector)
        requires
            b == 1u64,
    ;
}

/// A rejected state is not the one whose output is one.
pub proof fn lemma_one_is_accepted(state: u64, n: u64)
    requires
        n > 0,
        low_product(mixed(state), n) < rejection_bound(n),
    ensures
        state != STATE_OF_ONE,
{
    if state == STATE_OF_ONE {
        lemma_state_of_one();
        lemma_small_mod(n as nat, two64() as nat);
        assert((two64() - n) % (n as int) < n) by (nonlinear_arith)
            requires
                n > 0,
        ;
    }
}

/// Each draw brings the state one draw closer to [`STATE_OF_ONE`].
pub proof fn lemma_draw_comes_closer(state: u64)
    requires
        state != STATE_OF_ONE,
    ensures
        0 <= draws_to_one(stepped(state)) < draws_to_one(state),
{
    let m = two64();
    let (g, h) = (GOLDEN as int, GOLDEN_INVERSE as int);
    let d = STATE_OF_ONE - state;
    let r = 0x957bbf35006ed677int;
    assert(g * h == 1 + r * m) by {
        assert(0x9e3779b97f4a7c15int * 0xf1de83e19937733dint == 1 + 0x957bbf35006ed677int * 0x1_0000_0000_0000_0000int)
            by (nonlinear_arith);
    }
    let p = d * h;
    let (q, s) = (p / m, p % m);
    lemma_fundamental_div_mod(p, m);
    if s == 0 {
        let k = q * g - d * r;
        assert(d == m * k) by (nonlinear_arith)
            requires
                p == d * h,
                p == m * q,
                g * h == 1 + r * m,
                k == q * g - d * r,
        ;
        assert(k == 0) by (nonlinear_arith)
            requires
                d == m * k,
                -m < d < m,
                m > 0,
        ;
    }
    let d2 = STATE_OF_ONE - stepped(state);
    let c: int = if state + g >= m {
        1
    } else {
        0
    };
    assert(d2 == d - g + c * m);
    assert(d2 * h == m * (q - r + c * h) + (s - 1)) by (nonlinear_arith)
        requires
            d2 == d - g + c * m,
            d * h == m * q + s,
            g * h == 1 + r * m,
    ;
    lemma_fundamental_div_mod_converse(d2 * h, m, q - r + c * h, s - 1);
}

impl SplitMix64 {
    /// A generator started from `seed`.
    pub fn new(seed: u64) -> (r: SplitMix64)
        ensures
            r.state == seed,
    {
        SplitMix64 { state: seed }
    }

    /// The next 64 bits.
    pub fn next_u64(&mut self) -> (r: u64)
        ensures
            final(self).state == stepped(old(self).state),
            r == mixed(final(self).state),
    {
        self.state = self.state.wrapping_add(GOLDEN);
        let z: u64 = self.state;
        let a: u64 = (z ^ (z >> 30u64)).wrapping_mul(0xBF58_476D_1CE4_E5B9);
        let b: u64 = (a ^ (a >> 27u64)).wrapping_mul(0x94D0_49BB_1331_11EB);
        b ^ (b >> 31u64)
    }

    /// Uniform integer in `[0, n)` by a debiased multiply-shift.
    pub fn below(&mut self, n: u64) -> (r: u64)
        requires
            n > 0,
        ensures
            final(self).state == accepted_state(stepped(old(self).state), n),
            r == value_below(final(self).state, n),
            r < n,
    {
        let mut x: u64 = self.next_u64();
        let bound: u64 = (u64::MAX - n + 1) % n;
        proof {
            lemma_product_fits(x, n);
        }
        let mut m: u128 = (x as u128) * (n as u128);
        let ghost start = self.state;
        while ((m % 0x1_0000_0000_0000_0000) as u64) < bound
            invariant
                n > 0,
                bound == rejection_bound(n),
                x == mixed(self.state),
                m == x * n,
                accepted_state(self.state, n) == accepted_state(start, n),
            decreases draws_to_one(self.state),
        {
            proof {
                lemma_one_is_accepted(self.state, n);
                lemma_draw_comes_closer(self.state);
            }
            x = self.next_u64();
            proof {
                lemma_product_fits(x, n);
            }
            m = (x as u128) * (n as u128);
        }
        proof {
            let p = x * n;
            assert(p / two64() < n) by (nonlinear_arith)
                requires
                    p == x * n,
                    0 <= x < two64(),
                    n > 0,
            ;
        }
        (m / 0x1_0000_0000_0000_0000) as u64
    }
}

/// A product of two 64-bit integers fits in 128 bits.
proof fn lemma_product_fits(x: u64, n: u64)
    ensures
        0 <= x * n <= u128::MAX,
{
    assert(0 <= x * n <= u128::MAX) by (nonlinear_arith)
        requires
            0 <= x <= u64::MAX,
            0 <= n <= u64::MAX,
    ;
}

/// Equal states give equal draws ever after: a run is determined by its seed.
pub proof fn draws_are_reproducible(a: SplitMix64, b: SplitMix64, n: u64)
    requires
        a.state == b.state,
    ensures
        stepped(a.state) == stepped(b.state),
        mixed(stepped(a.state)) == mixed(stepped(b.state)),
        accepted_state(stepped(a.state), n) == accepted_state(stepped(b.state), n),
{
}

} // verus!
