//! Fixed-width integer helpers used across the AMM simulators.
//!
//! All on-chain AMM math is done in unsigned 256-bit integers. `a * b / d` needs a 512-bit
//! intermediate, so it is widened through [`U512`] and narrowed back.
use crate::types::{lemma_u256_range, two256, two512, U256, U512};
use vstd::arithmetic::div_mod::{lemma_fundamental_div_mod, lemma_small_mod};
use vstd::prelude::*;

verus! {

/// `ceil(a / d)` for `a >= 0` and `d > 0`.
pub open spec fn ceil_div(a: int, d: int) -> int {
    if a % d == 0 {
        a / d
    } else {
        a / d + 1
    }
}

/// `q` is `n / d` rounded down.
pub open spec fn is_floor(q: int, n: int, d: int) -> bool {
    q * d <= n < (q + 1) * d
}

/// `q` is `n / d` rounded up.
pub open spec fn is_ceil(q: int, n: int, d: int) -> bool {
    (q - 1) * d < n <= q * d
}

/// Integer division rounds down.
pub proof fn lemma_is_floor(n: int, d: int)
    requires
        d > 0,
    ensures
        is_floor(n / d, n, d),
        n >= 0 ==> n / d >= 0,
{
    lemma_fundamental_div_mod(n, d);
    let q = n / d;
    assert(q * d <= n < (q + 1) * d && (n >= 0 ==> q >= 0)) by (nonlinear_arith)
        requires
            n == d * q + n % d,
            0 <= n % d < d,
    ;
}

/// There is one quotient rounded down.
pub proof fn lemma_one_floor(a: int, b: int, n: int, d: int)
    requires
        d > 0,
        is_floor(a, n, d),
        is_floor(b, n, d),
    ensures
        a == b,
{
    assert(a == b) by (nonlinear_arith)
        requires
            d > 0,
            a * d <= n < (a + 1) * d,
            b * d <= n < (b + 1) * d,
    ;
}

/// [`ceil_div`] rounds up.
pub proof fn lemma_is_ceil(n: int, d: int)
    requires
        d > 0,
    ensures
        is_ceil(ceil_div(n, d), n, d),
        n >= 0 ==> ceil_div(n, d) >= 0,
{
    lemma_fundamental_div_mod(n, d);
    let q = n / d;
    if n % d == 0 {
        assert((q - 1) * d < n <= q * d && (n >= 0 ==> q >= 0)) by (nonlinear_arith)
            requires
                n == d * q,
                d > 0,
        ;
    } else {
        assert(q * d < n <= (q + 1) * d && (n >= 0 ==> q >= 0)) by (nonlinear_arith)
            requires
                n == d * q + n % d,
                0 < n % d < d,
        ;
    }
}

/// There is one quotient rounded up.
pub proof fn lemma_one_ceil(a: int, b: int, n: int, d: int)
    requires
        d > 0,
        is_ceil(a, n, d),
        is_ceil(b, n, d),
    ensures
        a == b,
{
    assert(a == b) by (nonlinear_arith)
        requires
            d > 0,
            (a - 1) * d < n <= a * d,
            (b - 1) * d < n <= b * d,
    ;
}

/// The product of two 256-bit integers fits in 512 bits with room to spare.
pub proof fn lemma_product_fits(a: U256, b: U256)
    ensures
        0 <= a@ * b@ < two512() - 1,
{
    broadcast use lemma_u256_range;

    assert(0 <= a@ * b@ <= (two256() - 1) * (two256() - 1)) by (nonlinear_arith)
        requires
            0 <= a@ < two256(),
            0 <= b@ < two256(),
    ;
}

/// `floor(a * b / denom)` computed with a 512-bit intermediate: `None` when `denom` is zero or
/// the quotient exceeds 256 bits.
pub fn mul_div(a: U256, b: U256, denom: U256) -> (r: Option<U256>)
    ensures
        match r {
            Some(v) => denom@ != 0 && v@ == (a@ * b@) / denom@,
            None => denom@ == 0 || (a@ * b@) / denom@ >= two256(),
        },
{
    if denom.is_zero() {
        return None;
    }
    let prod = U512::from_u256(a).wrapping_mul(U512::from_u256(b));
    proof {
        lemma_product_fits(a, b);
        lemma_small_mod((a@ * b@) as nat, two512() as nat);
    }
    prod.div_rem(U512::from_u256(denom)).0.to_u256()
}

/// `ceil(a * b / denom)` computed with a 512-bit intermediate: `None` when `denom` is zero or
/// the quotient exceeds 256 bits.
pub fn mul_div_rounding_up(a: U256, b: U256, denom: U256) -> (r: Option<U256>)
    ensures
        match r {
            Some(v) => denom@ != 0 && v@ == ceil_div(a@ * b@, denom@),
            None => denom@ == 0 || ceil_div(a@ * b@, denom@) >= two256(),
        },
{
    broadcast use lemma_u256_range;

    if denom.is_zero() {
        return None;
    }
    let prod = U512::from_u256(a).wrapping_mul(U512::from_u256(b));
    proof {
        lemma_product_fits(a, b);
        lemma_small_mod((a@ * b@) as nat, two512() as nat);
    }
    let (floor, rest) = prod.div_rem(U512::from_u256(denom));
    let mut q = floor;
    if !rest.is_zero() {
        proof {
            let p = a@ * b@;
            assert(0 <= p / denom@ <= p) by (nonlinear_arith)
                requires
                    p >= 0,
                    denom@ >= 1,
            ;
            lemma_small_mod((p / denom@ + 1) as nat, two512() as nat);
        }
        q = q.wrapping_add(U512::from_u256(U256::one()));
    }
    q.to_u256()
}

/// `r` is the integer square root of `n`, rounded down.
pub open spec fn is_sqrt(r: int, n: int) -> bool {
    0 <= r && r * r <= n < (r + 1) * (r + 1)
}

/// One Babylonian step from any `x >= 1` stays at or above the square root.
proof fn lemma_babylonian_step(n: int, x: int)
    requires
        n >= 1,
        x >= 1,
    ensures
        n < ((x + n / x) / 2 + 1) * ((x + n / x) / 2 + 1),
        (x + n / x) / 2 >= x ==> x * x <= n,
        x <= n ==> x + n / x <= n + 1,
        n / x >= 0,
{
    let q = n / x;
    let y = (x + q) / 2;
    lemma_fundamental_div_mod(n, x);
    assert(q >= 0) by (nonlinear_arith)
        requires
            n >= 1,
            x >= 1,
            q == n / x,
    ;
    assert(n < x * (q + 1)) by (nonlinear_arith)
        requires
            n == x * q + n % x,
            n % x < x,
    ;
    assert(4 * (x * (q + 1)) <= (x + q + 1) * (x + q + 1)) by (nonlinear_arith);
    assert((x + q + 1) * (x + q + 1) <= (2 * (y + 1)) * (2 * (y + 1))) by (nonlinear_arith)
        requires
            0 <= x + q + 1 <= 2 * (y + 1),
    ;
    assert((2 * (y + 1)) * (2 * (y + 1)) == 4 * ((y + 1) * (y + 1))) by (nonlinear_arith);
    if y >= x {
        assert(x * x <= n) by (nonlinear_arith)
            requires
                n == x * q + n % x,
                n % x >= 0,
                q >= x,
                x >= 1,
        ;
    }
    if x <= n {
        assert(q >= 1) by (nonlinear_arith)
            requires
                n < x * (q + 1),
                x <= n,
                x >= 1,
                q >= 0,
        ;
        assert(x + q <= n + 1) by (nonlinear_arith)
            requires
                x >= 1,
                q >= 1,
                x * q <= n,
        ;
    }
}

/// A step from below `n` adds without overflow: the sum is at most `n`, or `n` is small.
proof fn lemma_babylonian_sum(n: int, x: int)
    requires
        1 <= x < n,
        n < (x + 1) * (x + 1),
    ensures
        x + n / x <= n + 1,
        n > 3 ==> x + n / x <= n,
{
    lemma_babylonian_step(n, x);
    let q = n / x;
    lemma_fundamental_div_mod(n, x);
    if n > 3 {
        assert(x >= 2) by {
            if x == 1 {
                assert((1 + 1) * (1 + 1) == 4int) by (nonlinear_arith);
            }
        }
        assert(x * q <= n) by (nonlinear_arith)
            requires
                n == x * q + n % x,
                n % x >= 0,
        ;
        if q >= 2 {
            assert(x + q <= x * q) by (nonlinear_arith)
                requires
                    x >= 2,
                    q >= 2,
            ;
        }
    }
}

/// Integer square root (floor) by Babylonian iteration.
pub fn sqrt(n: U256) -> (r: U256)
    ensures
        is_sqrt(r@, n@),
{
    broadcast use lemma_u256_range;

    if n.is_zero() {
        return U256::zero();
    }
    let mut x = n;
    let odd = if n.bit(0) {
        U256::one()
    } else {
        U256::zero()
    };
    proof {
        vstd::arithmetic::power2::lemma2_to64();
        assert(n@ / n@ == 1) by (nonlinear_arith)
            requires
                n@ >= 1,
        ;
        assert(n@ / 1 == n@);
        assert(odd@ == n@ % 2);
        lemma_small_mod((n@ / 2 + odd@) as nat, two256() as nat);
        assert(n@ < (n@ + 1) * (n@ + 1)) by (nonlinear_arith)
            requires
                n@ >= 1,
        ;
    }
    // Half of `n + 1`, without the sum.
    let mut y = n.shift_right(1).wrapping_add(odd);
    while y < x
        invariant
            1 <= n@ < two256(),
            1 <= x@ <= n@,
            y@ == (x@ + n@ / x@) / 2,
            n@ < (x@ + 1) * (x@ + 1),
        decreases x@,
    {
        broadcast use lemma_u256_range;

        proof {
            lemma_babylonian_step(n@, x@);
            assert(y@ >= 1) by {
                if y@ == 0 {
                    assert(n@ < (0 + 1) * (0 + 1));
                }
            }
        }
        x = y;
        proof {
            vstd::arithmetic::power2::lemma2_to64();
            lemma_babylonian_step(n@, x@);
            lemma_babylonian_sum(n@, x@);
            lemma_small_mod((x@ + n@ / x@) as nat, two256() as nat);
        }
        y = x.wrapping_add(n.div_floor(x)).shift_right(1);
    }
    proof {
        lemma_babylonian_step(n@, x@);
    }
    x
}

/// Rounding up never gives less than rounding down, and at most one more.
pub proof fn rounding_brackets_the_quotient(a: int, b: int, denom: int)
    requires
        0 <= a,
        0 <= b,
        denom > 0,
    ensures
        ((a * b) / denom) * denom <= a * b <= ceil_div(a * b, denom) * denom,
        (a * b) / denom <= ceil_div(a * b, denom) <= (a * b) / denom + 1,
{
    let p = a * b;
    lemma_fundamental_div_mod(p, denom);
    assert((p / denom) * denom <= p) by (nonlinear_arith)
        requires
            p == denom * (p / denom) + p % denom,
            p % denom >= 0,
    ;
    if p % denom == 0 {
        assert(p == (p / denom) * denom) by (nonlinear_arith)
            requires
                p == denom * (p / denom) + p % denom,
                p % denom == 0,
        ;
    } else {
        assert(p <= (p / denom + 1) * denom) by (nonlinear_arith)
            requires
                p == denom * (p / denom) + p % denom,
                p % denom < denom,
        ;
    }
}

/// The square root is the only integer that its contract admits.
pub proof fn sqrt_is_unique(r: int, s: int, n: int)
    requires
        is_sqrt(r, n),
        is_sqrt(s, n),
    ensures
        r == s,
{
    if r < s {
        assert((r + 1) * (r + 1) <= s * s) by (nonlinear_arith)
            requires
                0 <= r < s,
        ;
    } else if s < r {
        assert((s + 1) * (s + 1) <= r * r) by (nonlinear_arith)
            requires
                0 <= s < r,
        ;
    }
}

} // verus!
