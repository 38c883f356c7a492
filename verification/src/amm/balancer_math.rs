//! Balancer V2 weighted-pool swap math in integers: natural exponentiation and logarithm,
//! 18-decimal fixed point, and the weighted swap formula, with the contracts' roundings.
//!
//! Signed division truncates toward zero, as it does on chain. No intermediate leaves the
//! signed 256-bit range: the proofs below show it for every input in bounds.
use crate::math::ceil_div;
use crate::types::{lemma_u256_range, quot, quot_rem, two255, two256, I256, U256};
use vstd::arithmetic::div_mod::{lemma_fundamental_div_mod, lemma_small_mod};
use vstd::prelude::*;

verus! {

/// Why a computation was refused.
#[derive(Clone, Copy, Debug, PartialEq, Eq, Structural)]
pub enum MathError {
    /// The base of a power does not fit a signed integer.
    XOutOfBounds,
    /// The exponent of a power is too large.
    YOutOfBounds,
    /// `y * ln(x)` lies outside the natural exponents.
    ProductOutOfBounds,
    /// The natural exponent is out of range.
    InvalidExponent,
    /// The argument of a logarithm is not positive.
    OutOfBounds,
    /// A fixed-point product does not fit.
    MulOverflow,
    /// A fixed-point dividend does not fit once scaled.
    DivInternal,
    /// Division by zero.
    ZeroDivision,
    /// A sum does not fit.
    AddOverflow,
    /// A difference is negative.
    SubOverflow,
    /// The amount in is too large a part of the balance.
    MaxInRatio,
}

/// 10^18.
pub open spec fn one18() -> int {
    1_000_000_000_000_000_000
}

/// 10^20.
pub open spec fn one20() -> int {
    100_000_000_000_000_000_000
}

/// 10^36.
pub open spec fn one36() -> int {
    1_000_000_000_000_000_000_000_000_000_000_000_000
}

/// The largest natural exponent, 18 decimals.
pub open spec fn max_natural_exponent() -> int {
    130_000_000_000_000_000_000
}

/// The smallest natural exponent, 18 decimals.
pub open spec fn min_natural_exponent() -> int {
    -41_000_000_000_000_000_000
}

/// 2^254 / 10^20.
pub open spec fn mild_exponent_bound() -> int {
    289480223093290488558927462521719769633174961664101410098int
}

/// `e^128`, no decimals.
pub open spec fn a_0() -> int {
    38877084059945950922200000000000000000000000000000000000int
}

/// `e^64`, no decimals.
pub open spec fn a_1() -> int {
    6235149080811616882910000000
}

/// `2^(7 - k)`, 20 decimals, for `k` from 2 to 11.
pub open spec fn x_n(k: int) -> int {
    if k == 2 {
        3200000000000000000000
    } else if k == 3 {
        1600000000000000000000
    } else if k == 4 {
        800000000000000000000
    } else if k == 5 {
        400000000000000000000
    } else if k == 6 {
        200000000000000000000
    } else if k == 7 {
        100000000000000000000
    } else if k == 8 {
        50000000000000000000
    } else if k == 9 {
        25000000000000000000
    } else if k == 10 {
        12500000000000000000
    } else {
        6250000000000000000
    }
}

/// `e^(x_n(k))`, 20 decimals.
pub open spec fn a_n(k: int) -> int {
    if k == 2 {
        7896296018268069516100000000000000
    } else if k == 3 {
        888611052050787263676000000
    } else if k == 4 {
        298095798704172827474000
    } else if k == 5 {
        5459815003314423907810
    } else if k == 6 {
        738905609893065022723
    } else if k == 7 {
        271828182845904523536
    } else if k == 8 {
        164872127070012814685
    } else if k == 9 {
        128402541668774148407
    } else if k == 10 {
        113314845306682631683
    } else {
        106449445891785942956
    }
}

/// [`x_n`].
fn xs(k: u32) -> (r: u128)
    requires
        2 <= k <= 11,
    ensures
        r == x_n(k as int),
{
    match k {
        2 => 3200000000000000000000,
        3 => 1600000000000000000000,
        4 => 800000000000000000000,
        5 => 400000000000000000000,
        6 => 200000000000000000000,
        7 => 100000000000000000000,
        8 => 50000000000000000000,
        9 => 25000000000000000000,
        10 => 12500000000000000000,
        _ => 6250000000000000000,
    }
}

/// [`a_n`].
fn a_s(k: u32) -> (r: u128)
    requires
        2 <= k <= 11,
    ensures
        r == a_n(k as int),
{
    match k {
        2 => 7896296018268069516100000000000000,
        3 => 888611052050787263676000000,
        4 => 298095798704172827474000,
        5 => 5459815003314423907810,
        6 => 738905609893065022723,
        7 => 271828182845904523536,
        8 => 164872127070012814685,
        9 => 128402541668774148407,
        10 => 113314845306682631683,
        _ => 106449445891785942956,
    }
}

/// Each factor is at least one and below 10^34.
proof fn lemma_a_n(k: int)
    ensures
        one20() <= a_n(k) < 10_000_000_000_000_000_000_000_000_000_000_000,
        0 < x_n(k) <= 3_200_000_000_000_000_000_000,
{
}

/// Truncating division of a value that is not negative rounds down.
proof fn lemma_quot(a: int, b: int)
    requires
        a >= 0,
        b > 0,
    ensures
        quot(a, b) == a / b,
        0 <= a / b <= a,
{
    assert(0 <= a / b <= a) by (nonlinear_arith)
        requires
            a >= 0,
            b > 0,
    ;
}

/// `a / b` for signed integers that are not negative.
fn div_pos(a: I256, b: I256) -> (r: I256)
    requires
        a@ >= 0,
        b@ > 0,
    ensures
        r@ == a@ / b@,
        0 <= r@ <= a@,
{
    broadcast use lemma_u256_range;

    proof {
        lemma_quot(a@, b@);
    }
    a.over(b)
}

/// 10^20.
fn i_one20() -> (r: I256)
    ensures
        r@ == one20(),
{
    I256::from_u128(100_000_000_000_000_000_000)
}

/// 10^18.
fn i_one18() -> (r: I256)
    ensures
        r@ == one18(),
{
    I256::from_u128(1_000_000_000_000_000_000)
}

/// 10^36.
fn i_one36() -> (r: I256)
    ensures
        r@ == one36(),
{
    I256::from_u128(1_000_000_000_000_000_000_000_000_000_000_000_000)
}

/// [`a_0`].
fn i_a0() -> (r: I256)
    ensures
        r@ == a_0(),
{
    I256 { raw: U256::from_limbs(0x262827000000000, 0xf53a27172fa9ec63, 0x195e54c5dd42177, 0) }
}

/// [`a_1`].
fn i_a1() -> (r: I256)
    ensures
        r@ == a_1(),
{
    I256::from_u128(6235149080811616882910000000)
}

/// [`mild_exponent_bound`].
fn mild_bound() -> (r: U256)
    ensures
        r@ == mild_exponent_bound(),
{
    U256::from_limbs(0x4181ea8059f76532, 0xa88f4bb1ca6bcf58, 0xbce5086492111ae, 0)
}

// ---- e^x ----

/// Take the power of two `x_n(k)` out of the exponent `x` and its factor into the product.
pub open spec fn exp_step(x: int, product: int, k: int) -> (int, int) {
    if x >= x_n(k) {
        (x - x_n(k), (product * a_n(k)) / one20())
    } else {
        (x, product)
    }
}

/// The Taylor series of `e^x` from the `n`-th term on, up to the twelfth: `term` is the term
/// before, `sum` the sum so far.
pub open spec fn exp_series(x: int, n: int, term: int, sum: int) -> int
    decreases 13 - n,
{
    if n > 12 {
        sum
    } else {
        let next = ((term * x) / one20()) / n;
        exp_series(x, n + 1, next, sum + next)
    }
}

/// What is left of the exponent, 20 decimals, and the product of the factors taken out.
pub open spec fn exp_decomposed(x1: int) -> (int, int) {
    let p1 = one20();
    let (x2, p2) = exp_step(x1, p1, 2);
    let (x3, p3) = exp_step(x2, p2, 3);
    let (x4, p4) = exp_step(x3, p3, 4);
    let (x5, p5) = exp_step(x4, p4, 5);
    let (x6, p6) = exp_step(x5, p5, 6);
    let (x7, p7) = exp_step(x6, p6, 7);
    let (x8, p8) = exp_step(x7, p7, 8);
    let (x9, p9) = exp_step(x8, p8, 9);
    (x9, p9)
}

/// `e^x` for `x` from zero to the largest natural exponent, 18 decimals.
pub open spec fn exp_positive(x: int) -> int {
    let (rest, first) = if x >= 128 * one18() {
        (x - 128 * one18(), a_0())
    } else if x >= 64 * one18() {
        (x - 64 * one18(), a_1())
    } else {
        (x, 1)
    };
    let (tail, product) = exp_decomposed(rest * 100);
    (((product * exp_series(tail, 2, tail, one20() + tail)) / one20()) * first) / 100
}

/// `e^x`, 18 decimals.
pub open spec fn exp_value(x: int) -> int {
    if x < 0 {
        one36() / exp_positive(-x)
    } else {
        exp_positive(x)
    }
}

/// Whether `x` is a natural exponent in range.
pub open spec fn is_natural_exponent(x: int) -> bool {
    min_natural_exponent() <= x <= max_natural_exponent()
}

/// [`exp_step`].
fn exp_reduce(x: I256, product: I256, k: u32) -> (r: (I256, I256))
    requires
        2 <= k <= 9,
        0 <= x@ < 2 * x_n(k as int),
        one20() <= product@ < 10_000_000_000_000_000_000_000_000_000_000_000_000_000int * one20(),
        product@ * a_n(k as int) < two255(),
    ensures
        (r.0@, r.1@) == exp_step(x@, product@, k as int),
        0 <= r.0@ < x_n(k as int),
        one20() <= r.1@,
{
    let xk = I256::from_u128(xs(k));
    proof {
        lemma_a_n(k as int);
        let (p, a) = (product@, a_n(k as int));
        assert(p * a >= one20() * one20()) by (nonlinear_arith)
            requires
                p >= one20(),
                a >= one20(),
        ;
    }
    if x >= xk {
        (x.minus(xk), div_pos(product.times(I256::from_u128(a_s(k))), i_one20()))
    } else {
        (x, product)
    }
}

/// The Taylor series of `e^x` for an exponent below a quarter.
fn exp_series_sum(x: I256) -> (r: I256)
    requires
        0 <= x@ < 25_000_000_000_000_000_000,
    ensures
        r@ == exp_series(x@, 2, x@, one20() + x@),
        one20() <= r@ <= 160_000_000_000_000_000_000,
{
    let mut sum = i_one20().plus(x);
    let mut term = x;
    let mut n: u32 = 2;
    while n <= 12
        invariant
            2 <= n <= 13,
            0 <= x@ < 25_000_000_000_000_000_000,
            0 <= term@ < 25_000_000_000_000_000_000,
            one20() <= sum@ <= 125_000_000_000_000_000_000 + (n - 2) * 3_125_000_000_000_000_000,
            exp_series(x@, n as int, term@, sum@) == exp_series(x@, 2, x@, one20() + x@),
        decreases 13 - n,
    {
        proof {
            let (t, y) = (term@, x@);
            assert(0 <= t * y <= 625_000_000_000_000_000_000_000_000_000_000_000_000)
                by (nonlinear_arith)
                requires
                    0 <= t < 25_000_000_000_000_000_000,
                    0 <= y < 25_000_000_000_000_000_000,
            ;
            let z = (t * y) / one20();
            assert(z / n as int <= z / 2) by (nonlinear_arith)
                requires
                    z >= 0,
                    n >= 2,
            ;
        }
        term = div_pos(div_pos(term.times(x), i_one20()), I256::from_u128(n as u128));
        sum = sum.plus(term);
        n += 1;
    }
    sum
}

/// `e^x` for an exponent that is not negative.
fn exp_of_positive(x: I256) -> (r: I256)
    requires
        0 <= x@ <= max_natural_exponent(),
    ensures
        r@ == exp_positive(x@),
        one18() <= r@,
{
    let x0 = I256::from_u128(128_000_000_000_000_000_000);
    let x1 = I256::from_u128(64_000_000_000_000_000_000);
    let (rest, first) = if x >= x0 {
        (x.minus(x0), i_a0())
    } else if x >= x1 {
        (x.minus(x1), i_a1())
    } else {
        (x, I256::from_u128(1))
    };
    let x1 = rest.times(I256::from_u128(100));
    let (tail, product) = decompose(x1);
    let series = exp_series_sum(tail);
    let ghost (p, s) = (product@, series@);
    proof {
        assert(one20() * one20() <= p * s <= p * 160_000_000_000_000_000_000)
            by (nonlinear_arith)
            requires
                one20() <= p,
                one20() <= s <= 160_000_000_000_000_000_000,
        ;
    }
    let scaled = div_pos(product.times(series), i_one20());
    let ghost q = scaled@;
    proof {
        assert(one20() <= q && 10 * q <= 16 * p);
        if first@ == a_0() {
            assert(p <= 738905609893065022723);
            assert(q * a_0() < two255());
        } else if first@ == a_1() {
            assert(q * a_1() < two255());
        }
        assert(q * first@ >= one20()) by (nonlinear_arith)
            requires
                q >= one20(),
                first@ >= 1,
        ;
    }
    div_pos(scaled.times(first), I256::from_u128(100))
}

/// [`exp_decomposed`].
fn decompose(x1: I256) -> (r: (I256, I256))
    requires
        0 <= x1@ < 6_400_000_000_000_000_000_000,
    ensures
        (r.0@, r.1@) == exp_decomposed(x1@),
        0 <= r.0@ < 25_000_000_000_000_000_000,
        one20() <= r.1@ <= 485593898670303750249326089141478710917884464781int,
        x1@ <= 200_000_000_000_000_000_000 ==> r.1@ <= 738905609893065022723,
{
    let p1 = i_one20();
        let (x2, p2) = exp_reduce(x1, p1, 2);
        assert(0 <= x2@ < x_n(2) && one20() <= p2@ <= 7896296018268069516100000000000000int);
        let (x3, p3) = exp_reduce(x2, p2, 3);
        assert(0 <= x3@ < x_n(3) && one20() <= p3@ <= 70167359120976317386542812965656684271836int);
        let (x4, p4) = exp_reduce(x3, p3, 4);
        assert(0 <= x4@ < x_n(4) && one20() <= p4@ <= 209165949601299615390442109296360546958270159int);
        let (x5, p5) = exp_reduce(x4, p4, 5);
        assert(0 <= x5@ < x_n(5) && one20() <= p5@ <= 11420073898156842836612956676649479145085902416int);
        let (x6, p6) = exp_reduce(x5, p5, 6);
        assert(0 <= x6@ < x_n(6) && one20() <= p6@ <= 84383566687414544890605642861479893980206797382int);
        let (x7, p7) = exp_reduce(x6, p6, 7);
        assert(0 <= x7@ < x_n(7) && one20() <= p7@ <= 229378315946960987909564032213814069774054870815int);
        let (x8, p8) = exp_reduce(x7, p7, 8);
        assert(0 <= x8@ < x_n(8) && one20() <= p8@ <= 378180908539128987898230655692248765927019707301int);
        let (x9, p9) = exp_reduce(x8, p8, 9);
        assert(0 <= x9@ < x_n(9) && one20() <= p9@ <= 485593898670303750249326089141478710917884464781int);
    (x9, p9)
}

/// Natural exponentiation `e^x` with a signed 18-decimal fixed-point exponent.
pub fn exp(x: I256) -> (r: Result<I256, MathError>)
    ensures
        match r {
            Ok(v) => is_natural_exponent(x@) && v@ == exp_value(x@) && v@ >= 0,
            Err(e) => !is_natural_exponent(x@) && e == MathError::InvalidExponent,
        },
{
    let zero = I256::from_u128(0);
    let min = zero.minus(I256::from_u128(41_000_000_000_000_000_000));
    let max = I256::from_u128(130_000_000_000_000_000_000);
    if !(x >= min && x <= max) {
        return Err(MathError::InvalidExponent);
    }
    if x < zero {
        let pos = exp_of_positive(zero.minus(x));
        return Ok(div_pos(i_one18().times(i_one18()), pos));
    }
    Ok(exp_of_positive(x))
}

// ---- ln ----

/// Take `a_n(k)` out of the argument `a` and its exponent into the sum.
pub open spec fn ln_step(a: int, sum: int, k: int) -> (int, int) {
    if a >= a_n(k) {
        ((a * one20()) / a_n(k), sum + x_n(k))
    } else {
        (a, sum)
    }
}

/// What is left of the argument, 20 decimals, and the sum of the exponents taken out.
pub open spec fn ln_decomposed(a1: int, s1: int) -> (int, int) {
    let (a2, s2) = ln_step(a1, s1, 2);
    let (a3, s3) = ln_step(a2, s2, 3);
    let (a4, s4) = ln_step(a3, s3, 4);
    let (a5, s5) = ln_step(a4, s4, 5);
    let (a6, s6) = ln_step(a5, s5, 6);
    let (a7, s7) = ln_step(a6, s6, 7);
    let (a8, s8) = ln_step(a7, s7, 8);
    let (a9, s9) = ln_step(a8, s8, 9);
    let (a10, s10) = ln_step(a9, s9, 10);
    let (a11, s11) = ln_step(a10, s10, 11);
    (a11, s11)
}

/// The odd terms of the series `z + z^3/3 + z^5/5 + ...` from the divisor `n` up to `last`:
/// `num` is the power of `z` before, `sum` the sum so far.
pub open spec fn ln_series(z_squared: int, unit: int, n: int, last: int, num: int, sum: int) -> int
    decreases last + 2 - n,
{
    if n > last {
        sum
    } else {
        let next = quot(num * z_squared, unit);
        ln_series(z_squared, unit, n + 2, last, next, sum + quot(next, n))
    }
}

/// `ln(a)` for `a` at least one, 18 decimals.
pub open spec fn ln_above_one(a: int) -> int {
    let (b, t) = if a >= a_0() * one18() {
        (a / a_0(), 128 * one18())
    } else {
        (a, 0)
    };
    let (c, u) = if b >= a_1() * one18() {
        (b / a_1(), t + 64 * one18())
    } else {
        (b, t)
    };
    let (d, sum) = ln_decomposed(c * 100, u * 100);
    let z = ((d - one20()) * one20()) / (d + one20());
    let z_squared = (z * z) / one20();
    (sum + ln_series(z_squared, one20(), 3, 11, z, z) * 2) / 100
}

/// `ln(a)` for a positive `a`, 18 decimals.
pub open spec fn ln_wide(a: int) -> int {
    if a < one18() {
        -ln_above_one(one36() / a)
    } else {
        ln_above_one(a)
    }
}

/// `ln(x)` with 36 decimals, for `x` near one.
pub open spec fn ln_near_one(x: int) -> int {
    let y = x * one18();
    let z = quot((y - one36()) * one36(), y + one36());
    let z_squared = quot(z * z, one36());
    ln_series(z_squared, one36(), 3, 15, z, z) * 2
}

/// Whether the high-precision logarithm is used for `x`.
pub open spec fn is_near_one(x: int) -> bool {
    900_000_000_000_000_000 < x < 1_100_000_000_000_000_000
}

/// `ln(a)`, 18 decimals.
pub open spec fn ln_value(a: int) -> int {
    if is_near_one(a) {
        quot(ln_near_one(a), one18())
    } else {
        ln_wide(a)
    }
}

/// [`ln_step`].
fn ln_reduce(a: I256, sum: I256, k: u32) -> (r: (I256, I256))
    requires
        2 <= k <= 11,
        one20() <= a@ < 630_000_000_000_000_000_000_000_000_000_000_000_000_000_000_000int,
        0 <= sum@ < 1_000_000_000_000_000_000_000_000,
    ensures
        (r.0@, r.1@) == ln_step(a@, sum@, k as int),
        one20() <= r.0@ <= a@,
        sum@ <= r.1@ <= sum@ + x_n(k as int),
{
    let an = I256::from_u128(a_s(k));
    proof {
        lemma_a_n(k as int);
    }
    if a >= an {
        proof {
            let (x, d) = (a@, a_n(k as int));
            assert(one20() <= (x * one20()) / d <= x) by (nonlinear_arith)
                requires
                    x >= d,
                    d >= one20(),
            ;
        }
        (div_pos(a.times(i_one20()), an), sum.plus(I256::from_u128(xs(k))))
    } else {
        (a, sum)
    }
}

/// Truncating division moves toward zero.
proof fn lemma_quot_bound(a: int, b: int, bound: int)
    requires
        b > 0,
        -bound * b <= a <= bound * b,
        bound >= 0,
    ensures
        -bound <= quot(a, b) <= bound,
        a >= 0 ==> quot(a, b) >= 0,
{
    let m = if a < 0 {
        -a
    } else {
        a
    };
    assert(-bound * b == -(bound * b)) by (nonlinear_arith);
    assert(0 <= m / b <= bound) by (nonlinear_arith)
        requires
            0 <= m <= bound * b,
            b > 0,
            bound >= 0,
    ;
}

/// [`ln_series`] for values whose size stays within `unit`.
fn ln_series_sum(z: I256, z_squared: I256, unit: I256, last: u32) -> (r: I256)
    requires
        unit@ == one20() || unit@ == one36(),
        -unit@ <= z@ <= unit@,
        0 <= z_squared@ <= unit@,
        3 <= last <= 15,
    ensures
        r@ == ln_series(z_squared@, unit@, 3, last as int, z@, z@),
        last <= 11 ==> -unit@ * 188 <= r@ * 100 <= unit@ * 188,
        -unit@ * 8 <= r@ <= unit@ * 8,
        z@ >= 0 ==> r@ >= 0,
{
    let mut num = z;
    let mut sum = z;
    let mut n: u32 = 3;
    let ghost u = unit@;
    while n <= last
        invariant
            3 <= n <= last + 2,
            n % 2 == 1,
            last <= 15,
            u == unit@,
            u == one20() || u == one36(),
            0 <= z_squared@ <= u,
            -u <= num@ <= u,
            n == 3 ==> -u <= sum@ <= u,
            n == 5 ==> -u * 4 <= sum@ * 3 <= u * 4,
            n == 7 ==> -u * 23 <= sum@ * 15 <= u * 23,
            n == 9 ==> -u * 176 <= sum@ * 105 <= u * 176,
            n == 11 ==> -u * 563 <= sum@ * 315 <= u * 563,
            n == 13 ==> -u * 6508 <= sum@ * 3465 <= u * 6508,
            n == 15 ==> -u * 3 <= sum@ <= u * 3,
            n == 17 ==> -u * 4 <= sum@ <= u * 4,
            z@ >= 0 ==> num@ >= 0 && sum@ >= 0,
            ln_series(z_squared@, u, n as int, last as int, num@, sum@) == ln_series(
                z_squared@,
                u,
                3,
                last as int,
                z@,
                z@,
            ),
        decreases last + 2 - n,
    {
        proof {
            let (a, b) = (num@, z_squared@);
            assert(-u * u <= a * b <= u * u) by (nonlinear_arith)
                requires
                    -u <= a <= u,
                    0 <= b <= u,
            ;
            assert(a >= 0 ==> a * b >= 0) by (nonlinear_arith)
                requires
                    b >= 0,
            ;
            lemma_quot_bound(a * b, u, u);
            assert(u == one20() ==> u * u == one20() * one20());
            assert(u == one36() ==> u * u == one36() * one36());
            let next = quot(a * b, u);
            lemma_quot_odd(next, n as int, u);
            let q = quot(next, n as int);
            if n == 3 {
                assert(-u <= q * 3 <= u);
            } else if n == 5 {
                assert(-u <= q * 5 <= u);
            } else if n == 7 {
                assert(-u <= q * 7 <= u);
            } else if n == 9 {
                assert(-u <= q * 9 <= u);
            } else if n == 11 {
                assert(-u <= q * 11 <= u);
            }
        }
        num = num.times(z_squared).over(unit);
        sum = sum.plus(num.over(I256::from_u128(n as u128)));
        n += 2;
    }
    sum
}

/// A value of size at most `u` divided by `n` has size at most `u / n`.
proof fn lemma_quot_odd(x: int, n: int, u: int)
    requires
        n > 0,
        u >= 0,
        -u <= x <= u,
    ensures
        -u <= quot(x, n) * n <= u,
        -u <= quot(x, n) <= u,
        x >= 0 ==> quot(x, n) >= 0,
{
    let m = if x < 0 {
        -x
    } else {
        x
    };
    lemma_fundamental_div_mod(m, n);
    assert(0 <= (m / n) * n <= m && 0 <= m / n <= m) by (nonlinear_arith)
        requires
            m >= 0,
            n > 0,
            m == n * (m / n) + m % n,
            m % n >= 0,
    ;
    assert((-(m / n)) * n == -((m / n) * n)) by (nonlinear_arith);
}

/// [`ln_decomposed`].
fn ln_decompose(a1: I256, s1: I256) -> (r: (I256, I256))
    requires
        one20() <= a1@ < 630_000_000_000_000_000_000_000_000_000_000_000_000_000_000_000int,
        0 <= s1@ <= 12_800_000_000_000_000_000_000,
    ensures
        (r.0@, r.1@) == ln_decomposed(a1@, s1@),
        one20() <= r.0@ <= a1@,
        0 <= r.1@ <= s1@ + 6_393_750_000_000_000_000_000,
{
    let (a2, s2) = ln_reduce(a1, s1, 2);
    let (a3, s3) = ln_reduce(a2, s2, 3);
    let (a4, s4) = ln_reduce(a3, s3, 4);
    let (a5, s5) = ln_reduce(a4, s4, 5);
    let (a6, s6) = ln_reduce(a5, s5, 6);
    let (a7, s7) = ln_reduce(a6, s6, 7);
    let (a8, s8) = ln_reduce(a7, s7, 8);
    let (a9, s9) = ln_reduce(a8, s8, 9);
    let (a10, s10) = ln_reduce(a9, s9, 10);
    let (a11, s11) = ln_reduce(a10, s10, 11);
    (a11, s11)
}

/// `ln(d)` for an argument in 20 decimals with all powers taken out, added to `sum`.
fn ln_tail(d: I256, sum: I256) -> (r: I256)
    requires
        one20() <= d@ < 630_000_000_000_000_000_000_000_000_000_000_000_000_000_000_000int,
        0 <= sum@ <= 19_193_750_000_000_000_000_000,
    ensures
        ({
            let z = ((d@ - one20()) * one20()) / (d@ + one20());
            r@ == (sum@ + ln_series((z * z) / one20(), one20(), 3, 11, z, z) * 2) / 100
        }),
        0 <= r@ <= 196_000_000_000_000_000_000,
{
    let unit = i_one20();
    let top = d.minus(unit).times(unit);
    let bottom = d.plus(unit);
    proof {
        let (x, y) = (top@, bottom@);
        assert(x / y <= one20()) by (nonlinear_arith)
            requires
                0 <= x <= one20() * y,
                y > 0,
        ;
    }
    let z = div_pos(top, bottom);
    proof {
        let w = z@;
        assert(0 <= w * w <= one20() * one20()) by (nonlinear_arith)
            requires
                0 <= w <= one20(),
        ;
    }
    let z_squared = div_pos(z.times(z), unit);
    let series = ln_series_sum(z, z_squared, unit, 11);
    div_pos(sum.plus(series.times(I256::from_u128(2))), I256::from_u128(100))
}

/// `ln(a)` for an argument that is at least one.
fn ln_of_above_one(a: I256) -> (r: I256)
    requires
        one18() <= a@,
    ensures
        r@ == ln_above_one(a@),
        0 <= r@ <= 196_000_000_000_000_000_000,
{
    broadcast use lemma_u256_range;

    let a0 = i_a0();
    let a1 = i_a1();
    let (b, t) = if a >= a0.times(i_one18()) {
        (div_pos(a, a0), I256::from_u128(128_000_000_000_000_000_000))
    } else {
        (a, I256::from_u128(0))
    };
    assert(one18() <= b@ < a_0() * one18());
    let (c, u) = if b >= a1.times(i_one18()) {
        (div_pos(b, a1), t.plus(I256::from_u128(64_000_000_000_000_000_000)))
    } else {
        (b, t)
    };
    assert(one18() <= c@ <= 6_240_000_000_000_000_000_000_000_000_000_000_000_000_000_000int);
    assert(0 <= u@ <= 128_000_000_000_000_000_000);
    let hundred = I256::from_u128(100);
    let (d, sum) = ln_decompose(c.times(hundred), u.times(hundred));
    ln_tail(d, sum)
}

/// [`ln_wide`].
fn ln_internal(a: I256) -> (r: I256)
    requires
        0 < a@,
    ensures
        r@ == ln_wide(a@),
        -196_000_000_000_000_000_000 <= r@ <= 196_000_000_000_000_000_000,
{
    broadcast use lemma_u256_range;

    if a < i_one18() {
        proof {
            let x = a@;
            assert(one36() / x >= one18()) by (nonlinear_arith)
                requires
                    0 < x < one18(),
                    one36() == one18() * one18(),
            ;
        }
        let inverse = div_pos(i_one18().times(i_one18()), a);
        return I256::from_u128(0).minus(ln_of_above_one(inverse));
    }
    ln_of_above_one(a)
}

/// [`ln_near_one`].
fn ln_36(x: I256) -> (r: I256)
    requires
        is_near_one(x@),
    ensures
        r@ == ln_near_one(x@),
        -16 * one36() <= r@ <= 16 * one36(),
{
    let unit = i_one36();
    let y = x.times(i_one18());
    let top = y.minus(unit).times(unit);
    let bottom = y.plus(unit);
    proof {
        let (a, b) = (top@, bottom@);
        assert(-one36() * b <= a <= one36() * b);
        lemma_quot_bound(a, b, one36());
    }
    let z = top.over(bottom);
    proof {
        let w = z@;
        assert(0 <= w * w <= one36() * one36()) by (nonlinear_arith)
            requires
                -one36() <= w <= one36(),
        ;
        lemma_quot_bound(w * w, one36(), one36());
    }
    let z_squared = z.times(z).over(unit);
    ln_series_sum(z, z_squared, unit, 15).times(I256::from_u128(2))
}

/// Natural logarithm `ln(a)` of a signed 18-decimal fixed-point argument.
pub fn ln(a: I256) -> (r: Result<I256, MathError>)
    ensures
        match r {
            Ok(v) => a@ > 0 && v@ == ln_value(a@),
            Err(e) => a@ <= 0 && e == MathError::OutOfBounds,
        },
{
    if a <= I256::from_u128(0) {
        return Err(MathError::OutOfBounds);
    }
    if I256::from_u128(900_000_000_000_000_000) < a && a < I256::from_u128(
        1_100_000_000_000_000_000,
    ) {
        let precise = ln_36(a);
        proof {
            lemma_quot_bound(precise@, one18(), 16 * one36());
        }
        Ok(precise.over(i_one18()))
    } else {
        Ok(ln_internal(a))
    }
}

// ---- x^y ----

/// `y * ln(x)`, 18 decimals.
pub open spec fn log_times(x: int, y: int) -> int {
    quot(
        if is_near_one(x) {
            let precise = ln_near_one(x);
            quot(precise, one18()) * y + quot(quot_rem(precise, one18()) * y, one18())
        } else {
            ln_wide(x) * y
        },
        one18(),
    )
}

/// `x^y` with unsigned 18-decimal fixed-point base and exponent.
pub open spec fn pow_value(x: int, y: int) -> Result<int, MathError> {
    if y == 0 {
        Ok(one18())
    } else if x == 0 {
        Ok(0)
    } else if x >= two255() {
        Err(MathError::XOutOfBounds)
    } else if y >= mild_exponent_bound() {
        Err(MathError::YOutOfBounds)
    } else if !is_natural_exponent(log_times(x, y)) {
        Err(MathError::ProductOutOfBounds)
    } else {
        Ok(exp_value(log_times(x, y)))
    }
}

/// A result with its number as a mathematical integer.
pub open spec fn math_view(r: Result<U256, MathError>) -> Result<int, MathError> {
    match r {
        Ok(v) => Ok(v@),
        Err(e) => Err(e),
    }
}

/// `x^y` with unsigned 18-decimal fixed-point base and exponent.
pub fn pow(x: U256, y: U256) -> (r: Result<U256, MathError>)
    ensures
        math_view(r) == pow_value(x@, y@),
{
    broadcast use lemma_u256_range;

    if y.is_zero() {
        return Ok(one());
    }
    if x.is_zero() {
        return Ok(U256::zero());
    }
    let x_int = I256::from_u256(x).ok_or(MathError::XOutOfBounds)?;
    if y >= mild_bound() {
        return Err(MathError::YOutOfBounds);
    }
    let y_int = I256::from_u256(y).ok_or(MathError::YOutOfBounds)?;
    let unit = i_one18();
    let ghost w = y@;
    let product = if I256::from_u128(900_000_000_000_000_000) < x_int && x_int < I256::from_u128(
        1_100_000_000_000_000_000,
    ) {
        let precise = ln_36(x_int);
        proof {
            let l = precise@;
            lemma_quot_bound(l, one18(), 16 * one18());
            let (h, m) = (quot(l, one18()), quot_rem(l, one18()));
            assert(-one18() < m < one18());
            assert(-16 * one18() * mild_exponent_bound() <= h * w <= 16 * one18()
                * mild_exponent_bound()) by (nonlinear_arith)
                requires
                    -16 * one18() <= h <= 16 * one18(),
                    0 <= w <= mild_exponent_bound(),
            ;
            assert(-one18() * mild_exponent_bound() <= m * w <= one18() * mild_exponent_bound())
                by (nonlinear_arith)
                requires
                    -one18() <= m <= one18(),
                    0 <= w <= mild_exponent_bound(),
            ;
            lemma_quot_bound(m * w, one18(), mild_exponent_bound());
        }
        precise.over(unit).times(y_int).plus(precise.modulo(unit).times(y_int).over(unit))
    } else {
        let wide = ln_internal(x_int);
        proof {
            let l = wide@;
            assert(-196_000_000_000_000_000_000 * mild_exponent_bound() <= l * w
                <= 196_000_000_000_000_000_000 * mild_exponent_bound()) by (nonlinear_arith)
                requires
                    -196_000_000_000_000_000_000 <= l <= 196_000_000_000_000_000_000,
                    0 <= w <= mild_exponent_bound(),
            ;
        }
        wide.times(y_int)
    };
    proof {
        lemma_quot_bound(product@, one18(), two255() / 2);
    }
    let exponent = product.over(unit);
    match exp(exponent) {
        Ok(v) => Ok(v.raw),
        Err(_) => Err(MathError::ProductOutOfBounds),
    }
}

// ---- fixed point ----

/// `a` when it fits, the error otherwise.
pub open spec fn fits_or(a: int, e: MathError) -> Result<int, MathError> {
    if 0 <= a < two256() {
        Ok(a)
    } else {
        Err(e)
    }
}

/// One, 18 decimals.
pub fn one() -> (r: U256)
    ensures
        r@ == one18(),
{
    U256::from_u64(1_000_000_000_000_000_000)
}

/// `a + b`.
pub fn add(a: U256, b: U256) -> (r: Result<U256, MathError>)
    ensures
        math_view(r) == fits_or(a@ + b@, MathError::AddOverflow),
{
    broadcast use lemma_u256_range;

    a.checked_add(b).ok_or(MathError::AddOverflow)
}

/// `a - b`.
pub fn sub(a: U256, b: U256) -> (r: Result<U256, MathError>)
    ensures
        math_view(r) == fits_or(a@ - b@, MathError::SubOverflow),
{
    broadcast use lemma_u256_range;

    a.checked_sub(b).ok_or(MathError::SubOverflow)
}

/// `a * b`, 18 decimals, rounded down.
pub open spec fn mul_down_value(a: int, b: int) -> Result<int, MathError> {
    if a * b >= two256() {
        Err(MathError::MulOverflow)
    } else {
        Ok((a * b) / one18())
    }
}

/// `a * b`, 18 decimals, rounded up.
pub open spec fn mul_up_value(a: int, b: int) -> Result<int, MathError> {
    if a * b >= two256() {
        Err(MathError::MulOverflow)
    } else {
        Ok(ceil_div(a * b, one18()))
    }
}

/// `a / b`, 18 decimals, rounded down.
pub open spec fn div_down_value(a: int, b: int) -> Result<int, MathError> {
    if b == 0 {
        Err(MathError::ZeroDivision)
    } else if a * one18() >= two256() {
        Err(MathError::DivInternal)
    } else {
        Ok((a * one18()) / b)
    }
}

/// `a / b`, 18 decimals, rounded up.
pub open spec fn div_up_value(a: int, b: int) -> Result<int, MathError> {
    if b == 0 {
        Err(MathError::ZeroDivision)
    } else if a * one18() >= two256() {
        Err(MathError::DivInternal)
    } else {
        Ok(ceil_div(a * one18(), b))
    }
}

/// `(n - 1) / d + 1` is the quotient rounded up.
fn up_quotient(n: U256, d: U256) -> (r: U256)
    requires
        n@ > 0,
        d@ > 0,
    ensures
        r@ == ceil_div(n@, d@),
{
    broadcast use lemma_u256_range;

    proof {
        let (x, y) = (n@, d@);
        lemma_small_mod((x - 1) as nat, two256() as nat);
        lemma_fundamental_div_mod(x, y);
        let (q, m) = (x / y, x % y);
        if m == 0 {
            assert(x - 1 == y * (q - 1) + (y - 1)) by (nonlinear_arith)
                requires
                    x == y * q,
            ;
            vstd::arithmetic::div_mod::lemma_fundamental_div_mod_converse(x - 1, y, q - 1, y - 1);
        } else {
            vstd::arithmetic::div_mod::lemma_fundamental_div_mod_converse(x - 1, y, q, m - 1);
        }
        assert((x - 1) / y <= x - 1) by (nonlinear_arith)
            requires
                x >= 1,
                y >= 1,
        ;
        assert((x - 1) / y >= 0) by (nonlinear_arith)
            requires
                x >= 1,
                y >= 1,
        ;
        lemma_small_mod(((x - 1) / y + 1) as nat, two256() as nat);
    }
    n.wrapping_sub(U256::one()).div_floor(d).wrapping_add(U256::one())
}

/// `a * b` rounding down.
pub fn mul_down(a: U256, b: U256) -> (r: Result<U256, MathError>)
    ensures
        math_view(r) == mul_down_value(a@, b@),
{
    broadcast use lemma_u256_range;

    let product = a.checked_mul(b).ok_or(MathError::MulOverflow)?;
    Ok(product.div_floor(one()))
}

/// `a * b` rounding up.
pub fn mul_up(a: U256, b: U256) -> (r: Result<U256, MathError>)
    ensures
        math_view(r) == mul_up_value(a@, b@),
{
    broadcast use lemma_u256_range;

    let product = a.checked_mul(b).ok_or(MathError::MulOverflow)?;
    if product.is_zero() {
        Ok(U256::zero())
    } else {
        Ok(up_quotient(product, one()))
    }
}

/// `a / b` rounding down.
pub fn div_down(a: U256, b: U256) -> (r: Result<U256, MathError>)
    ensures
        math_view(r) == div_down_value(a@, b@),
{
    broadcast use lemma_u256_range;

    if b.is_zero() {
        return Err(MathError::ZeroDivision);
    }
    let a_inflated = a.checked_mul(one()).ok_or(MathError::DivInternal)?;
    Ok(a_inflated.div_floor(b))
}

/// `a / b` rounding up.
pub fn div_up(a: U256, b: U256) -> (r: Result<U256, MathError>)
    ensures
        math_view(r) == div_up_value(a@, b@),
{
    broadcast use lemma_u256_range;

    if b.is_zero() {
        return Err(MathError::ZeroDivision);
    }
    let a_inflated = a.checked_mul(one()).ok_or(MathError::DivInternal)?;
    if a_inflated.is_zero() {
        proof {
            let d = b@;
            assert(0int / d == 0 && 0int % d == 0) by (nonlinear_arith)
                requires
                    d > 0,
            ;
        }
        Ok(U256::zero())
    } else {
        Ok(up_quotient(a_inflated, b))
    }
}

/// The most that a power may be off by: its 10^-14th part, and one unit.
pub open spec fn pow_error(raw: int) -> Result<int, MathError> {
    match mul_up_value(raw, 10_000) {
        Err(e) => Err(e),
        Ok(relative) => fits_or(relative + 1, MathError::AddOverflow),
    }
}

/// `x^y` rounded down.
pub open spec fn pow_down_value(x: int, y: int) -> Result<int, MathError> {
    if y == one18() {
        Ok(x)
    } else if y == 2 * one18() {
        mul_down_value(x, x)
    } else if y == 4 * one18() {
        match mul_down_value(x, x) {
            Err(e) => Err(e),
            Ok(square) => mul_down_value(square, square),
        }
    } else {
        match pow_value(x, y) {
            Err(e) => Err(e),
            Ok(raw) => match pow_error(raw) {
                Err(e) => Err(e),
                Ok(error) => Ok(if raw < error {
                    0
                } else {
                    raw - error
                }),
            },
        }
    }
}

/// `x^y` rounded up.
pub open spec fn pow_up_value(x: int, y: int) -> Result<int, MathError> {
    if y == one18() {
        Ok(x)
    } else if y == 2 * one18() {
        mul_up_value(x, x)
    } else if y == 4 * one18() {
        match mul_up_value(x, x) {
            Err(e) => Err(e),
            Ok(square) => mul_up_value(square, square),
        }
    } else {
        match pow_value(x, y) {
            Err(e) => Err(e),
            Ok(raw) => match pow_error(raw) {
                Err(e) => Err(e),
                Ok(error) => fits_or(raw + error, MathError::AddOverflow),
            },
        }
    }
}

/// `x^y` rounding down: never more than the true power, as
/// [`rounded_powers_bracket_the_true_power`](crate::amm::balancer_accuracy::rounded_powers_bracket_the_true_power)
/// states.
pub fn pow_down(x: U256, y: U256) -> (r: Result<U256, MathError>)
    ensures
        math_view(r) == pow_down_value(x@, y@),
{
    broadcast use lemma_u256_range;

    if y.equals(&one()) {
        Ok(x)
    } else if y.equals(&U256::from_u64(2_000_000_000_000_000_000)) {
        mul_down(x, x)
    } else if y.equals(&U256::from_u64(4_000_000_000_000_000_000)) {
        let square = mul_down(x, x)?;
        mul_down(square, square)
    } else {
        let raw = pow(x, y)?;
        let max_error = self::add(mul_up(raw, U256::from_u64(10_000))?, U256::one())?;
        if raw < max_error {
            Ok(U256::zero())
        } else {
            self::sub(raw, max_error)
        }
    }
}

/// `x^y` rounding up: never less than the true power, as
/// [`rounded_powers_bracket_the_true_power`](crate::amm::balancer_accuracy::rounded_powers_bracket_the_true_power)
/// states.
pub fn pow_up(x: U256, y: U256) -> (r: Result<U256, MathError>)
    ensures
        math_view(r) == pow_up_value(x@, y@),
{
    broadcast use lemma_u256_range;

    if y.equals(&one()) {
        Ok(x)
    } else if y.equals(&U256::from_u64(2_000_000_000_000_000_000)) {
        mul_up(x, x)
    } else if y.equals(&U256::from_u64(4_000_000_000_000_000_000)) {
        let square = mul_up(x, x)?;
        mul_up(square, square)
    } else {
        let raw = pow(x, y)?;
        let max_error = self::add(mul_up(raw, U256::from_u64(10_000))?, U256::one())?;
        self::add(raw, max_error)
    }
}

/// `1 - x`, zero where `x` exceeds one.
pub open spec fn complement_value(x: int) -> int {
    if x < one18() {
        one18() - x
    } else {
        0
    }
}

/// `1 - x`, capped at zero.
pub fn complement(x: U256) -> (r: U256)
    ensures
        r@ == complement_value(x@),
{
    broadcast use lemma_u256_range;

    if x < one() {
        proof {
            lemma_small_mod((one18() - x@) as nat, two256() as nat);
        }
        one().wrapping_sub(x)
    } else {
        U256::zero()
    }
}

// ---- the weighted swap ----

/// `balance_out * (1 - (balance_in / (balance_in + amount_in)) ^ (weight_in / weight_out))`,
/// every step rounded against the trader.
pub open spec fn weighted_out(
    balance_in: int,
    weight_in: int,
    balance_out: int,
    weight_out: int,
    amount_in: int,
) -> Result<int, MathError> {
    match mul_down_value(balance_in, 300_000_000_000_000_000) {
        Err(e) => Err(e),
        Ok(most) => if amount_in > most {
            Err(MathError::MaxInRatio)
        } else if balance_in + amount_in >= two256() {
            Err(MathError::AddOverflow)
        } else {
            match div_up_value(balance_in, balance_in + amount_in) {
                Err(e) => Err(e),
                Ok(base) => match div_down_value(weight_in, weight_out) {
                    Err(e) => Err(e),
                    Ok(exponent) => match pow_up_value(base, exponent) {
                        Err(e) => Err(e),
                        Ok(power) => mul_down_value(balance_out, complement_value(power)),
                    },
                },
            }
        },
    }
}

/// Tokens out for `amount_in` tokens in; all inputs are 18-decimal upscaled.
pub fn calc_out_given_in(
    balance_in: U256,
    weight_in: U256,
    balance_out: U256,
    weight_out: U256,
    amount_in: U256,
) -> (r: Result<U256, MathError>)
    ensures
        math_view(r) == weighted_out(
            balance_in@,
            weight_in@,
            balance_out@,
            weight_out@,
            amount_in@,
        ),
{
    broadcast use lemma_u256_range;

    if amount_in > mul_down(balance_in, U256::from_u64(300_000_000_000_000_000))? {
        return Err(MathError::MaxInRatio);
    }
    let denominator = self::add(balance_in, amount_in)?;
    let base = div_up(balance_in, denominator)?;
    let exponent = div_down(weight_in, weight_out)?;
    let power = pow_up(base, exponent)?;
    mul_down(balance_out, complement(power))
}

// ---- laws ----

/// Rounding down never gives more than rounding up.
pub proof fn rounding_directions_bracket(a: int, b: int)
    requires
        0 <= a,
        0 <= b,
    ensures
        match (mul_down_value(a, b), mul_up_value(a, b)) {
            (Ok(down), Ok(up)) => down * one18() <= a * b <= up * one18() && down <= up <= down + 1,
            (Err(x), Err(y)) => x == y,
            _ => false,
        },
        match (div_down_value(a, b), div_up_value(a, b)) {
            (Ok(down), Ok(up)) => down * b <= a * one18() <= up * b && down <= up <= down + 1,
            (Err(x), Err(y)) => x == y,
            _ => false,
        },
{
    crate::math::rounding_brackets_the_quotient(a, b, one18());
    if b > 0 {
        crate::math::rounding_brackets_the_quotient(a, one18(), b);
    }
}

/// A step of the exponent keeps the product at one or more.
proof fn lemma_exp_step(x: int, product: int, k: int)
    requires
        x >= 0,
        product >= one20(),
    ensures
        exp_step(x, product, k).0 >= 0,
        exp_step(x, product, k).1 >= one20(),
{
    lemma_a_n(k);
    let a = a_n(k);
    assert(product * a >= one20() * one20()) by (nonlinear_arith)
        requires
            product >= one20(),
            a >= one20(),
    ;
}

/// The series adds terms that are not negative.
proof fn lemma_exp_series(x: int, n: int, term: int, sum: int)
    requires
        x >= 0,
        term >= 0,
        n >= 2,
    ensures
        exp_series(x, n, term, sum) >= sum,
    decreases 13 - n,
{
    if n <= 12 {
        let next = ((term * x) / one20()) / n;
        assert(next >= 0) by (nonlinear_arith)
            requires
                term >= 0,
                x >= 0,
                n >= 2,
                next == ((term * x) / one20()) / n,
        ;
        lemma_exp_series(x, n + 1, next, sum + next);
    }
}

/// `e^x` is at least one for an exponent that is not negative.
pub proof fn exp_is_at_least_one(x: int)
    requires
        0 <= x,
    ensures
        exp_positive(x) >= one18(),
{
    let (rest, first) = if x >= 128 * one18() {
        (x - 128 * one18(), a_0())
    } else if x >= 64 * one18() {
        (x - 64 * one18(), a_1())
    } else {
        (x, 1int)
    };
    let x1 = rest * 100;
    let p1 = one20();
    let (x2, p2) = exp_step(x1, p1, 2);
    lemma_exp_step(x1, p1, 2);
    let (x3, p3) = exp_step(x2, p2, 3);
    lemma_exp_step(x2, p2, 3);
    let (x4, p4) = exp_step(x3, p3, 4);
    lemma_exp_step(x3, p3, 4);
    let (x5, p5) = exp_step(x4, p4, 5);
    lemma_exp_step(x4, p4, 5);
    let (x6, p6) = exp_step(x5, p5, 6);
    lemma_exp_step(x5, p5, 6);
    let (x7, p7) = exp_step(x6, p6, 7);
    lemma_exp_step(x6, p6, 7);
    let (x8, p8) = exp_step(x7, p7, 8);
    lemma_exp_step(x7, p7, 8);
    let (x9, p9) = exp_step(x8, p8, 9);
    lemma_exp_step(x8, p8, 9);
    lemma_exp_series(x9, 2, x9, one20() + x9);
    let series = exp_series(x9, 2, x9, one20() + x9);
    assert(p9 * series >= one20() * one20()) by (nonlinear_arith)
        requires
            p9 >= one20(),
            series >= one20(),
    ;
    let scaled = (p9 * series) / one20();
    assert(scaled * first >= one20()) by (nonlinear_arith)
        requires
            scaled >= one20(),
            first >= 1,
    ;
}

/// A power is never negative.
pub proof fn pow_is_not_negative(x: int, y: int)
    requires
        0 <= x,
        0 <= y,
    ensures
        pow_value(x, y) matches Ok(v) ==> v >= 0,
{
    let e = log_times(x, y);
    if e < 0 {
        exp_is_at_least_one(-e);
        let d = exp_positive(-e);
        assert(one36() / d >= 0) by (nonlinear_arith)
            requires
                d > 0,
        ;
    } else {
        exp_is_at_least_one(e);
    }
}

/// Away from the exact exponents, the rounded powers bracket the raw power.
pub proof fn rounded_powers_bracket_raw(x: int, y: int)
    requires
        0 <= x,
        0 <= y,
        y != one18(),
        y != 2 * one18(),
        y != 4 * one18(),
    ensures
        match (pow_down_value(x, y), pow_value(x, y), pow_up_value(x, y)) {
            (Ok(down), Ok(raw), Ok(up)) => 0 <= down <= raw < up,
            (Ok(down), Ok(raw), Err(_)) => 0 <= down <= raw,
            (Err(_), Ok(_), Ok(_)) => false,
            (Err(a), Ok(_), Err(b)) => a == b,
            (Err(a), Err(e), Err(b)) => a == e && e == b,
            _ => false,
        },
{
    pow_is_not_negative(x, y);
    if let Ok(raw) = pow_value(x, y) {
        assert(raw * 10_000 >= 0);
    }
}

/// With an exponent of one, two or four, the rounded powers bracket the true power, the `k`-th
/// power of `x / 10^18`: in units of `10^-18` the power is `x^k / 10^(18(k - 1))`. With an
/// exponent of one both are the base.
pub proof fn exact_powers_bracket_the_true_power(x: int)
    requires
        0 <= x,
    ensures
        pow_down_value(x, one18()) == Ok::<int, MathError>(x),
        pow_up_value(x, one18()) == Ok::<int, MathError>(x),
        pow_down_value(x, 2 * one18()) matches Ok(down) ==> down * one18() <= x * x,
        pow_up_value(x, 2 * one18()) matches Ok(up) ==> x * x <= up * one18(),
        pow_down_value(x, 4 * one18()) matches Ok(down) ==> down * (one18() * one18() * one18()) <= x
            * x * x * x,
        pow_up_value(x, 4 * one18()) matches Ok(up) ==> x * x * x * x <= up * (one18() * one18()
            * one18()),
{
    lemma_square_brackets(x);
    if let Ok(s) = mul_down_value(x, x) {
        lemma_square_brackets(s);
        if let Ok(down) = mul_down_value(s, s) {
            assert(down * (one18() * one18() * one18()) <= x * x * x * x) by (nonlinear_arith)
                requires
                    down * one18() <= s * s,
                    0 <= s * one18() <= x * x,
                    one18() > 0,
            {
                let (u, xx) = (one18(), x * x);
                assert(down * (u * u * u) == (down * u) * (u * u));
                assert((down * u) * (u * u) <= (s * s) * (u * u));
                assert((s * s) * (u * u) == (s * u) * (s * u));
                assert((s * u) * (s * u) <= xx * xx);
                assert(xx * xx == x * x * x * x);
            }
        }
    }
    if let Ok(s) = mul_up_value(x, x) {
        lemma_square_brackets(s);
        if let Ok(up) = mul_up_value(s, s) {
            assert(x * x * x * x <= up * (one18() * one18() * one18())) by (nonlinear_arith)
                requires
                    s * s <= up * one18(),
                    0 <= x * x <= s * one18(),
                    one18() > 0,
            {
                let (u, xx) = (one18(), x * x);
                assert(up * (u * u * u) == (up * u) * (u * u));
                assert((s * s) * (u * u) <= (up * u) * (u * u));
                assert((s * s) * (u * u) == (s * u) * (s * u));
                assert(xx * xx <= (s * u) * (s * u));
                assert(xx * xx == x * x * x * x);
            }
        }
    }
}

/// A rounded square brackets the square.
proof fn lemma_square_brackets(x: int)
    requires
        0 <= x,
    ensures
        mul_down_value(x, x) matches Ok(down) ==> 0 <= down && down * one18() <= x * x,
        mul_up_value(x, x) matches Ok(up) ==> 0 <= up && x * x <= up * one18(),
{
    let p = x * x;
    assert(p >= 0) by (nonlinear_arith)
        requires
            p == x * x,
    ;
}

/// A weighted swap never pays out more than the balance.
pub proof fn weighted_out_is_covered(
    balance_in: int,
    weight_in: int,
    balance_out: int,
    weight_out: int,
    amount_in: int,
)
    requires
        0 <= balance_in,
        0 <= balance_out,
        0 <= amount_in,
    ensures
        weighted_out(balance_in, weight_in, balance_out, weight_out, amount_in) matches Ok(out)
            ==> 0 <= out <= balance_out,
{
    let total = balance_in + amount_in;
    if let Ok(base) = div_up_value(balance_in, total) {
        assert((balance_in * one18()) / total >= 0) by (nonlinear_arith)
            requires
                balance_in >= 0,
                total > 0,
        ;
        if let Ok(exponent) = div_down_value(weight_in, weight_out) {
            if let Ok(power) = pow_up_value(base, exponent) {
                lemma_square(base);
                if let Ok(square) = mul_up_value(base, base) {
                    lemma_square(square);
                }
                let c = complement_value(power);
                assert(power >= 0);
                assert(0 <= balance_out * c <= balance_out * one18()) by (nonlinear_arith)
                    requires
                        0 <= c <= one18(),
                        0 <= balance_out,
                ;
            }
        }
    }
}

/// A square is not negative.
proof fn lemma_square(x: int)
    ensures
        x * x >= 0,
{
    assert(x * x >= 0) by (nonlinear_arith);
}

} // verus!
