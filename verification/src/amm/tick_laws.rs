//! Laws of the prices of ticks: a price is the root of a power of 1.0001.
use crate::amm::balancer_accuracy::lemma_cast_mul;
use crate::amm::real_powers::{
    lemma_rpow_add, lemma_rpow_mul, lemma_rpow_positive, lemma_scaled, lemma_unscaled, rpow,
};
use crate::amm::tick_math::{
    inverse_ratio, lemma_chain_order, lemma_step, ratio_chain, ratio_step, sqrt_ratio,
    sqrt_ratio_is_bounded, tick_factor, MAX_TICK, MIN_TICK,
};
use crate::math::{is_ceil, lemma_is_ceil, lemma_is_floor};
use crate::types::{two128, two256};
use vstd::arithmetic::power2::{lemma_pow2_pos, lemma_pow2_unfold, pow2};
use vstd::prelude::*;

verus! {

/// What a tick multiplies a price by, 1.0001, and its inverse.
pub open spec fn tick_base() -> real {
    10_001real / 10_000real
}

/// The inverse of what a tick multiplies a price by.
pub open spec fn tick_base_inverse() -> real {
    10_000real / 10_001real
}

/// The square of `r`, with 256 binary places, is `value` up to `e` parts in 2^128.
pub open spec fn is_root(r: int, value: real, e: int) -> bool {
    let (t, c) = (two128() as real, two256() as real);
    let s = (r as real) * (r as real);
    &&& (value * c) * (t - e as real) <= s * t
    &&& s * t <= (value * c) * (t + e as real)
}

/// Bounds of two numbers bound their product from above.
proof fn lemma_product_above(s: real, u: real, a: real, b: real, e: real, h: real, t: real)
    requires
        0real <= s,
        0real <= u,
        0real <= a,
        0real <= b,
        0real <= e <= t,
        0real <= h,
        t > 0real,
        s * t <= a * (t + e),
        u * t <= b * (t + h),
    ensures
        (s * u) * t <= (a * b) * (t + e + 2real * h),
{
    let (x, y) = (t + e, t + h);
    let z = t + e + 2real * h;
    lemma_scaled(0real, s, t);
    lemma_scaled(0real, u, t);
    lemma_scaled(0real, b, y);
    lemma_scaled(s * t, a * x, u * t);
    lemma_scaled(0real, a, x);
    lemma_scaled(u * t, b * y, a * x);
    assert((s * t) * (u * t) == ((s * u) * t) * t) by (nonlinear_arith);
    assert((a * x) * (b * y) == (a * b) * (x * y)) by (nonlinear_arith);
    lemma_scaled(e, t, h);
    assert(x * y == t * t + t * h + e * t + e * h) by (nonlinear_arith)
        requires
            x == t + e,
            y == t + h,
    ;
    assert(t * z == t * t + t * e + 2real * (t * h)) by (nonlinear_arith)
        requires
            z == t + e + 2real * h,
    ;
    assert(e * t == t * e) by (nonlinear_arith);
    assert(x * y <= t * z);
    lemma_scaled(0real, a, b);
    lemma_scaled(x * y, t * z, a * b);
    assert((a * b) * (t * z) == ((a * b) * z) * t) by (nonlinear_arith);
    lemma_unscaled((s * u) * t, (a * b) * z, t);
}

/// And from below.
proof fn lemma_product_below(s: real, u: real, a: real, b: real, e: real, h: real, t: real)
    requires
        0real <= s,
        0real <= u,
        0real <= a,
        0real <= b,
        0real <= e <= t,
        0real <= h <= t,
        t > 0real,
        s * t >= a * (t - e),
        u * t >= b * (t - h),
    ensures
        (s * u) * t >= (a * b) * (t - e - h),
{
    let (x, y) = (t - e, t - h);
    let z = t - e - h;
    lemma_scaled(0real, u, t);
    lemma_scaled(0real, a, x);
    lemma_scaled(a * x, s * t, u * t);
    lemma_scaled(b * y, u * t, a * x);
    assert((s * t) * (u * t) == ((s * u) * t) * t) by (nonlinear_arith);
    assert((a * x) * (b * y) == (a * b) * (x * y)) by (nonlinear_arith);
    lemma_scaled(0real, e, h);
    assert(x * y == t * z + e * h) by (nonlinear_arith)
        requires
            x == t - e,
            y == t - h,
            z == t - e - h,
    ;
    assert(0real * h == 0real);
    assert(x * y >= t * z);
    lemma_scaled(0real, a, b);
    assert(0real * b == 0real);
    lemma_scaled(t * z, x * y, a * b);
    assert((a * b) * (t * z) == ((a * b) * z) * t) by (nonlinear_arith);
    lemma_unscaled((a * b) * z, (s * u) * t, t);
}

/// A rounded product from above, in real numbers.
proof fn lemma_rounded_above(q: real, x: real, a: real, b: real, t: real, g: real)
    requires
        0real <= q,
        0real <= x,
        t > 0real,
        q * t <= x,
        (x * x) * t <= ((a * (t * t)) * (b * (t * t))) * g,
    ensures
        (q * q) * t <= ((a * b) * (t * t)) * g,
{
    let c = t * t;
    lemma_scaled(0real, t, q);
    lemma_scaled(q * t, x, q * t);
    lemma_scaled(q * t, x, x);
    assert((q * t) * (q * t) == (q * q) * c) by (nonlinear_arith)
        requires
            c == t * t,
    ;
    assert((q * q) * c <= x * x);
    lemma_scaled((q * q) * c, x * x, t);
    assert(((q * q) * c) * t == ((q * q) * t) * c) by (nonlinear_arith);
    assert(((a * c) * (b * c)) * g == (((a * b) * c) * g) * c) by (nonlinear_arith);
    assert(c > 0real) by (nonlinear_arith)
        requires
            c == t * t,
            t > 0real,
    ;
    lemma_unscaled((q * q) * t, ((a * b) * c) * g, c);
}

/// And from below.
proof fn lemma_rounded_below(q: real, x: real, a: real, b: real, t: real, g: real, d: real)
    requires
        0real <= q,
        0real <= x,
        0real <= a,
        0real <= b,
        t > 0real,
        0real <= d <= g <= t,
        x <= (q + 1real) * t,
        ((q + 1real) * (q + 1real)) * t <= (q * q) * (t + d),
        (x * x) * t >= ((a * (t * t)) * (b * (t * t))) * g,
    ensures
        (q * q) * t >= ((a * b) * (t * t)) * (g - d),
{
    let c = t * t;
    let n = q + 1real;
    lemma_scaled(x, n * t, x);
    lemma_scaled(x, n * t, n * t);
    assert((n * t) * (n * t) == (n * n) * c) by (nonlinear_arith)
        requires
            c == t * t,
    ;
    assert(x * x <= (n * n) * c);
    lemma_scaled(x * x, (n * n) * c, t);
    assert(((n * n) * c) * t == ((n * n) * t) * c) by (nonlinear_arith);
    assert(c > 0real) by (nonlinear_arith)
        requires
            c == t * t,
            t > 0real,
    ;
    lemma_scaled((n * n) * t, (q * q) * (t + d), c);
    assert(((a * c) * (b * c)) * g == (((a * b) * c) * g) * c) by (nonlinear_arith);
    let (m, k) = ((a * b) * c, q * q);
    let p = t + d;
    lemma_unscaled(m * g, k * p, c);
    // Dividing by `t + d` costs `d` parts at most.
    let l = g - d;
    assert(0real <= m) by {
        lemma_scaled(0real, a, b);
        assert(0real * b == 0real);
        lemma_scaled(0real, a * b, c);
        assert(0real * c == 0real);
    }
    lemma_scaled(g, t, d);
    lemma_scaled(0real, d, d);
    assert(0real * d == 0real);
    assert(l * p == g * t + g * d - d * t - d * d) by (nonlinear_arith)
        requires
            l == g - d,
            p == t + d,
    ;
    assert(t * d == d * t) by (nonlinear_arith);
    assert(l * p <= g * t);
    lemma_scaled(l * p, g * t, m);
    lemma_scaled(m * g, k * p, t);
    assert(m * (l * p) == (m * l) * p) by (nonlinear_arith);
    assert(m * (g * t) == (m * g) * t) by (nonlinear_arith);
    assert((k * p) * t == (k * t) * p) by (nonlinear_arith);
    lemma_unscaled(m * l, k * t, p);
}

/// A product of roots that is rounded down is the root of the product.
proof fn lemma_rounded_root(r: int, f: int, v: real, w: real, e: int, h: int)
    requires
        0 <= r,
        0 <= f,
        0real <= v,
        0real <= w,
        0 <= e,
        0 <= h,
        e + 2 * h + 0x8_0000_0000_0000_0000 <= 0x1_0000_0000_0000_0000_0000_0000_0000,
        is_root(r, v, e),
        is_root(f, w, h),
        (r * f) / two128() >= 0x8000_0000_0000_0000,
    ensures
        is_root((r * f) / two128(), v * w, e + 2 * h + 0x8_0000_0000_0000_0000),
{
    let q = (r * f) / two128();
    let (t, c) = (two128() as real, two256() as real);
    let (x, y, z) = (r as real, f as real, q as real);
    let (ee, hh) = (e as real, h as real);
    let d = 0x8_0000_0000_0000_0000real;
    assert(c == t * t) by {
        lemma_cast_mul(two128(), two128());
        assert(two128() * two128() == two256());
    }
    lemma_is_floor(r * f, two128());
    lemma_cast_mul(r, f);
    lemma_cast_mul(q, two128());
    lemma_cast_mul(q + 1, two128());
    assert((q + 1) as real == z + 1real);
    assert(z * t <= x * y <= (z + 1real) * t);
    let (s, u) = (x * x, y * y);
    assert((x * y) * (x * y) == s * u) by (nonlinear_arith)
        requires
            s == x * x,
            u == y * y,
    ;
    assert(0real <= s && 0real <= u && 0real <= x * y) by {
        lemma_scaled(0real, x, x);
        lemma_scaled(0real, y, y);
        lemma_scaled(0real, x, y);
    }
    let (a, b) = (v * c, w * c);
    assert(0real <= a && 0real <= b) by {
        lemma_scaled(0real, v, c);
        lemma_scaled(0real, w, c);
    }
    lemma_product_above(s, u, a, b, ee, hh, t);
    lemma_product_below(s, u, a, b, ee, hh, t);
    let (over, under) = (t + ee + 2real * hh, t - ee - hh);
    lemma_rounded_above(z, x * y, v, w, t, over);
    assert(((z + 1real) * (z + 1real)) * t <= (z * z) * (t + d)) by {
        lemma_scaled(0x8000_0000_0000_0000real, z, z);
        assert((z + 1real) * (z + 1real) == z * z + 2real * z + 1real) by (nonlinear_arith);
        let k = z * z;
        assert(2real * z + 1real <= 3real * z);
        let g = 2real * z + 1real;
        assert((k + g) * t == k * t + g * t) by (nonlinear_arith);
        assert(k * (t + d) == k * t + k * d) by (nonlinear_arith);
        assert(0x8000_0000_0000_0000real * (3real * z) <= 3real * k);
        assert(g * t <= k * d);
    }
    lemma_rounded_below(z, x * y, v, w, t, under, d);
    let m = (v * w) * c;
    assert(0real <= m) by {
        lemma_scaled(0real, v, w);
        lemma_scaled(0real, v * w, c);
    }
    let all = (e + 2 * h + 0x8_0000_0000_0000_0000) as real;
    assert(all == ee + 2real * hh + d);
    lemma_scaled(over, t + all, m);
    lemma_scaled(t - all, under - d, m);
}

/// How far a factor may lie off, in parts of 2^128.
pub open spec fn factor_error(k: int) -> int
    decreases k,
{
    if k <= 0 {
        256
    } else {
        8 * factor_error(k - 1)
    }
}

proof fn lemma_factor_errors()
    ensures
        forall|k: int| 0 <= k < 20 ==> 256 <= #[trigger] factor_error(k) <= 0x2_0000_0000_0000_0000,
{
    assert(factor_error(0) == 256);
    assert(factor_error(1) == 0x800);
    assert(factor_error(2) == 0x4000);
    assert(factor_error(3) == 0x2_0000);
    assert(factor_error(4) == 0x10_0000);
    assert(factor_error(5) == 0x80_0000);
    assert(factor_error(6) == 0x400_0000);
    assert(factor_error(7) == 0x2000_0000);
    assert(factor_error(8) == 0x1_0000_0000);
    assert(factor_error(9) == 0x8_0000_0000);
    assert(factor_error(10) == 0x40_0000_0000);
    assert(factor_error(11) == 0x200_0000_0000);
    assert(factor_error(12) == 0x1000_0000_0000);
    assert(factor_error(13) == 0x8000_0000_0000);
    assert(factor_error(14) == 0x4_0000_0000_0000);
    assert(factor_error(15) == 0x20_0000_0000_0000);
    assert(factor_error(16) == 0x100_0000_0000_0000);
    assert(factor_error(17) == 0x800_0000_0000_0000);
    assert(factor_error(18) == 0x4000_0000_0000_0000);
    assert(factor_error(19) == 0x2_0000_0000_0000_0000);
}

/// Each factor is the square of the one before, up to two units.
proof fn lemma_factor_square(k: int)
    requires
        0 <= k < 19,
    ensures
        -2 * two128() <= tick_factor(k) * tick_factor(k) - tick_factor(k + 1) * two128() <= 2
            * two128(),
        4 * two256() <= factor_error(k) * (tick_factor(k) * tick_factor(k)),
{
    lemma_factor_errors();
    let f = tick_factor(k);
    if k == 18 {
        reveal_with_fuel(factor_error, 20);
        assert(factor_error(18) == 0x4000_0000_0000_0000);
    } else if k == 17 {
        reveal_with_fuel(factor_error, 20);
        assert(factor_error(17) == 0x800_0000_0000_0000);
    } else if k == 16 {
        reveal_with_fuel(factor_error, 20);
        assert(factor_error(16) == 0x100_0000_0000_0000);
    } else {
        assert(4 * two256() <= 256 * (f * f));
        assert(256 * (f * f) <= factor_error(k) * (f * f)) by (nonlinear_arith)
            requires
                256 <= factor_error(k),
        ;
    }
}

proof fn lemma_cast_products(e: int, f: int, g: int, b: int)
    requires
        -2 * b <= f * f - g * b <= 2 * b,
        4 * (b * b) <= e * (f * f),
    ensures
        ({
            let (x, z, h, t) = (f as real, g as real, e as real, b as real);
            &&& (x * x) - 2real * t <= z * t
            &&& z * t <= (x * x) + 2real * t
            &&& 4real * (t * t) <= h * (x * x)
        }),
{
    let (n, m, k) = (f * f, g * b, b * b);
    let l = e * n;
    lemma_cast_mul(f, f);
    lemma_cast_mul(g, b);
    lemma_cast_mul(b, b);
    lemma_cast_mul(e, n);
    let (x, z, h, t) = (f as real, g as real, e as real, b as real);
    assert(n as real == x * x);
    assert(l as real == h * (n as real));
    assert(h * (n as real) == h * (x * x)) by (nonlinear_arith)
        requires
            n as real == x * x,
    ;
    assert(4 * k <= l);
    assert((4 * k) as real == 4real * (k as real));
}

/// The square of what a root stands for, in real numbers.
proof fn lemma_squared(x: real, z: real, v: real, ee: real, t: real)
    requires
        0real < x,
        0real < z,
        0real <= v,
        0real <= ee,
        8real * ee <= t,
        0real < t,
        (x * x) - 2real * t <= z * t,
        z * t <= (x * x) + 2real * t,
        4real * (t * t) <= ee * (x * x),
        (v * (t * t)) * (t - ee) <= (x * x) * t,
        (x * x) * t <= (v * (t * t)) * (t + ee),
    ensures
        ((v * v) * (t * t)) * (t - 8real * ee) <= (z * z) * t,
        (z * z) * t <= ((v * v) * (t * t)) * (t + 8real * ee),
{
    let c = t * t;
    let (s, a, y) = (x * x, v * c, z * t);
    assert(0real <= c) by {
        lemma_scaled(0real, t, t);
    }
    let (over, under, half) = (t + ee, t - ee, ee / 2real);
    // What is off is at most half of the error.
    assert(y * t <= s * (t + half) && y * t >= s * (t - half)) by {
        lemma_scaled(y, s + 2real * t, t);
        lemma_scaled(s - 2real * t, y, t);
        assert((s + 2real * t) * t == s * t + 2real * c) by (nonlinear_arith)
            requires
                c == t * t,
        ;
        assert((s - 2real * t) * t == s * t - 2real * c) by (nonlinear_arith)
            requires
                c == t * t,
        ;
        assert(s * (t + half) == s * t + s * half) by (nonlinear_arith);
        assert(s * (t - half) == s * t - s * half) by (nonlinear_arith);
        assert(2real * (s * half) == ee * s) by (nonlinear_arith)
            requires
                half == ee / 2real,
        ;
    }
    assert(0real <= s && 0real <= a && 0real <= y) by {
        lemma_scaled(0real, x, x);
        lemma_scaled(0real, v, c);
        lemma_scaled(0real, z, t);
    }
    let (o, w) = (t + half, t - half);
    let (top, low) = (t + 2real * ee, t - 2real * ee);
    assert(y * t <= a * top) by {
        lemma_scaled(y * t, s * o, t);
        lemma_scaled(s * t, a * over, o);
        assert((s * o) * t == (s * t) * o) by (nonlinear_arith);
        assert((a * over) * o == a * (over * o)) by (nonlinear_arith);
        assert(over * o == t * t + t * half + ee * t + ee * half) by (nonlinear_arith)
            requires
                over == t + ee,
                o == t + half,
        ;
        assert(top * t == t * t + 2real * (ee * t)) by (nonlinear_arith)
            requires
                top == t + 2real * ee,
        ;
        assert(2real * (t * half) == ee * t) by (nonlinear_arith)
            requires
                half == ee / 2real,
        ;
        lemma_scaled(half, t / 2real, ee);
        assert(ee * (t / 2real) == (ee * t) / 2real) by (nonlinear_arith);
        assert(over * o <= top * t);
        lemma_scaled(over * o, top * t, a);
        assert(a * (top * t) == (a * top) * t) by (nonlinear_arith);
        lemma_unscaled(y * t, a * top, t);
    }
    assert(y * t >= a * low) by {
        lemma_scaled(s * w, y * t, t);
        lemma_scaled(a * under, s * t, w);
        assert((s * w) * t == (s * t) * w) by (nonlinear_arith);
        assert((a * under) * w == a * (under * w)) by (nonlinear_arith);
        assert(under * w == t * t - t * half - ee * t + ee * half) by (nonlinear_arith)
            requires
                under == t - ee,
                w == t - half,
        ;
        assert(low * t == t * t - 2real * (ee * t)) by (nonlinear_arith)
            requires
                low == t - 2real * ee,
        ;
        assert(2real * (t * half) == ee * t) by (nonlinear_arith)
            requires
                half == ee / 2real,
        ;
        lemma_scaled(0real, half, ee);
        lemma_scaled(0real, t, ee);
        assert(low * t <= under * w);
        lemma_scaled(low * t, under * w, a);
        assert(a * (low * t) == (a * low) * t) by (nonlinear_arith);
        lemma_unscaled(a * low, y * t, t);
    }
    lemma_product_above(y, y, a, a, 2real * ee, 2real * ee, t);
    lemma_product_below(y, y, a, a, 2real * ee, 2real * ee, t);
    let n = z * z;
    assert(y * y == n * c) by (nonlinear_arith)
        requires
            y == z * t,
            c == t * t,
            n == z * z,
    ;
    let b = (v * v) * c;
    assert(a * a == b * c) by (nonlinear_arith)
        requires
            a == v * c,
            b == (v * v) * c,
    ;
    assert((n * c) * t == (n * t) * c) by (nonlinear_arith);
    let (p, q) = (t + 6real * ee, t - 4real * ee);
    assert((b * c) * p == (b * p) * c) by (nonlinear_arith);
    assert((b * c) * q == (b * q) * c) by (nonlinear_arith);
    assert(c > 0real) by (nonlinear_arith)
        requires
            c == t * t,
            t > 0real,
    ;
    lemma_unscaled(n * t, b * p, c);
    lemma_unscaled(b * q, n * t, c);
    assert(0real <= b) by {
        lemma_scaled(0real, v, v);
        lemma_scaled(0real, v * v, c);
    }
    lemma_scaled(p, t + 8real * ee, b);
    lemma_scaled(t - 8real * ee, q, b);
}

/// The square of a root with two units off is the root of the square.
proof fn lemma_squared_root(f: int, g: int, v: real, e: int)
    requires
        0 < f,
        0 < g,
        0real <= v,
        0 <= e <= 0x2_0000_0000_0000_0000,
        is_root(f, v, e),
        -2 * two128() <= f * f - g * two128() <= 2 * two128(),
        4 * two256() <= e * (f * f),
    ensures
        is_root(g, v * v, 8 * e),
{
    let t = two128() as real;
    let (x, z, ee) = (f as real, g as real, e as real);
    lemma_cast_mul(two128(), two128());
    assert(two128() * two128() == two256());
    lemma_cast_products(e, f, g, two128());
    lemma_squared(x, z, v, ee, t);
    assert((8 * e) as real == 8real * ee);
}

/// Every factor is a root of a power of the inverse base.
proof fn lemma_factor_root(k: int)
    requires
        0 <= k < 20,
    ensures
        is_root(tick_factor(k), rpow(tick_base_inverse(), pow2(k as nat)), factor_error(k)),
    decreases k,
{
    let p = tick_base_inverse();
    lemma_factor_errors();
    if k == 0 {
        lemma_pow2_first();
        let f = 0xfffcb933bd6fad37aa2d162d1a594001int;
        let (t, c) = (two128() as real, two256() as real);
        lemma_cast_mul(f, f);
        lemma_cast_mul(f * f, two128());
        let s = (f * f) as real;
        assert(rpow(p, 0) == 1real);
        assert(rpow(p, 1) == p * rpow(p, 0));
        assert(p * 1real == p) by (nonlinear_arith);
        assert(10_001real * p == 10_000real);
        let m = p * c;
        assert(10_001real * m == 10_000real * c) by (nonlinear_arith)
            requires
                10_001real * p == 10_000real,
                m == p * c,
        ;
        let (low, top) = (t - 256real, t + 256real);
        assert(10_001real * (m * low) == 10_000real * (c * low)) by (nonlinear_arith)
            requires
                10_001real * m == 10_000real * c,
        ;
        assert(10_001real * (m * top) == 10_000real * (c * top)) by (nonlinear_arith)
            requires
                10_001real * m == 10_000real * c,
        ;
        lemma_cast_mul(two256(), two128() - 256);
        lemma_cast_mul(two256(), two128() + 256);
        let (below, at, above) = (
            10_000 * (two256() * (two128() - 256)),
            10_001 * ((f * f) * two128()),
            10_000 * (two256() * (two128() + 256)),
        );
        assert(below <= at <= above);
        assert(below as real <= at as real <= above as real);
        assert(below as real == 10_000real * (c * low));
        assert(above as real == 10_000real * (c * top));
        assert(at as real == 10_001real * (s * t));
        assert(factor_error(0) as real == 256real);
    } else {
        lemma_factor_root(k - 1);
        lemma_factor_square(k - 1);
        let n = pow2((k - 1) as nat);
        lemma_pow2_unfold(k as nat);
        lemma_rpow_add(p, n, n);
        assert(p > 0real);
        lemma_rpow_positive(p, n);
        lemma_squared_root(tick_factor(k - 1), tick_factor(k), rpow(p, n), factor_error(k - 1));
    }
}

proof fn lemma_pow2_first()
    ensures
        pow2(0) == 1,
{
    vstd::arithmetic::power2::lemma2_to64();
}

/// A root within some error is within any larger one.
proof fn lemma_wider(r: int, v: real, e: int, h: int)
    requires
        is_root(r, v, e),
        e <= h,
        0real <= v,
    ensures
        is_root(r, v, h),
{
    let (t, c) = (two128() as real, two256() as real);
    lemma_scaled(0real, v, c);
    lemma_scaled(t + e as real, t + h as real, v * c);
    lemma_scaled(t - h as real, t - e as real, v * c);
}

/// The chain of products is the root of the power of its tick.
proof fn lemma_chain_root(tick: int, k: int, r: int, n: nat)
    requires
        0 <= k <= 20,
        0 <= tick < pow2((20 - k) as nat),
        0 <= r,
        is_root(r, rpow(tick_base_inverse(), n), k * 0x10_0000_0000_0000_0000),
        ratio_chain(tick, k, r) >= 0x8000_0000_0000_0000,
    ensures
        is_root(
            ratio_chain(tick, k, r),
            rpow(tick_base_inverse(), n + (tick * pow2(k as nat)) as nat),
            0x140_0000_0000_0000_0000,
        ),
    decreases 20 - k,
{
    let p = tick_base_inverse();
    lemma_pow2_first();
    assert(p > 0real);
    lemma_rpow_positive(p, n);
    let own = pow2(k as nat);
    lemma_pow2_pos(k as nat);
    if k == 20 {
        assert(tick * own == 0) by (nonlinear_arith)
            requires
                tick == 0,
        ;
    } else {
        lemma_pow2_unfold((20 - k) as nat);
        lemma_pow2_unfold((k + 1) as nat);
        let half = tick / 2;
        let e = k * 0x10_0000_0000_0000_0000;
        if tick % 2 == 1 {
            let next = ratio_step(r, k);
            lemma_step(r, r, k);
            lemma_chain_order(half, k + 1, next, next);
            lemma_factor_errors();
            lemma_factor_root(k);
            lemma_rpow_positive(p, own);
            lemma_rounded_root(r, tick_factor(k), rpow(p, n), rpow(p, own), e, factor_error(k));
            lemma_rpow_add(p, n, own);
            lemma_rpow_positive(p, n + own);
            lemma_wider(
                next,
                rpow(p, n + own),
                e + 2 * factor_error(k) + 0x8_0000_0000_0000_0000,
                (k + 1) * 0x10_0000_0000_0000_0000,
            );
            lemma_chain_root(half, k + 1, next, n + own);
            assert(own + half * (2 * own) == tick * own) by (nonlinear_arith)
                requires
                    tick == 2 * half + 1,
            ;
        } else {
            lemma_wider(r, rpow(p, n), e, (k + 1) * 0x10_0000_0000_0000_0000);
            lemma_chain_root(half, k + 1, r, n);
            assert(half * (2 * own) == tick * own) by (nonlinear_arith)
                requires
                    tick == 2 * half,
            ;
        }
    }
}

/// Prices go down to the least one, which is far above one.
proof fn lemma_inverse_root(a: int)
    requires
        0 <= a <= MAX_TICK,
    ensures
        0x8000_0000_0000_0000 <= inverse_ratio(a) <= two128(),
        is_root(inverse_ratio(a), rpow(tick_base_inverse(), a as nat), 0x140_0000_0000_0000_0000),
{
    let (t, c) = (two128() as real, two256() as real);
    lemma_pow2_first();
    assert(pow2(20) == 0x10_0000) by {
        vstd::arithmetic::power2::lemma2_to64();
    }
    sqrt_ratio_is_bounded(-a);
    lemma_is_ceil(inverse_ratio(a), 0x1_0000_0000);
    lemma_chain_order(a, 0, two128(), two128());
    lemma_cast_mul(two128(), two128());
    assert(two128() * two128() == two256());
    assert(1real * c == c) by (nonlinear_arith);
    assert(is_root(two128(), rpow(tick_base_inverse(), 0), 0));
    assert(a * pow2(0) == a);
    lemma_chain_root(a, 0, two128(), 0);
}

/// The inverse of a root, in real numbers.
proof fn lemma_inverted(n: real, i: real, v: real, w: real, e: real, t: real, c: real)
    requires
        0real <= n,
        0real < v,
        0real < w,
        v * w == 1real,
        4real <= e,
        2real * e <= t,
        0real < c,
        (v * c) * (t - e) <= i * t,
        i * t <= (v * c) * (t + e),
        n * i <= c * c,
        (n * i) * t >= (c * c) * (t - 4real),
    ensures
        (w * c) * (t - 2real * e) <= n * t,
        n * t <= (w * c) * (t + 2real * e),
{
    let (x, y) = (t - e, t + e);
    let a = v * c;
    lemma_scaled(a * x, i * t, n);
    lemma_scaled(i * t, a * y, n);
    lemma_scaled(n * i, c * c, t);
    assert(n * (i * t) == (n * i) * t) by (nonlinear_arith);
    // Both sides, divided by `v` and by `c`.
    let m = w * c;
    assert((v * c) * w == c * (v * w)) by (nonlinear_arith);
    assert(c * 1real == c);
    assert(a * w == c);
    let (g, h) = (n * x, n * y);
    assert(n * (a * x) == g * a) by (nonlinear_arith)
        requires
            g == n * x,
    ;
    assert(n * (a * y) == h * a) by (nonlinear_arith)
        requires
            h == n * y,
    ;
    assert((g * a) * w == g * (a * w)) by (nonlinear_arith);
    assert((h * a) * w == h * (a * w)) by (nonlinear_arith);
    lemma_scaled(n * (a * x), (c * c) * t, w);
    lemma_scaled((c * c) * (t - 4real), n * (a * y), w);
    let z = t - 4real;
    assert(((c * c) * t) * w == ((w * c) * t) * c) by (nonlinear_arith);
    assert(((c * c) * z) * w == ((w * c) * z) * c) by (nonlinear_arith);
    lemma_unscaled(n * x, m * t, c);
    lemma_unscaled(m * z, n * y, c);
    lemma_scaled(0real, w, c);
    let (low, top) = (t - 2real * e, t + 2real * e);
    assert(n * t <= m * top) by {
        lemma_scaled(n * x, m * t, t);
        lemma_scaled(2real * e, t, e);
        assert(top * x == t * t + t * e - 2real * (e * e)) by (nonlinear_arith)
            requires
                top == t + 2real * e,
                x == t - e,
        ;
        assert((2real * e) * e == 2real * (e * e)) by (nonlinear_arith);
        assert(t * t <= top * x);
        lemma_scaled(t * t, top * x, m);
        assert((n * x) * t == (n * t) * x) by (nonlinear_arith);
        assert((m * t) * t == m * (t * t)) by (nonlinear_arith);
        assert(m * (top * x) == (m * top) * x) by (nonlinear_arith);
        lemma_unscaled(n * t, m * top, x);
    }
    assert(n * t >= m * low) by {
        lemma_scaled(m * z, n * y, t);
        lemma_scaled(4real, e, t);
        lemma_scaled(0real, e, e);
        assert(low * y == t * t - t * e - 2real * (e * e)) by (nonlinear_arith)
            requires
                low == t - 2real * e,
                y == t + e,
        ;
        assert(z * t == t * t - 4real * t) by (nonlinear_arith)
            requires
                z == t - 4real,
        ;
        assert(e * t == t * e) by (nonlinear_arith);
        assert(low * y <= z * t);
        lemma_scaled(low * y, z * t, m);
        assert((n * y) * t == (n * t) * y) by (nonlinear_arith);
        assert((m * z) * t == m * (z * t)) by (nonlinear_arith);
        assert(m * (low * y) == (m * low) * y) by (nonlinear_arith);
        lemma_unscaled(m * low, n * t, y);
    }
}

/// The square of what is almost a square, in real numbers.
proof fn lemma_near(y: real, t: real, c: real)
    requires
        2real <= t,
        c == t * t,
        c - 2real * t <= y,
        y <= c,
        0real <= y,
    ensures
        y * y <= c * c,
        (y * y) * t >= (c * c) * (t - 4real),
{
    lemma_scaled(y, c, y);
    lemma_scaled(y, c, c);
    let l = c - 2real * t;
    assert(l == (t - 2real) * t) by (nonlinear_arith)
        requires
            l == c - 2real * t,
            c == t * t,
    ;
    lemma_scaled(0real, t - 2real, t);
    lemma_scaled(l, y, l);
    lemma_scaled(l, y, y);
    let (k, u) = (c * c, t * c);
    assert(l * l == k - 4real * u + 4real * (t * t)) by (nonlinear_arith)
        requires
            l == c - 2real * t,
            k == c * c,
            u == t * c,
    ;
    let m = k - 4real * u;
    assert(y * y >= m);
    lemma_scaled(m, y * y, t);
    assert(u * t == k) by (nonlinear_arith)
        requires
            u == t * c,
            c == t * t,
            k == c * c,
    ;
    assert(m * t == k * t - 4real * (u * t)) by (nonlinear_arith)
        requires
            m == k - 4real * u,
    ;
    assert(k * (t - 4real) == k * t - 4real * k) by (nonlinear_arith);
}

/// The inverse of a price is the root of the power that goes up.
proof fn lemma_price_root(a: int)
    requires
        0 <= a <= MAX_TICK,
    ensures
        is_root(
            (two256() - 1) / inverse_ratio(a),
            rpow(tick_base(), a as nat),
            0x280_0000_0000_0000_0000,
        ),
{
    let (t, c) = (two128() as real, two256() as real);
    let i = inverse_ratio(a);
    let q = (two256() - 1) / i;
    let e = 0x140_0000_0000_0000_0000real;
    let (v, w) = (rpow(tick_base_inverse(), a as nat), rpow(tick_base(), a as nat));
    lemma_inverse_root(a);
    lemma_is_floor(two256() - 1, i);
    assert(tick_base_inverse() > 0real && tick_base() > 0real);
    lemma_rpow_positive(tick_base_inverse(), a as nat);
    lemma_rpow_positive(tick_base(), a as nat);
    lemma_rpow_mul(tick_base_inverse(), tick_base(), a as nat);
    assert(tick_base_inverse() * tick_base() == 1real);
    lemma_rpow_one(a as nat);
    assert((q + 1) * i == q * i + i) by (nonlinear_arith);
    lemma_cast_mul(q, i);
    assert(q >= 0) by {
        vstd::arithmetic::div_mod::lemma_div_pos_is_pos(two256() - 1, i);
    }
    let (x, z) = (i as real, q as real);
    let y = z * x;
    assert(c - 2real * t <= y <= c);
    assert(c == t * t) by {
        lemma_cast_mul(two128(), two128());
        assert(two128() * two128() == two256());
    }
    let (n, s) = (z * z, x * x);
    assert(n * s == y * y) by (nonlinear_arith)
        requires
            n == z * z,
            s == x * x,
            y == z * x,
    ;
    assert(0real <= n && 0real <= y) by {
        lemma_scaled(0real, z, z);
        lemma_scaled(0real, z, x);
    }
    lemma_near(y, t, c);
    lemma_inverted(n, s, v, w, e, t, c);
}

proof fn lemma_rpow_one(n: nat)
    ensures
        rpow(1real, n) == 1real,
    decreases n,
{
    if n > 0 {
        lemma_rpow_one((n - 1) as nat);
    }
}

/// 1.0001 to the power of a tick.
pub open spec fn tick_price(tick: int) -> real {
    if tick >= 0 {
        rpow(tick_base(), tick as nat)
    } else {
        rpow(tick_base_inverse(), (-tick) as nat)
    }
}

/// The price at a tick is the root of 1.0001 to the power of the tick, with 128 binary places and
/// an error of less than one part in 2^54, rounded up to 96 places.
pub proof fn prices_are_powers_of_the_base(tick: int)
    requires
        MIN_TICK <= tick <= MAX_TICK,
    ensures
        exists|q: int| #[trigger]
            is_ceil(sqrt_ratio(tick), q, 0x1_0000_0000) && is_root(
                q,
                tick_price(tick),
                0x400_0000_0000_0000_0000,
            ),
{
    let q = if tick > 0 {
        (two256() - 1) / inverse_ratio(tick)
    } else {
        inverse_ratio(-tick)
    };
    assert(tick_base_inverse() > 0real && tick_base() > 0real);
    lemma_is_ceil(q, 0x1_0000_0000);
    if tick > 0 {
        lemma_price_root(tick);
        lemma_rpow_positive(tick_base(), tick as nat);
        lemma_wider(
            q,
            tick_price(tick),
            0x280_0000_0000_0000_0000,
            0x400_0000_0000_0000_0000,
        );
    } else {
        lemma_inverse_root(-tick);
        lemma_rpow_positive(tick_base_inverse(), (-tick) as nat);
        assert(rpow(tick_base(), 0) == rpow(tick_base_inverse(), 0));
        lemma_wider(
            q,
            tick_price(tick),
            0x140_0000_0000_0000_0000,
            0x400_0000_0000_0000_0000,
        );
    }
    assert(is_ceil(sqrt_ratio(tick), q, 0x1_0000_0000));
}

} // verus!
