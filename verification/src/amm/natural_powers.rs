//! A natural exponential on a fine lattice, to measure the accuracy of fixed-point powers against.
//!
//! The exponents are the multiples of a grain of `10^-120`. The exponential of `-1` grain is one
//! grain less than one; that of any other multiple is a power of it. So sums of exponents are
//! products of values exactly, and what is said of the values are inequalities between rational
//! numbers.
use crate::amm::real_powers::{
    lemma_quotient, lemma_rpow_add, lemma_rpow_positive, lemma_scaled, rpow,
};
use vstd::arithmetic::mul::lemma_mul_is_distributive_add;
use vstd::prelude::*;

verus! {

/// 10^120, the number of grains in one.
pub open spec fn grains() -> int {
    1_000_000_000_000_000_000_000_000_000_000_000_000_000_000_000_000_000_000_000_000_000_000_000_000_000_000_000_000_000_000_000_000_000_000_000_000_000_000_000_000int
}

/// One grain.
pub open spec fn grain() -> real {
    1real / (grains() as real)
}

/// `k` grains.
pub open spec fn at(k: int) -> real {
    (k as real) * grain()
}

/// The exponential of `k` grains.
pub open spec fn ex(k: int) -> real {
    if k <= 0 {
        rpow(1real - grain(), (-k) as nat)
    } else {
        1real / rpow(1real - grain(), k as nat)
    }
}

/// A grain is small, and there are [`grains`] of them in one.
pub proof fn lemma_grain()
    ensures
        0real < grain() < 1real / 1000real,
        grain() * (grains() as real) == 1real,
        at(0) == 0real,
        at(1) == grain(),
{
    let (n, g) = (grains() as real, grain());
    assert(n > 1000real);
    lemma_quotient(1real, n);
    if g <= 0real {
        lemma_scaled(g, 0real, n);
    }
    if g >= 1real / 1000real {
        lemma_scaled(1real / 1000real, g, n);
    }
    assert(0real * g == 0real && 1real * g == g) by (nonlinear_arith);
}

/// Grains add up.
pub proof fn lemma_at_add(a: int, b: int)
    ensures
        at(a + b) == at(a) + at(b),
        at(a - b) == at(a) - at(b),
        at(-b) == -at(b),
{
    let (x, y, g) = (a as real, b as real, grain());
    assert((a + b) as real == x + y);
    assert((a - b) as real == x - y);
    assert((-b) as real == -y);
    assert((x + y) * g == x * g + y * g) by (nonlinear_arith);
    assert((x - y) * g == x * g - y * g) by (nonlinear_arith);
    assert((-y) * g == -(y * g)) by (nonlinear_arith);
}

/// More grains are more.
pub proof fn lemma_at_mono(a: int, b: int)
    requires
        a <= b,
    ensures
        at(a) <= at(b),
{
    lemma_grain();
    lemma_scaled(a as real, b as real, grain());
}

/// The exponential is positive, and that of the opposite exponent is its inverse.
pub proof fn lemma_ex_inverse(k: int)
    ensures
        ex(k) > 0real,
        ex(k) * ex(-k) == 1real,
        ex(0) == 1real,
{
    lemma_grain();
    let n: nat = if k < 0 {
        (-k) as nat
    } else {
        k as nat
    };
    let p = rpow(1real - grain(), n);
    lemma_rpow_positive(1real - grain(), n);
    let q = 1real / p;
    lemma_quotient(1real, p);
    assert(p * q == q * p) by (nonlinear_arith);
    assert(q > 0real) by (nonlinear_arith)
        requires
            q * p == 1real,
            p > 0real,
    ;
    if k == 0 {
        assert(1real * 1real == 1real);
    }
}

/// Exponentials multiply by adding their exponents.
pub proof fn lemma_ex_add(a: int, b: int)
    ensures
        ex(a + b) == ex(a) * ex(b),
{
    lemma_grain();
    let c = 1real - grain();
    lemma_ex_inverse(a);
    lemma_ex_inverse(b);
    lemma_ex_inverse(a + b);
    if a <= 0 && b <= 0 {
        lemma_rpow_add(c, (-a) as nat, (-b) as nat);
        assert((-a) as nat + (-b) as nat == (-(a + b)) as nat);
    } else if a >= 0 && b >= 0 {
        lemma_rpow_add(c, a as nat, b as nat);
        assert(a as nat + b as nat == (a + b) as nat);
        assert(ex(-(a + b)) == ex(-a) * ex(-b));
        lemma_inverse_product(ex(a + b), ex(a), ex(b), ex(-(a + b)), ex(-a), ex(-b));
    } else if a <= 0 {
        lemma_ex_add_mixed(a, b);
    } else {
        lemma_ex_add_mixed(b, a);
        assert(ex(b) * ex(a) == ex(a) * ex(b)) by (nonlinear_arith);
        assert(a + b == b + a);
    }
}

/// There is one inverse.
proof fn lemma_one_inverse(s: real, w: real, t: real)
    requires
        s * t == 1real,
        w * t == 1real,
    ensures
        s == w,
{
    assert(s * (w * t) == w * (s * t)) by (nonlinear_arith);
    assert(s * 1real == s && w * 1real == w);
}

/// If the inverses multiply, so do the values.
proof fn lemma_inverse_product(s: real, x: real, y: real, s1: real, x1: real, y1: real)
    requires
        s * s1 == 1real,
        x * x1 == 1real,
        y * y1 == 1real,
        s1 == x1 * y1,
    ensures
        s == x * y,
{
    assert((x * y) * (x1 * y1) == (x * x1) * (y * y1)) by (nonlinear_arith);
    assert(1real * 1real == 1real);
    lemma_one_inverse(s, x * y, s1);
}

/// An exponent that is not positive and one that is.
proof fn lemma_ex_add_mixed(a: int, b: int)
    requires
        a <= 0,
        b > 0,
    ensures
        ex(a + b) == ex(a) * ex(b),
{
    lemma_grain();
    let c = 1real - grain();
    lemma_ex_inverse(a);
    lemma_ex_inverse(b);
    lemma_ex_inverse(a + b);
    if a + b <= 0 {
        // c^(-a) = c^(-(a + b)) * c^b.
        lemma_rpow_add(c, (-(a + b)) as nat, b as nat);
        assert((-(a + b)) as nat + b as nat == (-a) as nat);
        let (s, x, y, z) = (ex(a + b), ex(a), ex(b), ex(-b));
        assert(x == s * z);
        assert((s * z) * y == s * (y * z)) by (nonlinear_arith);
        assert(s * 1real == s);
    } else {
        // c^b = c^(a + b) * c^(-a).
        lemma_rpow_add(c, (a + b) as nat, (-a) as nat);
        assert((a + b) as nat + (-a) as nat == b as nat);
        let (s, t, x, y, z) = (ex(a + b), ex(-(a + b)), ex(a), ex(b), ex(-b));
        assert(z == t * x);
        assert((x * y) * t == y * (t * x)) by (nonlinear_arith);
        lemma_one_inverse(s, x * y, t);
    }
}

/// The exponential of `t` is at least `1 + t`.
pub proof fn lemma_ex_lower(k: int)
    ensures
        ex(k) >= 1real + at(k),
{
    lemma_grain();
    lemma_ex_inverse(k);
    if k <= 0 {
        lemma_shrunk(( -k) as nat);
        lemma_at_add(0, -k);
        assert(at(k) == at(0 - (-k)));
    } else {
        lemma_shrunk_inverse(k as nat);
        let (p, e, t) = (rpow(1real - grain(), k as nat), ex(k), at(k));
        assert(e == 1real / p);
        lemma_rpow_positive(1real - grain(), k as nat);
        lemma_quotient(1real, p);
        let u = 1real + t;
        assert(e >= u) by (nonlinear_arith)
            requires
                e * p == 1real,
                p > 0real,
                p * u <= 1real,
        ;
    }
}

/// `n` steps down take off at most `n` grains.
proof fn lemma_shrunk(n: nat)
    ensures
        rpow(1real - grain(), n) >= 1real - at(n as int),
    decreases n,
{
    lemma_grain();
    if n > 0 {
        let m = (n - 1) as nat;
        lemma_shrunk(m);
        lemma_at_add(m as int, 1);
        lemma_at_mono(0, m as int);
        let (g, p, t) = (grain(), rpow(1real - grain(), m), at(m as int));
        lemma_scaled(1real - t, p, 1real - g);
        lemma_scaled(0real, t, g);
        assert((1real - g) * (1real - t) == 1real - (t + g) + g * t) by (nonlinear_arith);
    }
}

/// And leave at most what `n` grains up would make up for.
proof fn lemma_shrunk_inverse(n: nat)
    ensures
        rpow(1real - grain(), n) * (1real + at(n as int)) <= 1real,
    decreases n,
{
    lemma_grain();
    if n > 0 {
        let m = (n - 1) as nat;
        lemma_shrunk_inverse(m);
        lemma_at_add(m as int, 1);
        lemma_at_mono(0, m as int);
        lemma_rpow_positive(1real - grain(), m);
        let (g, p, t) = (grain(), rpow(1real - grain(), m), at(m as int));
        let (c, d) = (1real - g, 1real + (t + g));
        assert((1real - g) * (1real + (t + g)) == 1real + t - g * t - g * g) by (nonlinear_arith);
        lemma_scaled(0real, t, g);
        lemma_scaled(0real, g, g);
        lemma_scaled(c * d, 1real + t, p);
        assert((c * p) * d == p * (c * d)) by (nonlinear_arith);
    } else {
        assert(1real * (1real + 0real) == 1real);
    }
}

/// The exponential of `t` below one is at most `1 / (1 - t)`.
pub proof fn lemma_ex_upper(k: int)
    ensures
        ex(k) * (1real - at(k)) <= 1real,
{
    lemma_ex_lower(-k);
    lemma_ex_inverse(k);
    lemma_at_add(0, k);
    let (e, f, t) = (ex(k), ex(-k), at(k));
    let u = 1real - t;
    lemma_scaled(u, f, e);
}

/// The exponential rises.
pub proof fn lemma_ex_mono(a: int, b: int)
    requires
        a <= b,
    ensures
        ex(a) <= ex(b),
{
    lemma_ex_add(a, b - a);
    lemma_ex_lower(b - a);
    lemma_ex_inverse(a);
    lemma_grain();
    lemma_at_mono(0, b - a);
    let (x, y) = (ex(a), ex(b - a));
    lemma_scaled(1real, y, x);
}

/// The power of an exponential is the exponential of the multiple.
pub proof fn lemma_ex_pow(k: int, n: nat)
    ensures
        rpow(ex(k), n) == ex(k * n),
    decreases n,
{
    if n == 0 {
        lemma_ex_inverse(0);
    } else {
        lemma_ex_pow(k, (n - 1) as nat);
        lemma_ex_add(k, k * (n - 1));
        lemma_mul_is_distributive_add(k, 1, n - 1);
    }
}

} // verus!
