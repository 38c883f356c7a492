//! The exponential series against the exponential of
//! [`natural_powers`](crate::amm::natural_powers).
use crate::amm::natural_powers::{
    at, ex, grain, lemma_at_add, lemma_at_mono, lemma_ex_add, lemma_ex_inverse, lemma_ex_upper,
    lemma_grain,
};
use crate::amm::real_powers::{lemma_quotient, lemma_scaled, lemma_unscaled, rpow};
use vstd::prelude::*;

verus! {

/// `t^j / j!`.
pub open spec fn taylor_term(t: real, j: nat) -> real
    decreases j,
{
    if j == 0 {
        1real
    } else {
        taylor_term(t, (j - 1) as nat) * t / (j as real)
    }
}

/// The sum of `t^j / j!` up to `j = n`.
pub open spec fn taylor(t: real, n: nat) -> real
    decreases n,
{
    if n == 0 {
        1real
    } else {
        taylor(t, (n - 1) as nat) + taylor_term(t, n)
    }
}

/// A term rises by the term before it: at least by that at the lower end of a step, at most by that
/// at the upper end.
proof fn lemma_term_step(t: real, h: real, j: nat)
    requires
        t >= 0real,
        h >= 0real,
        j >= 1,
    ensures
        0real <= taylor_term(t, j) <= taylor_term(t + h, j),
        0real <= taylor_term(t, (j - 1) as nat) <= taylor_term(t + h, (j - 1) as nat),
        h * taylor_term(t, (j - 1) as nat) <= taylor_term(t + h, j) - taylor_term(t, j)
            <= h * taylor_term(t + h, (j - 1) as nat),
    decreases j,
{
    let m = (j - 1) as nat;
    let (a, b) = (taylor_term(t, m), taylor_term(t + h, m));
    let (x, y, r) = (taylor_term(t, j), taylor_term(t + h, j), j as real);
    assert(x == a * t / r && y == b * (t + h) / r);
    if j == 1 {
        assert(a == 1real && b == 1real && r == 1real);
        assert(x == t && y == t + h) by (nonlinear_arith)
            requires
                x == 1real * t / 1real,
                y == 1real * (t + h) / 1real,
        ;
        assert(h * 1real == h) by (nonlinear_arith);
    } else {
        lemma_term_step(t, h, m);
        let l = (m - 1) as nat;
        let (c, d, q) = (taylor_term(t, l), taylor_term(t + h, l), m as real);
        assert(a == c * t / q && b == d * (t + h) / q);
        assert(q == r - 1real);
        lemma_term_algebra(t, h, a, b, c, d, q, x, y, r);
    }
}

/// One more term of a Taylor series, as plain numbers.
proof fn lemma_term_algebra(
    t: real,
    h: real,
    a: real,
    b: real,
    c: real,
    d: real,
    q: real,
    x: real,
    y: real,
    r: real,
)
    requires
        t >= 0real,
        h >= 0real,
        r >= 2real,
        q == r - 1real,
        x == a * t / r,
        y == b * (t + h) / r,
        a == c * t / q,
        b == d * (t + h) / q,
        0real <= a <= b,
        0real <= c <= d,
        h * c <= b - a <= h * d,
    ensures
        0real <= x <= y,
        h * a <= y - x <= h * b,
{
    lemma_quotient(a * t, r);
    lemma_quotient(b * (t + h), r);
    lemma_quotient(c * t, q);
    lemma_quotient(d * (t + h), q);
    // (y - x) r = b h + (b - a) t.
    assert((y - x) * r == y * r - x * r) by (nonlinear_arith);
    assert(b * (t + h) - a * t == b * h + (b - a) * t) by (nonlinear_arith);
    assert((b - a) * t <= h * (b * q)) by (nonlinear_arith)
        requires
            b - a <= h * d,
            t >= 0real,
            h >= 0real,
            d >= 0real,
            b * q == d * (t + h),
    {
        assert((b - a) * t <= (h * d) * t);
        assert((h * d) * t <= h * (d * (t + h)));
    }
    assert((b - a) * t >= h * (a * q)) by (nonlinear_arith)
        requires
            b - a >= h * c,
            t >= 0real,
            a * q == c * t,
    {
        assert((b - a) * t >= (h * c) * t);
        assert((h * c) * t == h * (c * t));
    }
    assert(y - x <= h * b) by (nonlinear_arith)
        requires
            (y - x) * r == b * h + (b - a) * t,
            (b - a) * t <= h * (b * q),
            q == r - 1real,
            r >= 2real,
    {
        assert(h * (b * q) == (h * b) * r - h * b);
        assert((y - x) * r <= (h * b) * r);
    }
    assert(y - x >= h * a) by (nonlinear_arith)
        requires
            (y - x) * r == b * h + (b - a) * t,
            (b - a) * t >= h * (a * q),
            q == r - 1real,
            r >= 2real,
            h >= 0real,
            b >= a,
    {
        assert(h * (a * q) == (h * a) * r - h * a);
        assert(b * h >= h * a);
        assert((y - x) * r >= (h * a) * r);
    }
    assert(x >= 0real) by (nonlinear_arith)
        requires
            x * r == a * t,
            a >= 0real,
            t >= 0real,
            r >= 2real,
    ;
    assert(h * a >= 0real) by (nonlinear_arith)
        requires
            h >= 0real,
            a >= 0real,
    ;
}

/// So does the series.
proof fn lemma_taylor_step(t: real, h: real, n: nat)
    requires
        t >= 0real,
        h >= 0real,
        n >= 1,
    ensures
        h * taylor(t, (n - 1) as nat) <= taylor(t + h, n) - taylor(t, n) <= h * taylor(
            t + h,
            (n - 1) as nat,
        ),
        taylor(t, (n - 1) as nat) <= taylor(t, n),
    decreases n,
{
    let m = (n - 1) as nat;
    lemma_term_step(t, h, n);
    if n == 1 {
        assert(taylor(t, 0) == 1real && taylor(t + h, 0) == 1real);
        assert(taylor_term(t, 0) == 1real && taylor_term(t + h, 0) == 1real);
    } else {
        lemma_taylor_step(t, h, m);
        let l = (m - 1) as nat;
        let (a, b) = (taylor(t, l), taylor_term(t, m));
        let (c, d) = (taylor(t + h, l), taylor_term(t + h, m));
        assert(taylor(t, m) == a + b && taylor(t + h, m) == c + d);
        assert(h * (a + b) == h * a + h * b && h * (c + d) == h * c + h * d) by (nonlinear_arith);
    }
}

/// The series is never above the exponential.
pub proof fn lemma_taylor_below(k: int, n: nat)
    requires
        k >= 0,
        n >= 1,
    ensures
        taylor(at(k), n) <= ex(k),
        taylor(at(k), (n - 1) as nat) <= ex(k),
    decreases k,
{
    lemma_grain();
    let g = grain();
    lemma_at_mono(0, k);
    lemma_taylor_step(at(k), 0real, n);
    if k == 0 {
        lemma_ex_inverse(0);
        lemma_taylor_of_zero(n);
    } else {
        lemma_at_mono(0, k - 1);
        lemma_at_add(k - 1, 1);
        lemma_taylor_below(k - 1, n);
        let t = at(k - 1);
        lemma_taylor_step(t, g, n);
        lemma_taylor_step(t + g, 0real, n);
        lemma_ex_add(k, -1);
        assert(ex(-1) == 1real - g) by {
            assert(rpow(1real - g, 1) == (1real - g) * rpow(1real - g, 0));
        }
        let (e, f, u, v) = (ex(k), ex(k - 1), taylor(t + g, n), taylor(t + g, (n - 1) as nat));
        lemma_scaled(v, u, g);
        assert(u * (1real - g) == u - g * u) by (nonlinear_arith);
        lemma_unscaled(u, e, 1real - g);
    }
}

/// At zero the series is one.
proof fn lemma_taylor_of_zero(n: nat)
    ensures
        taylor(0real, n) == 1real,
        n >= 1 ==> taylor_term(0real, n) == 0real,
    decreases n,
{
    if n > 0 {
        lemma_taylor_of_zero((n - 1) as nat);
        let (a, r) = (taylor_term(0real, (n - 1) as nat), n as real);
        assert(a * 0real / r == 0real) by (nonlinear_arith)
            requires
                r >= 1real,
        ;
    }
}

/// The exponential is above the series by little: by `c` times the exponent, where `c` outweighs
/// the last term of the series at the largest exponent, `top`.
pub proof fn lemma_taylor_above(k: int, n: nat, top: real, c: real)
    requires
        k >= 0,
        n >= 1,
        at(k) <= top <= 1real / 4real,
        0real <= c <= 1real,
        c >= 2real * taylor_term(top, n) + 4real * grain(),
    ensures
        ex(k) <= taylor(at(k), n) + c * at(k),
    decreases k,
{
    lemma_grain();
    let g = grain();
    if k == 0 {
        lemma_ex_inverse(0);
        lemma_taylor_of_zero(n);
        assert(c * 0real == 0real);
    } else {
        lemma_at_mono(0, k - 1);
        lemma_at_mono(k - 1, k);
        lemma_at_add(k - 1, 1);
        lemma_taylor_above(k - 1, n, top, c);
        let t = at(k - 1);
        let m = (n - 1) as nat;
        lemma_taylor_step(t, g, n);
        lemma_taylor_below(k, n);
        lemma_ex_upper(k);
        lemma_ex_inverse(k);
        lemma_term_step(t, top - t, n);
        lemma_ex_add(k, -1);
        assert(ex(-1) == 1real - g) by {
            assert(rpow(1real - g, 1) == (1real - g) * rpow(1real - g, 0));
        }
        let (e, f) = (ex(k), ex(k - 1));
        let (a, b, u, v) = (taylor(t, m), taylor_term(t, n), taylor(t + g, n), taylor(t + g, m));
        assert(e <= 2real) by (nonlinear_arith)
            requires
                e * (1real - (t + g)) <= 1real,
                t + g <= 1real / 4real,
                e > 0real,
        ;
        assert(taylor(t, n) == a + b);
        assert(t + (top - t) == top);
        lemma_above_algebra(e, f, g, a, b, u, v, c, t);
    }
}

/// One step of the exponential against the series, as plain numbers.
proof fn lemma_above_algebra(
    e: real,
    f: real,
    g: real,
    a: real,
    b: real,
    u: real,
    v: real,
    c: real,
    t: real,
)
    requires
        f == e * (1real - g),
        f <= a + b + c * t,
        g * a <= u - (a + b) <= g * v,
        v <= 2real,
        0real < g < 1real / 1000real,
        0real <= t <= 1real / 4real,
        0real <= c,
        c >= 2real * b + 4real * g,
    ensures
        e <= u + c * (t + g),
{
    let w = u + c * (t + g);
    let x = a + b + 2real * g + c * t + c * g;
    let y = c * (1real - t - g);
    lemma_scaled(v, 2real, g);
    assert(c * (t + g) == c * t + c * g) by (nonlinear_arith);
    lemma_scaled(w, x, g);
    lemma_scaled(1real / 2real, 1real - t - g, c);
    lemma_scaled(b + 2real * g, y, g);
    let (p, q) = (c * t, c * g);
    assert(g * (a + b + 2real * g + p + q) == g * a + g * b + 2real * (g * g) + g * p + g * q)
        by (nonlinear_arith);
    assert(g * (b + 2real * g) == g * b + 2real * (g * g)) by (nonlinear_arith);
    assert(c * (1real - t - g) == c - c * t - c * g) by (nonlinear_arith);
    assert(g * (c - p - q) == c * g - g * p - g * q) by (nonlinear_arith);
    assert(w * (1real - g) == w - g * w) by (nonlinear_arith);
    lemma_unscaled(e, w, 1real - g);
}

} // verus!
