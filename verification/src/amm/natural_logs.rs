//! The logarithmic series against the exponential of
//! [`natural_powers`](crate::amm::natural_powers).
use crate::amm::natural_powers::{
    at, ex, grain, grains, lemma_at_add, lemma_at_mono, lemma_ex_add, lemma_ex_inverse,
    lemma_ex_lower, lemma_ex_mono, lemma_ex_upper, lemma_grain,
};
use crate::amm::real_powers::{lemma_rpow_at_most_one, lemma_rpow_mono, rpow};
use vstd::prelude::*;

verus! {

/// `z + z^3/3 + ... + z^(2n + 1)/(2n + 1)`.
pub open spec fn odd_series(z: real, n: nat) -> real
    decreases n,
{
    if n == 0 {
        z
    } else {
        odd_series(z, (n - 1) as nat) + rpow(z, 2 * n + 1) / ((2 * n + 1) as real)
    }
}

/// `1 + z^2 + ... + z^(2n)`.
pub open spec fn even_series(z: real, n: nat) -> real
    decreases n,
{
    if n == 0 {
        1real
    } else {
        even_series(z, (n - 1) as nat) + rpow(z, 2 * n)
    }
}

/// A power rises by its derivative: at least by that at the lower end of a step, at most by that
/// at the upper end.
proof fn lemma_rpow_step(z: real, d: real, k: nat)
    requires
        z >= 0real,
        d >= 0real,
        k >= 1,
    ensures
        0real <= rpow(z, (k - 1) as nat) <= rpow(z + d, (k - 1) as nat),
        (k as real) * (d * rpow(z, (k - 1) as nat)) <= rpow(z + d, k) - rpow(z, k) <= (k as real)
            * (d * rpow(z + d, (k - 1) as nat)),
    decreases k,
{
    let m = (k - 1) as nat;
    lemma_rpow_mono(z, z + d, m);
    let (a, b) = (rpow(z, m), rpow(z + d, m));
    if k == 1 {
        assert(a == 1real && b == 1real);
        assert(rpow(z, 1) == z * rpow(z, 0) && rpow(z + d, 1) == (z + d) * rpow(z + d, 0));
        assert(1real * (d * 1real) == d && z * 1real == z && (z + d) * 1real == z + d)
            by (nonlinear_arith);
    } else {
        lemma_rpow_step(z, d, m);
        let l = (m - 1) as nat;
        let (p, q, r) = (rpow(z, l), rpow(z + d, l), m as real);
        assert(a == z * p && b == (z + d) * q);
        assert(k as real == r + 1real);
        assert((r + 1real) * (d * a) <= (z + d) * b - z * a <= (r + 1real) * (d * b))
            by (nonlinear_arith)
            requires
                z >= 0real,
                d >= 0real,
                r >= 1real,
                a == z * p,
                b == (z + d) * q,
                0real <= a <= b,
                0real <= p <= q,
                r * (d * p) <= b - a <= r * (d * q),
        {
            // (z + d) b - z a = d b + z (b - a).
            assert((z + d) * b - z * a == d * b + z * (b - a));
            assert(z * (b - a) >= z * (r * (d * p)));
            assert(z * (r * (d * p)) == r * (d * (z * p)));
            assert(d * b >= d * a);
            assert(z * (b - a) <= (z + d) * (b - a));
            assert((z + d) * (b - a) <= (z + d) * (r * (d * q)));
            assert((z + d) * (r * (d * q)) == r * (d * ((z + d) * q)));
            assert((r + 1real) * (d * a) == r * (d * a) + d * a);
            assert((r + 1real) * (d * b) == r * (d * b) + d * b);
        }
    }
}

/// So does the odd series, whose derivative is the even one.
proof fn lemma_odd_step(z: real, d: real, n: nat)
    requires
        z >= 0real,
        d >= 0real,
    ensures
        d * even_series(z, n) <= odd_series(z + d, n) - odd_series(z, n) <= d * even_series(
            z + d,
            n,
        ),
    decreases n,
{
    if n > 0 {
        lemma_odd_step(z, d, (n - 1) as nat);
        let k = 2 * n + 1;
        lemma_rpow_step(z, d, k);
        let (r, a, b) = (k as real, rpow(z, 2 * n), rpow(z + d, 2 * n));
        let (x, y) = (rpow(z, k), rpow(z + d, k));
        let (u, v) = (x / r, y / r);
        assert((k - 1) as nat == 2 * n);
        assert(d * a <= v - u <= d * b) by (nonlinear_arith)
            requires
                r >= 1real,
                u == x / r,
                v == y / r,
                r * (d * a) <= y - x <= r * (d * b),
        {
            assert(u * r == x && v * r == y);
            assert((v - u) * r == y - x);
        }
        let (e, f) = (even_series(z, (n - 1) as nat), even_series(z + d, (n - 1) as nat));
        assert(d * (e + a) == d * e + d * a && d * (f + b) == d * f + d * b) by (nonlinear_arith);
    } else {
        assert(d * 1real == d) by (nonlinear_arith);
    }
}

/// The even series is geometric.
proof fn lemma_even_closed(z: real, n: nat)
    ensures
        even_series(z, n) * (1real - z * z) == 1real - rpow(z, 2 * n + 2),
    decreases n,
{
    let q = 2 * n;
    assert(rpow(z, q + 2) == z * rpow(z, q + 1));
    assert(rpow(z, q + 1) == z * rpow(z, q));
    let a = rpow(z, q);
    assert(z * (z * a) == (z * z) * a) by (nonlinear_arith);
    if n > 0 {
        let m = (n - 1) as nat;
        lemma_even_closed(z, m);
        assert(2 * m + 2 == q);
        let e = even_series(z, m);
        assert((e + a) * (1real - z * z) == e * (1real - z * z) + a - (z * z) * a)
            by (nonlinear_arith);
    } else {
        assert((z * z) * 1real == z * z) by (nonlinear_arith);
        assert(1real * (1real - z * z) == 1real - z * z) by (nonlinear_arith);
    }
}

/// The whole grains in `t`.
proof fn lemma_whole_grains(t: real, n: nat) -> (k: int)
    requires
        0real <= t < at(n as int),
    ensures
        0 <= k < n,
        at(k) <= t < at(k) + grain(),
    decreases n,
{
    lemma_grain();
    let m = (n - 1) as nat;
    lemma_at_add(m as int, 1);
    if n == 0 {
        0
    } else if t >= at(m as int) {
        m as int
    } else {
        lemma_whole_grains(t, m)
    }
}

/// One grain count per exponent below two.
proof fn lemma_grains_below_two(t: real) -> (k: int)
    requires
        0real <= t < 2real,
    ensures
        k >= 0,
        at(k) <= t < at(k) + grain(),
{
    lemma_grain();
    lemma_at_add(grains(), grains());
    let (n, g) = (grains() as real, grain());
    assert(n * g == 1real) by (nonlinear_arith)
        requires
            g * n == 1real,
    ;
    assert(at(grains()) == 1real);
    lemma_whole_grains(t, (grains() + grains()) as nat)
}

/// `i` steps of `d`.
pub open spec fn steps(i: nat, d: real) -> real {
    (i as real) * d
}

/// One more step of a width.
proof fn lemma_steps(i: nat, d: real)
    requires
        i >= 1,
        d > 0real,
    ensures
        steps(i, d) == steps((i - 1) as nat, d) + d,
        steps((i - 1) as nat, d) >= 0real,
{
    let r = (i - 1) as real;
    assert(i as real == r + 1real);
    assert((r + 1real) * d == r * d + d && r * d >= 0real) by (nonlinear_arith)
        requires
            r >= 0real,
            d > 0real,
    ;
}

/// The series is small where `z` is.
proof fn lemma_series_small(z: real, n: nat)
    requires
        0real <= z <= 1real / 16real,
    ensures
        1real <= even_series(z, n),
        even_series(z, n) * (1real - z * z) <= 1real,
        even_series(z, n) <= 2real,
        z <= odd_series(z, n) <= 2real * z,
        0real <= rpow(z, 2 * n + 2),
{
    lemma_even_closed(z, n);
    lemma_rpow_mono(0real, z, 2 * n + 2);
    lemma_odd_step(0real, z, n);
    lemma_odd_of_zero(n);
    lemma_even_at_least_one(z, n);
    lemma_even_at_least_one(0real, n);
    let e = even_series(z, n);
    assert(e <= 2real) by (nonlinear_arith)
        requires
            e * (1real - z * z) <= 1real,
            0real <= z <= 1real / 16real,
            e >= 1real,
    {
        assert(z * z <= 1real / 2real);
        assert(e * (z * z) <= e * (1real / 2real));
    }
    assert(0real + z == z);
    let e0 = even_series(0real, n);
    assert(z <= z * e0 && z * e <= 2real * z) by (nonlinear_arith)
        requires
            z >= 0real,
            e0 >= 1real,
            e <= 2real,
    ;
}

/// The even series starts at one.
proof fn lemma_even_at_least_one(z: real, n: nat)
    requires
        z >= 0real,
    ensures
        even_series(z, n) >= 1real,
    decreases n,
{
    if n > 0 {
        lemma_even_at_least_one(z, (n - 1) as nat);
        lemma_rpow_mono(0real, z, 2 * n);
    }
}

/// The odd series of zero is zero.
pub proof fn lemma_odd_of_zero(n: nat)
    ensures
        odd_series(0real, n) == 0real,
    decreases n,
{
    if n > 0 {
        lemma_odd_of_zero((n - 1) as nat);
        let k = 2 * n + 1;
        let (p, r) = (rpow(0real, (k - 1) as nat), k as real);
        assert(0real * p == 0real) by (nonlinear_arith);
        assert(0real / r == 0real) by (nonlinear_arith)
            requires
                r >= 1real,
        ;
    }
}

/// The exponential of twice the odd series, less a little, is at most `(1 + z) / (1 - z)`.
proof fn lemma_log_below(d: real, i: nat, n: nat, c: real, k: int)
    requires
        d > 0real,
        steps(i, d) <= 1real / 16real,
        0real <= c <= 1real,
        c * d >= 10real * (d * d) + 2real * grain(),
        k >= 0,
        at(k) <= 2real * odd_series(steps(i, d), n) - c * steps(i, d),
    ensures
        ex(k) * (1real - steps(i, d)) <= 1real + steps(i, d),
    decreases i,
{
    lemma_grain();
    let y = steps(i, d);
    let g = grain();
    if i == 0 {
        assert(0real * d == 0real) by (nonlinear_arith);
        lemma_odd_of_zero(n);
        lemma_at_mono(0, k);
        assert(c * 0real == 0real);
        if k > 0 {
            lemma_at_mono(1, k);
        }
        lemma_ex_inverse(0);
    } else {
        let m = (i - 1) as nat;
        lemma_steps(i, d);
        let z = steps(m, d);
        lemma_series_small(z, n);
        lemma_series_small(y, n);
        lemma_odd_step(z, d, n);
        let (p, q, e) = (odd_series(z, n), odd_series(y, n), even_series(y, n));
        let f = 2real * p - c * z;
        assert(0real <= f < 2real) by (nonlinear_arith)
            requires
                f == 2real * p - c * z,
                0real <= c <= 1real,
                0real <= z <= 1real / 16real,
                z <= p <= 2real * z,
        ;
        let j = lemma_grains_below_two(f);
        lemma_log_below(d, m, n, c, j);
        let (u, v) = (ex(j), ex(k - j));
        lemma_ex_inverse(j);
        lemma_ex_inverse(k - j);
        lemma_ex_add(j, k - j);
        lemma_ex_upper(k - j);
        lemma_at_add(k, j);
        let t = at(k - j);
        // How far the exponent rises in the step.
        assert(t <= d * (2real * e - c) + g) by (nonlinear_arith)
            requires
                t == at(k) - at(j),
                at(k) <= 2real * q - c * y,
                f < at(j) + g,
                f == 2real * p - c * z,
                y == z + d,
                q - p <= d * e,
        ;
        lemma_log_below_algebra(z, d, y, e, c, g, t, u, v);
    }
}

/// One step towards the logarithm from below, as plain numbers.
proof fn lemma_log_below_algebra(
    z: real,
    d: real,
    y: real,
    e: real,
    c: real,
    g: real,
    t: real,
    u: real,
    v: real,
)
    requires
        y == z + d,
        d > 0real,
        0real <= z,
        y <= 1real / 16real,
        1real <= e <= 2real,
        e * (1real - y * y) <= 1real,
        0real <= c <= 1real,
        c * d >= 10real * (d * d) + 2real * g,
        g > 0real,
        t <= d * (2real * e - c) + g,
        u > 0real,
        v > 0real,
        u * (1real - z) <= 1real + z,
        v * (1real - t) <= 1real,
    ensures
        (u * v) * (1real - y) <= 1real + y,
{
    let a = (1real + y) * (1real - z);
    assert(a <= (1real - y * y) + 2real * d && a >= 9real / 10real && a <= 2real)
        by (nonlinear_arith)
        requires
            a == (1real + y) * (1real - z),
            y == z + d,
            d > 0real,
            0real <= z,
            y <= 1real / 16real,
    {
        assert(a == (1real + y) * (1real - y) + (1real + y) * d);
        assert((1real + y) * (1real - y) == 1real - y * y);
        assert(y * y <= 1real / 16real * (1real / 16real));
    }
    assert(t * a <= 2real * d) by (nonlinear_arith)
        requires
            t <= d * (2real * e - c) + g,
            9real / 10real <= a <= 2real,
            a <= (1real - y * y) + 2real * d,
            e * (1real - y * y) <= 1real,
            1real <= e <= 2real,
            c * d >= 10real * (d * d) + 2real * g,
            g > 0real,
            d > 0real,
    {
        assert(t * a <= (d * (2real * e - c) + g) * a);
        assert((d * (2real * e - c) + g) * a == 2real * (d * (e * a)) - (c * d - g) * a);
        assert(e * a <= e * ((1real - y * y) + 2real * d));
        assert(e * ((1real - y * y) + 2real * d) <= 1real + 4real * d);
        assert(d * (e * a) <= d * (1real + 4real * d));
        assert((c * d - g) * a >= (10real * (d * d)) * a);
        assert((10real * (d * d)) * a >= 9real * (d * d));
    }
    // (1 + z) (1 - y) <= (1 - t) a.
    assert((1real + z) * (1real - y) <= (1real - t) * a) by (nonlinear_arith)
        requires
            t * a <= 2real * d,
            a == (1real + y) * (1real - z),
            y == z + d,
    ;
    assert((u * v) * (1real - y) <= 1real + y) by (nonlinear_arith)
        requires
            (1real + z) * (1real - y) <= (1real - t) * a,
            a == (1real + y) * (1real - z),
            u > 0real,
            v > 0real,
            u * (1real - z) <= 1real + z,
            v * (1real - t) <= 1real,
            0real <= z <= 1real / 16real,
            y <= 1real / 16real,
            a >= 9real / 10real,
    {
        assert(v * ((1real + z) * (1real - y)) <= v * ((1real - t) * a));
        assert(v * ((1real - t) * a) == (v * (1real - t)) * a);
        assert((v * (1real - t)) * a <= a);
        // v (1 + z) (1 - y) <= (1 + y) (1 - z), and u (1 - z) <= 1 + z.
        let w = v * (1real - y);
        assert(w > 0real);
        assert((u * (1real - z)) * w <= (1real + z) * w);
        assert((1real + z) * w == v * ((1real + z) * (1real - y)));
        assert((u * (1real - z)) * w == ((u * v) * (1real - y)) * (1real - z));
        assert(((u * v) * (1real - y)) * (1real - z) <= (1real + y) * (1real - z));
    }
}

/// The exponential of twice the odd series, and a little more, is at least `(1 + z) / (1 - z)`.
/// What is left of the series is at most `rest`.
proof fn lemma_log_above(d: real, i: nat, n: nat, c: real, rest: real, k: int)
    requires
        d > 0real,
        steps(i, d) <= 1real / 16real,
        rpow(steps(i, d), 2 * n + 2) <= rest,
        0real <= c <= 1real,
        c * d >= 3real * (rest * d) + 8real * (d * d) + 2real * grain(),
        k >= 0,
        at(k) >= 2real * odd_series(steps(i, d), n) + c * steps(i, d),
    ensures
        ex(k) * (1real - steps(i, d)) >= 1real + steps(i, d),
    decreases i,
{
    lemma_grain();
    let y = steps(i, d);
    let g = grain();
    if i == 0 {
        assert(0real * d == 0real) by (nonlinear_arith);
        lemma_ex_inverse(0);
        lemma_ex_mono(0, k);
        assert(ex(k) * (1real - 0real) == ex(k)) by (nonlinear_arith);
    } else {
        let m = (i - 1) as nat;
        lemma_steps(i, d);
        let z = steps(m, d);
        lemma_series_small(z, n);
        lemma_series_small(y, n);
        lemma_odd_step(z, d, n);
        lemma_even_closed(z, n);
        lemma_rpow_mono(z, y, 2 * n + 2);
        let rho = rpow(z, 2 * n + 2);
        let (p, q, e) = (odd_series(z, n), odd_series(y, n), even_series(z, n));
        let f = 2real * p + c * z;
        assert(0real <= f < 2real) by (nonlinear_arith)
            requires
                f == 2real * p + c * z,
                0real <= c <= 1real,
                0real <= z <= 1real / 16real,
                z <= p <= 2real * z,
        ;
        let j = lemma_grains_below_two(f) + 1;
        lemma_at_add(j - 1, 1);
        lemma_log_above(d, m, n, c, rest, j);
        let (u, v) = (ex(j), ex(k - j));
        lemma_ex_inverse(j);
        lemma_ex_inverse(k - j);
        lemma_ex_add(j, k - j);
        lemma_ex_lower(k - j);
        lemma_at_add(k, j);
        let t = at(k - j);
        assert(t >= d * (2real * e + c) - g) by (nonlinear_arith)
            requires
                t == at(k) - at(j),
                at(k) >= 2real * q + c * y,
                at(j) <= f + g,
                f == 2real * p + c * z,
                y == z + d,
                q - p >= d * e,
        ;
        lemma_log_above_algebra(z, d, y, e, c, g, t, u, v, rho, rest);
    }
}

/// One step towards the logarithm from above, as plain numbers.
proof fn lemma_log_above_algebra(
    z: real,
    d: real,
    y: real,
    e: real,
    c: real,
    g: real,
    t: real,
    u: real,
    v: real,
    rho: real,
    rest: real,
)
    requires
        y == z + d,
        d > 0real,
        0real <= z,
        y <= 1real / 16real,
        1real <= e <= 2real,
        e * (1real - z * z) == 1real - rho,
        0real <= rho <= rest,
        0real <= c <= 1real,
        c * d >= 3real * (rest * d) + 8real * (d * d) + 2real * g,
        g > 0real,
        t >= d * (2real * e + c) - g,
        u > 0real,
        v >= 1real + t,
        u * (1real - z) >= 1real + z,
    ensures
        (u * v) * (1real - y) >= 1real + y,
{
    let a = (1real + z) * (1real - y);
    assert(a >= (1real - z * z) - 2real * d && 8real / 10real <= a <= 2real) by (nonlinear_arith)
        requires
            a == (1real + z) * (1real - y),
            y == z + d,
            d > 0real,
            0real <= z,
            y <= 1real / 16real,
    {
        assert(a == (1real + z) * (1real - z) - (1real + z) * d);
        assert((1real + z) * (1real - z) == 1real - z * z);
    }
    let b = c * d - g;
    assert(t * a >= 2real * d) by (nonlinear_arith)
        requires
            t >= d * (2real * e + c) - g,
            8real / 10real <= a <= 2real,
            a >= (1real - z * z) - 2real * d,
            e * (1real - z * z) == 1real - rho,
            1real <= e <= 2real,
            0real <= rho <= rest,
            b == c * d - g,
            c * d >= 3real * (rest * d) + 8real * (d * d) + 2real * g,
            g > 0real,
            d > 0real,
    {
        assert(t * a >= (d * (2real * e + c) - g) * a);
        assert((d * (2real * e + c) - g) * a == 2real * (d * (e * a)) + b * a);
        assert(e * a >= e * ((1real - z * z) - 2real * d));
        assert(e * ((1real - z * z) - 2real * d) == (1real - rho) - 2real * (e * d));
        assert(e * d <= 2real * d);
        assert(d * (e * a) >= d * ((1real - rho) - 4real * d));
        assert(d * ((1real - rho) - 4real * d) == d - rho * d - 4real * (d * d));
        assert(rho * d <= rest * d);
        assert(b >= 3real * (rest * d) + 8real * (d * d));
        assert(rest * d >= 0real);
        assert(b * a >= (8real / 10real) * b);
    }
    assert((1real + y) * (1real - z) <= (1real + t) * a) by (nonlinear_arith)
        requires
            t * a >= 2real * d,
            a == (1real + z) * (1real - y),
            y == z + d,
    ;
    assert((u * v) * (1real - y) >= 1real + y) by (nonlinear_arith)
        requires
            (1real + y) * (1real - z) <= (1real + t) * a,
            a == (1real + z) * (1real - y),
            u > 0real,
            v >= 1real + t,
            u * (1real - z) >= 1real + z,
            0real <= z <= 1real / 16real,
            y <= 1real / 16real,
            a >= 8real / 10real,
            y >= 0real,
    {
        assert((1real + t) * a > 0real);
        assert(v * a >= (1real + t) * a);
        assert(v * a >= (1real + y) * (1real - z));
        assert(v > 0real);
        let w = v * (1real - y);
        assert(w > 0real);
        assert((u * (1real - z)) * w >= (1real + z) * w);
        assert((1real + z) * w == v * a);
        assert((u * (1real - z)) * w == ((u * v) * (1real - y)) * (1real - z));
        assert(((u * v) * (1real - y)) * (1real - z) >= (1real + y) * (1real - z));
    }
}

/// 10^40, into how many steps `z` is parted.
spec fn parts() -> nat {
    10_000_000_000_000_000_000_000_000_000_000_000_000_000nat
}

/// The exponential of twice the odd series is `(1 + z) / (1 - z)`, but for the rest of the series
/// and a part of `10^-39`.
pub proof fn lemma_log(z: real, n: nat, k: int)
    requires
        1real / 100_000_000_000_000_000_000real <= z <= 1real / 16real,
        k >= 0,
    ensures
        at(k) <= 2real * odd_series(z, n) - z
            / 1_000_000_000_000_000_000_000_000_000_000_000_000_000real ==> ex(k) * (1real - z)
            <= 1real + z,
        at(k) >= 2real * odd_series(z, n) + (3real * rpow(z, 2 * n + 2) + 1real
            / 1_000_000_000_000_000_000_000_000_000_000_000_000_000real) * z ==> ex(k) * (1real - z)
            >= 1real + z,
{
    lemma_grain();
    let m = parts() as real;
    assert(m == 10_000_000_000_000_000_000_000_000_000_000_000_000_000real);
    let d = z / m;
    let g = grain();
    assert(d * m == z && d > 0real) by (nonlinear_arith)
        requires
            d == z / m,
            m > 1real,
            z > 0real,
    ;
    assert(steps(parts(), d) == z) by (nonlinear_arith)
        requires
            steps(parts(), d) == m * d,
            d * m == z,
    ;
    let c = 1real / 1_000_000_000_000_000_000_000_000_000_000_000_000_000real;
    assert(d <= c / 100real && d >= 1real
        / 1_000_000_000_000_000_000_000_000_000_000_000_000_000_000_000_000_000_000_000_000real)
        by (nonlinear_arith)
        requires
            d * m == z,
            m == 10_000_000_000_000_000_000_000_000_000_000_000_000_000real,
            1real / 100_000_000_000_000_000_000real <= z <= 1real / 16real,
            c == 1real / 1_000_000_000_000_000_000_000_000_000_000_000_000_000real,
    ;
    assert(g <= d * (c / 100real)) by {
        let n120 = grains() as real;
        assert(g * n120 == 1real);
        lemma_grain_is_fine(d, c, g, n120);
    }
    assert(c * d >= 10real * (d * d) + 2real * g) by (nonlinear_arith)
        requires
            0real < d <= c / 100real,
            g <= d * (c / 100real),
            c > 0real,
    {
        assert(d * d <= d * (c / 100real));
    }
    assert(c * z == z / 1_000_000_000_000_000_000_000_000_000_000_000_000_000real)
        by (nonlinear_arith)
        requires
            c == 1real / 1_000_000_000_000_000_000_000_000_000_000_000_000_000real,
    ;
    if at(k) <= 2real * odd_series(z, n) - c * z {
        lemma_log_below(d, parts(), n, c, k);
    }
    let rest = rpow(z, 2 * n + 2);
    lemma_series_small(z, n);
    lemma_rpow_is_small(z, n);
    let e = 3real * rest + c;
    assert(e * d >= 3real * (rest * d) + 8real * (d * d) + 2real * g) by (nonlinear_arith)
        requires
            e == 3real * rest + c,
            c * d >= 10real * (d * d) + 2real * g,
    ;
    if at(k) >= 2real * odd_series(z, n) + e * z {
        lemma_log_above(d, parts(), n, e, rest, k);
    }
}

/// Even powers from the second on of a number up to a sixteenth.
proof fn lemma_rpow_is_small(z: real, n: nat)
    requires
        0real <= z <= 1real / 16real,
    ensures
        rpow(z, 2 * n + 2) <= 1real / 16real,
{
    let k = 2 * n + 1;
    lemma_rpow_at_most_one(z, k);
    let p = rpow(z, k);
    assert(z * p <= 1real / 16real) by (nonlinear_arith)
        requires
            0real <= z <= 1real / 16real,
            0real <= p <= 1real,
    ;
}

/// A grain against the smallest step that is taken.
proof fn lemma_grain_is_fine(d: real, c: real, g: real, n: real)
    requires
        n
            == 1_000_000_000_000_000_000_000_000_000_000_000_000_000_000_000_000_000_000_000_000_000_000_000_000_000_000_000_000_000_000_000_000_000_000_000_000_000_000_000_000real,
        g * n == 1real,
        d >= 1real
            / 1_000_000_000_000_000_000_000_000_000_000_000_000_000_000_000_000_000_000_000_000real,
        c == 1real / 1_000_000_000_000_000_000_000_000_000_000_000_000_000real,
    ensures
        g <= d * (c / 100real),
{
    let x = d * (c / 100real);
    let b = 1real
        / 1_000_000_000_000_000_000_000_000_000_000_000_000_000_000_000_000_000_000_000_000real;
    assert(x >= b * (c / 100real)) by (nonlinear_arith)
        requires
            x == d * (c / 100real),
            d >= b,
            c > 0real,
    ;
    assert(b * (c / 100real) * n >= 1real);
    assert(g <= x) by (nonlinear_arith)
        requires
            x >= b * (c / 100real),
            b * (c / 100real) * n >= 1real,
            g * n == 1real,
            n > 1real,
    ;
}

} // verus!
