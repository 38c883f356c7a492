//! How accurate the powers of [`balancer_math`](crate::amm::balancer_math) are: the exponential
//! and the logarithm are held against the natural exponential of
//! [`natural_powers`](crate::amm::natural_powers), and the rounded powers against the true power.
use crate::amm::balancer_math::{
    a_0, a_1, a_n, complement_value, div_down_value, div_up_value,
    exact_powers_bracket_the_true_power, exp_decomposed, exp_positive, exp_series, exp_step,
    exp_value, is_natural_exponent, is_near_one, ln_above_one, ln_decomposed, ln_near_one,
    ln_series, ln_step, ln_wide, log_times, mul_down_value, mul_up_value, one18, one20, one36,
    pow_down_value, pow_error, pow_up_value, pow_value, weighted_out, weighted_out_is_covered, x_n,
    MathError,
};
use crate::amm::natural_factors::{fine, lemma_factors, lemma_fine, lemma_grain_is_small};
use crate::amm::natural_logs::{lemma_log, lemma_odd_of_zero, odd_series};
use crate::amm::natural_powers::{
    at, ex, grain, grains, lemma_ex_add, lemma_ex_inverse, lemma_ex_lower, lemma_ex_mono,
    lemma_ex_pow, lemma_ex_upper, lemma_grain,
};
use crate::amm::natural_series::{lemma_taylor_above, lemma_taylor_below, taylor, taylor_term};
use crate::amm::real_powers::{
    lemma_root_mono, lemma_rpow_at_most_one, lemma_rpow_down, lemma_rpow_mono, lemma_rpow_mul,
    lemma_rpow_positive, lemma_rpow_rpow, rpow,
};
use crate::math::ceil_div;
use crate::types::{quot, quot_rem, two255};
use vstd::arithmetic::power::{lemma0_pow, pow};
use vstd::prelude::*;

verus! {

/// 10^20 as a real number.
spec fn t20() -> real {
    100_000_000_000_000_000_000real
}

/// 10^18 as a real number.
spec fn t18() -> real {
    1_000_000_000_000_000_000real
}

/// The product of integers is their product as real numbers.
pub proof fn lemma_cast_mul(a: int, b: int)
    ensures
        (a * b) as real == (a as real) * (b as real),
    decreases (if b < 0 { -b } else { b }),
{
    let (x, y) = (a as real, b as real);
    if b == 0 {
        assert(a * 0 == 0);
        assert(x * 0real == 0real) by (nonlinear_arith);
    } else if b > 0 {
        lemma_cast_mul(a, b - 1);
        assert(a * b == a * (b - 1) + a) by (nonlinear_arith);
        assert((b - 1) as real == y - 1real);
        assert(x * y == x * (y - 1real) + x) by (nonlinear_arith);
    } else {
        lemma_cast_mul(a, b + 1);
        assert(a * b == a * (b + 1) - a) by (nonlinear_arith);
        assert((b + 1) as real == y + 1real);
        assert(x * y == x * (y + 1real) - x) by (nonlinear_arith);
    }
}

/// Integer division rounds the quotient down.
proof fn lemma_floor(a: int, b: int)
    requires
        a >= 0,
        b > 0,
    ensures
        ((a / b) as real) * (b as real) <= a as real,
        (a as real) < ((a / b) as real + 1real) * (b as real),
        a / b >= 0,
{
    let q = a / b;
    assert(q * b <= a < (q + 1) * b && q >= 0) by (nonlinear_arith)
        requires
            q == a / b,
            a >= 0,
            b > 0,
    ;
    lemma_cast_mul(q, b);
    lemma_cast_mul(q + 1, b);
    assert((q + 1) as real == q as real + 1real);
}

/// The dividend, the divisor and the quotient rounded down, as real numbers.
proof fn lemma_floor_parts(a: int, b: int) -> (r: (real, real, real))
    requires
        a >= 0,
        b > 0,
    ensures
        r.0 == a as real,
        r.1 == b as real,
        r.2 == (a / b) as real,
        r.2 * r.1 <= r.0,
        r.0 < (r.2 + 1real) * r.1,
{
    lemma_floor(a, b);
    (a as real, b as real, (a / b) as real)
}

/// Sums of fine units are sums of grains.
proof fn lemma_ex_fine_add(a: int, b: int)
    ensures
        ex(fine(a + b)) == ex(fine(a)) * ex(fine(b)),
        ex(fine(a)) > 0real,
        ex(fine(b)) > 0real,
{
    lemma_ex_add(fine(a), fine(b));
    lemma_ex_inverse(fine(a));
    lemma_ex_inverse(fine(b));
    assert(fine(a) + fine(b) == fine(a + b));
}

/// What is rounded down by less than one loses at most one part in its size, counted in units of
/// `10^-20`.
proof fn lemma_loss(q: real, v: real, u: int)
    requires
        u >= 0,
        q > 0real,
        q * (u as real) >= t20(),
        v <= q + 1real,
    ensures
        v <= q * ex(fine(u)),
{
    lemma_fine(u);
    lemma_ex_lower(fine(u));
    let (m, r, t) = (ex(fine(u)), u as real, at(fine(u)));
    assert(v <= q * m) by (nonlinear_arith)
        requires
            m >= 1real + t,
            t == r / t20(),
            q * r >= t20(),
            t20() > 0real,
            q > 0real,
            v <= q + 1real,
    {
        assert(t * t20() == r);
        assert((q * t) * t20() == q * r);
        assert(q * t >= 1real);
        assert(q * m >= q * (1real + t));
    }
}

// ---- the exponential ----

/// The factors taken out of the exponent `all`, down to `x`, multiply to `p`, but for `err` units.
spec fn is_product(all: int, x: int, p: int, err: int) -> bool {
    ex(fine(all - x - err)) <= (p as real) / t20() <= ex(fine(all - x + err))
}

/// One more factor costs two units.
proof fn lemma_exp_step(all: int, x: int, p: int, k: int, err: int)
    requires
        2 <= k <= 11,
        p >= one20(),
        is_product(all, x, p, err),
    ensures
        ({
            let (y, q) = exp_step(x, p, k);
            is_product(all, y, q, err + 2) && q >= one20()
        }),
{
    let (y, q) = exp_step(x, p, k);
    if x >= x_n(k) {
        let a = a_n(k);
        assert(a >= one20());
        assert(q >= one20()) by (nonlinear_arith)
            requires
                q == (p * a) / one20(),
                p >= one20(),
                a >= one20(),
                one20() > 0,
        ;
        assert(p * a >= 0) by (nonlinear_arith)
            requires
                p >= one20(),
                a >= one20(),
                one20() > 0,
        ;
        lemma_floor(p * a, one20());
        lemma_factors(k);
        let (pr, ar, qr) = (p as real, a as real, q as real);
        lemma_cast_mul(p, a);
        assert(one20() as real == t20());
        let (b, c, d) = (pr / t20(), ar / t20(), qr / t20());
        assert(d <= b * c && b * c * t20() <= qr + 1real) by (nonlinear_arith)
            requires
                b == pr / t20(),
                c == ar / t20(),
                d == qr / t20(),
                qr * t20() <= pr * ar,
                pr * ar < (qr + 1real) * t20(),
                t20() > 1real,
        {
            assert(b * t20() == pr && c * t20() == ar && d * t20() == qr);
            assert((b * c) * (t20() * t20()) == pr * ar);
            assert(d * (t20() * t20()) <= (b * c) * (t20() * t20()));
            assert(((b * c) * t20()) * t20() < (qr + 1real) * t20());
        }
        assert(qr * 1real >= t20());
        lemma_loss(qr, b * c * t20(), 1);
        lemma_ex_fine_add(all - x - err, x_n(k) - 1);
        lemma_ex_fine_add(all - x + err, x_n(k) + 1);
        lemma_ex_fine_add(all - y - err - 2, 1);
        assert(all - x - err + (x_n(k) - 1) == all - y - err - 1);
        assert(all - x + err + (x_n(k) + 1) == all - y + err + 1);
        let (l, u) = (ex(fine(all - x - err)), ex(fine(all - x + err)));
        let (fl, fu) = (ex(fine(x_n(k) - 1)), ex(fine(x_n(k) + 1)));
        let (m, low) = (ex(fine(1)), ex(fine(all - y - err - 2)));
        assert(d <= u * fu) by (nonlinear_arith)
            requires
                d <= b * c,
                0real < b <= u,
                0real < c <= fu,
        ;
        assert(low <= d) by (nonlinear_arith)
            requires
                low * m == l * fl,
                0real < l <= b,
                0real < fl <= c,
                b * c * t20() <= qr * m,
                d == qr / t20(),
                m > 0real,
                t20() > 0real,
        {
            assert(d * t20() == qr);
            assert(l * fl <= b * c);
            assert((low * m) * t20() <= (d * t20()) * m);
            assert((low * m) * t20() == (low * t20()) * m);
            assert(low * t20() <= d * t20());
        }
        lemma_ex_mono_fine(all - y + err + 1, all - y + err + 2);
    } else {
        lemma_ex_mono_fine(all - x - err - 2, all - x - err);
        lemma_ex_mono_fine(all - x + err, all - x + err + 2);
    }
}

/// More units are more.
proof fn lemma_ex_mono_fine(a: int, b: int)
    requires
        a <= b,
    ensures
        ex(fine(a)) <= ex(fine(b)),
{
    assert(fine(a) <= fine(b));
    lemma_ex_mono(fine(a), fine(b));
}

/// All factors taken out cost sixteen units.
proof fn lemma_exp_decomposed(x1: int)
    requires
        0 <= x1 < 6_400_000_000_000_000_000_000,
    ensures
        ({
            let (tail, product) = exp_decomposed(x1);
            &&& is_product(x1, tail, product, 16)
            &&& product >= one20()
            &&& 0 <= tail < 25_000_000_000_000_000_000
        }),
{
    let p1 = one20();
    lemma_ex_inverse(0);
    assert(fine(0) == 0);
    assert((p1 as real) / t20() == 1real);
    assert(is_product(x1, x1, p1, 0));
    lemma_exp_step(x1, x1, p1, 2, 0);
    let (x2, p2) = exp_step(x1, p1, 2);
    lemma_exp_step(x1, x2, p2, 3, 2);
    let (x3, p3) = exp_step(x2, p2, 3);
    lemma_exp_step(x1, x3, p3, 4, 4);
    let (x4, p4) = exp_step(x3, p3, 4);
    lemma_exp_step(x1, x4, p4, 5, 6);
    let (x5, p5) = exp_step(x4, p4, 5);
    lemma_exp_step(x1, x5, p5, 6, 8);
    let (x6, p6) = exp_step(x5, p5, 6);
    lemma_exp_step(x1, x6, p6, 7, 10);
    let (x7, p7) = exp_step(x6, p6, 7);
    lemma_exp_step(x1, x7, p7, 8, 12);
    let (x8, p8) = exp_step(x7, p7, 8);
    lemma_exp_step(x1, x8, p8, 9, 14);
}

/// The fixed-point series falls short of the real one by at most two units a term.
proof fn lemma_exp_series(x: int, n: int, term: int, sum: int)
    requires
        0 <= x < 25_000_000_000_000_000_000,
        2 <= n <= 13,
        term >= 0,
        0real <= taylor_term((x as real) / t20(), (n - 1) as nat) * t20() - (term as real) <= 2real,
        0real <= taylor((x as real) / t20(), (n - 1) as nat) * t20() - (sum as real) <= 2real * (
        (n - 2) as real),
    ensures
        0real <= taylor((x as real) / t20(), 12) * t20() - (exp_series(x, n, term, sum) as real)
            <= 22real,
        exp_series(x, n, term, sum) >= sum,
    decreases 13 - n,
{
    if n <= 12 {
        let t = (x as real) / t20();
        let a = (term * x) / one20();
        let next = a / n;
        assert(term * x >= 0) by (nonlinear_arith)
            requires
                term >= 0,
                x >= 0,
        ;
        lemma_floor(term * x, one20());
        lemma_floor(a, n);
        let (tr, xr, ar, nr, br) = (term as real, x as real, a as real, n as real, next as real);
        lemma_cast_mul(term, x);
        let w = taylor_term(t, (n - 1) as nat);
        let v = taylor_term(t, n as nat);
        assert(v == w * t / nr);
        assert(0real <= v * t20() - br <= 2real) by (nonlinear_arith)
            requires
                t == xr / t20(),
                v == w * t / nr,
                t20() == 100_000_000_000_000_000_000real,
                0real <= xr < 25_000_000_000_000_000_000real,
                nr >= 2real,
                0real <= w * t20() - tr <= 2real,
                tr >= 0real,
                ar * t20() <= tr * xr,
                tr * xr < (ar + 1real) * t20(),
                br * nr <= ar,
                ar < (br + 1real) * nr,
        {
            assert(0real <= t <= 1real / 4real);
            assert(t * t20() == xr);
            assert(v * nr == w * t);
            assert((v * t20()) * nr == (w * t20()) * t);
            let e = w * t20() - tr;
            assert((w * t20()) * t == tr * t + e * t);
            assert(0real <= e * t <= 1real / 2real);
            assert((tr * t) * t20() == tr * xr);
            assert(ar <= tr * t && tr * t < ar + 1real);
            assert((v * t20() - br) * nr >= 0real);
            assert((v * t20() - br) * nr <= nr + 3real / 2real);
        }
        assert(taylor(t, n as nat) == taylor(t, (n - 1) as nat) + v);
        let (p, q) = (taylor(t, (n - 1) as nat), taylor(t, n as nat));
        assert(q * t20() == p * t20() + v * t20()) by (nonlinear_arith)
            requires
                q == p + v,
        ;
        lemma_exp_series(x, n + 1, next, sum + next);
    }
}

/// The twelfth term of the series at a quarter.
proof fn lemma_twelfth_term()
    ensures
        taylor_term(1real / 4real, 12) == 1real / 8036313307545600real,
{
    let t = 1real / 4real;
    let x0 = taylor_term(t, 0);
    let x1 = taylor_term(t, 1);
    assert(x1 == x0 * t / 1real);
    assert(x1 == 1real / 4real) by (nonlinear_arith)
        requires
            x1 == x0 * t / 1real,
            x0 == 1real,
            t == 1real / 4real,
    ;
    let x2 = taylor_term(t, 2);
    assert(x2 == x1 * t / 2real);
    assert(x2 == 1real / 32real) by (nonlinear_arith)
        requires
            x2 == x1 * t / 2real,
            x1 == 1real / 4real,
            t == 1real / 4real,
    ;
    let x3 = taylor_term(t, 3);
    assert(x3 == x2 * t / 3real);
    assert(x3 == 1real / 384real) by (nonlinear_arith)
        requires
            x3 == x2 * t / 3real,
            x2 == 1real / 32real,
            t == 1real / 4real,
    ;
    let x4 = taylor_term(t, 4);
    assert(x4 == x3 * t / 4real);
    assert(x4 == 1real / 6144real) by (nonlinear_arith)
        requires
            x4 == x3 * t / 4real,
            x3 == 1real / 384real,
            t == 1real / 4real,
    ;
    let x5 = taylor_term(t, 5);
    assert(x5 == x4 * t / 5real);
    assert(x5 == 1real / 122880real) by (nonlinear_arith)
        requires
            x5 == x4 * t / 5real,
            x4 == 1real / 6144real,
            t == 1real / 4real,
    ;
    let x6 = taylor_term(t, 6);
    assert(x6 == x5 * t / 6real);
    assert(x6 == 1real / 2949120real) by (nonlinear_arith)
        requires
            x6 == x5 * t / 6real,
            x5 == 1real / 122880real,
            t == 1real / 4real,
    ;
    let x7 = taylor_term(t, 7);
    assert(x7 == x6 * t / 7real);
    assert(x7 == 1real / 82575360real) by (nonlinear_arith)
        requires
            x7 == x6 * t / 7real,
            x6 == 1real / 2949120real,
            t == 1real / 4real,
    ;
    let x8 = taylor_term(t, 8);
    assert(x8 == x7 * t / 8real);
    assert(x8 == 1real / 2642411520real) by (nonlinear_arith)
        requires
            x8 == x7 * t / 8real,
            x7 == 1real / 82575360real,
            t == 1real / 4real,
    ;
    let x9 = taylor_term(t, 9);
    assert(x9 == x8 * t / 9real);
    assert(x9 == 1real / 95126814720real) by (nonlinear_arith)
        requires
            x9 == x8 * t / 9real,
            x8 == 1real / 2642411520real,
            t == 1real / 4real,
    ;
    let x10 = taylor_term(t, 10);
    assert(x10 == x9 * t / 10real);
    assert(x10 == 1real / 3805072588800real) by (nonlinear_arith)
        requires
            x10 == x9 * t / 10real,
            x9 == 1real / 95126814720real,
            t == 1real / 4real,
    ;
    let x11 = taylor_term(t, 11);
    assert(x11 == x10 * t / 11real);
    assert(x11 == 1real / 167423193907200real) by (nonlinear_arith)
        requires
            x11 == x10 * t / 11real,
            x10 == 1real / 3805072588800real,
            t == 1real / 4real,
    ;
    let x12 = taylor_term(t, 12);
    assert(x12 == x11 * t / 12real);
    assert(x12 == 1real / 8036313307545600real) by (nonlinear_arith)
        requires
            x12 == x11 * t / 12real,
            x11 == 1real / 167423193907200real,
            t == 1real / 4real,
    ;
}

/// The series of what is left of the exponent, but for 8100 units below.
proof fn lemma_tail_series(tail: int)
    requires
        0 <= tail < 25_000_000_000_000_000_000,
    ensures
        ({
            let series = exp_series(tail, 2, tail, one20() + tail);
            &&& series >= one20()
            &&& ex(fine(tail - 8100)) <= (series as real) / t20() <= ex(fine(tail))
        }),
{
    let series = exp_series(tail, 2, tail, one20() + tail);
    let (x, sr) = (tail as real, series as real);
    let t = x / t20();
    let k = fine(tail);
    lemma_fine(tail);
    assert(at(k) == t);
    assert(taylor_term(t, 0) == 1real && taylor(t, 0) == 1real);
    assert(taylor_term(t, 1) == taylor_term(t, 0) * t / 1real);
    assert(taylor(t, 1) == taylor(t, 0) + taylor_term(t, 1));
    let (v, w) = (taylor_term(t, 1), taylor(t, 1));
    assert(v * t20() == x && w * t20() == t20() + x && 0real <= t <= 1real / 4real)
        by (nonlinear_arith)
        requires
            t == x / t20(),
            v == 1real * t / 1real,
            w == 1real + v,
            t20() == 100_000_000_000_000_000_000real,
            0real <= x < 25_000_000_000_000_000_000real,
    ;
    lemma_exp_series(tail, 2, tail, one20() + tail);
    lemma_grain();
    lemma_grain_is_small();
    lemma_twelfth_term();
    let c = 3real / 10_000_000_000_000_000real;
    lemma_taylor_below(k, 12);
    lemma_taylor_above(k, 12, 1real / 4real, c);
    lemma_fine(8100);
    lemma_ex_lower(fine(8100));
    lemma_ex_fine_add(tail - 8100, 8100);
    lemma_ex_inverse(0);
    assert(fine(0) == 0);
    lemma_ex_mono_fine(0, tail);
    let (e, f, m, y) = (ex(k), ex(fine(tail - 8100)), ex(fine(8100)), taylor(t, 12));
    let s = sr / t20();
    assert(s <= e) by (nonlinear_arith)
        requires
            s == sr / t20(),
            y * t20() - sr >= 0real,
            y <= e,
            t20() > 0real,
    {
        assert(s * t20() == sr);
    }
    assert(f <= s) by (nonlinear_arith)
        requires
            s == sr / t20(),
            t20() == 100_000_000_000_000_000_000real,
            y * t20() - sr <= 22real,
            e <= y + c * t,
            c == 3real / 10_000_000_000_000_000real,
            0real <= t <= 1real / 4real,
            f * m == e,
            m >= 1real + 8100real / 100_000_000_000_000_000_000real,
            e >= 1real,
            f > 0real,
    {
        assert(s * t20() == sr);
        let d = 76real / 1_000_000_000_000_000_000real;
        assert(c * t <= c * (1real / 4real));
        assert(s >= e - d);
        let u = 81real / 1_000_000_000_000_000_000real;
        assert(f * (1real + u) <= e);
        assert((e - d) * (1real + u) >= e);
        assert(f * (1real + u) <= (e - d) * (1real + u));
    }
}

/// The rounded products of the exponential from above, as plain numbers.
proof fn lemma_exp_upper_algebra(
    b: real,
    c: real,
    fr: real,
    pr: real,
    sr: real,
    qr: real,
    rr: real,
    pu: real,
    su: real,
    fu: real,
)
    requires
        b == pr / t20(),
        c == sr / t20(),
        qr * t20() <= pr * sr,
        rr * 100real <= qr * fr,
        0real < b <= pu,
        0real < c <= su,
        0real < fr <= fu,
    ensures
        rr <= t18() * ((pu * su) * fu),
{
    let t = t20();
    assert(t == 100real * t18());
    assert(qr <= t * (b * c)) by (nonlinear_arith)
        requires
            b == pr / t,
            c == sr / t,
            qr * t <= pr * sr,
            t > 0real,
    {
        assert(b * t == pr && c * t == sr);
        assert(pr * sr == (t * (b * c)) * t);
    }
    assert(b * c <= pu * su && b * c > 0real) by (nonlinear_arith)
        requires
            0real < b <= pu,
            0real < c <= su,
    ;
    let (x, y) = (b * c, pu * su);
    assert(rr <= t18() * (y * fu)) by (nonlinear_arith)
        requires
            rr * 100real <= qr * fr,
            qr <= t * x,
            t == 100real * t18(),
            t18() > 0real,
            0real < x <= y,
            0real < fr <= fu,
    {
        assert(qr * fr <= (t * x) * fr);
        assert(x * fr <= y * fu);
        assert((t * x) * fr == t * (x * fr));
        assert(t * (x * fr) <= t * (y * fu));
    }
}

/// The rounded products of the exponential from below, as plain numbers.
proof fn lemma_exp_lower_algebra(
    b: real,
    c: real,
    fr: real,
    pr: real,
    sr: real,
    qr: real,
    rr: real,
    pl: real,
    sl: real,
    fl: real,
    m1: real,
    m2: real,
    low: real,
)
    requires
        b == pr / t20(),
        c == sr / t20(),
        (pr * sr) / t20() <= qr * m1,
        (qr * fr) / 100real <= rr * m2,
        0real < pl <= b,
        0real < sl <= c,
        0real < fl <= fr,
        m1 > 0real,
        m2 > 0real,
        low * (m1 * m2) == (pl * sl) * fl,
    ensures
        rr >= t18() * low,
{
    let t = t20();
    assert(t == 100real * t18());
    let x = b * c;
    assert(t * x <= qr * m1) by (nonlinear_arith)
        requires
            b == pr / t,
            c == sr / t,
            x == b * c,
            (pr * sr) / t <= qr * m1,
            t > 0real,
    {
        assert(b * t == pr && c * t == sr);
        assert(pr * sr == (t * x) * t);
    }
    assert(pl * sl <= x && pl * sl > 0real) by (nonlinear_arith)
        requires
            x == b * c,
            0real < pl <= b,
            0real < sl <= c,
    ;
    let y = pl * sl;
    assert(rr >= t18() * low) by (nonlinear_arith)
        requires
            (qr * fr) / 100real <= rr * m2,
            t * x <= qr * m1,
            t == 100real * t18(),
            t18() > 0real,
            0real < y <= x,
            0real < fl <= fr,
            m1 > 0real,
            m2 > 0real,
            low * (m1 * m2) == y * fl,
    {
        assert(y * fl <= x * fr);
        assert((t * x) * fr <= (qr * m1) * fr);
        assert((qr * m1) * fr == (qr * fr) * m1);
        assert((qr * fr) * m1 <= (100real * (rr * m2)) * m1);
        assert((t * x) * fr == t * (x * fr));
        assert(t * (y * fl) <= t * (x * fr));
        assert(t * (low * (m1 * m2)) <= 100real * (rr * (m1 * m2)));
        assert((t18() * low) * (m1 * m2) <= rr * (m1 * m2));
        assert(m1 * m2 > 0real);
    }
}

/// The exponential of an exponent that is not negative, but for 17 units above and 8300 below.
proof fn lemma_exp_positive(x: int)
    requires
        0 <= x <= 130_000_000_000_000_000_000,
    ensures
        t18() * ex(fine(100 * x - 8300)) <= (exp_positive(x) as real) <= t18() * ex(
            fine(100 * x + 17),
        ),
        exp_positive(x) >= one18(),
{
    let (rest, first) = if x >= 128 * one18() {
        (x - 128 * one18(), a_0())
    } else if x >= 64 * one18() {
        (x - 64 * one18(), a_1())
    } else {
        (x, 1)
    };
    let out = 100 * (x - rest);
    lemma_factors(0);
    lemma_ex_inverse(0);
    assert(fine(0) == 0);
    lemma_ex_mono_fine(-1, 0);
    lemma_ex_mono_fine(0, 1);
    assert(ex(fine(out - 1)) <= (first as real) <= ex(fine(out + 1)));
    assert(first >= 1);
    let all = rest * 100;
    let (tail, product) = exp_decomposed(all);
    lemma_exp_decomposed(all);
    let series = exp_series(tail, 2, tail, one20() + tail);
    lemma_tail_series(tail);
    let q = (product * series) / one20();
    let result = (q * first) / 100;
    assert(result == exp_positive(x));
    let (pr, sr, qr, fr, rr) = (
        product as real,
        series as real,
        q as real,
        first as real,
        result as real,
    );
    assert(series >= one20());
    assert(q >= one20() && product * series >= 0) by (nonlinear_arith)
        requires
            q == (product * series) / one20(),
            product >= one20(),
            series >= one20(),
            one20() > 0,
    ;
    lemma_floor(product * series, one20());
    lemma_cast_mul(product, series);
    assert(q * first >= one20()) by (nonlinear_arith)
        requires
            q >= one20(),
            first >= 1,
            one20() > 0,
    ;
    lemma_floor(q * first, 100);
    lemma_cast_mul(q, first);
    assert(result >= one18());
    assert((pr * sr) / t20() <= qr + 1real) by (nonlinear_arith)
        requires
            pr * sr < (qr + 1real) * t20(),
            t20() > 0real,
    ;
    lemma_loss(qr, (pr * sr) / t20(), 1);
    lemma_loss(rr, (qr * fr) / 100real, 100);
    let (b, c) = (pr / t20(), sr / t20());
    let (pl, pu) = (ex(fine(all - tail - 16)), ex(fine(all - tail + 16)));
    let (sl, su) = (ex(fine(tail - 8100)), ex(fine(tail)));
    let (fl, fu) = (ex(fine(out - 1)), ex(fine(out + 1)));
    lemma_ex_fine_add(all - tail + 16, tail);
    lemma_ex_fine_add(all + 16, out + 1);
    assert(all + 16 + (out + 1) == 100 * x + 17);
    lemma_ex_fine_add(all - tail - 16, tail - 8100);
    lemma_ex_fine_add(all - 8116, out - 1);
    lemma_ex_fine_add(100 * x - 8117 - 101, 101);
    lemma_ex_fine_add(1, 100);
    lemma_ex_mono_fine(100 * x - 8300, 100 * x - 8117 - 101);
    assert(all - 8116 + (out - 1) == 100 * x - 8117);
    lemma_exp_upper_algebra(b, c, fr, pr, sr, qr, rr, pu, su, fu);
    lemma_exp_lower_algebra(
        b,
        c,
        fr,
        pr,
        sr,
        qr,
        rr,
        pl,
        sl,
        fl,
        ex(fine(1)),
        ex(fine(100)),
        ex(fine(100 * x - 8117 - 101)),
    );
}

/// The twelfth power of the largest argument of the series.
proof fn lemma_twelfth_power()
    ensures
        rpow(4real / 125real, 12) == 16777216real / 14551915228366851806640625real,
{
    let z = 4real / 125real;
    let p0 = rpow(z, 0);
    let p1 = rpow(z, 1);
    assert(p1 == z * p0);
    assert(p1 == 4real / 125real) by (nonlinear_arith)
        requires
            p1 == z * p0,
            p0 == 1real,
            z == 4real / 125real,
    ;
    let p2 = rpow(z, 2);
    assert(p2 == z * p1);
    assert(p2 == 16real / 15625real) by (nonlinear_arith)
        requires
            p2 == z * p1,
            p1 == 4real / 125real,
            z == 4real / 125real,
    ;
    let p3 = rpow(z, 3);
    assert(p3 == z * p2);
    assert(p3 == 64real / 1953125real) by (nonlinear_arith)
        requires
            p3 == z * p2,
            p2 == 16real / 15625real,
            z == 4real / 125real,
    ;
    let p4 = rpow(z, 4);
    assert(p4 == z * p3);
    assert(p4 == 256real / 244140625real) by (nonlinear_arith)
        requires
            p4 == z * p3,
            p3 == 64real / 1953125real,
            z == 4real / 125real,
    ;
    let p5 = rpow(z, 5);
    assert(p5 == z * p4);
    assert(p5 == 1024real / 30517578125real) by (nonlinear_arith)
        requires
            p5 == z * p4,
            p4 == 256real / 244140625real,
            z == 4real / 125real,
    ;
    let p6 = rpow(z, 6);
    assert(p6 == z * p5);
    assert(p6 == 4096real / 3814697265625real) by (nonlinear_arith)
        requires
            p6 == z * p5,
            p5 == 1024real / 30517578125real,
            z == 4real / 125real,
    ;
    let p7 = rpow(z, 7);
    assert(p7 == z * p6);
    assert(p7 == 16384real / 476837158203125real) by (nonlinear_arith)
        requires
            p7 == z * p6,
            p6 == 4096real / 3814697265625real,
            z == 4real / 125real,
    ;
    let p8 = rpow(z, 8);
    assert(p8 == z * p7);
    assert(p8 == 65536real / 59604644775390625real) by (nonlinear_arith)
        requires
            p8 == z * p7,
            p7 == 16384real / 476837158203125real,
            z == 4real / 125real,
    ;
    let p9 = rpow(z, 9);
    assert(p9 == z * p8);
    assert(p9 == 262144real / 7450580596923828125real) by (nonlinear_arith)
        requires
            p9 == z * p8,
            p8 == 65536real / 59604644775390625real,
            z == 4real / 125real,
    ;
    let p10 = rpow(z, 10);
    assert(p10 == z * p9);
    assert(p10 == 1048576real / 931322574615478515625real) by (nonlinear_arith)
        requires
            p10 == z * p9,
            p9 == 262144real / 7450580596923828125real,
            z == 4real / 125real,
    ;
    let p11 = rpow(z, 11);
    assert(p11 == z * p10);
    assert(p11 == 4194304real / 116415321826934814453125real) by (nonlinear_arith)
        requires
            p11 == z * p10,
            p10 == 1048576real / 931322574615478515625real,
            z == 4real / 125real,
    ;
    let p12 = rpow(z, 12);
    assert(p12 == z * p11);
    assert(p12 == 16777216real / 14551915228366851806640625real) by (nonlinear_arith)
        requires
            p12 == z * p11,
            p11 == 4194304real / 116415321826934814453125real,
            z == 4real / 125real,
    ;
}

// ---- the logarithm ----

/// What is left of `v`, 20 decimals, once the factors of the exponents `s` are taken out, but for
/// `err` units.
#[verifier::opaque]
spec fn is_split(v: real, cur: int, s: int, err: int) -> bool {
    ex(fine(s - err)) * ((cur as real) / t20()) <= v <= ex(fine(s + err)) * ((cur as real) / t20())
}

/// One more factor costs two units.
proof fn lemma_ln_step(v: real, cur: int, s: int, k: int, err: int)
    requires
        2 <= k <= 11,
        cur >= one20(),
        is_split(v, cur, s, err),
    ensures
        ({
            let (c, t) = ln_step(cur, s, k);
            is_split(v, c, t, err + 2) && c >= one20()
        }),
{
    reveal(is_split);
    let (c, t) = ln_step(cur, s, k);
    if cur >= a_n(k) {
        let a = a_n(k);
        assert(a >= one20());
        lemma_factors(k);
        lemma_split_by(v, cur, s, a, x_n(k), err, one20(), 1);
    } else {
        lemma_ex_mono_fine(s - err - 2, s - err);
        lemma_ex_mono_fine(s + err, s + err + 2);
        let w = (cur as real) / t20();
        let (l, m, n, u) = (
            ex(fine(s - err - 2)),
            ex(fine(s - err)),
            ex(fine(s + err)),
            ex(fine(s + err + 2)),
        );
        assert(l * w <= m * w && n * w <= u * w) by (nonlinear_arith)
            requires
                l <= m,
                n <= u,
                w == (cur as real) / t20(),
                cur as real >= 0real,
                t20() > 0real,
        ;
    }
}

/// A factor `f / unit` is taken out by a division that rounds down to at least `10^20 / loss`.
proof fn lemma_split_by(
    v: real,
    cur: int,
    s: int,
    f: int,
    x: int,
    err: int,
    unit: int,
    loss: int,
)
    requires
        unit > 0,
        f > 0,
        cur > 0,
        loss >= 1,
        ex(fine(x - 1)) <= (f as real) / (unit as real) <= ex(fine(x + 1)),
        is_split(v, cur, s, err),
        (((cur * unit) / f) * loss) >= one20(),
    ensures
        is_split(v, (cur * unit) / f, s + x, err + 1 + loss),
{
    reveal(is_split);
    let c = (cur * unit) / f;
    assert(cur * unit >= 0) by (nonlinear_arith)
        requires
            cur > 0,
            unit > 0,
    ;
    lemma_floor(cur * unit, f);
    lemma_cast_mul(cur, unit);
    lemma_cast_mul(c, loss);
    assert(c > 0) by (nonlinear_arith)
        requires
            c * loss >= one20(),
            loss >= 1,
            one20() > 0,
            c >= 0,
    ;
    let (ur, fr, cu, cr) = (unit as real, f as real, cur as real, c as real);
    // What the division gives without rounding.
    let w = (cu * ur) / fr;
    assert(cr <= w && w <= cr + 1real && w * (fr / ur) == cu) by (nonlinear_arith)
        requires
            w == (cu * ur) / fr,
            fr > 0real,
            ur > 0real,
            cr * fr <= cu * ur,
            cu * ur < (cr + 1real) * fr,
    {
        assert(w * fr == cu * ur);
        let g = fr / ur;
        assert(g * ur == fr);
        assert((w * g) * ur == cu * ur);
    }
    assert(cr * (loss as real) >= t20());
    lemma_loss(cr, w, loss);
    let a = fr / ur;
    lemma_ex_fine_add(s - err, x - 1);
    lemma_ex_fine_add(s + err, x + 1);
    lemma_ex_fine_add(s + err + (x + 1), loss);
    lemma_ex_mono_fine(s + x - (err + 1 + loss), s - err + (x - 1));
    lemma_ex_inverse(fine(s + x - (err + 1 + loss)));
    assert(s + err + (x + 1) + loss == s + x + (err + 1 + loss));
    let (l, u) = (ex(fine(s - err)), ex(fine(s + err)));
    let (al, au, m) = (ex(fine(x - 1)), ex(fine(x + 1)), ex(fine(loss)));
    let (low, lu, high) = (
        ex(fine(s + x - (err + 1 + loss))),
        ex(fine(s - err + (x - 1))),
        ex(fine(s + x + (err + 1 + loss))),
    );
    let (p, q) = (cu / t20(), cr / t20());
    assert(low * q <= v) by (nonlinear_arith)
        requires
            l * p <= v,
            p == cu / t20(),
            q == cr / t20(),
            t20() > 0real,
            w * a == cu,
            0real < cr <= w,
            0real < al <= a,
            l > 0real,
            lu == l * al,
            0real < low <= lu,
    {
        assert(p * t20() == cu && q * t20() == cr);
        assert(cr * al <= w * a);
        assert(q * al * t20() <= p * t20());
        assert(q * al <= p);
        assert(q > 0real);
        assert(l * (q * al) <= l * p);
        assert(low * q <= lu * q);
        assert(lu * q == l * (q * al));
    }
    assert(v <= high * q) by (nonlinear_arith)
        requires
            v <= u * p,
            p == cu / t20(),
            q == cr / t20(),
            t20() > 0real,
            w * a == cu,
            w <= cr * m,
            cr > 0real,
            w > 0real,
            0real < a <= au,
            u > 0real,
            m > 0real,
            high == (u * au) * m,
    {
        assert(p * t20() == cu && q * t20() == cr);
        assert(w * a <= (cr * m) * au);
        assert(p * t20() <= ((q * m) * au) * t20());
        assert(p <= (q * m) * au);
        assert(u * p <= u * ((q * m) * au));
        assert(u * ((q * m) * au) == ((u * au) * m) * q);
    }
}

/// Little is left of the argument once all factors are taken out.
proof fn lemma_ln_left(a1: int, s1: int)
    requires
        one20() <= a1 <= 624000000000000000000000000000000000000000000000int,
    ensures
        ln_decomposed(a1, s1).0 <= 106_600_000_000_000_000_000,
        ln_decomposed(a1, s1).1 >= s1,
{
    let (a2, s2) = ln_step(a1, s1, 2);
    assert(a2 <= 7902439302634765651225244747003499int);
    let (a3, s3) = ln_step(a2, s2, 3);
    assert(a3 <= 889302387630343506322095415int);
    let (a4, s4) = ln_step(a3, s3, 4);
    assert(a4 <= 298327715954453270672073int);
    let (a5, s5) = ln_step(a4, s4, 5);
    assert(a5 <= 5464062715922628691224int);
    let (a6, s6) = ln_step(a5, s5, 6);
    assert(a6 <= 739480475282004147922int);
    let (a7, s7) = ln_step(a6, s6, 7);
    assert(a7 <= 272039664003936252754int);
    let (a8, s8) = ln_step(a7, s7, 8);
    assert(a8 <= 165000396876310591091int);
    let (a9, s9) = ln_step(a8, s8, 9);
    assert(a9 <= 128502438294363274092int);
    let (a10, s10) = ln_step(a9, s9, 10);
    assert(a10 <= 113403003769343688132int);
    let (a11, s11) = ln_step(a10, s10, 11);
    assert(a11 <= 106532263103207293438int);
}

/// All factors taken out cost twenty units.
proof fn lemma_ln_decomposed(v: real, a1: int, s1: int, err: int)
    requires
        one20() <= a1,
        is_split(v, a1, s1, err),
    ensures
        ({
            let (d, s) = ln_decomposed(a1, s1);
            is_split(v, d, s, err + 20) && one20() <= d
        }),
{
    lemma_ln_step(v, a1, s1, 2, err + 0);
    let (a2, s2) = ln_step(a1, s1, 2);
    lemma_ln_step(v, a2, s2, 3, err + 2);
    let (a3, s3) = ln_step(a2, s2, 3);
    lemma_ln_step(v, a3, s3, 4, err + 4);
    let (a4, s4) = ln_step(a3, s3, 4);
    lemma_ln_step(v, a4, s4, 5, err + 6);
    let (a5, s5) = ln_step(a4, s4, 5);
    lemma_ln_step(v, a5, s5, 6, err + 8);
    let (a6, s6) = ln_step(a5, s5, 6);
    lemma_ln_step(v, a6, s6, 7, err + 10);
    let (a7, s7) = ln_step(a6, s6, 7);
    lemma_ln_step(v, a7, s7, 8, err + 12);
    let (a8, s8) = ln_step(a7, s7, 8);
    lemma_ln_step(v, a8, s8, 9, err + 14);
    let (a9, s9) = ln_step(a8, s8, 9);
    lemma_ln_step(v, a9, s9, 10, err + 16);
    let (a10, s10) = ln_step(a9, s9, 10);
    lemma_ln_step(v, a10, s10, 11, err + 18);
    let (a11, s11) = ln_step(a10, s10, 11);
}

/// The fixed-point series falls short of the real one by at most two units a term.
proof fn lemma_ln_series(z: int, zs: int, u: int, i: nat, count: nat, num: int, sum: int)
    requires
        u > 0,
        0 <= z,
        16 * z <= u,
        zs == (z * z) / u,
        1 <= i <= count + 1,
        num >= 0,
        16 * num <= u,
        0real <= rpow((z as real) / (u as real), (2 * i - 1) as nat) * (u as real) - (num as real)
            <= 2real,
        0real <= odd_series((z as real) / (u as real), (i - 1) as nat) * (u as real) - (
        sum as real) <= 2real * ((i - 1) as real),
    ensures
        ({
            let r = ln_series(zs, u, 2 * (i as int) + 1, 2 * (count as int) + 1, num, sum);
            &&& 0real <= odd_series((z as real) / (u as real), count) * (u as real) - (r as real)
                <= 2real * (count as real)
            &&& r >= sum
        }),
    decreases count + 1 - i,
{
    let (zi, ur) = (z as real, u as real);
    let t = zi / ur;
    if i <= count {
        let n = 2 * i + 1;
        assert(z * z >= 0 && num * zs >= 0 && zs >= 0 && zs <= z) by (nonlinear_arith)
            requires
                z >= 0,
                num >= 0,
                zs == (z * z) / u,
                u > 0,
                16 * z <= u,
        ;
        lemma_floor(z * z, u);
        lemma_cast_mul(z, z);
        lemma_floor(num * zs, u);
        lemma_cast_mul(num, zs);
        let next = (num * zs) / u;
        assert(next == quot(num * zs, u));
        lemma_floor(next, n as int);
        let step = next / (n as int);
        assert(step == quot(next, n as int));
        let (nr, sr, xr, pr, qr) = (num as real, zs as real, next as real, step as real, n as real);
        let p = rpow(t, (2 * i - 1) as nat);
        let q = rpow(t, (2 * i + 1) as nat);
        assert(rpow(t, (2 * i) as nat) == t * p);
        assert(q == t * rpow(t, (2 * i) as nat));
        assert(0real <= t <= 1real / 16real && t * ur == zi) by (nonlinear_arith)
            requires
                t == zi / ur,
                ur > 0real,
                zi >= 0real,
                16real * zi <= ur,
        ;
        assert(0real <= q * ur - xr <= 11real / 10real) by (nonlinear_arith)
            requires
                q == t * (t * p),
                0real <= t <= 1real / 16real,
                t * ur == zi,
                ur > 0real,
                0real <= p * ur - nr <= 2real,
                nr >= 0real,
                16real * nr <= ur,
                sr >= 0real,
                sr * ur <= zi * zi,
                zi * zi < (sr + 1real) * ur,
                xr * ur <= nr * sr,
                nr * sr < (xr + 1real) * ur,
        {
            let s = t * t;
            assert(s * ur * ur == zi * zi);
            assert(sr <= s * ur && s * ur < sr + 1real);
            let e = p * ur - nr;
            assert(q * ur == s * (nr + e));
            assert(0real <= s <= 1real / 256real);
            assert(0real <= s * e <= 2real / 256real);
            assert(s * nr * ur == nr * (s * ur));
            assert(nr * sr <= nr * (s * ur));
            assert(nr * (s * ur) <= nr * (sr + 1real));
            assert(xr * ur <= s * nr * ur);
            assert(s * nr * ur <= (xr + 1real) * ur + nr);
            assert(nr <= (1real / 16real) * ur);
            assert(s * nr * ur <= (xr + 17real / 16real) * ur);
            assert(xr <= s * nr && s * nr <= xr + 17real / 16real);
        }
        let (term, c) = (q / qr, odd_series(t, (i - 1) as nat));
        assert(odd_series(t, i) == c + term);
        assert(0real <= term * ur - pr <= 2real) by (nonlinear_arith)
            requires
                term == q / qr,
                qr >= 3real,
                0real <= q * ur - xr <= 2real,
                pr * qr <= xr,
                xr < (pr + 1real) * qr,
        {
            assert(term * qr == q);
            assert((term * ur) * qr == q * ur);
        }
        assert((c + term) * ur == c * ur + term * ur) by (nonlinear_arith);
        assert(16 * next <= u) by (nonlinear_arith)
            requires
                next == (num * zs) / u,
                16 * num <= u,
                0 <= zs <= z,
                16 * z <= u,
                u > 0,
                num >= 0,
        {
            assert(num * zs <= num * u);
            assert((num * zs) / u <= num);
        }
        lemma_ln_series(z, zs, u, i + 1, count, next, sum + step);
    }
}

/// The series of what is left of the argument, but for one unit above and 36 below.
proof fn lemma_ln_tail(d: int)
    requires
        one20() <= d <= 106_600_000_000_000_000_000,
    ensures
        ({
            let z = ((d - one20()) * one20()) / (d + one20());
            let r = ln_series((z * z) / one20(), one20(), 3, 11, z, z);
            &&& r >= 0
            &&& ex(fine(2 * r - 1)) <= (d as real) / t20() <= ex(fine(2 * r + 36))
        }),
{
    let t = one20();
    let z = ((d - t) * t) / (d + t);
    let zs = (z * z) / t;
    let r = ln_series(zs, t, 3, 11, z, z);
    lemma_floor((d - t) * t, d + t);
    let (dr, zi, rr) = (d as real, z as real, r as real);
    let (u, zr) = (t20(), zi / t20());
    let zeta = (dr - u) / (dr + u);
    assert(((d - t) * t) as real == (dr - u) * u) by {
        lemma_cast_mul(d - t, t);
    }
    assert(zr * u == zi && 0real <= zr <= zeta && zeta <= zr + 1real / u && zeta <= 4real / 125real
        && zeta * (dr + u) == dr - u) by (nonlinear_arith)
        requires
            u == 100_000_000_000_000_000_000real,
            zr == zi / u,
            zeta == (dr - u) / (dr + u),
            zi >= 0real,
            zi * (dr + u) <= (dr - u) * u,
            (dr - u) * u < (zi + 1real) * (dr + u),
            u <= dr <= 106_600_000_000_000_000_000real,
    {
        let w = dr + u;
        assert(w > 0real);
        assert(zr * u == zi);
        assert(zeta * w == dr - u);
        assert((zr * w) * u <= (zeta * w) * u);
        assert((zeta * u) * w < (zr * u + 1real) * w);
        assert(zeta * u < zr * u + 1real);
        assert(zeta * w <= (4real / 125real) * w);
    }
    assert(16 * z <= t);
    assert(rpow(zr, 1) == zr) by {
        assert(rpow(zr, 1) == zr * rpow(zr, 0));
        assert(zr * 1real == zr) by (nonlinear_arith);
    }
    assert(odd_series(zr, 0) == zr);
    lemma_ln_series(z, zs, t, 1, 5, z, z);
    let p = odd_series(zr, 5);
    if z == 0 {
        assert(zr == 0real);
        lemma_odd_of_zero(5);
        assert(0real * u == 0real);
        assert(r == 0);
        lemma_fine(36);
        lemma_ex_lower(fine(36));
        lemma_ex_mono_fine(-1, 0);
        lemma_ex_inverse(0);
        assert(fine(0) == 0);
        assert(dr / u >= 1real && dr / u <= 1real + 36real / u) by (nonlinear_arith)
            requires
                u == 100_000_000_000_000_000_000real,
                dr >= u,
                zeta * (dr + u) == dr - u,
                zeta <= 1real / u,
                dr <= 106_600_000_000_000_000_000real,
        {
            assert(zeta * (dr + u) <= (1real / u) * (dr + u));
            assert((1real / u) * (dr + u) <= 36real);
            assert(dr - u <= 36real);
        }
    } else {
        assert(zr >= 1real / u) by (nonlinear_arith)
            requires
                zr * u == zi,
                zi >= 1real,
                u > 0real,
        ;
        let rho = rpow(zr, 12);
        lemma_rpow_mono(zr, 4real / 125real, 12);
        lemma_twelfth_power();
        lemma_fine(2 * r - 1);
        lemma_fine(2 * r + 33);
        assert((2 * r - 1) as real == 2real * rr - 1real);
        assert((2 * r + 33) as real == 2real * rr + 33real);
        lemma_log(zr, 5, fine(2 * r - 1));
        lemma_log(zr, 5, fine(2 * r + 33));
        let tiny = 1real / 1_000_000_000_000_000_000_000_000_000_000_000_000_000real;
        assert((2real * rr - 1real) / u <= 2real * p - zr
            / 1_000_000_000_000_000_000_000_000_000_000_000_000_000real) by (nonlinear_arith)
            requires
                u == 100_000_000_000_000_000_000real,
                p * u - rr >= 0real,
                0real <= zr <= 1real,
        ;
        assert((2real * rr + 33real) / u >= 2real * p + (3real * rho + tiny) * zr)
            by (nonlinear_arith)
            requires
                u == 100_000_000_000_000_000_000real,
                p * u - rr <= 10real,
                0real <= zr <= 4real / 125real,
                0real <= rho,
                rho * 1_000_000_000_000_000_000real <= 2real,
                rho <= 1_153real / 1_000_000_000_000_000_000_000real,
                tiny == 1real / 1_000_000_000_000_000_000_000_000_000_000_000_000_000real,
        {
            assert((3real * rho + tiny) * zr <= (3real * rho + tiny) * (4real / 125real));
        }
        let (l, h) = (ex(fine(2 * r - 1)), ex(fine(2 * r + 33)));
        lemma_fine(3);
        lemma_ex_lower(fine(3));
        lemma_ex_fine_add(2 * r + 33, 3);
        lemma_ex_inverse(fine(2 * r - 1));
        let m = ex(fine(3));
        assert(l <= dr / u && dr / u <= h * m) by (nonlinear_arith)
            requires
                u == 100_000_000_000_000_000_000real,
                dr >= u,
                zeta * (dr + u) == dr - u,
                0real <= zr <= zeta,
                zeta <= zr + 1real / u,
                zeta <= 4real / 125real,
                l * (1real - zr) <= 1real + zr,
                h * (1real - zr) >= 1real + zr,
                l > 0real,
                h > 0real,
                m >= 1real + 3real / u,
        {
            let e = dr / u;
            assert(e * u == dr);
            assert((zeta * (e + 1real)) * u == (e - 1real) * u);
            assert(zeta * (e + 1real) == e - 1real);
            assert(e * (1real - zeta) == 1real + zeta);
            assert(l * (1real - zeta) <= l * (1real - zr));
            assert(l * (1real - zeta) <= e * (1real - zeta));
            let k = 1real + 3real / u;
            assert((1real + zeta) * (1real - zr) - (1real + zr) * (1real - zeta) == 2real * (zeta
                - zr));
            assert((1real + zr) * (1real - zeta) >= 9real / 10real);
            assert(((1real + zr) * (1real - zeta)) * k >= (1real + zr) * (1real - zeta) + 2real / u);
            assert((1real + zeta) * (1real - zr) <= ((1real + zr) * (1real - zeta)) * k);
            assert((e * (1real - zeta)) * (1real - zr) <= ((h * (1real - zr)) * (1real - zeta)) * k);
            let c = (1real - zeta) * (1real - zr);
            assert(c > 0real);
            assert(e * c <= (h * k) * c);
            assert(e <= h * k);
            assert(h * k <= h * m);
        }
    }
}

/// The two largest factors taken out cost 202 units.
proof fn lemma_ln_largest(a: int)
    requires
        one18() <= a < two255(),
    ensures
        ({
            let (b, t) = if a >= a_0() * one18() {
                (a / a_0(), 128 * one18())
            } else {
                (a, 0)
            };
            let (c, u) = if b >= a_1() * one18() {
                (b / a_1(), t + 64 * one18())
            } else {
                (b, t)
            };
            &&& is_split((a as real) / t18(), c * 100, u * 100, 202)
            &&& one18() <= c <= 6_240_000_000_000_000_000_000_000_000_000_000_000_000_000_000int
            &&& u >= 0
        }),
{
    let v = (a as real) / t18();
    let (b, t) = if a >= a_0() * one18() {
        (a / a_0(), 128 * one18())
    } else {
        (a, 0)
    };
    lemma_factors(0);
    lemma_itself(a);
    if a >= a_0() * one18() {
        lemma_split_whole(v, a, 0, a_0(), 12_800_000_000_000_000_000_000, 0);
    } else {
        lemma_wider(v, a * 100, 0, 0, 101);
    }
    assert(is_split(v, b * 100, t * 100, 101));
    assert(one18() <= b < a_0() * one18());
    if b >= a_1() * one18() {
        lemma_split_whole(v, b, t * 100, a_1(), 6_400_000_000_000_000_000_000, 101);
    } else {
        lemma_wider(v, b * 100, t * 100, 101, 202);
    }
}

/// The argument itself, with 20 decimals.
proof fn lemma_itself(a: int)
    ensures
        is_split((a as real) / t18(), a * 100, 0, 0),
{
    reveal(is_split);
    lemma_ex_inverse(0);
    assert(fine(0) == 0);
    lemma_cast_mul(a, 100);
    let (x, y) = ((a * 100) as real, a as real);
    let v = y / t18();
    assert(x / t20() == v && 1real * v == v) by (nonlinear_arith)
        requires
            x == y * 100real,
            v == y / t18(),
            t18() == 1_000_000_000_000_000_000real,
            t20() == 100_000_000_000_000_000_000real,
    ;
}

/// What is left of an argument, and the sum of the exponents taken out of it.
#[verifier::opaque]
spec fn taken_out(c: int, u: int) -> (int, int) {
    ln_decomposed(c * 100, u * 100)
}

/// The series of what is left.
#[verifier::opaque]
spec fn left_series(d: int) -> int {
    let z = ((d - one20()) * one20()) / (d + one20());
    ln_series((z * z) / one20(), one20(), 3, 11, z, z)
}

/// The argument without the two largest factors, and the exponents of these.
#[verifier::opaque]
spec fn without_largest(a: int) -> (int, int) {
    let (b, t) = if a >= a_0() * one18() {
        (a / a_0(), 128 * one18())
    } else {
        (a, 0)
    };
    if b >= a_1() * one18() {
        (b / a_1(), t + 64 * one18())
    } else {
        (b, t)
    }
}

/// The logarithm from its parts.
proof fn lemma_ln_is(a: int)
    ensures
        ({
            let (c, u) = without_largest(a);
            let (d, sum) = taken_out(c, u);
            ln_above_one(a) == (sum + left_series(d) * 2) / 100
        }),
{
    reveal(without_largest);
    reveal(taken_out);
    reveal(left_series);
}

/// What is known of an argument without its factors.
proof fn lemma_taken_out(v: real, c: int, u: int)
    requires
        is_split(v, c * 100, u * 100, 202),
        one18() <= c <= 6_240_000_000_000_000_000_000_000_000_000_000_000_000_000_000int,
        u >= 0,
    ensures
        ({
            let (d, sum) = taken_out(c, u);
            &&& is_split(v, d, sum, 222)
            &&& one20() <= d <= 106_600_000_000_000_000_000
            &&& sum >= 0
        }),
{
    reveal(taken_out);
    lemma_ln_decomposed(v, c * 100, u * 100, 202);
    lemma_ln_left(c * 100, u * 100);
}

/// The logarithm of an argument of at least one, but for 360 units.
proof fn lemma_ln_above_one(a: int)
    requires
        one18() <= a < two255(),
    ensures
        ln_above_one(a) >= 0,
        ex(fine(100 * ln_above_one(a) - 360)) <= (a as real) / t18() <= ex(
            fine(100 * ln_above_one(a) + 360),
        ),
{
    let v = (a as real) / t18();
    let result = ln_above_one(a);
    let (c, u) = without_largest(a);
    let (d, sum) = taken_out(c, u);
    assert(result == (sum + left_series(d) * 2) / 100) by {
        lemma_ln_is(a);
    }
    assert(is_split(v, c * 100, u * 100, 202) && u >= 0 && one18() <= c
        <= 6_240_000_000_000_000_000_000_000_000_000_000_000_000_000_000int) by {
        reveal(without_largest);
        lemma_ln_largest(a);
    }
    lemma_taken_out(v, c, u);
    let r = left_series(d);
    assert(r >= 0 && ex(fine(2 * r - 1)) <= (d as real) / t20() <= ex(fine(2 * r + 36))) by {
        reveal(left_series);
        lemma_ln_tail(d);
    }
    lemma_ln_join(v, d, sum, r, result);
}

/// The exponents taken out and the series of what is left, together.
proof fn lemma_ln_join(v: real, d: int, sum: int, r: int, result: int)
    requires
        is_split(v, d, sum, 222),
        ex(fine(2 * r - 1)) <= (d as real) / t20() <= ex(fine(2 * r + 36)),
        result == (sum + r * 2) / 100,
        sum >= 0,
        r >= 0,
    ensures
        result >= 0,
        ex(fine(100 * result - 360)) <= v <= ex(fine(100 * result + 360)),
{
    reveal(is_split);
    assert(100 * result <= sum + 2 * r <= 100 * result + 99);
    lemma_ex_fine_add(sum - 222, 2 * r - 1);
    lemma_ex_fine_add(sum + 222, 2 * r + 36);
    lemma_ex_mono_fine(100 * result - 360, sum - 222 + (2 * r - 1));
    lemma_ex_mono_fine(sum + 222 + (2 * r + 36), 100 * result + 360);
    let w = (d as real) / t20();
    let (sl, su) = (ex(fine(sum - 222)), ex(fine(sum + 222)));
    let (tl, tu) = (ex(fine(2 * r - 1)), ex(fine(2 * r + 36)));
    assert(sl * tl <= v && v <= su * tu) by (nonlinear_arith)
        requires
            sl * w <= v,
            v <= su * w,
            0real < tl <= w,
            w <= tu,
            sl > 0real,
            su > 0real,
    {
        assert(sl * tl <= sl * w);
        assert(su * w <= su * tu);
    }
}

/// A wider margin holds where a narrower one does.
proof fn lemma_wider(v: real, cur: int, s: int, err: int, more: int)
    requires
        cur >= 0,
        err <= more,
        is_split(v, cur, s, err),
    ensures
        is_split(v, cur, s, more),
{
    reveal(is_split);
    lemma_ex_mono_fine(s - more, s - err);
    lemma_ex_mono_fine(s + err, s + more);
    let w = (cur as real) / t20();
    let (l, m, n, u) = (
        ex(fine(s - more)),
        ex(fine(s - err)),
        ex(fine(s + err)),
        ex(fine(s + more)),
    );
    assert(l * w <= m * w && n * w <= u * w) by (nonlinear_arith)
        requires
            l <= m,
            n <= u,
            w == (cur as real) / t20(),
            cur as real >= 0real,
            t20() > 0real,
    ;
}

/// A factor without decimals is taken out of an argument with 18.
proof fn lemma_split_whole(v: real, b: int, s: int, f: int, x: int, err: int)
    requires
        f >= 1,
        b >= f * one18(),
        ex(fine(x - 1)) <= (f as real) <= ex(fine(x + 1)),
        is_split(v, b * 100, s, err),
    ensures
        is_split(v, (b / f) * 100, s + x, err + 101),
        b / f >= one18(),
{
    reveal(is_split);
    let c = b / f;
    assert(c >= one18() && b > 0) by (nonlinear_arith)
        requires
            c == b / f,
            b >= f * one18(),
            f >= 1,
            one18() > 0,
    ;
    let (br, fr, cr) = lemma_floor_parts(b, f);
    let (p, q) = (((b * 100) as real) / t20(), ((c * 100) as real) / t20());
    lemma_cast_mul(b, 100);
    lemma_cast_mul(c, 100);
    let w = br / fr;
    assert(cr <= w && w <= cr + 1real && w * fr == br) by (nonlinear_arith)
        requires
            w == br / fr,
            fr >= 1real,
            cr * fr <= br,
            br < (cr + 1real) * fr,
    {
        assert(w * fr == br);
    }
    lemma_loss(cr, w, 100);
    lemma_ex_fine_add(s - err, x - 1);
    lemma_ex_fine_add(s + err, x + 1);
    lemma_ex_fine_add(s + err + (x + 1), 100);
    lemma_ex_mono_fine(s + x - (err + 101), s - err + (x - 1));
    assert(s + err + (x + 1) + 100 == s + x + (err + 101));
    let (l, u) = (ex(fine(s - err)), ex(fine(s + err)));
    let (al, au, m) = (ex(fine(x - 1)), ex(fine(x + 1)), ex(fine(100)));
    let (low, lu, high) = (
        ex(fine(s + x - (err + 101))),
        ex(fine(s - err + (x - 1))),
        ex(fine(s + x + (err + 101))),
    );
    lemma_ex_inverse(fine(s + x - (err + 101)));
    let k = t18();
    assert(t20() == 100real * k && k > 0real);
    assert(p == br / k && q == cr / k) by (nonlinear_arith)
        requires
            p == (br * 100real) / t20(),
            q == (cr * 100real) / t20(),
            t20() == 100real * k,
            k > 0real,
    ;
    assert(low * q <= v) by (nonlinear_arith)
        requires
            l * p <= v,
            p == br / k,
            q == cr / k,
            k > 0real,
            w * fr == br,
            0real < cr <= w,
            0real < al <= fr,
            l > 0real,
            lu == l * al,
            0real < low <= lu,
    {
        assert(p * k == br && q * k == cr);
        assert(cr * al <= w * fr);
        assert((q * al) * k <= p * k);
        assert(q * al <= p);
        assert(q > 0real);
        assert(l * (q * al) <= l * p);
        assert(low * q <= lu * q);
        assert(lu * q == l * (q * al));
    }
    assert(v <= high * q) by (nonlinear_arith)
        requires
            v <= u * p,
            p == br / k,
            q == cr / k,
            k > 0real,
            w * fr == br,
            w <= cr * m,
            cr > 0real,
            w > 0real,
            0real < fr <= au,
            u > 0real,
            m > 0real,
            high == (u * au) * m,
    {
        assert(p * k == br && q * k == cr);
        assert(w * fr <= (cr * m) * au);
        assert(p * k <= ((q * m) * au) * k);
        assert(p <= (q * m) * au);
        assert(u * p <= u * ((q * m) * au));
        assert(u * ((q * m) * au) == ((u * au) * m) * q);
    }
}

/// The sixteenth power of the largest argument of the series.
proof fn lemma_sixteenth_power()
    ensures
        rpow(53real / 1000real, 16) == 3876269050118516845397872321real / 1000000000000000000000000000000000000000000000000real,
{
    let z = 53real / 1000real;
    let p0 = rpow(z, 0);
    let p1 = rpow(z, 1);
    assert(p1 == z * p0);
    assert(p1 == 53real / 1000real) by (nonlinear_arith)
        requires
            p1 == z * p0,
            p0 == 1real,
            z == 53real / 1000real,
    ;
    let p2 = rpow(z, 2);
    assert(p2 == z * p1);
    assert(p2 == 2809real / 1000000real) by (nonlinear_arith)
        requires
            p2 == z * p1,
            p1 == 53real / 1000real,
            z == 53real / 1000real,
    ;
    let p3 = rpow(z, 3);
    assert(p3 == z * p2);
    assert(p3 == 148877real / 1000000000real) by (nonlinear_arith)
        requires
            p3 == z * p2,
            p2 == 2809real / 1000000real,
            z == 53real / 1000real,
    ;
    let p4 = rpow(z, 4);
    assert(p4 == z * p3);
    assert(p4 == 7890481real / 1000000000000real) by (nonlinear_arith)
        requires
            p4 == z * p3,
            p3 == 148877real / 1000000000real,
            z == 53real / 1000real,
    ;
    let p5 = rpow(z, 5);
    assert(p5 == z * p4);
    assert(p5 == 418195493real / 1000000000000000real) by (nonlinear_arith)
        requires
            p5 == z * p4,
            p4 == 7890481real / 1000000000000real,
            z == 53real / 1000real,
    ;
    let p6 = rpow(z, 6);
    assert(p6 == z * p5);
    assert(p6 == 22164361129real / 1000000000000000000real) by (nonlinear_arith)
        requires
            p6 == z * p5,
            p5 == 418195493real / 1000000000000000real,
            z == 53real / 1000real,
    ;
    let p7 = rpow(z, 7);
    assert(p7 == z * p6);
    assert(p7 == 1174711139837real / 1000000000000000000000real) by (nonlinear_arith)
        requires
            p7 == z * p6,
            p6 == 22164361129real / 1000000000000000000real,
            z == 53real / 1000real,
    ;
    let p8 = rpow(z, 8);
    assert(p8 == z * p7);
    assert(p8 == 62259690411361real / 1000000000000000000000000real) by (nonlinear_arith)
        requires
            p8 == z * p7,
            p7 == 1174711139837real / 1000000000000000000000real,
            z == 53real / 1000real,
    ;
    let p9 = rpow(z, 9);
    assert(p9 == z * p8);
    assert(p9 == 3299763591802133real / 1000000000000000000000000000real) by (nonlinear_arith)
        requires
            p9 == z * p8,
            p8 == 62259690411361real / 1000000000000000000000000real,
            z == 53real / 1000real,
    ;
    let p10 = rpow(z, 10);
    assert(p10 == z * p9);
    assert(p10 == 174887470365513049real / 1000000000000000000000000000000real) by (nonlinear_arith)
        requires
            p10 == z * p9,
            p9 == 3299763591802133real / 1000000000000000000000000000real,
            z == 53real / 1000real,
    ;
    let p11 = rpow(z, 11);
    assert(p11 == z * p10);
    assert(p11 == 9269035929372191597real / 1000000000000000000000000000000000real) by (nonlinear_arith)
        requires
            p11 == z * p10,
            p10 == 174887470365513049real / 1000000000000000000000000000000real,
            z == 53real / 1000real,
    ;
    let p12 = rpow(z, 12);
    assert(p12 == z * p11);
    assert(p12 == 491258904256726154641real / 1000000000000000000000000000000000000real) by (nonlinear_arith)
        requires
            p12 == z * p11,
            p11 == 9269035929372191597real / 1000000000000000000000000000000000real,
            z == 53real / 1000real,
    ;
    let p13 = rpow(z, 13);
    assert(p13 == z * p12);
    assert(p13 == 26036721925606486195973real / 1000000000000000000000000000000000000000real) by (nonlinear_arith)
        requires
            p13 == z * p12,
            p12 == 491258904256726154641real / 1000000000000000000000000000000000000real,
            z == 53real / 1000real,
    ;
    let p14 = rpow(z, 14);
    assert(p14 == z * p13);
    assert(p14 == 1379946262057143768386569real / 1000000000000000000000000000000000000000000real) by (nonlinear_arith)
        requires
            p14 == z * p13,
            p13 == 26036721925606486195973real / 1000000000000000000000000000000000000000real,
            z == 53real / 1000real,
    ;
    let p15 = rpow(z, 15);
    assert(p15 == z * p14);
    assert(p15 == 73137151889028619724488157real / 1000000000000000000000000000000000000000000000real) by (nonlinear_arith)
        requires
            p15 == z * p14,
            p14 == 1379946262057143768386569real / 1000000000000000000000000000000000000000000real,
            z == 53real / 1000real,
    ;
    let p16 = rpow(z, 16);
    assert(p16 == z * p15);
    assert(p16 == 3876269050118516845397872321real / 1000000000000000000000000000000000000000000000000real) by (nonlinear_arith)
        requires
            p16 == z * p15,
            p15 == 73137151889028619724488157real / 1000000000000000000000000000000000000000000000real,
            z == 53real / 1000real,
    ;
}

// ---- the logarithm near one ----

/// `s` units of `10^-36` in grains.
spec fn finest(s: int) -> int {
    s * 1_000_000_000_000_000_000_000_000_000_000_000_000_000_000_000_000_000_000_000_000_000_000_000_000_000_000_000_000int
}

/// 10^36 as a real number.
spec fn t36() -> real {
    1_000_000_000_000_000_000_000_000_000_000_000_000real
}

/// Units of `10^-36` as a number.
proof fn lemma_finest(s: int)
    ensures
        at(finest(s)) == (s as real) / t36(),
{
    lemma_grain();
    let (x, g) = (s as real, grain());
    let m = 1_000_000_000_000_000_000_000_000_000_000_000_000_000_000_000_000_000_000_000_000_000_000_000_000_000_000_000_000real;
    assert(finest(s) as real == x * m);
    let n = grains() as real;
    assert(n == m * t36());
    assert((x * m) * g == x / t36()) by (nonlinear_arith)
        requires
            g * n == 1real,
            n == m * t36(),
            t36() > 0real,
    {
        assert((g * m) * t36() == 1real);
        assert((x * m) * g == x * (g * m));
    }
}

/// Sums of the finest units are sums of grains.
proof fn lemma_ex_finest_add(a: int, b: int)
    ensures
        ex(finest(a + b)) == ex(finest(a)) * ex(finest(b)),
        ex(finest(a)) > 0real,
        ex(finest(b)) > 0real,
{
    lemma_ex_add(finest(a), finest(b));
    lemma_ex_inverse(finest(a));
    lemma_ex_inverse(finest(b));
    assert(finest(a) + finest(b) == finest(a + b));
}

/// The margin of a logarithm near one whose half is `r`.
spec fn near_margin(r: int) -> int {
    34 + r / 10_000_000_000_000_000_000
}

/// The series of `num / den`: the exponential of its double is `(den + num) / (den - num)`, but for
/// one unit above and [`near_margin`] below.
proof fn lemma_near_series(num: int, den: int)
    requires
        1_900_000_000_000_000_000_000_000_000_000_000_000 <= den
            <= 2_100_000_000_000_000_000_000_000_000_000_000_000,
        one18() <= num,
        1000 * num <= 53 * den,
    ensures
        ({
            let z = (num * one36()) / den;
            let r = ln_series((z * z) / one36(), one36(), 3, 15, z, z);
            let zeta = (num as real) / (den as real);
            &&& r >= 470_000_000_000_000_000
            &&& ex(finest(2 * r - 1)) * (1real - zeta) <= 1real + zeta
            &&& 1real + zeta <= ex(finest(2 * r + near_margin(r))) * (1real - zeta)
        }),
{
    let u = one36();
    let z = (num * u) / den;
    let zs = (z * z) / u;
    let r = ln_series(zs, u, 3, 15, z, z);
    assert(z >= 470_000_000_000_000_000) by (nonlinear_arith)
        requires
            z == (num * u) / den,
            num >= one18(),
            0 < den <= 2_100_000_000_000_000_000_000_000_000_000_000_000,
            u == 1_000_000_000_000_000_000_000_000_000_000_000_000,
            one18() == 1_000_000_000_000_000_000,
    {
        assert(num * u >= 470_000_000_000_000_000 * den);
    }
    assert(num * u >= 0);
    let (nu, dr, zi) = lemma_floor_parts(num * u, den);
    let (nr, rr, ur, zr) = (num as real, r as real, t36(), zi / t36());
    lemma_cast_mul(num, u);
    let zeta = nr / dr;
    assert(zr * ur == zi && 0real <= zr <= zeta && zeta <= zr + 1real / ur && zeta <= 53real
        / 1000real && zeta * dr == nr) by (nonlinear_arith)
        requires
            ur == 1_000_000_000_000_000_000_000_000_000_000_000_000real,
            zr == zi / ur,
            zeta == nr / dr,
            zi >= 0real,
            zi * dr <= nr * ur,
            nr * ur < (zi + 1real) * dr,
            dr > 0real,
            1000real * nr <= 53real * dr,
    {
        assert(zr * ur == zi);
        assert(zeta * dr == nr);
        assert((zr * dr) * ur <= (zeta * dr) * ur);
        assert((zeta * ur) * dr < (zr * ur + 1real) * dr);
        assert(zeta * ur < zr * ur + 1real);
        assert(zeta * dr <= (53real / 1000real) * dr);
    }
    assert(16 * z <= u);
    assert(rpow(zr, 1) == zr) by {
        assert(rpow(zr, 1) == zr * rpow(zr, 0));
        assert(zr * 1real == zr) by (nonlinear_arith);
    }
    assert(odd_series(zr, 0) == zr);
    assert((z as real) / (u as real) == zr);
    lemma_ln_series(z, zs, u, 1, 7, z, z);
    let p = odd_series(zr, 7);
    assert(zr >= 1real / t20()) by (nonlinear_arith)
        requires
            zr * ur == zi,
            zi >= 470_000_000_000_000_000real,
            ur == 1_000_000_000_000_000_000_000_000_000_000_000_000real,
            t20() == 100_000_000_000_000_000_000real,
    ;
    let rho = rpow(zr, 16);
    lemma_rpow_mono(zr, 53real / 1000real, 16);
    lemma_sixteenth_power();
    let q = r / 10_000_000_000_000_000_000;
    let qr = q as real;
    assert(rr < (qr + 1real) * 10_000_000_000_000_000_000real);
    let (kl, kh) = (2 * r - 1, 2 * r + 30 + q);
    lemma_finest(kl);
    lemma_finest(kh);
    assert(kl as real == 2real * rr - 1real);
    assert(kh as real == 2real * rr + 30real + qr);
    lemma_log(zr, 7, finest(kl));
    lemma_log(zr, 7, finest(kh));
    let tiny = 1real / 1_000_000_000_000_000_000_000_000_000_000_000_000_000real;
    assert((2real * rr - 1real) / ur <= 2real * p - zr
        / 1_000_000_000_000_000_000_000_000_000_000_000_000_000real) by (nonlinear_arith)
        requires
            ur == 1_000_000_000_000_000_000_000_000_000_000_000_000real,
            p * ur - rr >= 0real,
            0real <= zr <= 1real,
    ;
    assert((2real * rr + 30real + qr) / ur >= 2real * p + (3real * rho + tiny) * zr)
        by (nonlinear_arith)
        requires
            ur == 1_000_000_000_000_000_000_000_000_000_000_000_000real,
            p * ur - rr <= 14real,
            zr * ur == zi,
            0real <= zi <= rr,
            0real <= rho <= 4real / 1_000_000_000_000_000_000_000real,
            tiny == 1real / 1_000_000_000_000_000_000_000_000_000_000_000_000_000real,
            rr < (qr + 1real) * 10_000_000_000_000_000_000real,
    {
        let c = 3real * rho + tiny;
        assert(0real <= c <= 1real / 10_000_000_000_000_000_000real);
        assert((c * zr) * ur == c * zi);
        assert(c * zi <= (1real / 10_000_000_000_000_000_000real) * rr);
        assert((c * zr) * ur <= qr + 1real);
        assert((2real * p + c * zr) * ur <= 2real * rr + 29real + qr);
    }
    let (l, h) = (ex(finest(kl)), ex(finest(kh)));
    lemma_finest(3);
    lemma_ex_lower(finest(3));
    lemma_ex_finest_add(kh, 3);
    lemma_ex_inverse(finest(kl));
    lemma_ex_finest_add(kh + 3, 1);
    lemma_finest(1);
    lemma_ex_lower(finest(1));
    let (m, o, g) = (ex(finest(3)), ex(finest(1)), ex(finest(kh + 3)));
    assert(kh + 3 + 1 == 2 * r + near_margin(r));
    lemma_near_algebra(l, h, m, o, g, zr, zeta, ur);
}

/// From the rounded argument of the logarithm to the exact one, as plain numbers.
proof fn lemma_near_algebra(
    l: real,
    h: real,
    m: real,
    o: real,
    g: real,
    zr: real,
    zeta: real,
    ur: real,
)
    requires
        ur == t36(),
        0real <= zr <= zeta,
        zeta <= zr + 1real / ur,
        zeta <= 53real / 1000real,
        l * (1real - zr) <= 1real + zr,
        h * (1real - zr) >= 1real + zr,
        l > 0real,
        h > 0real,
        m >= 1real + 3real / ur,
        o >= 1real,
        g == h * m,
    ensures
        l * (1real - zeta) <= 1real + zeta,
        1real + zeta <= (g * o) * (1real - zeta),
{
    assert(l * (1real - zeta) <= 1real + zeta) by (nonlinear_arith)
        requires
            l * (1real - zr) <= 1real + zr,
            l > 0real,
            0real <= zr <= zeta,
    ;
    assert(1real + zeta <= (g * o) * (1real - zeta)) by (nonlinear_arith)
        requires
            ur == 1_000_000_000_000_000_000_000_000_000_000_000_000real,
            0real <= zr <= zeta,
            zeta <= zr + 1real / ur,
            zeta <= 53real / 1000real,
            h * (1real - zr) >= 1real + zr,
            h > 0real,
            m >= 1real + 3real / ur,
            o >= 1real,
            g == h * m,
    {
        let k = 1real + 3real / ur;
        assert((1real + zeta) * (1real - zr) - (1real + zr) * (1real - zeta) == 2real * (zeta - zr));
        assert((1real + zr) * (1real - zeta) >= 9real / 10real);
        assert(((1real + zr) * (1real - zeta)) * k >= (1real + zr) * (1real - zeta) + 2real / ur);
        assert((1real + zeta) * (1real - zr) <= ((1real + zr) * (1real - zeta)) * k);
        assert(((1real + zr) * (1real - zeta)) * k <= ((h * (1real - zr)) * (1real - zeta)) * k);
        assert((1real + zeta) * (1real - zr) <= ((h * k) * (1real - zeta)) * (1real - zr));
        assert(1real + zeta <= (h * k) * (1real - zeta));
        assert(h * k <= h * m);
        assert(g > 0real);
        assert(g <= g * o);
        assert(h * k <= g * o);
    }
}

/// The series is odd.
proof fn lemma_ln_series_odd(zs: int, u: int, n: int, last: int, num: int, sum: int)
    requires
        u > 0,
        n > 0,
        zs >= 0,
        num >= 0,
    ensures
        ln_series(zs, u, n, last, -num, -sum) == -ln_series(zs, u, n, last, num, sum),
    decreases last + 2 - n,
{
    if n <= last {
        assert((-num) * zs == -(num * zs) && num * zs >= 0) by (nonlinear_arith)
            requires
                num >= 0,
                zs >= 0,
        ;
        let next = quot(num * zs, u);
        assert(next >= 0) by (nonlinear_arith)
            requires
                next == (num * zs) / u,
                num * zs >= 0,
                u > 0,
        ;
        lemma_quot_odd(num * zs, u);
        lemma_quot_odd(next, n);
        lemma_ln_series_odd(zs, u, n + 2, last, next, sum + quot(next, n));
    }
}

/// Rounding toward zero is odd.
proof fn lemma_quot_odd(a: int, b: int)
    requires
        a >= 0,
        b > 0,
    ensures
        quot(-a, b) == -quot(a, b),
{
    if a == 0 {
        assert(0int / b == 0) by (nonlinear_arith)
            requires
                b > 0,
        ;
    }
}

/// What the logarithm near one says of `x`: the grains between which it lies.
proof fn lemma_ln_near(x: int) -> (e: int)
    requires
        is_near_one(x),
        x != one18(),
    ensures
        e >= 0,
        ({
            let p = ln_near_one(x);
            &&& p != 0
            &&& e * 20_000_000_000_000_000 <= (if p < 0 {
                -p
            } else {
                p
            })
            &&& ex(finest(p - e)) <= (x as real) / t18() <= ex(finest(p + e))
        }),
{
    let u = one36();
    let y = x * one18();
    let den = y + u;
    let num = if x > one18() {
        y - u
    } else {
        u - y
    };
    let z = (num * u) / den;
    let zs = (z * z) / u;
    let r = ln_series(zs, u, 3, 15, z, z);
    lemma_near_series(num, den);
    let e = near_margin(r);
    let p = ln_near_one(x);
    assert(z >= 0) by (nonlinear_arith)
        requires
            z == (num * u) / den,
            num >= 0,
            u > 0,
            den > 0,
    ;
    assert(z * z >= 0 && (-z) * (-z) == z * z) by (nonlinear_arith);
    assert(zs >= 0) by (nonlinear_arith)
        requires
            zs == (z * z) / u,
            z * z >= 0,
            u > 0,
    ;
    assert(num * u >= 0);
    if x > one18() {
        assert((y - u) * u == num * u);
        assert(quot((y - u) * u, den) == z);
        assert(p == 2 * r);
    } else {
        assert((y - u) * u == -(num * u)) by (nonlinear_arith)
            requires
                num == u - y,
        ;
        lemma_quot_odd(num * u, den);
        assert(quot((y - u) * u, den) == -z);
        lemma_ln_series_odd(zs, u, 3, 15, z, z);
        assert(p == -2 * r);
    }
    let (xr, nr, dr) = (x as real, num as real, den as real);
    let zeta = nr / dr;
    let v = xr / t18();
    lemma_ex_inverse(finest(2 * r + e));
    lemma_ex_inverse(finest(2 * r - 1));
    assert(finest(-(2 * r + e)) == -finest(2 * r + e));
    assert(finest(-(2 * r - 1)) == -finest(2 * r - 1));
    let (l, h) = (ex(finest(2 * r - 1)), ex(finest(2 * r + e)));
    let (li, hi) = (ex(finest(-(2 * r - 1))), ex(finest(-(2 * r + e))));
    assert(nr == (if x > one18() {
        xr - t18()
    } else {
        t18() - xr
    }) * t18() && dr == (xr + t18()) * t18()) by {
        assert(y as real == xr * t18());
        assert((xr - t18()) * t18() == xr * t18() - t18() * t18() && (t18() - xr) * t18() == t18()
            * t18() - xr * t18() && (xr + t18()) * t18() == xr * t18() + t18() * t18())
            by (nonlinear_arith);
    }
    if x > one18() {
        assert(v * (1real - zeta) == 1real + zeta && zeta < 1real && zeta >= 0real)
            by (nonlinear_arith)
            requires
                v == xr / t18(),
                zeta == nr / dr,
                nr == (xr - t18()) * t18(),
                dr == (xr + t18()) * t18(),
                xr > t18(),
                t18() > 0real,
        {
            assert(v * t18() == xr && v > 1real);
            assert(dr > 0real);
            assert(zeta * dr == nr);
            let s = t18() * t18();
            assert(nr == (v - 1real) * s && dr == (v + 1real) * s);
            assert((zeta * (v + 1real)) * s == (v - 1real) * s);
            assert(s > 0real);
            assert(zeta * (v + 1real) == v - 1real);
        }
        lemma_ends(l, h, v, zeta);
        lemma_ex_mono_finest(p - e, 2 * r - 1);
    } else {
        assert(v * (1real + zeta) == 1real - zeta && 0real <= zeta < 1real && v > 0real)
            by (nonlinear_arith)
            requires
                v == xr / t18(),
                zeta == nr / dr,
                nr == (t18() - xr) * t18(),
                dr == (xr + t18()) * t18(),
                0real < xr < t18(),
                t18() > 0real,
        {
            assert(v * t18() == xr && 0real < v < 1real);
            assert(dr > 0real);
            assert(zeta * dr == nr);
            let s = t18() * t18();
            assert(nr == (1real - v) * s && dr == (v + 1real) * s);
            assert((zeta * (v + 1real)) * s == (1real - v) * s);
            assert(s > 0real);
            assert(zeta * (v + 1real) == 1real - v);
        }
        assert(hi <= v && v <= li) by (nonlinear_arith)
            requires
                v * (1real + zeta) == 1real - zeta,
                0real <= zeta < 1real,
                v > 0real,
                l * (1real - zeta) <= 1real + zeta,
                1real + zeta <= h * (1real - zeta),
                l * li == 1real,
                h * hi == 1real,
                l > 0real,
                h > 0real,
        {
            assert(l * (v * (1real + zeta)) <= 1real + zeta);
            assert((l * v) * (1real + zeta) <= 1real + zeta);
            assert(l * v <= 1real);
            assert(l * v <= l * li);
            assert(1real + zeta <= (h * v) * (1real + zeta));
            assert(h * v >= 1real);
            assert(h * hi <= h * v);
        }
        lemma_ex_mono_finest(-(2 * r - 1), p + e);
    }
    e
}

/// Bounds of `(1 + zeta) / (1 - zeta)`.
proof fn lemma_ends(l: real, h: real, v: real, zeta: real)
    by (nonlinear_arith)
    requires
        v * (1real - zeta) == 1real + zeta,
        zeta < 1real,
        l * (1real - zeta) <= 1real + zeta,
        1real + zeta <= h * (1real - zeta),
    ensures
        l <= v <= h,
{
}

/// More of the finest units are more.
proof fn lemma_ex_mono_finest(a: int, b: int)
    requires
        a <= b,
    ensures
        ex(finest(a)) <= ex(finest(b)),
{
    assert(finest(a) <= finest(b));
    lemma_ex_mono(finest(a), finest(b));
}

// ---- powers ----

/// A logarithm below nine hundredths belongs to an argument below eleven tenths.
proof fn lemma_log_of_more(v: real, k: int)
    requires
        v >= 11real / 10real,
        v <= ex(fine(k)),
    ensures
        k >= 9_000_000_000_000_000_000,
{
    if k < 9_000_000_000_000_000_000 {
        lemma_fine(k);
        lemma_ex_upper(fine(k));
        let (e, t) = (ex(fine(k)), at(fine(k)));
        assert(t < 9real / 100real) by (nonlinear_arith)
            requires
                t == (k as real) / 100_000_000_000_000_000_000real,
                (k as real) < 9_000_000_000_000_000_000real,
        ;
        assert(false) by (nonlinear_arith)
            requires
                e * (1real - t) <= 1real,
                t < 9real / 100real,
                e >= 11real / 10real,
        ;
    }
}

/// The logarithm away from one, but for 460 units; it is not small.
proof fn lemma_ln_wide(x: int)
    requires
        0 < x < two255(),
        !is_near_one(x),
    ensures
        ({
            let r = ln_wide(x);
            &&& r >= 89_000_000_000_000_000 || r <= -89_000_000_000_000_000
            &&& ex(fine(100 * r - 460)) <= (x as real) / t18() <= ex(fine(100 * r + 460))
        }),
{
    let xr = x as real;
    let v = xr / t18();
    if x >= one18() {
        lemma_ln_above_one(x);
        let r = ln_above_one(x);
        lemma_ex_mono_fine(100 * r - 460, 100 * r - 360);
        lemma_ex_mono_fine(100 * r + 360, 100 * r + 460);
        assert(v >= 11real / 10real) by (nonlinear_arith)
            requires
                v == xr / t18(),
                t18() == 1_000_000_000_000_000_000real,
                xr >= 1_100_000_000_000_000_000real,
        ;
        lemma_log_of_more(v, 100 * r + 360);
    } else {
        let a = one36() / x;
        assert(one18() <= a && a >= 1_100_000_000_000_000_000 && a <= one36()) by (nonlinear_arith)
            requires
                a == one36() / x,
                0 < x <= 900_000_000_000_000_000,
                one36() == 1_000_000_000_000_000_000_000_000_000_000_000_000,
                one18() == 1_000_000_000_000_000_000,
        ;
        assert(one36() < two255());
        lemma_ln_above_one(a);
        let r = ln_above_one(a);
        let (tr, br, ar) = lemma_floor_parts(one36(), x);
        let w = ar / t18();
        assert(w >= 11real / 10real) by (nonlinear_arith)
            requires
                w == ar / t18(),
                t18() == 1_000_000_000_000_000_000real,
                ar >= 1_100_000_000_000_000_000real,
        ;
        lemma_log_of_more(w, 100 * r + 360);
        // The inverse without rounding.
        let i = tr / xr;
        assert(ar <= i && i <= ar + 1real && i * xr == tr) by (nonlinear_arith)
            requires
                i == tr / xr,
                xr > 0real,
                ar * xr <= tr,
                tr < (ar + 1real) * xr,
        ;
        lemma_loss(ar, i, 100);
        lemma_ex_fine_add(100 * r + 360, 100);
        lemma_ex_inverse(fine(100 * r + 460));
        lemma_ex_inverse(fine(100 * r - 360));
        assert(fine(-(100 * r + 460)) == -fine(100 * r + 460));
        assert(fine(-(100 * r - 360)) == -fine(100 * r - 360));
        let (l, h) = (ex(fine(100 * r - 360)), ex(fine(100 * r + 460)));
        let (li, hi) = (ex(fine(-(100 * r - 360))), ex(fine(-(100 * r + 460))));
        let (m, g) = (ex(fine(100)), ex(fine(100 * r + 360)));
        assert(100 * r + 360 + 100 == 100 * r + 460);
        assert(hi <= v && v <= li) by (nonlinear_arith)
            requires
                v == xr / t18(),
                w == ar / t18(),
                t18() == 1_000_000_000_000_000_000real,
                tr == t18() * t18(),
                i * xr == tr,
                0real < ar <= i,
                i <= ar * m,
                l <= w,
                w <= g,
                h == g * m,
                l * li == 1real,
                h * hi == 1real,
                l > 0real,
                h > 0real,
                m > 0real,
                xr > 0real,
        {
            let s = t18();
            assert(v * s == xr && w * s == ar);
            let j = i / s;
            assert(j * s == i);
            assert((j * v) * (s * s) == s * s);
            assert(j * v == 1real);
            assert(w * s <= j * s);
            assert(l <= j);
            assert(v > 0real);
            assert(l * v <= j * v);
            assert(l * v <= l * li);
            assert(j * s <= (w * m) * s);
            assert(j <= g * m);
            assert(h * v >= j * v);
            assert(h * hi <= h * v);
        }
        assert(ln_wide(x) == -r);
        lemma_ex_mono_fine(-(100 * r - 360), 100 * (-r) + 460);
        assert(-(100 * r + 460) == 100 * (-r) - 460);
    }
}

/// The exponential of an exponent in range, but for 8300 units; it is not zero.
proof fn lemma_exp_value(x: int)
    requires
        is_natural_exponent(x),
    ensures
        exp_value(x) >= 1,
        (exp_value(x) as real) <= t18() * ex(fine(100 * x + 8300)),
        (exp_value(x) as real) + 1real >= t18() * ex(fine(100 * x - 8300)),
{
    let raw = exp_value(x);
    if x >= 0 {
        lemma_exp_positive(x);
        lemma_ex_mono_fine(100 * x + 17, 100 * x + 8300);
        let (a, b) = (ex(fine(100 * x + 17)), ex(fine(100 * x + 8300)));
        assert(t18() * a <= t18() * b) by (nonlinear_arith)
            requires
                a <= b,
                t18() > 0real,
        ;
    } else {
        let n = -x;
        let p = exp_positive(n);
        lemma_exp_positive(n);
        lemma_exp_of_41(100 * n + 17);
        let (tr, pr, rr) = lemma_floor_parts(one36(), p);
        let (l, h) = (ex(fine(100 * n - 8300)), ex(fine(100 * n + 17)));
        lemma_ex_inverse(fine(100 * n - 8300));
        lemma_ex_inverse(fine(100 * n + 17));
        assert(fine(-(100 * n - 8300)) == -fine(100 * n - 8300));
        assert(fine(-(100 * n + 17)) == -fine(100 * n + 17));
        let (li, hi) = (ex(fine(-(100 * n - 8300))), ex(fine(-(100 * n + 17))));
        lemma_ex_mono_fine(100 * x - 8300, -(100 * n + 17));
        assert(-(100 * n - 8300) == 100 * x + 8300);
        let low = ex(fine(100 * x - 8300));
        let s = t18();
        assert(tr == s * s);
        assert(rr <= s * li && rr + 1real >= s * low && pr <= s * s) by (nonlinear_arith)
            requires
                rr * pr <= tr,
                tr < (rr + 1real) * pr,
                tr == s * s,
                s * l <= pr,
                pr <= s * h,
                h <= s,
                l * li == 1real,
                h * hi == 1real,
                l > 0real,
                h > 0real,
                low <= hi,
                s > 0real,
                rr >= 0real,
        {
            assert(rr * (s * l) <= rr * pr);
            assert((rr * l) * s <= s * s);
            assert(rr * l <= s);
            assert(rr * l <= (s * li) * l);
            assert((rr + 1real) * pr <= (rr + 1real) * (s * h));
            assert(s * s < ((rr + 1real) * h) * s);
            assert(s < (rr + 1real) * h);
            assert((s * hi) * h < (rr + 1real) * h);
            assert(s * hi <= rr + 1real);
            assert(s * low <= s * hi);
            assert(s * h <= s * s);
        }
        assert(p <= one36());
        assert(one36() / p >= 1) by (nonlinear_arith)
            requires
                0 < p <= one36(),
        ;
    }
}

/// The exponential of 41 is below 10^18.
proof fn lemma_exp_of_41(k: int)
    requires
        k <= 4_100_000_000_000_000_000_017,
    ensures
        ex(fine(k)) <= t18(),
{
    lemma_factors(2);
    lemma_factors(4);
    lemma_factors(7);
    let (a, b, c) = (x_n(2) - 1, x_n(4) - 1, x_n(7) - 1);
    lemma_ex_mono_fine(k, a + b + c + 20);
    lemma_ex_fine_add(a, b);
    lemma_ex_fine_add(a + b, c);
    lemma_ex_fine_add(a + b + c, 20);
    lemma_fine(20);
    lemma_ex_upper(fine(20));
    let (p, q, r, m) = (ex(fine(a)), ex(fine(b)), ex(fine(c)), ex(fine(20)));
    assert(p <= 80_000_000_000_000real);
    assert(q <= 3000real);
    assert(r <= 3real);
    assert(m <= 11real / 10real) by (nonlinear_arith)
        requires
            m * (1real - 20real / 100_000_000_000_000_000_000real) <= 1real,
            m > 0real,
    ;
    assert(((p * q) * r) * m <= 1_000_000_000_000_000_000real) by (nonlinear_arith)
        requires
            0real < p <= 80_000_000_000_000real,
            0real < q <= 3000real,
            0real < r <= 3real,
            0real < m <= 11real / 10real,
    {
        assert(p * q <= 80_000_000_000_000real * 3000real);
        assert(p * q > 0real);
        assert((p * q) * r <= (80_000_000_000_000real * 3000real) * 3real);
        assert((p * q) * r > 0real);
    }
}

/// `y * ln(x)` is rounded toward zero by less than one unit, away from one.
proof fn lemma_log_times_wide(r: int, y: int)
    requires
        y > 0,
    ensures
        (quot(r * y, one18()) - 1) * one18() < r * y < (quot(r * y, one18()) + 1) * one18(),
{
    let n = r * y;
    let m = if n < 0 {
        -n
    } else {
        n
    };
    vstd::arithmetic::div_mod::lemma_fundamental_div_mod(m, one18());
    assert(one18() * (m / one18()) <= m < one18() * (m / one18()) + one18());
}

/// And near one, where the logarithm has twice the decimals.
proof fn lemma_log_times_near(p: int, y: int)
    requires
        y > 0,
    ensures
        ({
            let theta = quot(
                quot(p, one18()) * y + quot(quot_rem(p, one18()) * y, one18()),
                one18(),
            );
            (theta - 1) * one36() < p * y < (theta + 1) * one36()
        }),
{
    let s = one18();
    let a = if p < 0 {
        -p
    } else {
        p
    };
    let (q, m) = (a / s, a % s);
    vstd::arithmetic::div_mod::lemma_fundamental_div_mod(a, s);
    assert(m * y >= 0 && q * y >= 0) by (nonlinear_arith)
        requires
            m >= 0,
            q >= 0,
            y > 0,
    ;
    let t = (m * y) / s;
    vstd::arithmetic::div_mod::lemma_fundamental_div_mod(m * y, s);
    let inner = q * y + t;
    let theta = inner / s;
    vstd::arithmetic::div_mod::lemma_fundamental_div_mod(inner, s);
    assert(a * y == s * (q * y) + m * y) by (nonlinear_arith)
        requires
            a == s * q + m,
    ;
    assert(s * inner <= a * y < s * (inner + 1));
    assert(s * theta <= inner < s * theta + s);
    assert(one36() == s * s);
    assert(theta * one36() <= a * y < (theta + 1) * one36());
    if p < 0 {
        assert(quot(p, s) == -q);
        assert(quot_rem(p, s) == -m);
        assert((-m) * y == -(m * y) && (-q) * y == -(q * y)) by (nonlinear_arith);
        lemma_quot_odd(m * y, s);
        assert(quot((-m) * y, s) == -t);
        lemma_quot_odd(inner, s);
        assert(p * y == -(a * y)) by (nonlinear_arith)
            requires
                p == -a,
        ;
        assert(quot(-q * y + (-t), s) == -theta);
    } else {
        assert(quot(p, s) == q && quot_rem(p, s) == m);
    }
}

/// The grains between which the logarithm of `x` lies, close enough for the power `y`.
proof fn lemma_power_grains(x: int, y: int) -> (k: (int, int))
    requires
        0 < x < two255(),
        y > 0,
        is_natural_exponent(log_times(x, y)),
    ensures
        ex(k.0) <= (x as real) / t18() <= ex(k.1),
        one18() * fine(100 * log_times(x, y) + 8300 - 1_000_000) <= k.0 * y,
        k.1 * y <= one18() * fine(100 * log_times(x, y) - 8300 + 899_999),
{
    let theta = log_times(x, y);
    let s = one18();
    if x == one18() {
        lemma_log_of_one();
        lemma_log_times_near(0, y);
        assert(0 * y == 0);
        lemma_ex_inverse(0);
        assert((x as real) / t18() == 1real);
        (0, 0)
    } else if is_near_one(x) {
        let e = lemma_ln_near(x);
        let p = ln_near_one(x);
        lemma_log_times_near(p, y);
        let a = if p < 0 {
            -p
        } else {
            p
        };
        assert((e * 20_000_000_000_000_000) * y <= a * y) by (nonlinear_arith)
            requires
                e * 20_000_000_000_000_000 <= a,
                y > 0,
        ;
        assert((e * 20_000_000_000_000_000) * y == 20_000_000_000_000_000 * (e * y))
            by (nonlinear_arith);
        assert(a * y == (if p < 0 {
            -(p * y)
        } else {
            p * y
        })) by (nonlinear_arith)
            requires
                a == (if p < 0 {
                    -p
                } else {
                    p
                }),
        ;
        let ey = e * y;
        let py = p * y;
        assert(20_000_000_000_000_000 * ey <= 131_000_000_000_000_000_000 * one36());
        let (k0, k1) = (finest(p - e), finest(p + e));
        let m = 1_000_000_000_000_000_000_000_000_000_000_000_000_000_000_000_000_000_000_000_000_000_000_000_000_000_000_000_000int;
        assert(k0 * y == (py - ey) * m) by (nonlinear_arith)
            requires
                k0 == (p - e) * m,
                py == p * y,
                ey == e * y,
        ;
        assert(k1 * y == (py + ey) * m) by (nonlinear_arith)
            requires
                k1 == (p + e) * m,
                py == p * y,
                ey == e * y,
        ;
        (k0, k1)
    } else {
        lemma_ln_wide(x);
        let r = ln_wide(x);
        lemma_log_times_wide(r, y);
        let ry = r * y;
        let a = if r < 0 {
            -r
        } else {
            r
        };
        assert(89_000_000_000_000_000 * y <= a * y) by (nonlinear_arith)
            requires
                a >= 89_000_000_000_000_000,
                y > 0,
        ;
        assert(a * y == (if r < 0 {
            -ry
        } else {
            ry
        })) by (nonlinear_arith)
            requires
                ry == r * y,
                a == (if r < 0 {
                    -r
                } else {
                    r
                }),
        ;
        assert(89_000_000_000_000_000 * y <= 131_000_000_000_000_000_000 * s);
        let (k0, k1) = (fine(100 * r - 460), fine(100 * r + 460));
        let m = 10_000_000_000_000_000_000_000_000_000_000_000_000_000_000_000_000_000_000_000_000_000_000_000_000_000_000_000_000_000_000_000_000_000int;
        assert(k0 * y == (100 * ry - 460 * y) * m) by (nonlinear_arith)
            requires
                k0 == (100 * r - 460) * m,
                ry == r * y,
        ;
        assert(k1 * y == (100 * ry + 460 * y) * m) by (nonlinear_arith)
            requires
                k1 == (100 * r + 460) * m,
                ry == r * y,
        ;
        (k0, k1)
    }
}

/// The logarithm of one is zero.
proof fn lemma_log_of_one()
    ensures
        ln_near_one(one18()) == 0,
{
    let u = one36();
    assert(one18() * one18() == u);
    assert(0 * u == 0);
    assert(quot(0, u + u) == 0);
    assert(quot(0, u) == 0);
    let zr = 0real;
    let ur = u as real;
    assert(zr / ur == zr) by (nonlinear_arith)
        requires
            zr == 0real,
            ur > 0real,
    ;
    assert(rpow(zr, 1) == 0real) by {
        assert(rpow(zr, 1) == zr * rpow(zr, 0));
    }
    lemma_odd_of_zero(0);
    lemma_odd_of_zero(7);
    assert(0real * (u as real) == 0real) by (nonlinear_arith);
    lemma_ln_series(0, 0, u, 1, 7, 0, 0);
    assert(ln_series(0, u, 3, 15, 0, 0) == 0);
}

/// A power of integers is their power as real numbers.
proof fn lemma_cast_pow(a: int, n: nat)
    ensures
        pow(a, n) as real == rpow(a as real, n),
    decreases n,
{
    reveal(pow);
    if n > 0 {
        lemma_cast_pow(a, (n - 1) as nat);
        lemma_cast_mul(a, pow(a, (n - 1) as nat));
    }
}

/// Powers of fractions, compared without their denominators.
proof fn lemma_cross_powers(a: int, s: int, m: nat, b: int, t: int, n: nat)
    requires
        s > 0,
        t > 0,
        rpow((a as real) / (s as real), m) <= rpow((b as real) / (t as real), n),
    ensures
        pow(a, m) * pow(t, n) <= pow(b, n) * pow(s, m),
{
    let (ar, br, sr, tr) = (a as real, b as real, s as real, t as real);
    let (x, y) = (ar / sr, br / tr);
    assert(x * sr == ar && y * tr == br) by (nonlinear_arith)
        requires
            x == ar / sr,
            y == br / tr,
            sr > 0real,
            tr > 0real,
    ;
    lemma_rpow_mul(x, sr, m);
    lemma_rpow_mul(y, tr, n);
    lemma_rpow_positive(sr, m);
    lemma_rpow_positive(tr, n);
    lemma_cast_pow(a, m);
    lemma_cast_pow(b, n);
    lemma_cast_pow(s, m);
    lemma_cast_pow(t, n);
    lemma_cast_mul(pow(a, m), pow(t, n));
    lemma_cast_mul(pow(b, n), pow(s, m));
    let (p, q, u, v) = (rpow(x, m), rpow(y, n), rpow(sr, m), rpow(tr, n));
    assert((p * u) * v <= (q * v) * u) by (nonlinear_arith)
        requires
            p <= q,
            u > 0real,
            v > 0real,
    {
        assert(p * (u * v) <= q * (u * v));
    }
}

/// A number at most the exponential of `m` grains has a power at most that of a number at least the
/// exponential of `k`, where the grains multiply accordingly.
proof fn lemma_powers_below(a: real, m: int, n: nat, b: real, k: int, y: nat)
    requires
        0real <= a <= ex(m),
        ex(k) <= b,
        m * n <= k * y,
    ensures
        rpow(a, n) <= rpow(b, y),
{
    lemma_rpow_mono(a, ex(m), n);
    lemma_ex_pow(m, n);
    lemma_ex_mono(m * n, k * y);
    lemma_ex_pow(k, y);
    lemma_ex_inverse(k);
    lemma_rpow_mono(ex(k), b, y);
}

/// The power rounded down, against the exponential that the raw power stands for.
proof fn lemma_rounded_down(raw: int, theta: int, d: int)
    requires
        raw >= 1,
        (raw as real) <= t18() * ex(fine(100 * theta + 8300)),
        pow_error(raw) is Ok,
        d == (if raw < pow_error(raw)->Ok_0 {
            0
        } else {
            raw - pow_error(raw)->Ok_0
        }),
    ensures
        0 <= d,
        0real <= (d as real) / t18() <= ex(fine(100 * theta + 8300 - 1_000_000)),
{
    let error = pow_error(raw)->Ok_0;
    let up = ceil_div(raw * 10_000, one18());
    assert(error == up + 1);
    assert(up * one18() >= raw * 10_000);
    let (e, s) = (ex(fine(100 * theta + 8300)), t18());
    lemma_fine(-1_000_000);
    lemma_ex_lower(fine(-1_000_000));
    lemma_ex_fine_add(100 * theta + 8300, -1_000_000);
    let m = ex(fine(-1_000_000));
    let q = 1real / 100_000_000_000_000real;
    assert(at(fine(-1_000_000)) == -q);
    let (dr, rr) = (d as real, raw as real);
    assert(d * one18() <= raw * one18() - raw * 10_000 || d == 0);
    assert(dr <= rr - rr * q) by {
        if d == 0 {
            assert(rr - rr * q >= 0real) by (nonlinear_arith)
                requires
                    rr >= 1real,
                    q == 1real / 100_000_000_000_000real,
            ;
        } else {
            lemma_cast_mul(d, one18());
            lemma_cast_mul(raw, one18());
            lemma_cast_mul(raw, 10_000);
            assert(dr * s <= rr * s - rr * 10_000real);
            assert(dr <= rr - rr * q) by (nonlinear_arith)
                requires
                    dr * s <= rr * s - rr * 10_000real,
                    s == 1_000_000_000_000_000_000real,
                    q == 1real / 100_000_000_000_000real,
            ;
        }
    }
    assert(0real <= dr / s && dr / s <= e * m) by (nonlinear_arith)
        requires
            0real <= dr,
            dr <= rr - rr * q,
            rr <= s * e,
            s == 1_000_000_000_000_000_000real,
            q == 1real / 100_000_000_000_000real,
            m >= 1real - q,
            e > 0real,
    {
        let x = dr / s;
        assert(x * s == dr);
        assert(rr * (1real - q) <= (s * e) * (1real - q));
        assert(x * s <= (e * (1real - q)) * s);
        assert(x <= e * (1real - q));
        assert(e * (1real - q) <= e * m);
    }
}

/// The power rounded up, against the exponential that the raw power stands for.
proof fn lemma_rounded_up(raw: int, theta: int, u: int)
    requires
        raw >= 1,
        (raw as real) + 1real >= t18() * ex(fine(100 * theta - 8300)),
        pow_error(raw) is Ok,
        u == raw + pow_error(raw)->Ok_0,
    ensures
        ex(fine(100 * theta - 8300 + 899_999)) <= (u as real) / t18(),
{
    let error = pow_error(raw)->Ok_0;
    let up = ceil_div(raw * 10_000, one18());
    assert(error == up + 1);
    assert(up * one18() >= raw * 10_000);
    assert(up >= 1);
    let (e, s) = (ex(fine(100 * theta - 8300)), t18());
    lemma_fine(899_999);
    lemma_ex_upper(fine(899_999));
    lemma_ex_fine_add(100 * theta - 8300, 899_999);
    let m = ex(fine(899_999));
    let (ur, rr, pr) = (u as real, raw as real, up as real);
    lemma_cast_mul(up, one18());
    lemma_cast_mul(raw, 10_000);
    let q = 9real / 1_000_000_000_000_000real;
    assert(m <= 1real + q) by (nonlinear_arith)
        requires
            m * (1real - 899_999real / 100_000_000_000_000_000_000real) <= 1real,
            q == 9real / 1_000_000_000_000_000real,
            m > 0real,
    {
        let t = 899_999real / 100_000_000_000_000_000_000real;
        assert((1real + q) * (1real - t) >= 1real);
        assert(m * (1real - t) <= (1real + q) * (1real - t));
    }
    assert(ur >= (rr + 1real) * (1real + q)) by (nonlinear_arith)
        requires
            ur == rr + pr + 1real,
            pr >= 1real,
            pr * 1_000_000_000_000_000_000real >= rr * 10_000real,
            rr >= 1real,
            q == 9real / 1_000_000_000_000_000real,
    {
        assert((rr + 1real) * (1real + q) == rr + 1real + (rr + 1real) * q);
        if rr >= 9real {
            assert(pr >= rr * (10real / 1_000_000_000_000_000real));
            assert((rr + 1real) * q <= rr * (10real / 1_000_000_000_000_000real));
        } else {
            assert((rr + 1real) * q <= 1real);
        }
    }
    assert(e * m <= ur / s) by (nonlinear_arith)
        requires
            ur >= (rr + 1real) * (1real + q),
            rr + 1real >= s * e,
            m <= 1real + q,
            q > 0real,
            e > 0real,
            m > 0real,
            s == 1_000_000_000_000_000_000real,
    {
        let x = ur / s;
        assert(x * s == ur);
        assert((rr + 1real) * (1real + q) >= (s * e) * (1real + q));
        assert((s * e) * (1real + q) >= (s * e) * m);
        assert(x * s >= (e * m) * s);
    }
}

/// The powers of zero and of one.
proof fn lemma_plain_powers(n: nat)
    ensures
        rpow(1real, n) == 1real,
        n > 0 ==> rpow(0real, n) == 0real,
{
    lemma_ex_pow(0, n);
    lemma_ex_inverse(0);
    assert(0 * n == 0);
    if n > 0 {
        let p = rpow(0real, (n - 1) as nat);
        assert(0real * p == 0real) by (nonlinear_arith);
    }
}

/// Away from the exact exponents, the power rounded down is at most the true one.
proof fn lemma_down_is_below(x: int, y: int, d: int)
    requires
        0 <= x,
        0 <= y,
        y != one18(),
        y != 2 * one18(),
        y != 4 * one18(),
        pow_down_value(x, y) == Ok::<int, MathError>(d),
    ensures
        rpow((d as real) / t18(), one18() as nat) <= rpow((x as real) / t18(), y as nat),
{
    let n = one18() as nat;
    let v = (x as real) / t18();
    let raw = pow_value(x, y)->Ok_0;
    let error = pow_error(raw)->Ok_0;
    lemma_plain_powers(n);
    assert(0real / t18() == 0real);
    if y == 0 {
        assert(raw == one18());
        assert(error == 10_001);
        lemma_rpow_mono((d as real) / t18(), 1real, n);
    } else if x == 0 {
        assert(raw == 0 && d == 0);
        lemma_plain_powers(y as nat);
    } else {
        let theta = log_times(x, y);
        let (kl, kh) = lemma_power_grains(x, y);
        lemma_exp_value(theta);
        lemma_rounded_down(raw, theta, d);
        let m = fine(100 * theta + 8300 - 1_000_000);
        assert(m * n == one18() * m) by (nonlinear_arith)
            requires
                n == one18(),
        ;
        lemma_powers_below((d as real) / t18(), m, n, v, kl, y as nat);
    }
}

/// And the power rounded up is at least the true one.
proof fn lemma_up_is_above(x: int, y: int, u: int)
    requires
        0 <= x,
        0 <= y,
        y != one18(),
        y != 2 * one18(),
        y != 4 * one18(),
        pow_up_value(x, y) == Ok::<int, MathError>(u),
    ensures
        rpow((x as real) / t18(), y as nat) <= rpow((u as real) / t18(), one18() as nat),
{
    let n = one18() as nat;
    let v = (x as real) / t18();
    let raw = pow_value(x, y)->Ok_0;
    let error = pow_error(raw)->Ok_0;
    lemma_plain_powers(n);
    assert(0real / t18() == 0real);
    if y == 0 {
        assert(raw == one18());
        assert(error == 10_001);
        lemma_rpow_mono(1real, (u as real) / t18(), n);
    } else if x == 0 {
        assert(raw == 0 && u == 1);
        lemma_plain_powers(y as nat);
        lemma_rpow_mono(0real, (u as real) / t18(), n);
    } else {
        let theta = log_times(x, y);
        let (kl, kh) = lemma_power_grains(x, y);
        lemma_exp_value(theta);
        lemma_rounded_up(raw, theta, u);
        let m = fine(100 * theta - 8300 + 899_999);
        assert(m * n == one18() * m) by (nonlinear_arith)
            requires
                n == one18(),
        ;
        assert(v >= 0real) by (nonlinear_arith)
            requires
                v == (x as real) / t18(),
                x as real >= 0real,
                t18() > 0real,
        ;
        lemma_powers_below(v, kh, y as nat, (u as real) / t18(), m, n);
    }
}

/// With an exact exponent `k`, what is at most `x^k / 10^(18(k - 1))` has a power at most that of
/// `x`; and what is at least that, one at least that.
proof fn lemma_exact_power(x: int, k: nat, w: int)
    requires
        0 <= x,
        0 <= w,
    ensures
        (w as real) / t18() <= rpow((x as real) / t18(), k) ==> rpow(
            (w as real) / t18(),
            one18() as nat,
        ) <= rpow((x as real) / t18(), k * (one18() as nat)),
        (w as real) / t18() >= rpow((x as real) / t18(), k) ==> rpow(
            (w as real) / t18(),
            one18() as nat,
        ) >= rpow((x as real) / t18(), k * (one18() as nat)),
{
    let n = one18() as nat;
    let (v, z) = ((x as real) / t18(), (w as real) / t18());
    lemma_rpow_rpow(v, k, n);
    assert(v >= 0real && z >= 0real) by (nonlinear_arith)
        requires
            v == (x as real) / t18(),
            z == (w as real) / t18(),
            x as real >= 0real,
            w as real >= 0real,
            t18() > 0real,
    ;
    lemma_rpow_mono(0real, v, k);
    let p = rpow(v, k);
    assert(p >= 0real) by {
        lemma_rpow_mono(v, v, k);
    }
    if z <= p {
        lemma_rpow_mono(z, p, n);
    }
    if z >= p {
        lemma_rpow_mono(p, z, n);
    }
}

/// The square and the fourth power of `x / 10^18`.
proof fn lemma_small_powers(x: int)
    ensures
        ({
            let v = (x as real) / t18();
            let xr = x as real;
            &&& rpow(v, 1) == v
            &&& rpow(v, 2) * (t18() * t18()) == xr * xr
            &&& rpow(v, 4) * (t18() * t18() * t18() * t18()) == xr * xr * xr * xr
        }),
{
    let (xr, s) = (x as real, t18());
    let v = xr / s;
    let (p1, p2, p3, p4) = (rpow(v, 1), rpow(v, 2), rpow(v, 3), rpow(v, 4));
    assert(rpow(v, 0) == 1real);
    assert(p1 == v * rpow(v, 0));
    assert(p2 == v * p1);
    assert(p3 == v * p2);
    assert(p4 == v * p3);
    assert(p1 == v && p2 * (s * s) == xr * xr && p4 * (s * s * s * s) == xr * xr * xr * xr)
        by (nonlinear_arith)
        requires
            v == xr / s,
            s > 0real,
            p1 == v * 1real,
            p2 == v * p1,
            p3 == v * p2,
            p4 == v * p3,
    {
        assert(v * s == xr);
        assert(p2 * (s * s) == (v * s) * (v * s));
        assert(p4 * (s * s * s * s) == (v * s) * (v * s) * (v * s) * (v * s));
    }
}

/// What is at most the square of `x`, and what is at least that, by their powers.
proof fn lemma_second_power(x: int, w: int)
    requires
        0 <= x,
        0 <= w,
    ensures
        w * one18() <= x * x ==> rpow((w as real) / t18(), one18() as nat) <= rpow(
            (x as real) / t18(),
            2 * (one18() as nat),
        ),
        w * one18() >= x * x ==> rpow((w as real) / t18(), one18() as nat) >= rpow(
            (x as real) / t18(),
            2 * (one18() as nat),
        ),
{
    lemma_small_powers(x);
    lemma_exact_power(x, 2, w);
    lemma_cast_mul(w, one18());
    lemma_cast_mul(x, x);
    let (xr, wr, s) = (x as real, w as real, t18());
    let p = rpow(xr / s, 2);
    assert((wr * s <= xr * xr ==> wr / s <= p) && (wr * s >= xr * xr ==> wr / s >= p))
        by (nonlinear_arith)
        requires
            p * (s * s) == xr * xr,
            s == 1_000_000_000_000_000_000real,
    {
        let z = wr / s;
        assert(z * s == wr);
        assert(z * (s * s) == wr * s);
    }
}

/// What is at most the fourth power of `x`, and what is at least that, by their powers.
proof fn lemma_fourth_power(x: int, w: int)
    requires
        0 <= x,
        0 <= w,
    ensures
        w * (one18() * one18() * one18()) <= x * x * x * x ==> rpow(
            (w as real) / t18(),
            one18() as nat,
        ) <= rpow((x as real) / t18(), 4 * (one18() as nat)),
        w * (one18() * one18() * one18()) >= x * x * x * x ==> rpow(
            (w as real) / t18(),
            one18() as nat,
        ) >= rpow((x as real) / t18(), 4 * (one18() as nat)),
{
    lemma_small_powers(x);
    lemma_exact_power(x, 4, w);
    lemma_fourth_cast(x, w);
    let (xr, wr, s) = (x as real, w as real, t18());
    let (p, q) = (rpow(xr / s, 4), xr * xr * xr * xr);
    assert((wr * (s * s * s) <= q ==> wr / s <= p) && (wr * (s * s * s) >= q ==> wr / s >= p))
        by (nonlinear_arith)
        requires
            p * (s * s * s * s) == q,
            s == 1_000_000_000_000_000_000real,
    {
        let z = wr / s;
        assert(z * s == wr);
        assert(z * (s * s * s * s) == wr * (s * s * s));
    }
}

/// With an exact exponent, the power rounded down is at most the true one.
proof fn lemma_exact_down(x: int, y: int, d: int)
    requires
        0 <= x,
        y == one18() || y == 2 * one18() || y == 4 * one18(),
        pow_down_value(x, y) == Ok::<int, MathError>(d),
    ensures
        rpow((d as real) / t18(), one18() as nat) <= rpow((x as real) / t18(), y as nat),
{
    exact_powers_bracket_the_true_power(x);
    lemma_exact_powers_are_not_negative(x);
    if y == 2 * one18() {
        lemma_second_power(x, d);
    } else if y == 4 * one18() {
        lemma_fourth_power(x, d);
    }
}

/// And the power rounded up is at least the true one.
proof fn lemma_exact_up(x: int, y: int, u: int)
    requires
        0 <= x,
        y == one18() || y == 2 * one18() || y == 4 * one18(),
        pow_up_value(x, y) == Ok::<int, MathError>(u),
    ensures
        rpow((x as real) / t18(), y as nat) <= rpow((u as real) / t18(), one18() as nat),
{
    exact_powers_bracket_the_true_power(x);
    lemma_exact_powers_are_not_negative(x);
    if y == 2 * one18() {
        lemma_second_power(x, u);
    } else if y == 4 * one18() {
        lemma_fourth_power(x, u);
    }
}

/// The fourth power as real numbers.
proof fn lemma_fourth_cast(x: int, d: int)
    ensures
        (x * x * x * x) as real == (x as real) * (x as real) * (x as real) * (x as real),
        (d * (one18() * one18() * one18())) as real == (d as real) * (t18() * t18() * t18()),
{
    lemma_cast_mul(x, x);
    lemma_cast_mul(x * x, x);
    lemma_cast_mul(x * x * x, x);
    lemma_cast_mul(one18(), one18());
    lemma_cast_mul(one18() * one18(), one18());
    lemma_cast_mul(d, one18() * one18() * one18());
}

/// Powers with an exact exponent are not negative.
proof fn lemma_exact_powers_are_not_negative(x: int)
    requires
        0 <= x,
    ensures
        pow_down_value(x, one18()) matches Ok(d) ==> d >= 0,
        pow_down_value(x, 2 * one18()) matches Ok(d) ==> d >= 0,
        pow_down_value(x, 4 * one18()) matches Ok(d) ==> d >= 0,
        pow_up_value(x, one18()) matches Ok(u) ==> u >= 0,
        pow_up_value(x, 2 * one18()) matches Ok(u) ==> u >= 0,
        pow_up_value(x, 4 * one18()) matches Ok(u) ==> u >= 0,
{
    lemma_squared_not_negative(x);
    if let Ok(s) = mul_down_value(x, x) {
        lemma_squared_not_negative(s);
    }
    if let Ok(s) = mul_up_value(x, x) {
        lemma_squared_not_negative(s);
    }
}

/// Nor is a square, however rounded.
proof fn lemma_squared_not_negative(x: int)
    ensures
        mul_down_value(x, x) matches Ok(d) ==> d >= 0,
        mul_up_value(x, x) matches Ok(u) ==> u >= 0,
{
    assert(x * x >= 0) by (nonlinear_arith);
}

/// The power rounded down is at most the true one.
proof fn lemma_down(x: int, y: int, d: int)
    requires
        0 <= x,
        0 <= y,
        pow_down_value(x, y) == Ok::<int, MathError>(d),
    ensures
        rpow((d as real) / t18(), one18() as nat) <= rpow((x as real) / t18(), y as nat),
{
    if y == one18() || y == 2 * one18() || y == 4 * one18() {
        lemma_exact_down(x, y, d);
    } else {
        lemma_down_is_below(x, y, d);
    }
}

/// The power rounded up is at least the true one.
proof fn lemma_up(x: int, y: int, u: int)
    requires
        0 <= x,
        0 <= y,
        pow_up_value(x, y) == Ok::<int, MathError>(u),
    ensures
        rpow((x as real) / t18(), y as nat) <= rpow((u as real) / t18(), one18() as nat),
{
    if y == one18() || y == 2 * one18() || y == 4 * one18() {
        lemma_exact_up(x, y, u);
    } else {
        lemma_up_is_above(x, y, u);
    }
}

/// The rounded powers bracket the true power: with `d` and `u` the powers rounded down and up and
/// `E` for `10^18`, `(d / E)^E <= (x / E)^y <= (u / E)^E`, here without the fractions.
pub proof fn rounded_powers_bracket_the_true_power(x: int, y: int)
    requires
        0 <= x,
        0 <= y,
    ensures
        pow_down_value(x, y) matches Ok(d) ==> pow(d, one18() as nat) * pow(one18(), y as nat)
            <= pow(x, y as nat) * pow(one18(), one18() as nat),
        pow_up_value(x, y) matches Ok(u) ==> pow(x, y as nat) * pow(one18(), one18() as nat)
            <= pow(u, one18() as nat) * pow(one18(), y as nat),
{
    let n = one18() as nat;
    assert(one18() as real == t18());
    if let Ok(d) = pow_down_value(x, y) {
        lemma_down(x, y, d);
        lemma_cross_powers(d, one18(), n, x, one18(), y as nat);
    }
    if let Ok(u) = pow_up_value(x, y) {
        lemma_up(x, y, u);
        lemma_cross_powers(x, one18(), y as nat, u, one18(), n);
    }
}

// ---- the weighted swap ----

/// From the rounded power to the true one, as plain numbers: `v` is the ratio of the balances in,
/// `b` is `v` rounded up, `z` bounds the power `b^(e / n)` from above, and `rho`, the ratio of the
/// balances out, is at least `z`.
proof fn lemma_swap_powers(
    v: real,
    b: real,
    z: real,
    rho: real,
    e: nat,
    weight_in: nat,
    weight_out: nat,
    n: nat,
)
    requires
        0real <= v <= b,
        b <= 1real,
        0real <= z <= rho,
        rpow(b, e) <= rpow(z, n),
        e * weight_out <= weight_in * n,
        n >= 1,
    ensures
        rpow(v, weight_in) <= rpow(rho, weight_out),
{
    lemma_rpow_down(b, 0, e);
    lemma_rpow_mono(rpow(b, e), rpow(z, n), weight_out);
    lemma_rpow_rpow(b, e, weight_out);
    lemma_rpow_rpow(z, n, weight_out);
    lemma_rpow_down(b, e * weight_out, weight_in * n);
    lemma_rpow_mono(v, b, weight_in * n);
    lemma_rpow_mono(z, rho, n * weight_out);
    lemma_rpow_rpow(v, weight_in, n);
    lemma_rpow_rpow(rho, weight_out, n);
    assert(n * weight_out == weight_out * n) by (nonlinear_arith);
    lemma_rpow_mono(v, v, weight_in);
    lemma_rpow_mono(rho, rho, weight_out);
    lemma_root_mono(rpow(v, weight_in), rpow(rho, weight_out), n);
}

/// A part of a whole in 18 decimals, rounded up: at least the part, and at most one.
proof fn lemma_part_up(part: int, whole: int)
    requires
        0 <= part <= whole,
        whole > 0,
    ensures
        ({
            let r = ceil_div(part * one18(), whole);
            &&& 0 <= r <= one18()
            &&& part * one18() <= r * whole
        }),
{
    let a = part * one18();
    let (q, m) = (a / whole, a % whole);
    assert(a == q * whole + m && 0 <= m < whole) by (nonlinear_arith)
        requires
            q == a / whole,
            m == a % whole,
            whole > 0,
    ;
    assert(0 <= a <= whole * one18());
    assert(0 <= q && (q < one18() || (q == one18() && m == 0))) by (nonlinear_arith)
        requires
            a == q * whole + m,
            0 <= m < whole,
            0 <= a <= whole * one18(),
    ;
    assert((q + 1) * whole == q * whole + whole) by (nonlinear_arith);
}

/// The ratio that a swap leaves of the balance out is at least the power that it was computed
/// from, and all of the balance where that is one or more.
proof fn lemma_left(balance: int, power: int, out: int)
    requires
        balance > 0,
        power >= 0,
        out == (balance * complement_value(power)) / one18(),
    ensures
        power < one18() ==> (power as real) / t18() <= ((balance - out) as real) / (
        balance as real),
        power >= one18() ==> out == 0,
{
    if power < one18() {
        let c = one18() - power;
        let p = balance * c;
        assert(out * one18() <= p);
        assert(power * balance <= (balance - out) * one18()) by (nonlinear_arith)
            requires
                out * one18() <= p,
                p == balance * c,
                c == one18() - power,
        ;
        lemma_cast_mul(power, balance);
        lemma_cast_mul(balance - out, one18());
        let (pr, br, lr, s) = (power as real, balance as real, (balance - out) as real, t18());
        assert(pr / s <= lr / br) by (nonlinear_arith)
            requires
                pr * br <= lr * s,
                br > 0real,
                s == 1_000_000_000_000_000_000real,
        {
            let (x, y) = (pr / s, lr / br);
            assert(x * s == pr && y * br == lr);
            assert(x * (s * br) <= y * (s * br));
        }
    } else {
        assert(balance * 0 == 0);
    }
}

/// One swap, from its parts.
proof fn lemma_swap_step(
    balance_in: int,
    total: int,
    base: int,
    e: int,
    wi: nat,
    wo: nat,
    balance_out: int,
    power: int,
    out: int,
)
    requires
        0 <= balance_in <= total,
        total > 0,
        wo > 0,
        0 <= base <= one18(),
        balance_in * one18() <= base * total,
        e == (wi * one18()) / (wo as int),
        pow_up_value(base, e) == Ok::<int, MathError>(power),
        balance_out > 0,
        0 <= out <= balance_out,
        out == (balance_out * complement_value(power)) / one18(),
    ensures
        rpow((balance_in as real) / (total as real), wi) <= rpow(
            ((balance_out - out) as real) / (balance_out as real),
            wo,
        ),
{
    let n = one18() as nat;
    let a = wi * one18();
    assert(0 <= e && e * wo <= a) by (nonlinear_arith)
        requires
            e == a / (wo as int),
            a >= 0,
            wo > 0,
    ;
    lemma_up(base, e, power);
    lemma_up_is_not_negative(base, e);
    lemma_left(balance_out, power, out);
    lemma_cast_mul(balance_in, one18());
    lemma_cast_mul(base, total);
    let (ir, tr, br, s) = (balance_in as real, total as real, base as real, t18());
    let (v, b) = (ir / tr, br / s);
    assert(0real <= v && v <= b && b <= 1real) by (nonlinear_arith)
        requires
            v == ir / tr,
            b == br / s,
            ir * s <= br * tr,
            0real <= ir,
            0real <= br <= s,
            tr > 0real,
            s == 1_000_000_000_000_000_000real,
    {
        assert(v * tr == ir && b * s == br);
        assert(v * (tr * s) <= b * (tr * s));
    }
    let (or, lr, pr) = (balance_out as real, (balance_out - out) as real, power as real);
    let rho = lr / or;
    if power < one18() {
        let z = pr / s;
        assert(z >= 0real);
        lemma_swap_powers(v, b, z, rho, e as nat, wi, wo, n);
    } else {
        assert(rho == 1real) by (nonlinear_arith)
            requires
                rho == lr / or,
                lr == or,
                or > 0real,
        ;
        lemma_plain_powers(n);
        lemma_rpow_at_most_one(b, e as nat);
        lemma_swap_powers(v, b, 1real, rho, e as nat, wi, wo, n);
    }
}

/// The power rounded up is not negative.
proof fn lemma_up_is_not_negative(x: int, y: int)
    requires
        0 <= x,
        0 <= y,
    ensures
        pow_up_value(x, y) matches Ok(u) ==> u >= 0,
{
    lemma_exact_powers_are_not_negative(x);
}

/// A weighted swap never lowers the product of the balances, each to the power of its weight. So
/// what is paid out is at most the `balance_out * (1 - (balance_in / (balance_in + amount_in)) ^
/// (weight_in / weight_out))` of exact arithmetic: the rounding goes against the trader.
pub proof fn swaps_keep_the_weighted_product(
    balance_in: int,
    weight_in: int,
    balance_out: int,
    weight_out: int,
    amount_in: int,
)
    requires
        0 <= balance_in,
        0 <= weight_in,
        0 <= balance_out,
        0 <= weight_out,
        0 <= amount_in,
    ensures
        weighted_out(balance_in, weight_in, balance_out, weight_out, amount_in) matches Ok(out)
            ==> 0 <= out <= balance_out && pow(balance_in, weight_in as nat) * pow(
            balance_out,
            weight_out as nat,
        ) <= pow(balance_out - out, weight_out as nat) * pow(
            balance_in + amount_in,
            weight_in as nat,
        ),
{
    weighted_out_is_covered(balance_in, weight_in, balance_out, weight_out, amount_in);
    if let Ok(out) = weighted_out(balance_in, weight_in, balance_out, weight_out, amount_in) {
        let total = balance_in + amount_in;
        let base = div_up_value(balance_in, total)->Ok_0;
        let e = div_down_value(weight_in, weight_out)->Ok_0;
        let power = pow_up_value(base, e)->Ok_0;
        let (wi, wo, n) = (weight_in as nat, weight_out as nat, one18() as nat);
        if balance_out == 0 {
            lemma0_pow(wo);
            assert(pow(balance_in, wi) * 0 == 0);
            assert(0 * pow(total, wi) == 0);
        } else {
            lemma_part_up(balance_in, total);
            lemma_swap_step(balance_in, total, base, e, wi, wo, balance_out, power, out);
            lemma_cross_powers(balance_in, total, wi, balance_out - out, balance_out, wo);
        }
    }
}

} // verus!
