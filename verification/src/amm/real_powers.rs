//! Powers of real numbers with natural exponents.
use vstd::arithmetic::mul::lemma_mul_is_distributive_add;
use vstd::prelude::*;

verus! {

/// `b` to the power `n`.
pub open spec fn rpow(b: real, n: nat) -> real
    decreases n,
{
    if n == 0 {
        1real
    } else {
        b * rpow(b, (n - 1) as nat)
    }
}

/// Multiplying by what is not negative keeps an order.
pub proof fn lemma_scaled(a: real, b: real, c: real)
    requires
        a <= b,
        c >= 0real,
    ensures
        a * c <= b * c,
        c * a <= c * b,
{
    let d = b - a;
    assert(d * c >= 0real) by (nonlinear_arith)
        requires
            d >= 0real,
            c >= 0real,
    ;
    assert((b - a) * c == b * c - a * c && c * a == a * c && c * b == b * c) by (nonlinear_arith);
}

/// And dividing by what is positive.
pub proof fn lemma_unscaled(a: real, b: real, c: real)
    requires
        a * c <= b * c,
        c > 0real,
    ensures
        a <= b,
{
    let d = a - b;
    assert((a - b) * c == a * c - b * c) by (nonlinear_arith);
    assert(d <= 0real) by (nonlinear_arith)
        requires
            d * c <= 0real,
            c > 0real,
    ;
}

/// A quotient times its divisor.
pub proof fn lemma_quotient(n: real, r: real)
    requires
        r > 0real,
    ensures
        (n / r) * r == n,
{
    let q = n / r;
    assert(q * r == n) by (nonlinear_arith)
        requires
            q == n / r,
            r > 0real,
    ;
}

/// Powers of one base multiply by adding their exponents.
pub proof fn lemma_rpow_add(b: real, m: nat, n: nat)
    ensures
        rpow(b, m + n) == rpow(b, m) * rpow(b, n),
    decreases m,
{
    if m > 0 {
        lemma_rpow_add(b, (m - 1) as nat, n);
        let (y, z) = (rpow(b, (m - 1) as nat), rpow(b, n));
        assert(b * (y * z) == (b * y) * z) by (nonlinear_arith);
        assert((m + n - 1) as nat == (m - 1) as nat + n);
    }
}

/// A power of a positive base is positive.
pub proof fn lemma_rpow_positive(b: real, n: nat)
    requires
        b > 0real,
    ensures
        rpow(b, n) > 0real,
    decreases n,
{
    if n > 0 {
        lemma_rpow_positive(b, (n - 1) as nat);
        let x = rpow(b, (n - 1) as nat);
        assert(b * x > 0real) by (nonlinear_arith)
            requires
                b > 0real,
                x > 0real,
        ;
    }
}

/// A larger base has a larger power.
pub proof fn lemma_rpow_mono(a: real, b: real, n: nat)
    requires
        0real <= a <= b,
    ensures
        0real <= rpow(a, n) <= rpow(b, n),
    decreases n,
{
    if n > 0 {
        lemma_rpow_mono(a, b, (n - 1) as nat);
        let (x, y) = (rpow(a, (n - 1) as nat), rpow(b, (n - 1) as nat));
        lemma_scaled(0real, x, a);
        lemma_scaled(x, y, a);
        lemma_scaled(a, b, y);
    }
}

/// The power of a product is the product of the powers.
pub proof fn lemma_rpow_mul(a: real, b: real, n: nat)
    ensures
        rpow(a * b, n) == rpow(a, n) * rpow(b, n),
    decreases n,
{
    if n > 0 {
        lemma_rpow_mul(a, b, (n - 1) as nat);
        let (x, y) = (rpow(a, (n - 1) as nat), rpow(b, (n - 1) as nat));
        assert((a * b) * (x * y) == (a * x) * (b * y)) by (nonlinear_arith);
    } else {
        assert(1real * 1real == 1real);
    }
}

/// The power of a power is the power of the product.
pub proof fn lemma_rpow_rpow(b: real, k: nat, n: nat)
    ensures
        rpow(rpow(b, k), n) == rpow(b, k * n),
    decreases n,
{
    if n > 0 {
        lemma_rpow_rpow(b, k, (n - 1) as nat);
        lemma_rpow_add(b, k, k * ((n - 1) as nat));
        lemma_mul_is_distributive_add(k as int, 1, n - 1);
    } else {
        assert(k * 0 == 0);
    }
}

/// The powers of a number between zero and one.
pub proof fn lemma_rpow_at_most_one(z: real, k: nat)
    requires
        0real <= z <= 1real,
    ensures
        0real <= rpow(z, k) <= 1real,
    decreases k,
{
    if k > 0 {
        lemma_rpow_at_most_one(z, (k - 1) as nat);
        let p = rpow(z, (k - 1) as nat);
        lemma_scaled(0real, p, z);
        lemma_scaled(p, 1real, z);
    }
}

/// A higher power of a number between zero and one is not more.
pub proof fn lemma_rpow_down(b: real, m: nat, n: nat)
    requires
        0real <= b <= 1real,
        m <= n,
    ensures
        0real <= rpow(b, n) <= rpow(b, m),
{
    let k = (n - m) as nat;
    lemma_rpow_add(b, m, k);
    lemma_rpow_at_most_one(b, m);
    lemma_rpow_at_most_one(b, k);
    let (x, y) = (rpow(b, m), rpow(b, k));
    lemma_scaled(0real, y, x);
    lemma_scaled(y, 1real, x);
}

/// A larger number has a larger power.
proof fn lemma_rpow_strict(a: real, b: real, n: nat)
    requires
        0real <= a < b,
        n >= 1,
    ensures
        rpow(a, n) < rpow(b, n),
{
    let m = (n - 1) as nat;
    lemma_rpow_mono(a, b, m);
    lemma_rpow_positive(b, m);
    let (x, y) = (rpow(a, m), rpow(b, m));
    lemma_scaled(x, y, a);
    assert(a * y < b * y) by (nonlinear_arith)
        requires
            a < b,
            y > 0real,
    ;
}

/// Numbers are ordered as their powers are.
pub proof fn lemma_root_mono(a: real, b: real, n: nat)
    requires
        0real <= a,
        0real <= b,
        n >= 1,
        rpow(a, n) <= rpow(b, n),
    ensures
        a <= b,
{
    if b < a {
        lemma_rpow_strict(b, a, n);
    }
}

} // verus!
