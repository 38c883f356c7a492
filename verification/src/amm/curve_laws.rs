//! Laws of the StableSwap quote: what it solves, and what it pays for the solution.
use crate::amm::balancer_math::one18;
use crate::amm::curve::{
    all_held, balance_with, close, d_iterate, d_product, d_step, invariant_d,
    lemma_d_product_not_negative, lemma_invariant_not_negative, lemma_scaled,
    lemma_y_terms_not_negative, mul_div_value, new_balance, partial_sum, scaled_balances,
    the_solver_brackets_the_root, y_settles, y_terms, CurveStablePool,
};
use crate::math::{is_floor, lemma_is_floor};
use crate::pool::{is_first_place, token_place, Pool, SimError};
use crate::types::{lemma_u256_range, two256, Address};
use vstd::arithmetic::div_mod::lemma_small_mod;
use vstd::prelude::*;

verus! {

/// The sum of balances.
pub open spec fn total(xs: Seq<int>) -> int
    decreases xs.len(),
{
    if xs.len() == 0 {
        0
    } else {
        total(xs.drop_last()) + xs.last()
    }
}

/// `d` times `d / (n * x)` for each balance `x`, rounded down each time.
pub open spec fn spread(d: int, xs: Seq<int>, n: int) -> int
    decreases xs.len(),
{
    if xs.len() == 0 {
        d
    } else {
        (spread(d, xs.drop_last(), n) * d) / (n * xs.last())
    }
}

proof fn lemma_total(xp: Seq<int>, k: int)
    requires
        0 <= k <= xp.len(),
    ensures
        partial_sum(xp, k) == total(xp.take(k)),
    decreases k,
{
    if k > 0 {
        lemma_total(xp, k - 1);
        assert(xp.take(k).drop_last() =~= xp.take(k - 1));
    }
}

proof fn lemma_spread(xp: Seq<int>, d: int, k: int)
    requires
        0 <= k <= xp.len(),
    ensures
        d_product(xp, d, k) matches Some(p) ==> p == spread(d, xp.take(k), xp.len() as int),
    decreases k,
{
    if k > 0 {
        lemma_spread(xp, d, k - 1);
        assert(xp.take(k).drop_last() =~= xp.take(k - 1));
        assert(xp[k - 1] * xp.len() == xp.len() * xp[k - 1]) by (nonlinear_arith);
    }
}

/// `next` is what one Newton step for the invariant makes of `d`: at a solution of
/// `ann * S + d = ann * d + d^(n + 1) / (n^n * prod(x))` it stays where it is.
pub open spec fn is_invariant_step(xs: Seq<int>, ann: int, d: int, next: int) -> bool {
    let n = xs.len() as int;
    let p = spread(d, xs, n);
    is_floor(next, (ann * total(xs) + n * p) * d, (ann - 1) * d + (n + 1) * p)
}

/// The invariant of a pool: one more step moves it by at most one, or the 255th step led there.
proof fn lemma_invariant_step(xp: Seq<int>, ann: int, d: int, steps: nat) -> (before: int)
    requires
        all_held(xp),
        xp.len() > 0,
        ann >= 1,
        d >= 0,
        steps >= 1,
    ensures
        d_iterate(xp, ann, d, steps) matches Some(r) ==> before >= 0 && is_invariant_step(
            xp,
            ann,
            before,
            r,
        ),
    decreases steps,
{
    let n = xp.len() as int;
    match d_step(xp, ann, d) {
        None => 0,
        Some(next) => {
            let p = d_product(xp, d, n)->0;
            lemma_spread(xp, d, n);
            lemma_total(xp, n);
            assert(xp.take(n) =~= xp);
            lemma_d_product_not_negative(xp, d, n);
            let (s, bottom) = (partial_sum(xp, n), (ann - 1) * d + p * (n + 1));
            assert(p * n == n * p && p * (n + 1) == (n + 1) * p) by (nonlinear_arith);
            assert(bottom >= 0) by (nonlinear_arith)
                requires
                    bottom == (ann - 1) * d + p * (n + 1),
                    ann >= 1,
                    d >= 0,
                    p >= 0,
                    n >= 0,
            ;
            lemma_is_floor((ann * s + p * n) * d, bottom);
            if close(next, d) || steps == 1 {
                reveal_with_fuel(d_iterate, 2);
                d
            } else {
                crate::amm::curve::lemma_d_not_negative(xp, ann, d, 1);
                reveal_with_fuel(d_iterate, 2);
                lemma_invariant_step(xp, ann, next, (steps - 1) as nat)
            }
        },
    }
}

/// The balances but that of coin `j`, with coin `i` at `x`.
pub open spec fn others(xp: Seq<int>, i: int, j: int, x: int) -> Seq<int> {
    xp.update(i, x).remove(j)
}

/// The first `k` balances with coin `i` at `x`, without coin `j`.
spec fn others_to(xp: Seq<int>, i: int, j: int, x: int, k: int) -> Seq<int> {
    if j < k {
        xp.update(i, x).take(k).remove(j)
    } else {
        xp.update(i, x).take(k)
    }
}

proof fn lemma_terms(xp: Seq<int>, i: int, j: int, x: int, d: int, k: int)
    requires
        0 <= k <= xp.len(),
        0 <= i < xp.len(),
        0 <= j < xp.len(),
        i != j,
    ensures
        y_terms(xp, i, j, x, d, k) matches Some((s, c)) ==> s == total(
            others_to(xp, i, j, x, k),
        ) && c == spread(d, others_to(xp, i, j, x, k), xp.len() as int),
    decreases k,
{
    if k > 0 {
        lemma_terms(xp, i, j, x, d, k - 1);
        let (a, b) = (others_to(xp, i, j, x, k - 1), others_to(xp, i, j, x, k));
        if k - 1 == j {
            assert(b =~= a);
        } else {
            assert(b.drop_last() =~= a);
            let w = balance_with(xp, i, x, k - 1);
            assert(b.last() == w);
            assert(w * xp.len() == xp.len() * w) by (nonlinear_arith);
        }
    } else {
        assert(others_to(xp, i, j, x, 0) =~= Seq::empty());
    }
}

/// What a StableSwap quote solves and pays. Balances and input are taken at the coins' rates. `d`
/// is where a Newton step of the invariant leads. The balance of the output coin that stays, `y`
/// and one unit, lies above the root of `y^2 + (b - d) * y = c`, and `y` does not, once the
/// solve has settled. The rest, less the fee on it, is paid in the output coin's own units.
pub open spec fn is_stable_swap(
    pool: CurveStablePool,
    xp: Seq<int>,
    i: int,
    j: int,
    amount_in: int,
    d: int,
    y: int,
    out: int,
) -> bool {
    let n = pool.coins@.len() as int;
    let ann = pool.a@ * n;
    let e: int = 1_000_000_000_000_000_000;
    let paid = (amount_in * pool.rates@[i]@) / e;
    let rest = others(xp, i, j, xp[i] + paid);
    let b = total(rest) + d / ann;
    let c = (spread(d, rest, n) * d) / (ann * n);
    let dy = xp[j] - y - 1;
    let fee = (dy * pool.fee_bps) / 10_000;
    &&& xp.len() == n
    &&& forall|k: int|
        0 <= k < n ==> is_floor(#[trigger] xp[k], pool.rates@[k]@ * pool.balances@[k]@, e)
    &&& total(xp) == 0 ==> d == 0
    &&& total(xp) != 0 ==> exists|before: int|
        before >= 0 && #[trigger] is_invariant_step(xp, ann, before, d)
    &&& y >= 0
    &&& dy >= 0
    &&& (y + 1) * (y + 1) + (b - d) * (y + 1) > c
    &&& y_settles(b, c, d, d, 255) ==> y * y + (b - d) * y <= c + 1
    &&& pool.fee_bps <= 10_000 ==> is_floor(out, (dy - fee) * e, pool.rates@[j]@)
}

/// A StableSwap quote solves the invariant and pays what its solution frees.
pub proof fn curve_quotes_solve_the_invariant(
    pool: CurveStablePool,
    token_in: Address,
    token_out: Address,
    amount_in: int,
    out: int,
) -> (r: (Seq<int>, int, int))
    requires
        amount_in >= 0,
        pool.spec_quote(token_in, token_out, amount_in) == Ok::<int, SimError>(out),
    ensures
        ({
            let (i, j) = (
                token_place(pool.coins@, token_in),
                token_place(pool.coins@, token_out),
            );
            &&& i is Some
            &&& j is Some
            &&& i != j
            &&& is_first_place(pool.coins@, token_in, i->0)
            &&& is_first_place(pool.coins@, token_out, j->0)
            &&& is_stable_swap(pool, r.0, i->0, j->0, amount_in, r.1, r.2, out)
        }),
        amount_in > 0,
        token_in != token_out,
{
    broadcast use lemma_u256_range;

    let n = pool.coins@.len() as int;
    let i = token_place(pool.coins@, token_in)->0;
    let j = token_place(pool.coins@, token_out)->0;
    assert(is_first_place(pool.coins@, token_in, i));
    assert(is_first_place(pool.coins@, token_out, j));
    assert(i != j);
    lemma_scaled(pool.balances@, pool.rates@, n);
    let xp = scaled_balances(pool.balances@, pool.rates@, n)->0;
    let a = pool.a@;
    let ann = a * n;
    let ri = pool.rates@[i]@;
    let paid = (amount_in * ri) / one18();
    assert(amount_in * ri >= 0) by (nonlinear_arith)
        requires
            amount_in >= 0,
            ri >= 0,
    ;
    let x = xp[i] + paid;
    assert(new_balance(i, j, x, xp, a) is Some);
    let d = invariant_d(xp, a)->0;
    lemma_invariant_not_negative(xp, a);
    lemma_y_terms_not_negative(xp, i, j, x, d, n);
    let (s, c0) = y_terms(xp, i, j, x, d, n)->0;
    lemma_terms(xp, i, j, x, d, n);
    assert(xp.update(i, x).take(n) =~= xp.update(i, x));
    assert(others_to(xp, i, j, x, n) == others(xp, i, j, x));
    lemma_total(xp, n);
    assert(xp.take(n) =~= xp);
    assert(ann >= 1) by (nonlinear_arith)
        requires
            ann == a * n,
            a >= 0,
            n >= 1,
            ann != 0,
    ;
    crate::amm::curve::lemma_partial_sum_nonnegative(xp, n);
    if total(xp) != 0 {
        let before = lemma_invariant_step(xp, ann, partial_sum(xp, n), 255);
        assert(is_invariant_step(xp, ann, before, d));
    }
    assert(ann * n > 0) by (nonlinear_arith)
        requires
            ann >= 1,
            n >= 1,
    ;
    let c = (c0 * d) / (ann * n);
    assert(c0 * d >= 0) by (nonlinear_arith)
        requires
            c0 >= 0,
            d >= 0,
    ;
    lemma_is_floor(c0 * d, ann * n);
    the_solver_brackets_the_root(s + d / ann, c, d, d, 255);
    let y = new_balance(i, j, x, xp, a)->0;
    let dy = xp[j] - y - 1;
    let f = pool.fee_bps as int;
    let fee = (dy * f) / 10_000;
    if f <= 10_000 {
        assert(0 <= fee <= dy) by (nonlinear_arith)
            requires
                fee == (dy * f) / 10_000,
                0 <= f <= 10_000,
                dy >= 0,
        ;
        lemma_small_mod((dy - fee) as nat, two256() as nat);
        lemma_is_floor((dy - fee) * one18(), pool.rates@[j]@);
    }
    assert forall|k: int| 0 <= k < n implies is_floor(
        #[trigger] xp[k],
        pool.rates@[k]@ * pool.balances@[k]@,
        1_000_000_000_000_000_000,
    ) by {
        lemma_is_floor(pool.rates@[k]@ * pool.balances@[k]@, one18());
    }
    (xp, d, y)
}

} // verus!
