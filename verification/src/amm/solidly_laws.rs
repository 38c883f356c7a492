//! Laws of the stable swap: a quote is paid in the output token's own units out of what the pool
//! holds, keeps the invariant, and treats both tokens alike.
use crate::amm::aerodrome::after_fee;
use crate::amm::balancer_math::one18;
use crate::amm::solidly::{
    derivative_value, invariant_value, lemma_pow10, lemma_rescale_18, lemma_step_up, mul1e18_value,
    newton_root, newton_step, newton_steps, normalized, pow10_value, raw_invariant, Newton,
    SolidlyStablePool,
};
use crate::math::{is_floor, lemma_is_floor};
use crate::pool::{Pool, SimError};
use crate::types::{lemma_u256_range, two256, Address};
use vstd::arithmetic::power::pow;
use vstd::prelude::*;

verus! {

/// `x^3*y + x*y^3` of two balances with 18 decimals, every product brought back to 18 decimals.
pub open spec fn stable_k(x: int, y: int) -> int {
    let e: int = 1_000_000_000_000_000_000;
    (((x * y) / e) * ((x * x) / e + (y * y) / e)) / e
}

proof fn lemma_invariant(x: int, y: int)
    ensures
        invariant_value(x, y) matches Some(k) ==> k == stable_k(x, y),
        invariant_value(x, y) == invariant_value(y, x),
        stable_k(x, y) == stable_k(y, x),
{
    assert(x * y == y * x) by (nonlinear_arith);
}

/// The new balance that the solve settles on: at it, or one below it, the invariant is met.
pub open spec fn settles(x0: int, k: int, root: int) -> bool {
    &&& root >= 0
    &&& stable_k(x0, root) == k || (root >= 1 && stable_k(x0, root - 1) < k)
}

proof fn lemma_root(x0: int, xy: int, start: int, d0: int, d1: int, steps: nat)
    requires
        0 <= x0,
        0 <= start,
    ensures
        newton_root(x0, xy, start, d0, d1, steps) matches Some(root) ==> settles(x0, xy, root) && (
        d0 == 18 && d1 == 18 ==> stable_k(x0, root) >= xy),
    decreases steps,
{
    if steps > 0 {
        lemma_rescale_18(x0);
        lemma_rescale_18(start + 1);
        lemma_invariant(x0, start);
        lemma_invariant(x0, start + 1);
        lemma_invariant(x0, start - 1);
        match newton_step(x0, xy, start, d0, d1) {
            Newton::Next(next) => {
                if let (Some(k), Some(slope)) = (
                    invariant_value(x0, start),
                    derivative_value(x0, start),
                ) {
                    assert(next >= 0) by {
                        if k < xy {
                            lemma_step_up(xy - k, slope, x0, start);
                        }
                    }
                }
                lemma_root(x0, xy, next, d0, d1, (steps - 1) as nat);
            },
            _ => {},
        }
    }
}

/// What a stable pool holds of a token, and that token's decimals.
pub open spec fn holding(pool: SolidlyStablePool, token: Address) -> (int, int) {
    if token == pool.token0 {
        (pool.reserve0@, pool.decimals0 as int)
    } else {
        (pool.reserve1@, pool.decimals1 as int)
    }
}

/// `r` is an amount of a token with `dec` decimals in 18 decimals, rounded down.
pub open spec fn is_scaled_up(amount: int, dec: int, r: int) -> bool {
    is_floor(r, amount * 1_000_000_000_000_000_000, pow(10, dec as nat) % two256())
}

proof fn lemma_normalized(x: int, dec: int)
    requires
        0 <= dec < 256,
        x >= 0,
    ensures
        normalized(x, dec) matches Some(v) ==> v >= 0 && is_scaled_up(x, dec, v),
        pow10_value(dec) > 0,
{
    lemma_pow10(dec as nat);
    lemma_is_floor(x * one18(), pow10_value(dec));
}

/// What is paid for a balance that falls from `r` to `root`, `r` being the whole reserve in 18
/// decimals, is at most the reserve.
proof fn lemma_covered(reserve: int, p: int, r: int, root: int, out: int)
    requires
        p > 0,
        is_floor(r, reserve * 1_000_000_000_000_000_000, p),
        0 <= root <= r,
        is_floor(out, (r - root) * p, 1_000_000_000_000_000_000),
    ensures
        0 <= out <= reserve,
{
    let y = r - root;
    assert(0 <= y * p <= r * p) by (nonlinear_arith)
        requires
            y == r - root,
            0 <= root <= r,
            p > 0,
    ;
    assert(out * 1_000_000_000_000_000_000 <= reserve * 1_000_000_000_000_000_000);
}

/// A stable quote solves the invariant. The fee is deducted from the input; both balances and
/// what is paid in are taken in 18 decimals; and what is paid out, in the output token's own
/// units, is what the balance out falls by to the point at which the invariant, with the balance
/// in risen by what is paid, is what it was. Between tokens of 18 decimals it never falls.
pub proof fn stable_quotes_solve_the_invariant(
    pool: SolidlyStablePool,
    token_in: Address,
    token_out: Address,
    amount_in: int,
    out: int,
) -> (r: (int, int, int, int))
    requires
        amount_in >= 0,
        pool.spec_quote(token_in, token_out, amount_in) == Ok::<int, SimError>(out),
    ensures
        ({
            let (fee, paid, balance_in, balance_out) = (r.0, r.1, r.2, r.3);
            let (reserve_in, dec_in) = holding(pool, token_in);
            let (reserve_out, dec_out) = holding(pool, token_out);
            &&& is_floor(fee, amount_in * pool.fee_bps, 10_000)
            &&& is_scaled_up(amount_in - fee, dec_in, paid)
            &&& is_scaled_up(reserve_in, dec_in, balance_in)
            &&& is_scaled_up(reserve_out, dec_out, balance_out)
            &&& exists|root: int|
                {
                    &&& #[trigger] settles(
                        balance_in + paid,
                        stable_k(balance_in, balance_out),
                        root,
                    )
                    &&& root <= balance_out
                    &&& is_floor(
                        out,
                        (balance_out - root) * (pow(10, dec_out as nat) % two256()),
                        1_000_000_000_000_000_000,
                    )
                    &&& dec_in == 18 && dec_out == 18 ==> stable_k(balance_in + paid, root)
                        >= stable_k(balance_in, balance_out)
                }
        }),
        0 <= out <= holding(pool, token_out).0,
        token_in == pool.token0 && token_out == pool.token1 || token_in == pool.token1 && token_out
            == pool.token0,
{
    broadcast use lemma_u256_range;

    let from0 = token_in == pool.token0 && token_out == pool.token1;
    let (reserve_in, dec_in) = holding(pool, token_in);
    let (reserve_out, dec_out) = holding(pool, token_out);
    let (d0, d1) = (pool.decimals0 as int, pool.decimals1 as int);
    let fee = (amount_in * pool.fee_bps) / 10_000;
    let kept = after_fee(amount_in, pool.fee_bps as int);
    assert(0 <= amount_in * pool.fee_bps <= amount_in * 10_000) by (nonlinear_arith)
        requires
            amount_in >= 0,
            0 <= pool.fee_bps < 10_000,
    ;
    lemma_normalized(pool.reserve0@, d0);
    lemma_normalized(pool.reserve1@, d1);
    lemma_normalized(kept, dec_in);
    let balance_in = normalized(reserve_in, dec_in)->0;
    let balance_out = normalized(reserve_out, dec_out)->0;
    let paid = normalized(kept, dec_in)->0;
    let xy = stable_k(balance_in, balance_out);
    lemma_invariant(balance_in, balance_out);
    lemma_root(paid + balance_in, xy, balance_out, d0, d1, newton_steps());
    let root = newton_root(paid + balance_in, xy, balance_out, d0, d1, newton_steps())->0;
    assert(settles(balance_in + paid, xy, root));
    let p = pow(10, dec_out as nat) % two256();
    lemma_is_floor((balance_out - root) * p, one18());
    lemma_covered(reserve_out, p, balance_out, root, out);
    (fee, paid, balance_in, balance_out)
}

/// A stable quote is paid out of what the pool holds of the output token, in its own units, in
/// both directions and for all decimals.
pub proof fn stable_quotes_are_covered(
    pool: SolidlyStablePool,
    token_in: Address,
    token_out: Address,
    amount_in: int,
)
    requires
        amount_in >= 0,
    ensures
        pool.spec_quote(token_in, token_out, amount_in) matches Ok(out) ==> 0 <= out <= (
        if token_out == pool.token0 {
            pool.reserve0@
        } else {
            pool.reserve1@
        }),
{
    if let Ok(out) = pool.spec_quote(token_in, token_out, amount_in) {
        let r = stable_quotes_solve_the_invariant(pool, token_in, token_out, amount_in, out);
    }
}

/// With the tokens, the reserves and the decimals exchanged.
pub open spec fn is_mirror(a: SolidlyStablePool, b: SolidlyStablePool) -> bool {
    &&& a.token0 == b.token1
    &&& a.token1 == b.token0
    &&& a.reserve0 == b.reserve1
    &&& a.reserve1 == b.reserve0
    &&& a.decimals0 == b.decimals1
    &&& a.decimals1 == b.decimals0
    &&& a.fee_bps == b.fee_bps
}

/// A stable pool treats its tokens alike: with the roles of the two exchanged it quotes the same,
/// where the solve settles alike with the decimals exchanged, as it does where they are equal.
pub proof fn stable_pools_have_no_sides(
    a: SolidlyStablePool,
    b: SolidlyStablePool,
    token_in: Address,
    token_out: Address,
    amount_in: int,
)
    requires
        is_mirror(a, b),
        a.decimals0 == a.decimals1 || forall|x0: int, xy: int, y: int|
            #[trigger] newton_root(
                x0,
                xy,
                y,
                a.decimals0 as int,
                a.decimals1 as int,
                newton_steps(),
            ) == newton_root(x0, xy, y, b.decimals0 as int, b.decimals1 as int, newton_steps()),
    ensures
        a.spec_quote(token_in, token_out, amount_in) == b.spec_quote(
            token_in,
            token_out,
            amount_in,
        ),
{
    let (d0, d1) = (a.decimals0 as int, a.decimals1 as int);
    if let (Some(x), Some(y)) = (normalized(a.reserve0@, d0), normalized(a.reserve1@, d1)) {
        lemma_invariant(x, y);
    }
}

} // verus!
