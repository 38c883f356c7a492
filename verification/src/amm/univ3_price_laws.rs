//! Laws of the steps of a V3 swap: what lies between two prices, where an amount moves a price,
//! and what crossing a tick leaves.
use crate::amm::univ3::{
    amount0_delta, amount1_delta, crossed, next_price_amount0, next_price_amount1, two96,
};
use crate::math::{
    ceil_div, is_ceil, is_floor, lemma_is_ceil, lemma_is_floor, lemma_one_ceil, lemma_one_floor,
};
use crate::pool::SimError;
use crate::types::{two128, two256};
use vstd::prelude::*;

verus! {

proof fn lemma_nested_floor(n: int, a: int, b: int)
    requires
        n >= 0,
        a > 0,
        b > 0,
    ensures
        is_floor((n / a) / b, n, a * b),
{
    vstd::arithmetic::div_mod::lemma_div_denominator(n, a, b);
    assert(a * b > 0) by (nonlinear_arith)
        requires
            a > 0,
            b > 0,
    ;
    lemma_is_floor(n, a * b);
}

proof fn lemma_nested_ceil(n: int, a: int, b: int)
    requires
        n >= 0,
        a > 0,
        b > 0,
    ensures
        is_ceil(ceil_div(ceil_div(n, a), b), n, a * b),
{
    let u = ceil_div(n, a);
    let v = ceil_div(u, b);
    lemma_is_ceil(n, a);
    lemma_is_ceil(u, b);
    assert(n <= v * (a * b)) by (nonlinear_arith)
        requires
            n <= u * a,
            u <= v * b,
            a > 0,
    ;
    assert((v - 1) * (a * b) < n) by (nonlinear_arith)
        requires
            (u - 1) * a < n,
            (v - 1) * b <= u - 1,
            a > 0,
    ;
}

/// Between two prices lies `L * (1/lower - 1/higher)` of the first token, and `L * (higher -
/// lower)` of the second, rounded as asked for; it does not matter which price is named first.
pub proof fn amounts_lie_between_the_prices(
    lower: int,
    higher: int,
    liquidity: int,
    v: int,
)
    requires
        0 < lower <= higher,
        0 <= liquidity,
    ensures
        amount0_delta(lower, higher, liquidity, true) == Ok::<int, SimError>(v) <==> is_ceil(
            v,
            liquidity * two96() * (higher - lower),
            higher * lower,
        ),
        amount0_delta(lower, higher, liquidity, false) == Ok::<int, SimError>(v) <==> is_floor(
            v,
            liquidity * two96() * (higher - lower),
            higher * lower,
        ),
        amount0_delta(higher, lower, liquidity, true) == amount0_delta(
            lower,
            higher,
            liquidity,
            true,
        ),
        amount0_delta(higher, lower, liquidity, false) == amount0_delta(
            lower,
            higher,
            liquidity,
            false,
        ),
{
    let n = liquidity * two96() * (higher - lower);
    assert(n >= 0) by (nonlinear_arith)
        requires
            n == liquidity * two96() * (higher - lower),
            liquidity >= 0,
            two96() >= 0,
            higher >= lower,
    ;
    let d = higher * lower;
    assert(d > 0) by (nonlinear_arith)
        requires
            d == higher * lower,
            higher > 0,
            lower > 0,
    ;
    lemma_nested_floor(n, higher, lower);
    lemma_nested_ceil(n, higher, lower);
    if is_ceil(v, n, d) {
        lemma_one_ceil(v, ceil_div(ceil_div(n, higher), lower), n, d);
    }
    if is_floor(v, n, d) {
        lemma_one_floor(v, (n / higher) / lower, n, d);
    }
}

/// There is no amount of the first token below a price of nothing.
pub proof fn no_price_has_no_amount(price: int, liquidity: int, round_up: bool)
    requires
        0 <= price,
    ensures
        amount0_delta(0, price, liquidity, round_up) == Err::<int, SimError>(
            SimError::InsufficientLiquidity,
        ),
        amount0_delta(price, 0, liquidity, round_up) == Err::<int, SimError>(
            SimError::InsufficientLiquidity,
        ),
{
}

/// An amount of the second token lies between two prices, if it fits.
pub proof fn second_amounts_lie_between_the_prices(
    lower: int,
    higher: int,
    liquidity: int,
    v: int,
)
    requires
        0 <= lower <= higher,
        0 <= liquidity,
    ensures
        is_ceil(v, liquidity * (higher - lower), two96()) ==> amount1_delta(
            lower,
            higher,
            liquidity,
            true,
        ) == if v < two256() {
            Ok::<int, SimError>(v)
        } else {
            Err(SimError::Overflow)
        },
        is_floor(v, liquidity * (higher - lower), two96()) ==> amount1_delta(
            lower,
            higher,
            liquidity,
            false,
        ) == if v < two256() {
            Ok::<int, SimError>(v)
        } else {
            Err(SimError::Overflow)
        },
        amount1_delta(higher, lower, liquidity, true) == amount1_delta(
            lower,
            higher,
            liquidity,
            true,
        ),
        amount1_delta(higher, lower, liquidity, false) == amount1_delta(
            lower,
            higher,
            liquidity,
            false,
        ),
{
    let n = liquidity * (higher - lower);
    lemma_is_ceil(n, two96());
    lemma_is_floor(n, two96());
    if is_ceil(v, n, two96()) {
        lemma_one_ceil(v, ceil_div(n, two96()), n, two96());
    }
    if is_floor(v, n, two96()) {
        lemma_one_floor(v, n / two96(), n, two96());
    }
}

/// Taking an amount of the first token out of the pool moves the price up to `L * P / (L - x *
/// P)`, rounded up; it cannot be done where the pool does not hold as much.
pub proof fn taking_the_first_token_moves_the_price(price: int, liquidity: int, amount: int)
    requires
        0 < price < two256(),
        0 <= liquidity < two128(),
        0 <= amount < two256(),
    ensures
        ({
            let all = liquidity * two96();
            match next_price_amount0(price, liquidity, amount, false) {
                Ok(v) => if amount == 0 {
                    v == price
                } else {
                    &&& amount * price < all
                    &&& is_ceil(v, all * price, all - amount * price)
                    &&& v < two256()
                },
                Err(e) => {
                    &&& e == SimError::Overflow
                    &&& amount != 0
                    &&& amount * price < two256() && amount * price < all ==> forall|v: int|
                        #[trigger] is_ceil(v, all * price, all - amount * price) ==> v >= two256()
                },
            }
        }),
{
    let all = liquidity * two96();
    let (n, d) = (all * price, all - amount * price);
    if d > 0 {
        lemma_is_ceil(n, d);
        assert forall|v: int| #[trigger] is_ceil(v, n, d) implies v == ceil_div(n, d) by {
            lemma_one_ceil(v, ceil_div(n, d), n, d);
        }
    }
}

/// Adding an amount of the first token moves the price down to `L * P / (L + x * P)`, rounded up.
pub proof fn adding_the_first_token_moves_the_price(price: int, liquidity: int, amount: int)
    requires
        0 < price < two256(),
        0 < liquidity < two128(),
        0 <= amount < two256(),
        liquidity * two96() + amount * price < two256(),
    ensures
        match next_price_amount0(price, liquidity, amount, true) {
            Ok(v) => if amount == 0 {
                v == price
            } else {
                is_ceil(
                    v,
                    liquidity * two96() * price,
                    liquidity * two96() + amount * price,
                )
            },
            Err(_) => false,
        },
{
    let all = liquidity * two96();
    let product = amount * price;
    assert(product >= 0) by (nonlinear_arith)
        requires
            product == amount * price,
            amount >= 0,
            price >= 0,
    ;
    assert(all > 0) by (nonlinear_arith)
        requires
            all == liquidity * two96(),
            liquidity > 0,
            two96() > 0,
    ;
    lemma_is_ceil(all * price, all + product);
}

/// An amount of the second token moves the price by what it is of the liquidity: up, rounded
/// down, where it is added, and down, rounded up, where it is taken.
pub proof fn the_second_token_moves_the_price(price: int, liquidity: int, amount: int, add: bool)
    requires
        0 <= price < two256(),
        0 <= liquidity < two128(),
        0 <= amount < two256(),
    ensures
        liquidity == 0 ==> next_price_amount1(price, liquidity, amount, add) == Err::<int, SimError>(
            SimError::Overflow,
        ),
        liquidity > 0 && add ==> match next_price_amount1(price, liquidity, amount, add) {
            Ok(v) => is_floor(v - price, amount * two96(), liquidity) && v < two256(),
            Err(e) => e == SimError::Overflow && forall|x: int| #[trigger]
                is_floor(x, amount * two96(), liquidity) ==> price + x >= two256(),
        },
        liquidity > 0 && !add ==> match next_price_amount1(price, liquidity, amount, add) {
            Ok(v) => is_ceil(price - v, amount * two96(), liquidity) && v >= 0,
            Err(e) => e == SimError::Overflow && forall|x: int| #[trigger]
                is_ceil(x, amount * two96(), liquidity) ==> x > price,
        },
{
    let n = amount * two96();
    if liquidity > 0 {
        lemma_is_ceil(n, liquidity);
        lemma_is_floor(n, liquidity);
        assert forall|x: int| #[trigger] is_ceil(x, n, liquidity) implies x == ceil_div(
            n,
            liquidity,
        ) by {
            lemma_one_ceil(x, ceil_div(n, liquidity), n, liquidity);
        }
        assert forall|x: int| #[trigger] is_floor(x, n, liquidity) implies x == n / liquidity by {
            lemma_one_floor(x, n / liquidity, n, liquidity);
        }
    }
}

/// Crossing a tick upwards adds its net liquidity, and crossing it downwards takes it off.
pub proof fn crossing_changes_the_liquidity(liquidity: int, net: int, zero_for_one: bool)
    requires
        0 <= liquidity < two128(),
    ensures
        ({
            let after = if zero_for_one {
                liquidity - net
            } else {
                liquidity + net
            };
            &&& 0 <= after < two128() ==> crossed(liquidity, net, zero_for_one) == Ok::<
                int,
                SimError,
            >(after)
            &&& after < 0 ==> crossed(liquidity, net, zero_for_one) == Err::<int, SimError>(
                SimError::InsufficientLiquidity,
            )
            &&& after >= two128() ==> crossed(liquidity, net, zero_for_one) == Err::<int, SimError>(
                SimError::Overflow,
            )
        }),
{
}

} // verus!
