//! What a constant-product pair pays: all that leaves the product of its reserves as large as it
//! was, and nothing more.
use crate::amm::aerodrome::{after_fee, lemma_after_fee, AerodromeVolatilePool};
use crate::amm::univ2::UniV2Pool;
use crate::math::{is_floor, lemma_is_floor};
use crate::pool::{Pool, SimError};
use crate::types::{lemma_u256_range, two256, Address};
use vstd::prelude::*;

verus! {

/// `out` is the most that can be taken from `y` for `paid` into `x` without lowering the product.
pub open spec fn is_most_for_the_product(x: int, y: int, paid: int, out: int) -> bool {
    &&& 0 <= out < y
    &&& (x + paid) * (y - out) >= x * y
    &&& (x + paid) * (y - (out + 1)) < x * y
}

proof fn lemma_most(x: int, y: int, paid: int)
    requires
        x > 0,
        y > 0,
        paid > 0,
    ensures
        is_most_for_the_product(x, y, paid, (paid * y) / (x + paid)),
{
    let out = (paid * y) / (x + paid);
    lemma_is_floor(paid * y, x + paid);
    assert(paid * y >= 0) by (nonlinear_arith)
        requires
            paid > 0,
            y > 0,
    ;
    assert(out < y) by (nonlinear_arith)
        requires
            out * (x + paid) <= paid * y,
            x > 0,
            y > 0,
            paid > 0,
    ;
    assert((x + paid) * (y - out) >= x * y && (x + paid) * (y - (out + 1)) < x * y)
        by (nonlinear_arith)
        requires
            out * (x + paid) <= paid * y,
            paid * y < (out + 1) * (x + paid),
    ;
}

/// The two tokens are those of the pair, one each.
pub open spec fn is_pair(token0: Address, token1: Address, a: Address, b: Address) -> bool {
    a != b && (a == token0 && b == token1 || a == token1 && b == token0)
}

/// A Uniswap V2 pair pays the most that keeps the product, once the fee is taken off the input:
/// in ten-thousandths of the input token, `10_000 * reserve` is held and `amount * (10_000 - fee)`
/// comes in. It quotes exactly where something is swapped between its two tokens against reserves
/// of both, for a fee below the whole, and where that sum fits in 256 bits.
pub proof fn v2_pays_all_that_keeps_the_product(
    pool: UniV2Pool,
    token_in: Address,
    token_out: Address,
    amount_in: int,
)
    requires
        amount_in >= 0,
    ensures
        ({
            let (x, y) = if token_in == pool.token0 {
                (pool.reserve0@, pool.reserve1@)
            } else {
                (pool.reserve1@, pool.reserve0@)
            };
            let paid = amount_in * (10_000 - pool.fee_bps);
            &&& pool.spec_quote(token_in, token_out, amount_in) is Ok <==> {
                &&& is_pair(pool.token0, pool.token1, token_in, token_out)
                &&& amount_in > 0
                &&& pool.fee_bps < 10_000
                &&& x > 0
                &&& y > 0
                &&& 10_000 * x + paid < two256()
            }
            &&& pool.spec_quote(token_in, token_out, amount_in) matches Ok(out)
                ==> is_most_for_the_product(10_000 * x, y, paid, out)
        }),
{
    broadcast use lemma_u256_range;

    let (x, y) = if token_in == pool.token0 {
        (pool.reserve0@, pool.reserve1@)
    } else {
        (pool.reserve1@, pool.reserve0@)
    };
    let paid = amount_in * (10_000 - pool.fee_bps);
    if pool.spec_quote(token_in, token_out, amount_in) is Ok {
        assert(paid > 0) by (nonlinear_arith)
            requires
                paid == amount_in * (10_000 - pool.fee_bps),
                amount_in > 0,
                pool.fee_bps < 10_000,
        ;
        lemma_most(10_000 * x, y, paid);
    }
}

/// An Aerodrome volatile pair pays the most that keeps the product, once its fee, rounded down to
/// the unit of the input token, is taken off the input. It quotes exactly where something is
/// swapped between its two tokens against reserves of both, for a fee below the whole, and where
/// the reserve with what is paid fits in 256 bits.
pub proof fn aerodrome_pays_all_that_keeps_the_product(
    pool: AerodromeVolatilePool,
    token_in: Address,
    token_out: Address,
    amount_in: int,
    fee: int,
)
    requires
        amount_in >= 0,
        is_floor(fee, amount_in * pool.fee_bps, 10_000),
    ensures
        ({
            let (x, y) = if token_in == pool.token0 {
                (pool.reserve0@, pool.reserve1@)
            } else {
                (pool.reserve1@, pool.reserve0@)
            };
            let paid = amount_in - fee;
            &&& pool.spec_quote(token_in, token_out, amount_in) is Ok <==> {
                &&& is_pair(pool.token0, pool.token1, token_in, token_out)
                &&& amount_in > 0
                &&& pool.fee_bps < 10_000
                &&& x > 0
                &&& y > 0
                &&& x + paid < two256()
            }
            &&& pool.spec_quote(token_in, token_out, amount_in) matches Ok(out)
                ==> is_most_for_the_product(x, y, paid, out)
        }),
{
    broadcast use lemma_u256_range;

    let (x, y) = if token_in == pool.token0 {
        (pool.reserve0@, pool.reserve1@)
    } else {
        (pool.reserve1@, pool.reserve0@)
    };
    assert(fee == (amount_in * pool.fee_bps) / 10_000);
    if pool.spec_quote(token_in, token_out, amount_in) is Ok {
        lemma_after_fee(amount_in, pool.fee_bps as int);
        assert(after_fee(amount_in, pool.fee_bps as int) == amount_in - fee);
        lemma_most(x, y, amount_in - fee);
    }
}

} // verus!
