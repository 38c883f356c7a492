//! Constant-product (`x * y = k`) pools.
//!
//! Covers Uniswap V2 and its forks: they only differ by the fee parameter.
use crate::math::mul_div;
use crate::pool::{Pool, Protocol, SimError};
use crate::types::{lemma_u256_range, two256, Address, U256};
use vstd::arithmetic::div_mod::{lemma_div_is_ordered, lemma_fundamental_div_mod};
use vstd::prelude::*;

verus! {

/// A constant-product pair with a configurable fee.
#[derive(Clone, Copy, Debug)]
pub struct UniV2Pool {
    pub address: Address,
    pub token0: Address,
    pub token1: Address,
    pub reserve0: U256,
    pub reserve1: U256,
    /// Swap fee in basis points. Uniswap V2 = 30, Pancake = 25.
    pub fee_bps: u32,
    /// The two tokens, as [`Pool::tokens`] returns them.
    pub tokens: [Address; 2],
}

/// The output of `amount_in` against the reserves, the fee folded into one division.
pub open spec fn v2_amount_out(amount_in: int, reserve_in: int, reserve_out: int, fee_bps: int) -> int {
    let with_fee = amount_in * (10_000 - fee_bps);
    (with_fee * reserve_out) / (reserve_in * 10_000 + with_fee)
}

impl UniV2Pool {
    /// A pair over `token0` and `token1`.
    pub fn new(
        address: Address,
        token0: Address,
        token1: Address,
        reserve0: U256,
        reserve1: U256,
        fee_bps: u32,
    ) -> (r: UniV2Pool)
        ensures
            r.address == address,
            r.token0 == token0,
            r.token1 == token1,
            r.reserve0 == reserve0,
            r.reserve1 == reserve1,
            r.fee_bps == fee_bps,
            r.spec_tokens() == seq![token0, token1],
    {
        UniV2Pool {
            address,
            token0,
            token1,
            reserve0,
            reserve1,
            fee_bps,
            tokens: [token0, token1],
        }
    }

    /// The reserves oriented for the given input token.
    pub open spec fn spec_reserves_for(&self, token_in: Address) -> Option<(U256, U256)> {
        if token_in == self.token0 {
            Some((self.reserve0, self.reserve1))
        } else if token_in == self.token1 {
            Some((self.reserve1, self.reserve0))
        } else {
            None
        }
    }

    /// `(reserve_in, reserve_out)` oriented for the given input token.
    pub fn reserves_for(&self, token_in: Address) -> (r: Option<(U256, U256)>)
        ensures
            r == self.spec_reserves_for(token_in),
    {
        if token_in == self.token0 {
            Some((self.reserve0, self.reserve1))
        } else if token_in == self.token1 {
            Some((self.reserve1, self.reserve0))
        } else {
            None
        }
    }
}

/// A fraction of `reserve_out` below one: the quotient is below `reserve_out`.
proof fn lemma_share(part: int, reserve_out: int, rest: int)
    requires
        0 <= part,
        0 < reserve_out,
        0 < rest,
    ensures
        0 <= (part * reserve_out) / (rest + part) < reserve_out,
{
    assert(0 <= (part * reserve_out) / (rest + part) < reserve_out) by (nonlinear_arith)
        requires
            0 <= part,
            0 < reserve_out,
            0 < rest,
    ;
}

impl Pool for UniV2Pool {
    open spec fn wf(&self) -> bool {
        true
    }

    open spec fn spec_address(&self) -> Address {
        self.address
    }

    open spec fn spec_protocol(&self) -> Protocol {
        Protocol::UniswapV2
    }

    open spec fn spec_tokens(&self) -> Seq<Address> {
        self.tokens@
    }

    open spec fn spec_quote(
        &self,
        token_in: Address,
        token_out: Address,
        amount_in: int,
    ) -> Result<int, SimError> {
        if token_in == token_out {
            Err(SimError::SameToken)
        } else if amount_in == 0 {
            Err(SimError::ZeroAmount)
        } else if self.fee_bps >= 10_000 {
            Err(SimError::BadConfig("fee_bps >= 100%"))
        } else {
            match self.spec_reserves_for(token_in) {
                None => Err(SimError::UnknownToken(token_in)),
                Some((reserve_in, reserve_out)) => if token_out != self.token0 && token_out
                    != self.token1 {
                    Err(SimError::UnknownToken(token_out))
                } else if reserve_in@ == 0 || reserve_out@ == 0 {
                    Err(SimError::InsufficientLiquidity)
                } else if reserve_in@ * 10_000 + amount_in * (10_000 - self.fee_bps) >= two256() {
                    Err(SimError::Overflow)
                } else {
                    Ok(v2_amount_out(amount_in, reserve_in@, reserve_out@, self.fee_bps as int))
                },
            }
        }
    }

    open spec fn spec_gas(&self) -> int {
        100_000
    }

    fn address(&self) -> (r: Address) {
        self.address
    }

    fn protocol(&self) -> (r: Protocol) {
        Protocol::UniswapV2
    }

    fn tokens(&self) -> (r: &[Address]) {
        vstd::array::array_as_slice(&self.tokens)
    }

    fn quote(&self, token_in: Address, token_out: Address, amount_in: U256) -> (r: Result<
        U256,
        SimError,
    >) {
        broadcast use lemma_u256_range;

        if token_in == token_out {
            return Err(SimError::SameToken);
        }
        if amount_in.is_zero() {
            return Err(SimError::ZeroAmount);
        }
        if self.fee_bps >= 10_000 {
            return Err(SimError::BadConfig("fee_bps >= 100%"));
        }
        let (reserve_in, reserve_out) = match self.reserves_for(token_in) {
            Some(reserves) => reserves,
            None => {
                return Err(SimError::UnknownToken(token_in));
            },
        };
        if token_out != self.token0 && token_out != self.token1 {
            return Err(SimError::UnknownToken(token_out));
        }
        if reserve_in.is_zero() || reserve_out.is_zero() {
            return Err(SimError::InsufficientLiquidity);
        }
        let fee_num = U256::from_u64((10_000 - self.fee_bps) as u64);
        let amount_in_with_fee = match amount_in.checked_mul(fee_num) {
            Some(v) => v,
            None => {
                return Err(SimError::Overflow);
            },
        };
        let scaled = match reserve_in.checked_mul(U256::from_u64(10_000)) {
            Some(v) => v,
            None => {
                proof {
                    assert(amount_in@ * fee_num@ >= 0);
                }
                return Err(SimError::Overflow);
            },
        };
        let denominator = match scaled.checked_add(amount_in_with_fee) {
            Some(v) => v,
            None => {
                return Err(SimError::Overflow);
            },
        };
        proof {
            lemma_share(amount_in_with_fee@, reserve_out@, reserve_in@ * 10_000);
        }
        match mul_div(amount_in_with_fee, reserve_out, denominator) {
            Some(v) => Ok(v),
            None => Err(SimError::Overflow),
        }
    }

    fn gas_estimate(&self) -> (r: u64) {
        100_000
    }
}

/// A swap never takes the whole output reserve and never lowers the reserve product.
pub proof fn v2_keeps_the_product(amount_in: int, reserve_in: int, reserve_out: int, fee_bps: int)
    requires
        0 < amount_in,
        0 < reserve_in,
        0 < reserve_out,
        0 <= fee_bps < 10_000,
    ensures
        0 <= v2_amount_out(amount_in, reserve_in, reserve_out, fee_bps) < reserve_out,
        (reserve_in + amount_in) * (reserve_out - v2_amount_out(
            amount_in,
            reserve_in,
            reserve_out,
            fee_bps,
        )) >= reserve_in * reserve_out,
{
    let w = amount_in * (10_000 - fee_bps);
    assert(0 < w <= amount_in * 10_000) by (nonlinear_arith)
        requires
            w == amount_in * (10_000 - fee_bps),
            0 < amount_in,
            0 <= fee_bps < 10_000,
    ;
    let d = reserve_in * 10_000 + w;
    let out = v2_amount_out(amount_in, reserve_in, reserve_out, fee_bps);
    lemma_share(w, reserve_out, reserve_in * 10_000);
    lemma_fundamental_div_mod(w * reserve_out, d);
    assert(out * d <= w * reserve_out) by (nonlinear_arith)
        requires
            w * reserve_out == d * out + (w * reserve_out) % d,
            (w * reserve_out) % d >= 0,
    ;
    lemma_product_kept(amount_in, reserve_in, reserve_out, w, out);
}

/// Paying out no more than the input's share keeps the product.
proof fn lemma_product_kept(a: int, ri: int, ro: int, w: int, out: int)
    requires
        0 < a,
        0 < ri,
        0 <= out < ro,
        0 <= w <= a * 10_000,
        out * (ri * 10_000 + w) <= w * ro,
    ensures
        (ri + a) * (ro - out) >= ri * ro,
{
    // out * ri * 10_000 <= w * (ro - out) <= a * 10_000 * (ro - out)
    assert(w * (ro - out) <= (a * 10_000) * (ro - out)) by (nonlinear_arith)
        requires
            w <= a * 10_000,
            0 <= ro - out,
    ;
    assert(out * (ri * 10_000) <= w * (ro - out)) by (nonlinear_arith)
        requires
            out * (ri * 10_000 + w) <= w * ro,
    ;
    assert(out * (ri * 10_000) == 10_000 * (out * ri)) by (nonlinear_arith);
    assert((a * 10_000) * (ro - out) == 10_000 * (a * (ro - out))) by (nonlinear_arith);
    assert((ri + a) * (ro - out) == ri * ro - out * ri + a * (ro - out)) by (nonlinear_arith);
}

/// Offering more never returns less.
pub proof fn v2_is_monotone(less: int, more: int, reserve_in: int, reserve_out: int, fee_bps: int)
    requires
        0 < less <= more,
        0 < reserve_in,
        0 < reserve_out,
        0 <= fee_bps < 10_000,
    ensures
        v2_amount_out(less, reserve_in, reserve_out, fee_bps) <= v2_amount_out(
            more,
            reserve_in,
            reserve_out,
            fee_bps,
        ),
{
    let w1 = less * (10_000 - fee_bps);
    let w2 = more * (10_000 - fee_bps);
    assert(0 < w1 <= w2) by (nonlinear_arith)
        requires
            w1 == less * (10_000 - fee_bps),
            w2 == more * (10_000 - fee_bps),
            0 < less <= more,
            0 <= fee_bps < 10_000,
    ;
    lemma_share_is_monotone(w1, w2, reserve_out, reserve_in * 10_000);
}

/// `part * out / (rest + part)` grows with `part`.
pub proof fn lemma_share_is_monotone(p1: int, p2: int, reserve_out: int, rest: int)
    requires
        0 < p1 <= p2,
        0 < reserve_out,
        0 < rest,
    ensures
        (p1 * reserve_out) / (rest + p1) <= (p2 * reserve_out) / (rest + p2),
{
    let q = (p1 * reserve_out) / (rest + p1);
    let d2 = rest + p2;
    lemma_fundamental_div_mod(p1 * reserve_out, rest + p1);
    assert(0 <= q < reserve_out) by {
        lemma_share(p1, reserve_out, rest);
    }
    assert(q * rest <= p1 * (reserve_out - q)) by (nonlinear_arith)
        requires
            p1 * reserve_out == (rest + p1) * q + (p1 * reserve_out) % (rest + p1),
            (p1 * reserve_out) % (rest + p1) >= 0,
    ;
    assert(p1 * (reserve_out - q) <= p2 * (reserve_out - q)) by (nonlinear_arith)
        requires
            p1 <= p2,
            0 <= reserve_out - q,
    ;
    assert(q * d2 <= p2 * reserve_out) by (nonlinear_arith)
        requires
            q * rest <= p2 * (reserve_out - q),
            d2 == rest + p2,
    ;
    vstd::arithmetic::div_mod::lemma_div_by_multiple(q, d2);
    lemma_div_is_ordered(q * d2, p2 * reserve_out, d2);
}

/// Equal reserves quote the same in both directions.
pub proof fn v2_is_symmetric(p: UniV2Pool, amount_in: int)
    requires
        p.reserve0 == p.reserve1,
        p.token0 != p.token1,
    ensures
        p.spec_quote(p.token0, p.token1, amount_in) == p.spec_quote(
            p.token1,
            p.token0,
            amount_in,
        ),
{
}

} // verus!
