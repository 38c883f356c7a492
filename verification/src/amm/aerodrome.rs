//! Aerodrome (Solidly) volatile pools, bit for bit as `Pool.getAmountOut` computes them.
//!
//! Aerodrome deducts the fee in a separate integer step and then applies the constant-product
//! formula, which rounds differently than Uniswap V2's folded formula.
use crate::amm::univ2::{lemma_share_is_monotone, v2_amount_out};
use crate::math::mul_div;
use crate::pool::{Pool, Protocol, SimError};
use crate::types::{lemma_u256_range, two256, Address, U256};
use vstd::arithmetic::div_mod::{lemma_fundamental_div_mod, lemma_small_mod};
use vstd::prelude::*;

verus! {

/// A volatile Aerodrome pair.
#[derive(Clone, Copy, Debug)]
pub struct AerodromeVolatilePool {
    pub address: Address,
    pub token0: Address,
    pub token1: Address,
    pub reserve0: U256,
    pub reserve1: U256,
    /// Per-pool fee in basis points, read from the factory.
    pub fee_bps: u32,
    /// The two tokens, as [`Pool::tokens`] returns them.
    pub tokens: [Address; 2],
}

/// What is left of `amount_in` once the fee, rounded down, is deducted.
pub open spec fn after_fee(amount_in: int, fee_bps: int) -> int {
    amount_in - (amount_in * fee_bps) / 10_000
}

/// The output of `amount_in`, the fee deducted first.
pub open spec fn aerodrome_amount_out(
    amount_in: int,
    reserve_in: int,
    reserve_out: int,
    fee_bps: int,
) -> int {
    let a = after_fee(amount_in, fee_bps);
    (a * reserve_out) / (reserve_in + a)
}

/// The fee is a proper part of the amount.
pub proof fn lemma_after_fee(amount_in: int, fee_bps: int)
    requires
        0 < amount_in,
        0 <= fee_bps < 10_000,
    ensures
        0 < after_fee(amount_in, fee_bps) <= amount_in,
        after_fee(amount_in, fee_bps) * 10_000 >= amount_in * (10_000 - fee_bps),
{
    let f = amount_in * fee_bps;
    assert(0 <= f <= amount_in * 9_999) by (nonlinear_arith)
        requires
            f == amount_in * fee_bps,
            0 < amount_in,
            0 <= fee_bps < 10_000,
    ;
    assert(amount_in * (10_000 - fee_bps) == amount_in * 10_000 - f) by (nonlinear_arith)
        requires
            f == amount_in * fee_bps,
    ;
}

impl AerodromeVolatilePool {
    /// A volatile pair over `token0` and `token1`.
    pub fn new(
        address: Address,
        token0: Address,
        token1: Address,
        reserve0: U256,
        reserve1: U256,
        fee_bps: u32,
    ) -> (r: AerodromeVolatilePool)
        ensures
            r.address == address,
            r.token0 == token0,
            r.token1 == token1,
            r.reserve0 == reserve0,
            r.reserve1 == reserve1,
            r.fee_bps == fee_bps,
            r.spec_tokens() == seq![token0, token1],
    {
        AerodromeVolatilePool {
            address,
            token0,
            token1,
            reserve0,
            reserve1,
            fee_bps,
            tokens: [token0, token1],
        }
    }
}

impl Pool for AerodromeVolatilePool {
    open spec fn wf(&self) -> bool {
        true
    }

    open spec fn spec_address(&self) -> Address {
        self.address
    }

    open spec fn spec_protocol(&self) -> Protocol {
        Protocol::UniswapV2
    }

    open spec fn spec_tokens(&self) -> Seq<Address> {
        self.tokens@
    }

    open spec fn spec_quote(
        &self,
        token_in: Address,
        token_out: Address,
        amount_in: int,
    ) -> Result<int, SimError> {
        if token_in == token_out {
            Err(SimError::SameToken)
        } else if amount_in == 0 {
            Err(SimError::ZeroAmount)
        } else if self.fee_bps >= 10_000 {
            Err(SimError::BadConfig("fee_bps >= 100%"))
        } else if token_in != self.token0 && token_in != self.token1 {
            Err(SimError::UnknownToken(token_in))
        } else if token_out != self.token0 && token_out != self.token1 {
            Err(SimError::UnknownToken(token_out))
        } else {
            let forward = token_in == self.token0 && token_out == self.token1;
            let reserve_in = if forward { self.reserve0@ } else { self.reserve1@ };
            let reserve_out = if forward { self.reserve1@ } else { self.reserve0@ };
            if reserve_in == 0 || reserve_out == 0 {
                Err(SimError::InsufficientLiquidity)
            } else if reserve_in + after_fee(amount_in, self.fee_bps as int) >= two256() {
                Err(SimError::Overflow)
            } else {
                Ok(aerodrome_amount_out(amount_in, reserve_in, reserve_out, self.fee_bps as int))
            }
        }
    }

    open spec fn spec_gas(&self) -> int {
        110_000
    }

    fn address(&self) -> (r: Address) {
        self.address
    }

    fn protocol(&self) -> (r: Protocol) {
        Protocol::UniswapV2
    }

    fn tokens(&self) -> (r: &[Address]) {
        vstd::array::array_as_slice(&self.tokens)
    }

    fn quote(&self, token_in: Address, token_out: Address, amount_in: U256) -> (r: Result<
        U256,
        SimError,
    >) {
        broadcast use lemma_u256_range;

        if token_in == token_out {
            return Err(SimError::SameToken);
        }
        if amount_in.is_zero() {
            return Err(SimError::ZeroAmount);
        }
        if self.fee_bps >= 10_000 {
            return Err(SimError::BadConfig("fee_bps >= 100%"));
        }
        let (reserve_in, reserve_out) = if token_in == self.token0 && token_out == self.token1 {
            (self.reserve0, self.reserve1)
        } else if token_in == self.token1 && token_out == self.token0 {
            (self.reserve1, self.reserve0)
        } else if token_in != self.token0 && token_in != self.token1 {
            return Err(SimError::UnknownToken(token_in));
        } else {
            return Err(SimError::UnknownToken(token_out));
        };
        if reserve_in.is_zero() || reserve_out.is_zero() {
            return Err(SimError::InsufficientLiquidity);
        }
        proof {
            lemma_after_fee(amount_in@, self.fee_bps as int);
        }
        let fee = match mul_div(
            amount_in,
            U256::from_u64(self.fee_bps as u64),
            U256::from_u64(10_000),
        ) {
            Some(v) => v,
            None => {
                return Err(SimError::Overflow);
            },
        };
        proof {
            lemma_small_mod((amount_in@ - fee@) as nat, two256() as nat);
        }
        let amount_in_after = amount_in.wrapping_sub(fee);
        let denom = match reserve_in.checked_add(amount_in_after) {
            Some(v) => v,
            None => {
                return Err(SimError::Overflow);
            },
        };
        proof {
            let a = amount_in_after@;
            assert((a * reserve_out@) / denom@ < two256()) by (nonlinear_arith)
                requires
                    0 < a < denom@,
                    0 <= reserve_out@ < two256(),
            ;
        }
        match mul_div(amount_in_after, reserve_out, denom) {
            Some(v) => Ok(v),
            None => Err(SimError::Overflow),
        }
    }

    fn gas_estimate(&self) -> (r: u64) {
        110_000
    }
}

/// A swap never takes the whole output reserve and never lowers the reserve product.
pub proof fn aerodrome_keeps_the_product(
    amount_in: int,
    reserve_in: int,
    reserve_out: int,
    fee_bps: int,
)
    requires
        0 < amount_in,
        0 < reserve_in,
        0 < reserve_out,
        0 <= fee_bps < 10_000,
    ensures
        0 <= aerodrome_amount_out(amount_in, reserve_in, reserve_out, fee_bps) < reserve_out,
        (reserve_in + amount_in) * (reserve_out - aerodrome_amount_out(
            amount_in,
            reserve_in,
            reserve_out,
            fee_bps,
        )) >= reserve_in * reserve_out,
{
    lemma_after_fee(amount_in, fee_bps);
    let a = after_fee(amount_in, fee_bps);
    let out = aerodrome_amount_out(amount_in, reserve_in, reserve_out, fee_bps);
    lemma_fundamental_div_mod(a * reserve_out, reserve_in + a);
    assert(0 <= out < reserve_out) by (nonlinear_arith)
        requires
            out == (a * reserve_out) / (reserve_in + a),
            0 < a,
            0 < reserve_in,
            0 < reserve_out,
    ;
    assert(out * reserve_in <= a * (reserve_out - out)) by (nonlinear_arith)
        requires
            a * reserve_out == (reserve_in + a) * out + (a * reserve_out) % (reserve_in + a),
            (a * reserve_out) % (reserve_in + a) >= 0,
    ;
    assert(a * (reserve_out - out) <= amount_in * (reserve_out - out)) by (nonlinear_arith)
        requires
            a <= amount_in,
            0 <= reserve_out - out,
    ;
    assert((reserve_in + amount_in) * (reserve_out - out) == reserve_in * reserve_out - out
        * reserve_in + amount_in * (reserve_out - out)) by (nonlinear_arith);
}

/// Deducting the fee first, rounded down, never quotes less than the folded Uniswap V2 formula.
pub proof fn aerodrome_quotes_at_least_v2(
    amount_in: int,
    reserve_in: int,
    reserve_out: int,
    fee_bps: int,
)
    requires
        0 < amount_in,
        0 < reserve_in,
        0 < reserve_out,
        0 <= fee_bps < 10_000,
    ensures
        v2_amount_out(amount_in, reserve_in, reserve_out, fee_bps) <= aerodrome_amount_out(
            amount_in,
            reserve_in,
            reserve_out,
            fee_bps,
        ),
{
    lemma_after_fee(amount_in, fee_bps);
    let a = after_fee(amount_in, fee_bps);
    let w = amount_in * (10_000 - fee_bps);
    assert(0 < w) by (nonlinear_arith)
        requires
            w == amount_in * (10_000 - fee_bps),
            0 < amount_in,
            0 <= fee_bps < 10_000,
    ;
    lemma_share_is_monotone(w, a * 10_000, reserve_out, reserve_in * 10_000);
    // Scaling numerator and denominator by 10_000 leaves the quotient unchanged.
    assert((a * 10_000) * reserve_out == 10_000 * (a * reserve_out)) by (nonlinear_arith);
    assert(reserve_in * 10_000 + a * 10_000 == 10_000 * (reserve_in + a));
    vstd::arithmetic::div_mod::lemma_truncate_middle(a * reserve_out, 10_000, reserve_in + a);
    vstd::arithmetic::div_mod::lemma_div_denominator(10_000 * (a * reserve_out), 10_000, reserve_in + a);
    vstd::arithmetic::div_mod::lemma_div_multiples_vanish(a * reserve_out, 10_000);
}

} // verus!
