//! Balancer V2 weighted pools in exact integer math.
//!
//! An exact-in swap subtracts the swap fee from the raw input, upscales balances and input to
//! 18 decimals, applies the weighted formula, and downscales the result, truncating.
use crate::amm::balancer_accuracy::swaps_keep_the_weighted_product;
use crate::amm::balancer_math as bmath;
use crate::amm::balancer_math::{mul_up_value, one18, weighted_out, MathError};
use crate::pool::{index_of_token, token_place, Pool, Protocol, SimError};
use crate::types::{lemma_u256_range, two256, Address, U256};
use vstd::arithmetic::div_mod::lemma_small_mod;
use vstd::arithmetic::power::{lemma_pow_distributes, lemma_pow_positive, pow};
use vstd::prelude::*;

verus! {

/// What a refused computation means for the swap.
pub open spec fn spec_map_err(e: MathError) -> SimError {
    match e {
        MathError::MaxInRatio => SimError::InsufficientLiquidity,
        _ => SimError::Overflow,
    }
}

/// What a refused computation means for the swap.
pub fn map_err(e: MathError) -> (r: SimError)
    ensures
        r == spec_map_err(e),
{
    match e {
        MathError::MaxInRatio => SimError::InsufficientLiquidity,
        _ => SimError::Overflow,
    }
}

/// The value, or what its refusal means for the swap.
fn or_sim_error(v: Result<U256, MathError>) -> (r: Result<U256, SimError>)
    ensures
        match v {
            Ok(x) => r == Ok::<U256, SimError>(x),
            Err(e) => r == Err::<U256, SimError>(spec_map_err(e)),
        },
{
    match v {
        Ok(x) => Ok(x),
        Err(e) => Err(map_err(e)),
    }
}

/// A weighted pool.
#[derive(Clone, Debug)]
pub struct BalancerWeightedPool {
    pub address: Address,
    pub tokens: Vec<Address>,
    /// Balances in native token units, token order.
    pub balances: Vec<U256>,
    /// Normalized weights as 18-decimal fixed point.
    pub weights: Vec<U256>,
    /// Token decimals.
    pub decimals: Vec<u8>,
    /// Swap fee as 18-decimal fixed point.
    pub swap_fee: U256,
}

/// `10^(18 - decimals)`.
pub open spec fn scale_value(decimals: int) -> int {
    pow(10, (18 - decimals) as nat)
}

/// The scale of a token with at most 18 decimals is at most 10^18.
proof fn lemma_scale(decimals: int)
    requires
        0 <= decimals <= 18,
    ensures
        1 <= scale_value(decimals) <= one18(),
{
    vstd::arithmetic::power::lemma_pow_positive(10, (18 - decimals) as nat);
    vstd::arithmetic::power::lemma_pow_increases(10, (18 - decimals) as nat, 18);
    assert(pow(10, 18) == one18()) by {
        reveal_with_fuel(vstd::arithmetic::power::pow, 19);
    }
}

impl BalancerWeightedPool {
    /// A weighted pool with the fee as a fixed-point fraction.
    pub fn new(
        address: Address,
        tokens: Vec<Address>,
        balances: Vec<U256>,
        weights: Vec<U256>,
        decimals: Vec<u8>,
        swap_fee: U256,
    ) -> (r: BalancerWeightedPool)
        ensures
            r == (BalancerWeightedPool { address, tokens, balances, weights, decimals, swap_fee }),
    {
        BalancerWeightedPool { address, tokens, balances, weights, decimals, swap_fee }
    }

    /// A weighted pool with the fee in basis points.
    pub fn from_bps(
        address: Address,
        tokens: Vec<Address>,
        balances: Vec<U256>,
        weights: Vec<U256>,
        decimals: Vec<u8>,
        fee_bps: u32,
    ) -> (r: BalancerWeightedPool)
        ensures
            r.swap_fee@ == fee_bps * 100_000_000_000_000,
            r == (BalancerWeightedPool {
                address,
                tokens,
                balances,
                weights,
                decimals,
                swap_fee: r.swap_fee,
            }),
    {
        proof {
            lemma_small_mod((fee_bps * 100_000_000_000_000) as nat, two256() as nat);
        }
        let swap_fee = U256::from_u64(fee_bps as u64).wrapping_mul(
            U256::from_u64(100_000_000_000_000),
        );
        BalancerWeightedPool::new(address, tokens, balances, weights, decimals, swap_fee)
    }

    /// Where `token` stands in the pool.
    pub fn index_of(&self, token: Address) -> (r: Option<usize>)
        ensures
            match r {
                Some(i) => token_place(self.tokens@, token) == Some(i as int) && i
                    < self.tokens@.len(),
                None => token_place(self.tokens@, token) is None,
            },
    {
        index_of_token(&self.tokens, token)
    }

    /// Scaling factor `10^(18 - decimals)`.
    fn scale(dec: u8) -> (r: U256)
        requires
            dec <= 18,
        ensures
            r@ == scale_value(dec as int),
            1 <= r@ <= one18(),
    {
        proof {
            lemma_scale(dec as int);
            lemma_small_mod(scale_value(dec as int) as nat, two256() as nat);
        }
        U256::from_u64(10).wrapping_pow(U256::from_u64((18 - dec) as u64))
    }

    /// The quote between the tokens at `i` and `j`, for tokens of at most 18 decimals.
    pub open spec fn quote_between(&self, i: int, j: int, amount_in: int) -> Result<
        int,
        SimError,
    > {
        let scale_in = scale_value(self.decimals@[i] as int);
        let scale_out = scale_value(self.decimals@[j] as int);
        let balance_in = self.balances@[i]@ * scale_in;
        let balance_out = self.balances@[j]@ * scale_out;
        match mul_up_value(amount_in, self.swap_fee@) {
            Err(e) => Err(spec_map_err(e)),
            Ok(fee) => if fee > amount_in || (amount_in - fee) * scale_in >= two256() || balance_in
                >= two256() || balance_out >= two256() {
                Err(SimError::Overflow)
            } else if balance_in == 0 || balance_out == 0 {
                Err(SimError::InsufficientLiquidity)
            } else {
                match weighted_out(
                    balance_in,
                    self.weights@[i]@,
                    balance_out,
                    self.weights@[j]@,
                    (amount_in - fee) * scale_in,
                ) {
                    Err(e) => Err(spec_map_err(e)),
                    Ok(out) => Ok(out / scale_out),
                }
            },
        }
    }
}

impl Pool for BalancerWeightedPool {
    open spec fn wf(&self) -> bool {
        true
    }

    open spec fn spec_address(&self) -> Address {
        self.address
    }

    open spec fn spec_protocol(&self) -> Protocol {
        Protocol::BalancerWeighted
    }

    open spec fn spec_tokens(&self) -> Seq<Address> {
        self.tokens@
    }

    open spec fn spec_quote(
        &self,
        token_in: Address,
        token_out: Address,
        amount_in: int,
    ) -> Result<int, SimError> {
        let n = self.tokens@.len();
        if token_in == token_out {
            Err(SimError::SameToken)
        } else if amount_in == 0 {
            Err(SimError::ZeroAmount)
        } else if self.balances@.len() != n || self.weights@.len() != n || self.decimals@.len()
            != n {
            Err(SimError::BadConfig("tokens/balances/weights/decimals mismatch"))
        } else {
            match (token_place(self.tokens@, token_in), token_place(self.tokens@, token_out)) {
                (None, _) => Err(SimError::UnknownToken(token_in)),
                (_, None) => Err(SimError::UnknownToken(token_out)),
                (Some(i), Some(j)) => if self.decimals@[i] > 18 || self.decimals@[j] > 18 {
                    Err(SimError::BadConfig("token decimals > 18 unsupported"))
                } else {
                    self.quote_between(i, j, amount_in)
                },
            }
        }
    }

    open spec fn spec_gas(&self) -> int {
        140_000
    }

    fn address(&self) -> (r: Address) {
        self.address
    }

    fn protocol(&self) -> (r: Protocol) {
        Protocol::BalancerWeighted
    }

    fn tokens(&self) -> (r: &[Address]) {
        self.tokens.as_slice()
    }

    fn quote(&self, token_in: Address, token_out: Address, amount_in: U256) -> (r: Result<
        U256,
        SimError,
    >) {
        broadcast use lemma_u256_range;

        if token_in == token_out {
            return Err(SimError::SameToken);
        }
        if amount_in.is_zero() {
            return Err(SimError::ZeroAmount);
        }
        let n: usize = self.tokens.len();
        if self.balances.len() != n || self.weights.len() != n || self.decimals.len() != n {
            return Err(SimError::BadConfig("tokens/balances/weights/decimals mismatch"));
        }
        let i: usize = self.index_of(token_in).ok_or(SimError::UnknownToken(token_in))?;
        let j: usize = self.index_of(token_out).ok_or(SimError::UnknownToken(token_out))?;
        if self.decimals[i] > 18 || self.decimals[j] > 18 {
            return Err(SimError::BadConfig("token decimals > 18 unsupported"));
        }
        let fee = or_sim_error(bmath::mul_up(amount_in, self.swap_fee))?;
        let amount_in_after_fee = or_sim_error(bmath::sub(amount_in, fee))?;
        let scale_in = Self::scale(self.decimals[i]);
        let scale_out = Self::scale(self.decimals[j]);
        let up_amount_in = amount_in_after_fee.checked_mul(scale_in).ok_or(SimError::Overflow)?;
        let up_balance_in = self.balances[i].checked_mul(scale_in).ok_or(SimError::Overflow)?;
        let up_balance_out = self.balances[j].checked_mul(scale_out).ok_or(SimError::Overflow)?;
        if up_balance_in.is_zero() || up_balance_out.is_zero() {
            return Err(SimError::InsufficientLiquidity);
        }
        let up_out = or_sim_error(
            bmath::calc_out_given_in(
                up_balance_in,
                self.weights[i],
                up_balance_out,
                self.weights[j],
                up_amount_in,
            ),
        )?;
        Ok(up_out.div_floor(scale_out))
    }

    fn gas_estimate(&self) -> (r: u64) {
        140_000
    }
}

/// A larger base has a larger power.
proof fn lemma_pow_base(a: int, b: int, n: nat)
    requires
        0 <= a <= b,
    ensures
        0 <= pow(a, n) <= pow(b, n),
    decreases n,
{
    reveal(pow);
    if n > 0 {
        lemma_pow_base(a, b, (n - 1) as nat);
        let (x, y) = (pow(a, (n - 1) as nat), pow(b, (n - 1) as nat));
        assert(0 <= a * x <= b * y) by (nonlinear_arith)
            requires
                0 <= a <= b,
                0 <= x <= y,
        ;
    }
}

/// Scaling both balances of a product of powers scales both sides alike.
proof fn lemma_unscale(x: int, y: int, u: int, v: int, s: int, t: int, m: nat, n: nat)
    requires
        s > 0,
        t > 0,
        pow(x * s, m) * pow(y * t, n) <= pow(u * t, n) * pow(v * s, m),
    ensures
        pow(x, m) * pow(y, n) <= pow(u, n) * pow(v, m),
{
    lemma_pow_distributes(x, s, m);
    lemma_pow_distributes(y, t, n);
    lemma_pow_distributes(u, t, n);
    lemma_pow_distributes(v, s, m);
    lemma_pow_positive(s, m);
    lemma_pow_positive(t, n);
    let (a, b, c, d) = (pow(x, m), pow(y, n), pow(u, n), pow(v, m));
    let (p, q) = (pow(s, m), pow(t, n));
    assert(a * b <= c * d) by (nonlinear_arith)
        requires
            (a * p) * (b * q) <= (c * q) * (d * p),
            p > 0,
            q > 0,
    {
        assert((a * p) * (b * q) == (a * b) * (p * q));
        assert((c * q) * (d * p) == (c * d) * (p * q));
        assert(p * q > 0);
    }
}

/// The product of the powers, for the tokens at `i` and `j`.
proof fn lemma_quote_between(
    pool: BalancerWeightedPool,
    i: int,
    j: int,
    amount_in: int,
)
    requires
        0 <= amount_in,
        pool.decimals@[i] <= 18,
        pool.decimals@[j] <= 18,
    ensures
        pool.quote_between(i, j, amount_in) matches Ok(out) ==> 0 <= out <= pool.balances@[j]@
            && pow(pool.balances@[i]@, pool.weights@[i]@ as nat) * pow(
            pool.balances@[j]@,
            pool.weights@[j]@ as nat,
        ) <= pow(pool.balances@[j]@ - out, pool.weights@[j]@ as nat) * pow(
            pool.balances@[i]@ + amount_in,
            pool.weights@[i]@ as nat,
        ),
{
    broadcast use lemma_u256_range;

    if let Ok(out) = pool.quote_between(i, j, amount_in) {
        let (s, t) = (
            scale_value(pool.decimals@[i] as int),
            scale_value(pool.decimals@[j] as int),
        );
        lemma_scale(pool.decimals@[i] as int);
        lemma_scale(pool.decimals@[j] as int);
        let (x, y) = (pool.balances@[i]@, pool.balances@[j]@);
        let (m, n) = (pool.weights@[i]@ as nat, pool.weights@[j]@ as nat);
        let fee = mul_up_value(amount_in, pool.swap_fee@)->Ok_0;
        assert(amount_in * pool.swap_fee@ >= 0) by (nonlinear_arith)
            requires
                amount_in >= 0,
                pool.swap_fee@ >= 0,
        ;
        let paid = amount_in - fee;
        let whole = weighted_out(x * s, m as int, y * t, n as int, paid * s)->Ok_0;
        assert(0 <= x * s && 0 <= y * t && 0 <= paid * s) by (nonlinear_arith)
            requires
                0 <= x,
                0 <= y,
                0 <= paid,
                s >= 1,
                t >= 1,
        ;
        swaps_keep_the_weighted_product(x * s, m as int, y * t, n as int, paid * s);
        assert(x * s + paid * s == (x + paid) * s) by (nonlinear_arith);
        assert(0 <= out <= y && y * t - whole <= (y - out) * t) by (nonlinear_arith)
            requires
                out == whole / t,
                0 <= whole <= y * t,
                t >= 1,
        ;
        lemma_pow_base(y * t - whole, (y - out) * t, n);
        let v = (x + paid) * s;
        assert(0 <= v <= (x + amount_in) * s) by (nonlinear_arith)
            requires
                v == (x + paid) * s,
                0 <= x,
                0 <= paid <= amount_in,
                s >= 1,
        ;
        lemma_pow_base(v, (x + amount_in) * s, m);
        assert(pow(y * t - whole, n) * pow(v, m) <= pow((y - out) * t, n) * pow(
            (x + amount_in) * s,
            m,
        )) by (nonlinear_arith)
            requires
                0 <= pow(y * t - whole, n) <= pow((y - out) * t, n),
                0 <= pow(v, m) <= pow((x + amount_in) * s, m),
        ;
        lemma_unscale(x, y, y - out, x + amount_in, s, t, m, n);
    }
}

/// A swap at a pool's quote never lowers the product of the two balances, in the tokens' own
/// units, each to the power of its weight.
pub proof fn quotes_keep_the_weighted_product(
    pool: BalancerWeightedPool,
    token_in: Address,
    token_out: Address,
    amount_in: int,
    i: int,
    j: int,
)
    requires
        0 <= amount_in,
        token_place(pool.tokens@, token_in) == Some(i),
        token_place(pool.tokens@, token_out) == Some(j),
    ensures
        pool.spec_quote(token_in, token_out, amount_in) matches Ok(out) ==> 0 <= out
            <= pool.balances@[j]@ && pow(
            pool.balances@[i]@,
            pool.weights@[i]@ as nat,
        ) * pow(pool.balances@[j]@, pool.weights@[j]@ as nat) <= pow(
            pool.balances@[j]@ - out,
            pool.weights@[j]@ as nat,
        ) * pow(pool.balances@[i]@ + amount_in, pool.weights@[i]@ as nat),
{
    if pool.decimals@[i] <= 18 && pool.decimals@[j] <= 18 {
        lemma_quote_between(pool, i, j, amount_in);
    }
}

} // verus!
