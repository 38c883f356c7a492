//! Uniswap V3 concentrated-liquidity pools (also Pancake V3 and Aerodrome Slipstream: same
//! math, different fee and tick spacing).
//!
//! Given the pool's current price and liquidity and its initialized ticks, a quote follows the
//! tick-crossing loop of `Pool.swap` step by step, so that it rounds where the contract rounds.
pub use crate::amm::tick_math::{MAX_TICK, MIN_TICK};

use crate::amm::tick_math::{
    get_sqrt_ratio_at_tick as price_at, lemma_pow2_128, max_sqrt, min_sqrt, sqrt_ratio,
};
use crate::math::{ceil_div, mul_div, mul_div_rounding_up};
use crate::order::{key_values, sort_by_keys, sorted_by_keys};
use crate::pool::{quote_view, Pool, Protocol, SimError};
use crate::types::{lemma_u256_range, two128, two256, Address, U256};
use vstd::arithmetic::div_mod::{lemma_fundamental_div_mod, lemma_small_mod};
use vstd::prelude::*;

verus! {

/// 2^96, the unit of a Q64.96 price.
pub open spec fn two96() -> int {
    0x1_0000_0000_0000_0000_0000_0000int
}

/// An initialized tick and its net liquidity change when crossed upward.
#[derive(Clone, Copy, Debug)]
pub struct TickData {
    pub tick: i32,
    pub liquidity_net: i128,
}

/// A concentrated-liquidity pool.
#[derive(Clone, Debug)]
pub struct UniV3Pool {
    pub address: Address,
    pub token0: Address,
    pub token1: Address,
    /// Fee in hundredths of a basis point: 500 is 0.05%.
    pub fee_pips: u32,
    pub sqrt_price_x96: U256,
    pub liquidity: u128,
    pub tick: i32,
    /// Pool tick spacing, which bounds the tick steps.
    pub tick_spacing: i32,
    /// Initialized ticks, ascending by `tick`.
    pub ticks: Vec<TickData>,
    /// Tick range `(min, max)` for which `ticks` is complete; `None` is full-range data. A swap
    /// that would move price beyond it returns [`SimError::IncompleteState`].
    pub known_range: Option<(i32, i32)>,
    /// The two tokens, as [`Pool::tokens`] returns them.
    pub tokens: [Address; 2],
}

// ---- prices and amounts ----

/// The smaller of two integers.
pub open spec fn lesser(a: int, b: int) -> int {
    if a <= b {
        a
    } else {
        b
    }
}

/// The larger of two integers.
pub open spec fn greater(a: int, b: int) -> int {
    if a <= b {
        b
    } else {
        a
    }
}

/// Token0 held by `liquidity` between two prices.
pub open spec fn amount0_delta(sqrt_a: int, sqrt_b: int, liquidity: int, round_up: bool) -> Result<
    int,
    SimError,
> {
    let lo = lesser(sqrt_a, sqrt_b);
    let hi = greater(sqrt_a, sqrt_b);
    let weighted = liquidity * two96() * (hi - lo);
    if lo == 0 {
        Err(SimError::InsufficientLiquidity)
    } else if round_up {
        Ok(ceil_div(ceil_div(weighted, hi), lo))
    } else {
        Ok((weighted / hi) / lo)
    }
}

/// Token1 held by `liquidity` between two prices.
pub open spec fn amount1_delta(sqrt_a: int, sqrt_b: int, liquidity: int, round_up: bool) -> Result<
    int,
    SimError,
> {
    let weighted = liquidity * (greater(sqrt_a, sqrt_b) - lesser(sqrt_a, sqrt_b));
    let amount = if round_up {
        ceil_div(weighted, two96())
    } else {
        weighted / two96()
    };
    if amount >= two256() {
        Err(SimError::Overflow)
    } else {
        Ok(amount)
    }
}

/// The price after `amount` of token0 is added to, or taken from, the pool, rounded up.
pub open spec fn next_price_amount0(sqrt_p: int, liquidity: int, amount: int, add: bool) -> Result<
    int,
    SimError,
> {
    let numerator = liquidity * two96();
    let product = amount * sqrt_p;
    if amount == 0 {
        Ok(sqrt_p)
    } else if add {
        if product < two256() && numerator + product < two256() {
            if numerator + product == 0 {
                Err(SimError::Overflow)
            } else {
                Ok(ceil_div(numerator * sqrt_p, numerator + product))
            }
        } else if numerator / sqrt_p + amount >= two256() {
            Err(SimError::Overflow)
        } else {
            Ok(ceil_div(numerator, numerator / sqrt_p + amount))
        }
    } else if product >= two256() || product >= numerator || ceil_div(
        numerator * sqrt_p,
        numerator - product,
    ) >= two256() {
        Err(SimError::Overflow)
    } else {
        Ok(ceil_div(numerator * sqrt_p, numerator - product))
    }
}

/// The price after `amount` of token1 is added to, or taken from, the pool, rounded down.
pub open spec fn next_price_amount1(sqrt_p: int, liquidity: int, amount: int, add: bool) -> Result<
    int,
    SimError,
> {
    let scaled = amount * two96();
    if liquidity == 0 {
        Err(SimError::Overflow)
    } else if add {
        if sqrt_p + scaled / liquidity >= two256() {
            Err(SimError::Overflow)
        } else {
            Ok(sqrt_p + scaled / liquidity)
        }
    } else if ceil_div(scaled, liquidity) > sqrt_p {
        Err(SimError::Overflow)
    } else {
        Ok(sqrt_p - ceil_div(scaled, liquidity))
    }
}

/// The price after `amount_in` of the input token is added to the pool.
pub open spec fn next_price_from_input(
    sqrt_p: int,
    liquidity: int,
    amount_in: int,
    zero_for_one: bool,
) -> Result<int, SimError> {
    if zero_for_one {
        next_price_amount0(sqrt_p, liquidity, amount_in, true)
    } else {
        next_price_amount1(sqrt_p, liquidity, amount_in, true)
    }
}

/// Input needed to move the price between two points, rounded up.
pub open spec fn input_between(
    sqrt_from: int,
    sqrt_to: int,
    liquidity: int,
    zero_for_one: bool,
) -> Result<int, SimError> {
    if zero_for_one {
        amount0_delta(sqrt_to, sqrt_from, liquidity, true)
    } else {
        amount1_delta(sqrt_from, sqrt_to, liquidity, true)
    }
}

/// Output released by moving the price between two points, rounded down.
pub open spec fn output_between(
    sqrt_from: int,
    sqrt_to: int,
    liquidity: int,
    zero_for_one: bool,
) -> Result<int, SimError> {
    if zero_for_one {
        amount1_delta(sqrt_to, sqrt_from, liquidity, false)
    } else {
        amount0_delta(sqrt_from, sqrt_to, liquidity, false)
    }
}

/// Millionths that are left of an amount once the fee is deducted, in 256-bit arithmetic.
pub open spec fn kept_pips(fee_pips: int) -> int {
    (1_000_000 - fee_pips) % two256()
}

/// What an exact-input step within one tick range does.
pub struct SwapStep {
    pub sqrt_next: int,
    pub amount_in: int,
    pub amount_out: int,
    pub fee_amount: int,
}

/// The price that a step ends at.
pub open spec fn step_price(
    sqrt_current: int,
    sqrt_target: int,
    liquidity: int,
    less_fee: int,
    in_to_target: int,
) -> Result<int, SimError> {
    if less_fee >= in_to_target {
        Ok(sqrt_target)
    } else {
        next_price_from_input(sqrt_current, liquidity, less_fee, sqrt_current >= sqrt_target)
    }
}

/// The amounts of a step whose end price is known.
pub open spec fn step_amounts(
    sqrt_current: int,
    sqrt_target: int,
    sqrt_next: int,
    liquidity: int,
    amount_remaining: int,
    fee_pips: int,
    in_to_target: int,
) -> Result<SwapStep, SimError> {
    let zero_for_one = sqrt_current >= sqrt_target;
    let reached = sqrt_target == sqrt_next;
    let used = if reached {
        Ok(in_to_target)
    } else {
        input_between(sqrt_current, sqrt_next, liquidity, zero_for_one)
    };
    match used {
        Err(e) => Err(e),
        Ok(amount_in) => match output_between(sqrt_current, sqrt_next, liquidity, zero_for_one) {
            Err(e) => Err(e),
            Ok(amount_out) => if !reached {
                if amount_in > amount_remaining {
                    Err(SimError::Overflow)
                } else {
                    Ok(
                        SwapStep {
                            sqrt_next,
                            amount_in,
                            amount_out,
                            fee_amount: amount_remaining - amount_in,
                        },
                    )
                }
            } else if kept_pips(fee_pips) == 0 || ceil_div(
                amount_in * fee_pips,
                kept_pips(fee_pips),
            ) >= two256() {
                Err(SimError::Overflow)
            } else {
                Ok(
                    SwapStep {
                        sqrt_next,
                        amount_in,
                        amount_out,
                        fee_amount: ceil_div(amount_in * fee_pips, kept_pips(fee_pips)),
                    },
                )
            },
        },
    }
}

/// SwapMath.computeSwapStep for an exact-input step.
pub open spec fn swap_step(
    sqrt_current: int,
    sqrt_target: int,
    liquidity: int,
    amount_remaining: int,
    fee_pips: int,
) -> Result<SwapStep, SimError> {
    let zero_for_one = sqrt_current >= sqrt_target;
    let less_fee = (amount_remaining * kept_pips(fee_pips)) / 1_000_000;
    if less_fee >= two256() {
        Err(SimError::Overflow)
    } else {
        match input_between(sqrt_current, sqrt_target, liquidity, zero_for_one) {
            Err(e) => Err(e),
            Ok(in_to_target) => match step_price(
                sqrt_current,
                sqrt_target,
                liquidity,
                less_fee,
                in_to_target,
            ) {
                Err(e) => Err(e),
                Ok(sqrt_next) => step_amounts(
                    sqrt_current,
                    sqrt_target,
                    sqrt_next,
                    liquidity,
                    amount_remaining,
                    fee_pips,
                    in_to_target,
                ),
            },
        }
    }
}

/// `ceil(a / b)`, for a divisor that is not zero.
fn div_rounding_up(a: U256, b: U256) -> (r: U256)
    requires
        b@ != 0,
    ensures
        r@ == ceil_div(a@, b@),
{
    broadcast use lemma_u256_range;

    let q = a.div_floor(b);
    if a.remainder(b).is_zero() {
        q
    } else {
        proof {
            lemma_fundamental_div_mod(a@, b@);
            assert(q@ + 1 < two256()) by (nonlinear_arith)
                requires
                    a@ == b@ * q@ + a@ % b@,
                    a@ % b@ > 0,
                    b@ >= 1,
                    q@ >= 0,
                    a@ < two256(),
            ;
            lemma_small_mod((q@ + 1) as nat, two256() as nat);
        }
        q.wrapping_add(U256::one())
    }
}

/// 2^96.
pub fn q96() -> (r: U256)
    ensures
        r@ == two96(),
{
    U256::from_limbs(0, 0x1_0000_0000, 0, 0)
}

/// The price of the lowest tick.
fn min_sqrt_ratio() -> (r: U256)
    ensures
        r@ == min_sqrt(),
{
    U256::from_u64(4295128739)
}

/// The price of the highest tick.
fn max_sqrt_ratio() -> (r: U256)
    ensures
        r@ == max_sqrt(),
{
    U256::from_limbs(0x5d951d5263988d26, 0xefd1fc6a50648849, 0xfffd8963, 0)
}

/// `liquidity * 2^96` fits in 224 bits.
fn scaled_liquidity(liquidity: u128) -> (r: U256)
    ensures
        r@ == liquidity * two96(),
        r@ < two128() * two96(),
{
    proof {
        lemma_pow2_128();
        lemma_small_mod((liquidity * two96()) as nat, two256() as nat);
    }
    U256::from_u128(liquidity).shift_left(96)
}

impl UniV3Pool {
    /// SqrtPriceMath.getAmount0Delta, with a rounding flag.
    pub fn get_amount0_delta(
        sqrt_a: U256,
        sqrt_b: U256,
        liquidity: u128,
        round_up: bool,
    ) -> (r: Result<U256, SimError>)
        ensures
            quote_view(r) == amount0_delta(sqrt_a@, sqrt_b@, liquidity as int, round_up),
    {
        broadcast use lemma_u256_range;

        let lo = sqrt_a.min_of(sqrt_b);
        let hi = sqrt_a.max_of(sqrt_b);
        let numerator1 = scaled_liquidity(liquidity);
        proof {
            lemma_small_mod((hi@ - lo@) as nat, two256() as nat);
        }
        let numerator2 = hi.wrapping_sub(lo);
        if lo.is_zero() {
            return Err(SimError::InsufficientLiquidity);
        }
        proof {
            let n = numerator1@ * numerator2@;
            assert(n == liquidity * two96() * (hi@ - lo@));
            lemma_fundamental_div_mod(n, hi@);
            assert(n / hi@ <= numerator1@) by (nonlinear_arith)
                requires
                    n == numerator1@ * numerator2@,
                    numerator1@ >= 0,
                    0 <= numerator2@ < hi@,
            ;
            assert(ceil_div(n, hi@) < two256());
        }
        if round_up {
            let inner = mul_div_rounding_up(numerator1, numerator2, hi).ok_or(SimError::Overflow)?;
            proof {
                lemma_fundamental_div_mod(inner@, lo@);
                assert(inner@ / lo@ <= inner@) by (nonlinear_arith)
                    requires
                        inner@ >= 0,
                        lo@ >= 1,
                ;
                assert(inner@ % lo@ != 0 ==> inner@ / lo@ + 1 <= inner@) by (nonlinear_arith)
                    requires
                        inner@ == lo@ * (inner@ / lo@) + inner@ % lo@,
                        0 <= inner@ % lo@,
                        lo@ >= 1,
                        inner@ / lo@ >= 0,
                ;
                assert(inner@ * 1 == inner@);
            }
            mul_div_rounding_up(inner, U256::one(), lo).ok_or(SimError::Overflow)
        } else {
            let inner = mul_div(numerator1, numerator2, hi).ok_or(SimError::Overflow)?;
            Ok(inner.div_floor(lo))
        }
    }

    /// SqrtPriceMath.getAmount1Delta, with a rounding flag.
    pub fn get_amount1_delta(
        sqrt_a: U256,
        sqrt_b: U256,
        liquidity: u128,
        round_up: bool,
    ) -> (r: Result<U256, SimError>)
        ensures
            quote_view(r) == amount1_delta(sqrt_a@, sqrt_b@, liquidity as int, round_up),
    {
        broadcast use lemma_u256_range;

        let lo = sqrt_a.min_of(sqrt_b);
        let hi = sqrt_a.max_of(sqrt_b);
        let l = U256::from_u128(liquidity);
        proof {
            lemma_small_mod((hi@ - lo@) as nat, two256() as nat);
        }
        let diff = hi.wrapping_sub(lo);
        if round_up {
            mul_div_rounding_up(l, diff, q96()).ok_or(SimError::Overflow)
        } else {
            mul_div(l, diff, q96()).ok_or(SimError::Overflow)
        }
    }

    /// SqrtPriceMath.getNextSqrtPriceFromAmount0RoundingUp.
    pub fn get_next_sqrt_price_from_amount0_rounding_up(
        sqrt_p: U256,
        liquidity: u128,
        amount: U256,
        add: bool,
    ) -> (r: Result<U256, SimError>)
        ensures
            quote_view(r) == next_price_amount0(sqrt_p@, liquidity as int, amount@, add),
    {
        broadcast use lemma_u256_range;

        if amount.is_zero() {
            return Ok(sqrt_p);
        }
        let numerator1 = scaled_liquidity(liquidity);
        proof {
            assert(amount@ * sqrt_p@ >= 0) by (nonlinear_arith)
                requires
                    amount@ >= 0,
                    sqrt_p@ >= 0,
            ;
        }
        if add {
            if let Some(product) = amount.checked_mul(sqrt_p) {
                if let Some(denominator) = numerator1.checked_add(product) {
                    proof {
                        if denominator@ != 0 {
                            lemma_scaled_down(numerator1@, sqrt_p@, denominator@);
                        }
                    }
                    return mul_div_rounding_up(numerator1, sqrt_p, denominator).ok_or(
                        SimError::Overflow,
                    );
                }
            }
            assert(sqrt_p@ != 0) by {
                if sqrt_p@ == 0 {
                    assert(amount@ * sqrt_p@ == 0);
                }
            }
            let denom = numerator1.div_floor(sqrt_p).checked_add(amount).ok_or(SimError::Overflow)?;
            Ok(div_rounding_up(numerator1, denom))
        } else {
            let product = amount.checked_mul(sqrt_p).ok_or(SimError::Overflow)?;
            let denominator = numerator1.checked_sub(product).ok_or(SimError::Overflow)?;
            mul_div_rounding_up(numerator1, sqrt_p, denominator).ok_or(SimError::Overflow)
        }
    }

    /// SqrtPriceMath.getNextSqrtPriceFromAmount1RoundingDown.
    pub fn get_next_sqrt_price_from_amount1_rounding_down(
        sqrt_p: U256,
        liquidity: u128,
        amount: U256,
        add: bool,
    ) -> (r: Result<U256, SimError>)
        ensures
            quote_view(r) == next_price_amount1(sqrt_p@, liquidity as int, amount@, add),
    {
        broadcast use lemma_u256_range;

        let l = U256::from_u128(liquidity);
        if add {
            let quotient = mul_div(amount, q96(), l).ok_or(SimError::Overflow)?;
            sqrt_p.checked_add(quotient).ok_or(SimError::Overflow)
        } else {
            let quotient = mul_div_rounding_up(amount, q96(), l).ok_or(SimError::Overflow)?;
            sqrt_p.checked_sub(quotient).ok_or(SimError::Overflow)
        }
    }

    /// SqrtPriceMath.getNextSqrtPriceFromInput.
    pub fn get_next_sqrt_price_from_input(
        sqrt_p: U256,
        liquidity: u128,
        amount_in: U256,
        zero_for_one: bool,
    ) -> (r: Result<U256, SimError>)
        ensures
            quote_view(r) == next_price_from_input(
                sqrt_p@,
                liquidity as int,
                amount_in@,
                zero_for_one,
            ),
    {
        if zero_for_one {
            Self::get_next_sqrt_price_from_amount0_rounding_up(sqrt_p, liquidity, amount_in, true)
        } else {
            Self::get_next_sqrt_price_from_amount1_rounding_down(sqrt_p, liquidity, amount_in, true)
        }
    }

    /// SwapMath.computeSwapStep for an exact-input step: the next price, the input used, the
    /// output, and the fee.
    pub fn compute_swap_step(
        sqrt_current: U256,
        sqrt_target: U256,
        liquidity: u128,
        amount_remaining: U256,
        fee_pips: u32,
    ) -> (r: Result<(U256, U256, U256, U256), SimError>)
        ensures
            (match r {
                Ok((next, used, out, fee)) => Ok::<SwapStep, SimError>(
                    SwapStep {
                        sqrt_next: next@,
                        amount_in: used@,
                        amount_out: out@,
                        fee_amount: fee@,
                    },
                ),
                Err(e) => Err(e),
            }) == swap_step(
                sqrt_current@,
                sqrt_target@,
                liquidity as int,
                amount_remaining@,
                fee_pips as int,
            ),
    {
        broadcast use lemma_u256_range;

        let zero_for_one = sqrt_current >= sqrt_target;
        let fee_pips_u = U256::from_u64(fee_pips as u64);
        let pips = U256::from_u64(1_000_000);
        let kept = pips.wrapping_sub(fee_pips_u);
        let amount_remaining_less_fee = mul_div(amount_remaining, kept, pips).ok_or(
            SimError::Overflow,
        )?;
        let amount_in_to_target = if zero_for_one {
            Self::get_amount0_delta(sqrt_target, sqrt_current, liquidity, true)?
        } else {
            Self::get_amount1_delta(sqrt_current, sqrt_target, liquidity, true)?
        };
        let sqrt_next = if amount_remaining_less_fee >= amount_in_to_target {
            sqrt_target
        } else {
            Self::get_next_sqrt_price_from_input(
                sqrt_current,
                liquidity,
                amount_remaining_less_fee,
                zero_for_one,
            )?
        };
        let max = sqrt_target.equals(&sqrt_next);
        let (amount_in, amount_out) = if zero_for_one {
            let ain = if max {
                amount_in_to_target
            } else {
                Self::get_amount0_delta(sqrt_next, sqrt_current, liquidity, true)?
            };
            let aout = Self::get_amount1_delta(sqrt_next, sqrt_current, liquidity, false)?;
            (ain, aout)
        } else {
            let ain = if max {
                amount_in_to_target
            } else {
                Self::get_amount1_delta(sqrt_current, sqrt_next, liquidity, true)?
            };
            let aout = Self::get_amount0_delta(sqrt_current, sqrt_next, liquidity, false)?;
            (ain, aout)
        };
        let fee_amount = if !max {
            amount_remaining.checked_sub(amount_in).ok_or(SimError::Overflow)?
        } else {
            mul_div_rounding_up(amount_in, fee_pips_u, kept).ok_or(SimError::Overflow)?
        };
        Ok((sqrt_next, amount_in, amount_out, fee_amount))
    }
}

/// `ceil(n * p / d)` is at most `p` when `d >= n`.
proof fn lemma_scaled_down(n: int, p: int, d: int)
    requires
        0 <= n <= d,
        0 <= p,
        d > 0,
    ensures
        ceil_div(n * p, d) <= p,
{
    lemma_fundamental_div_mod(n * p, d);
    let q = (n * p) / d;
    let m = (n * p) % d;
    assert(n * p <= d * p) by (nonlinear_arith)
        requires
            0 <= n <= d,
            0 <= p,
    ;
    if m == 0 {
        assert(q <= p) by (nonlinear_arith)
            requires
                d * q <= d * p,
                d > 0,
        ;
    } else {
        assert(q < p) by (nonlinear_arith)
            requires
                d * q < d * p,
                d > 0,
        ;
    }
}

// ---- ticks ----

/// Whether `t` is one of the initialized ticks.
pub open spec fn has_tick(ticks: Seq<TickData>, t: int) -> bool {
    exists|i: int| 0 <= i < ticks.len() && (#[trigger] ticks[i]).tick == t
}

/// `t` is the greatest initialized tick in `[lo, hi]`.
pub open spec fn is_greatest(ticks: Seq<TickData>, lo: int, hi: int, t: int) -> bool {
    &&& has_tick(ticks, t)
    &&& lo <= t <= hi
    &&& forall|u: int| #[trigger] has_tick(ticks, u) && lo <= u <= hi ==> u <= t
}

/// `t` is the least initialized tick in `[lo, hi]`.
pub open spec fn is_least(ticks: Seq<TickData>, lo: int, hi: int, t: int) -> bool {
    &&& has_tick(ticks, t)
    &&& lo <= t <= hi
    &&& forall|u: int| #[trigger] has_tick(ticks, u) && lo <= u <= hi ==> t <= u
}

/// The lowest and highest tick that a step from `tick` may stop at: the part of the current
/// bitmap word (256 spacings) that lies ahead.
pub open spec fn word_bounds(spacing: int, tick: int, lte: bool) -> (int, int) {
    let compressed = tick / spacing;
    if lte {
        ((compressed / 256) * 256 * spacing, compressed * spacing)
    } else {
        ((compressed + 1) * spacing, (((compressed + 1) / 256) * 256 + 255) * spacing)
    }
}

/// The next tick boundary within the current bitmap word, and whether it is initialized.
pub open spec fn next_tick(ticks: Seq<TickData>, spacing: int, tick: int, lte: bool) -> (
    int,
    bool,
) {
    let (lo, hi) = word_bounds(spacing, tick, lte);
    if lte {
        if exists|t: int| is_greatest(ticks, lo, hi, t) {
            (choose|t: int| is_greatest(ticks, lo, hi, t), true)
        } else {
            (lo, false)
        }
    } else {
        if exists|t: int| is_least(ticks, lo, hi, t) {
            (choose|t: int| is_least(ticks, lo, hi, t), true)
        } else {
            (hi, false)
        }
    }
}

/// `i` is the first entry for tick `t`.
pub open spec fn is_first_at(ticks: Seq<TickData>, t: int, i: int) -> bool {
    &&& 0 <= i < ticks.len()
    &&& ticks[i].tick == t
    &&& forall|j: int| 0 <= j < i ==> (#[trigger] ticks[j]).tick != t
}

/// The net liquidity at tick `t`, zero when it is not initialized.
pub open spec fn net_at(ticks: Seq<TickData>, t: int) -> int {
    if exists|i: int| is_first_at(ticks, t, i) {
        ticks[choose|i: int| is_first_at(ticks, t, i)].liquidity_net as int
    } else {
        0
    }
}

/// Ticks ascend.
pub open spec fn ticks_sorted(ticks: Seq<TickData>) -> bool {
    forall|i: int, j: int|
        0 <= i <= j < ticks.len() ==> (#[trigger] ticks[i]).tick <= (#[trigger] ticks[j]).tick
}

/// Liquidity once a tick with net change `net` is crossed.
pub open spec fn crossed(liquidity: int, net: int, zero_for_one: bool) -> Result<int, SimError> {
    let delta = if zero_for_one {
        -net
    } else {
        net
    };
    if delta >= 0 {
        if liquidity + delta >= two128() {
            Err(SimError::Overflow)
        } else {
            Ok(liquidity + delta)
        }
    } else if liquidity + delta < 0 {
        Err(SimError::InsufficientLiquidity)
    } else {
        Ok(liquidity + delta)
    }
}

/// `liquidity` after crossing a tick whose upward net change is `net`, in the given direction.
pub fn apply_liquidity_net(liquidity: u128, net: i128, zero_for_one: bool) -> (r: Result<
    u128,
    SimError,
>)
    ensures
        (match r {
            Ok(l) => Ok::<int, SimError>(l as int),
            Err(e) => Err(e),
        }) == crossed(liquidity as int, net as int, zero_for_one),
{
    let magnitude: u128 = if net >= 0 {
        net as u128
    } else {
        ((-(net + 1)) as u128) + 1
    };
    if net == 0 || (net > 0) != zero_for_one {
        liquidity.checked_add(magnitude).ok_or(SimError::Overflow)
    } else {
        liquidity.checked_sub(magnitude).ok_or(SimError::InsufficientLiquidity)
    }
}

/// `floor(a / b)` for a positive divisor.
pub(crate) fn floor_div(a: i64, b: i64) -> (r: i64)
    requires
        b > 0,
        -0x8000_0000 <= a <= 0x8000_0000,
    ensures
        r == a as int / b as int,
        -0x8000_0000 <= r <= 0x8000_0000,
{
    if a >= 0 {
        let q: u64 = (a as u64) / (b as u64);
        proof {
            assert(q <= a) by (nonlinear_arith)
                requires
                    a >= 0,
                    b > 0,
                    q == a as int / b as int,
            ;
        }
        q as i64
    } else {
        let m: u64 = (-(a + 1)) as u64;
        let q: u64 = m / (b as u64);
        proof {
            let (x, d) = (m as int, b as int);
            lemma_fundamental_div_mod(x, d);
            assert(0 <= q <= x) by (nonlinear_arith)
                requires
                    x >= 0,
                    d > 0,
                    q == x / d,
            ;
            // a == -x - 1 == -d * (q + 1) + (d - 1 - x % d)
            assert(a as int == d * (-(q as int) - 1) + (d - 1 - x % d)) by (nonlinear_arith)
                requires
                    x == d * q + x % d,
                    a as int == -x - 1,
            ;
            vstd::arithmetic::div_mod::lemma_fundamental_div_mod_converse(
                a as int,
                d,
                -(q as int) - 1,
                d - 1 - x % d,
            );
        }
        -(q as i64) - 1
    }
}

/// The number of leading ticks below `bound`.
fn ticks_below(ticks: &Vec<TickData>, bound: i64) -> (r: usize)
    requires
        ticks_sorted(ticks@),
    ensures
        r <= ticks@.len(),
        forall|i: int| 0 <= i < r ==> (#[trigger] ticks@[i]).tick < bound,
        forall|i: int| r <= i < ticks@.len() ==> (#[trigger] ticks@[i]).tick >= bound,
{
    let mut lo: usize = 0;
    let mut hi: usize = ticks.len();
    while lo < hi
        invariant
            lo <= hi <= ticks@.len(),
            ticks_sorted(ticks@),
            forall|i: int| 0 <= i < lo ==> (#[trigger] ticks@[i]).tick < bound,
            forall|i: int| hi <= i < ticks@.len() ==> (#[trigger] ticks@[i]).tick >= bound,
        decreases hi - lo,
    {
        let mid: usize = lo + (hi - lo) / 2;
        if (ticks[mid].tick as i64) < bound {
            lo = mid + 1;
        } else {
            hi = mid;
        }
    }
    lo
}

/// The greatest tick of a range is unique.
proof fn lemma_greatest(ticks: Seq<TickData>, lo: int, hi: int, t: int)
    requires
        is_greatest(ticks, lo, hi, t),
    ensures
        (choose|u: int| is_greatest(ticks, lo, hi, u)) == t,
{
    let u = choose|u: int| is_greatest(ticks, lo, hi, u);
    assert(is_greatest(ticks, lo, hi, u));
}

/// The least tick of a range is unique.
proof fn lemma_least(ticks: Seq<TickData>, lo: int, hi: int, t: int)
    requires
        is_least(ticks, lo, hi, t),
    ensures
        (choose|u: int| is_least(ticks, lo, hi, u)) == t,
{
    let u = choose|u: int| is_least(ticks, lo, hi, u);
    assert(is_least(ticks, lo, hi, u));
}

impl UniV3Pool {
    /// The next tick boundary within the current bitmap word, at most 256 spacings away, and
    /// whether it is initialized. The on-chain swap rounds at each word boundary, so a quote
    /// that jumped straight between initialized ticks would over-quote.
    pub fn next_tick_within_word(&self, tick: i32, lte: bool) -> (r: (i64, bool))
        requires
            self.tick_spacing >= 1,
            ticks_sorted(self.ticks@),
        ensures
            (r.0 as int, r.1) == next_tick(
                self.ticks@,
                self.tick_spacing as int,
                tick as int,
                lte,
            ),
    {
        let spacing: i64 = self.tick_spacing as i64;
        let compressed: i64 = floor_div(tick as i64, spacing);
        let ghost ts = self.ticks@;
        proof {
            lemma_compressed(tick as int, spacing as int);
        }
        if lte {
            let word_pos: i64 = floor_div(compressed, 256);
            proof {
                lemma_word_arith(compressed as int, spacing as int);
            }
            let lo: i64 = (word_pos * 256) * spacing;
            let hi: i64 = compressed * spacing;
            let idx: usize = ticks_below(&self.ticks, hi + 1);
            if idx > 0 && (self.ticks[idx - 1].tick as i64) >= lo {
                let t: i32 = self.ticks[idx - 1].tick;
                proof {
                    assert(ts[idx - 1].tick == t);
                    assert(is_greatest(ts, lo as int, hi as int, t as int));
                    lemma_greatest(ts, lo as int, hi as int, t as int);
                }
                (t as i64, true)
            } else {
                proof {
                    assert forall|t: int| !is_greatest(ts, lo as int, hi as int, t) by {
                        if is_greatest(ts, lo as int, hi as int, t) {
                            let i = choose|i: int|
                                0 <= i < ts.len() && (#[trigger] ts[i]).tick == t;
                            assert(ts[idx - 1].tick >= ts[i].tick);
                        }
                    }
                }
                (lo, false)
            }
        } else {
            let cp1: i64 = compressed + 1;
            let word_pos: i64 = floor_div(cp1, 256);
            proof {
                lemma_word_arith(cp1 as int, spacing as int);
            }
            let lo: i64 = cp1 * spacing;
            let hi: i64 = (word_pos * 256 + 255) * spacing;
            let idx: usize = ticks_below(&self.ticks, lo);
            if idx < self.ticks.len() && (self.ticks[idx].tick as i64) <= hi {
                let t: i32 = self.ticks[idx].tick;
                proof {
                    assert(ts[idx as int].tick == t);
                    assert(is_least(ts, lo as int, hi as int, t as int));
                    lemma_least(ts, lo as int, hi as int, t as int);
                }
                (t as i64, true)
            } else {
                proof {
                    assert forall|t: int| !is_least(ts, lo as int, hi as int, t) by {
                        if is_least(ts, lo as int, hi as int, t) {
                            let i = choose|i: int|
                                0 <= i < ts.len() && (#[trigger] ts[i]).tick == t;
                            assert(ts[idx as int].tick <= ts[i].tick);
                        }
                    }
                }
                (hi, false)
            }
        }
    }

    /// The net liquidity at `tick`, zero when the tick is not initialized.
    pub fn liquidity_net_at(&self, tick: i32) -> (r: i128)
        requires
            ticks_sorted(self.ticks@),
        ensures
            r == net_at(self.ticks@, tick as int),
    {
        let idx: usize = ticks_below(&self.ticks, tick as i64);
        let ghost ts = self.ticks@;
        if idx < self.ticks.len() && self.ticks[idx].tick == tick {
            proof {
                assert(is_first_at(ts, tick as int, idx as int));
                let i = choose|i: int| is_first_at(ts, tick as int, i);
                assert(is_first_at(ts, tick as int, i));
                assert(i == idx);
            }
            self.ticks[idx].liquidity_net
        } else {
            proof {
                assert forall|i: int| !is_first_at(ts, tick as int, i) by {
                    if is_first_at(ts, tick as int, i) {
                        assert(ts[i].tick == tick);
                        assert(ts[idx as int].tick <= ts[i].tick);
                    }
                }
            }
            0
        }
    }
}

/// A tick rounded down to the spacing lies between the tick and one spacing below.
proof fn lemma_compressed(tick: int, spacing: int)
    requires
        0 < spacing <= 0x7fff_ffff,
        -0x8000_0000 <= tick <= 0x7fff_ffff,
    ensures
        -0x8000_0000 <= tick / spacing <= 0x7fff_ffff,
{
    let c = tick / spacing;
    lemma_fundamental_div_mod(tick, spacing);
    assert(-0x8000_0000 <= c <= 0x7fff_ffff) by (nonlinear_arith)
        requires
            tick == spacing * c + tick % spacing,
            0 <= tick % spacing < spacing,
            0 < spacing,
            -0x8000_0000 <= tick <= 0x7fff_ffff,
    ;
}

/// Word arithmetic stays far inside 64 bits.
proof fn lemma_word_arith(c: int, spacing: int)
    requires
        0 < spacing <= 0x7fff_ffff,
        -0x8000_0000 <= c <= 0x8000_0000,
    ensures
        -0x4000_0000_8000_0000 <= c * spacing <= 0x4000_0000_8000_0000,
        -0x4000_0080_0000_0000 <= ((c / 256) * 256) * spacing <= 0x4000_0080_0000_0000,
        -0x4000_0080_0000_0000 <= ((c / 256) * 256 + 255) * spacing <= 0x4000_0080_0000_0000,
        -0x8000_0100 <= (c / 256) * 256 <= 0x8000_0000,
{
    let w = (c / 256) * 256;
    assert(-0x8000_0100 <= w <= c);
    assert(-0x4000_0000_8000_0000 <= c * spacing <= 0x4000_0000_8000_0000) by (nonlinear_arith)
        requires
            0 < spacing <= 0x7fff_ffff,
            -0x8000_0000 <= c <= 0x8000_0000,
    ;
    assert(-0x4000_0080_0000_0000 <= w * spacing <= 0x4000_0080_0000_0000) by (nonlinear_arith)
        requires
            0 < spacing <= 0x7fff_ffff,
            -0x8000_0100 <= w <= 0x8000_0000,
    ;
    assert(-0x4000_0080_0000_0000 <= (w + 255) * spacing <= 0x4000_0080_0000_0000)
        by (nonlinear_arith)
        requires
            0 < spacing <= 0x7fff_ffff,
            -0x8000_0100 <= w <= 0x8000_0000,
    ;
}

// ---- the swap loop ----

/// Where a swap stands between two steps.
pub struct SwapState {
    pub remaining: int,
    pub calculated: int,
    pub sqrt_price: int,
    pub tick: int,
    pub liquidity: int,
}

/// What stays fixed during a swap.
pub struct SwapCurve {
    pub ticks: Seq<TickData>,
    pub spacing: int,
    pub fee_pips: int,
    pub limit: int,
    pub zero_for_one: bool,
}

/// `t` held within the ticks that have a price.
pub open spec fn clamp_tick(t: int) -> int {
    if t < MIN_TICK {
        MIN_TICK as int
    } else if t > MAX_TICK {
        MAX_TICK as int
    } else {
        t
    }
}

/// The price that a step toward `boundary` aims at: the boundary, or the limit if that is
/// nearer.
pub open spec fn step_target(c: SwapCurve, boundary: int) -> int {
    if c.zero_for_one {
        greater(boundary, c.limit)
    } else {
        lesser(boundary, c.limit)
    }
}

/// The state once the price has moved toward `target`.
pub open spec fn moved(c: SwapCurve, s: SwapState, target: int) -> Result<SwapState, SimError> {
    if s.liquidity == 0 {
        Ok(SwapState { sqrt_price: target, ..s })
    } else {
        match swap_step(s.sqrt_price, target, s.liquidity, s.remaining, c.fee_pips) {
            Err(e) => Err(e),
            Ok(step) => {
                let consumed = step.amount_in + step.fee_amount;
                if consumed >= two256() {
                    Err(SimError::Overflow)
                } else {
                    Ok(
                        SwapState {
                            remaining: if s.remaining >= consumed {
                                s.remaining - consumed
                            } else {
                                0
                            },
                            calculated: (s.calculated + step.amount_out) % two256(),
                            sqrt_price: step.sqrt_next,
                            ..s
                        },
                    )
                }
            },
        }
    }
}

/// One round of the swap loop: the state after it, and whether the input ran out before the
/// next boundary.
pub open spec fn swap_round(c: SwapCurve, s: SwapState) -> Result<(SwapState, bool), SimError> {
    let (raw, found) = next_tick(c.ticks, c.spacing, s.tick, c.zero_for_one);
    let boundary_tick = clamp_tick(raw);
    let boundary = sqrt_ratio(boundary_tick);
    match moved(c, s, step_target(c, boundary)) {
        Err(e) => Err(e),
        Ok(m) => if m.sqrt_price != boundary {
            Ok((m, true))
        } else {
            let past = if c.zero_for_one {
                boundary_tick - 1
            } else {
                boundary_tick
            };
            if found && boundary_tick == raw {
                match crossed(m.liquidity, net_at(c.ticks, boundary_tick), c.zero_for_one) {
                    Err(e) => Err(e),
                    Ok(liquidity) => Ok((SwapState { tick: past, liquidity, ..m }, false)),
                }
            } else {
                Ok((SwapState { tick: past, ..m }, false))
            }
        },
    }
}

/// The state in which the swap loop ends, at most `rounds` rounds from `s`.
pub open spec fn swap_loop(c: SwapCurve, s: SwapState, rounds: nat) -> Result<SwapState, SimError>
    decreases rounds,
{
    if s.remaining == 0 || s.sqrt_price == c.limit {
        Ok(s)
    } else if rounds == 0 {
        Err(SimError::BadConfig("swap did not converge"))
    } else {
        match swap_round(c, s) {
            Err(e) => Err(e),
            Ok((next, done)) => if done {
                Ok(next)
            } else {
                swap_loop(c, next, (rounds - 1) as nat)
            },
        }
    }
}

/// Rounds after which a swap is given up.
pub open spec fn max_rounds() -> nat {
    10_000
}

/// The price at which a swap stops: the chain's bound, or the edge of the known window.
pub open spec fn price_limit(known_range: Option<(i32, i32)>, zero_for_one: bool) -> Result<
    int,
    SimError,
> {
    if zero_for_one {
        match known_range {
            Some((lo, _)) => if lo <= MIN_TICK {
                Ok(min_sqrt() + 1)
            } else if lo > MAX_TICK {
                Err(SimError::BadConfig("tick out of range"))
            } else {
                Ok(greater(sqrt_ratio(lo as int), min_sqrt() + 1))
            },
            None => Ok(min_sqrt() + 1),
        }
    } else {
        match known_range {
            Some((_, hi)) => if hi >= MAX_TICK {
                Ok(max_sqrt() - 1)
            } else if hi < MIN_TICK {
                Err(SimError::BadConfig("tick out of range"))
            } else {
                Ok(lesser(sqrt_ratio(hi as int), max_sqrt() - 1))
            },
            None => Ok(max_sqrt() - 1),
        }
    }
}

/// The ticks, ascending; ticks that occur twice keep their order.
pub open spec fn sorted_ticks(ticks: Seq<TickData>) -> Seq<TickData> {
    sort_by_keys(ticks, tick_keys(ticks))
}

/// The keys that ticks sort by.
pub open spec fn tick_keys(ticks: Seq<TickData>) -> Seq<int> {
    ticks.map_values(|t: TickData| t.tick + 0x8000_0000)
}

impl UniV3Pool {
    /// A pool with full-range tick data. A spacing below one is taken as one.
    pub fn new(
        address: Address,
        token0: Address,
        token1: Address,
        fee_pips: u32,
        sqrt_price_x96: U256,
        liquidity: u128,
        tick: i32,
        tick_spacing: i32,
        ticks: Vec<TickData>,
    ) -> (r: UniV3Pool)
        ensures
            r.wf(),
            r.address == address,
            r.token0 == token0,
            r.token1 == token1,
            r.fee_pips == fee_pips,
            r.sqrt_price_x96 == sqrt_price_x96,
            r.liquidity == liquidity,
            r.tick == tick,
            r.tick_spacing == if tick_spacing >= 1 { tick_spacing } else { 1 },
            r.ticks@ == sorted_ticks(ticks@),
            r.known_range is None,
            r.tokens@ == seq![token0, token1],
    {
        let mut keys: Vec<U256> = Vec::new();
        let mut i: usize = 0;
        while i < ticks.len()
            invariant
                i <= ticks@.len(),
                keys@.len() == i,
                forall|j: int| 0 <= j < i ==> (#[trigger] keys@[j])@ == ticks@[j].tick + 0x8000_0000,
            decreases ticks@.len() - i,
        {
            keys.push(U256::from_u64((ticks[i].tick as i64 + 0x8000_0000) as u64));
            i += 1;
        }
        let sorted = sorted_by_keys(ticks.as_slice(), keys.as_slice());
        proof {
            assert(key_values(keys@) =~= tick_keys(ticks@));
            lemma_sorted_ticks(ticks@, crate::order::stable_order(tick_keys(ticks@)));
        }
        UniV3Pool {
            address,
            token0,
            token1,
            fee_pips,
            sqrt_price_x96,
            liquidity,
            tick,
            tick_spacing: if tick_spacing >= 1 {
                tick_spacing
            } else {
                1
            },
            ticks: sorted,
            known_range: None,
            tokens: [token0, token1],
        }
    }

    /// The pool with its tick data marked complete only within `[min, max]`.
    pub fn with_known_range(self, min: i32, max: i32) -> (r: UniV3Pool)
        ensures
            r == (UniV3Pool { known_range: Some((min, max)), ..self }),
            r.wf() == self.wf(),
    {
        let mut pool = self;
        pool.known_range = Some((min, max));
        pool
    }

    /// TickMath.getSqrtRatioAtTick: the Q64.96 square-root price of a tick.
    pub fn get_sqrt_ratio_at_tick(tick: i32) -> (r: Result<U256, SimError>)
        ensures
            quote_view(r) == if MIN_TICK <= tick <= MAX_TICK {
                Ok::<int, SimError>(sqrt_ratio(tick as int))
            } else {
                Err(SimError::BadConfig("tick out of range"))
            },
    {
        price_at(tick)
    }

    /// What stays fixed during a swap through this pool.
    pub open spec fn curve(&self, limit: int, zero_for_one: bool) -> SwapCurve {
        SwapCurve {
            ticks: self.ticks@,
            spacing: self.tick_spacing as int,
            fee_pips: self.fee_pips as int,
            limit,
            zero_for_one,
        }
    }

    /// The state in which a swap of `amount_in` starts.
    pub open spec fn start(&self, amount_in: int) -> SwapState {
        SwapState {
            remaining: amount_in,
            calculated: 0,
            sqrt_price: self.sqrt_price_x96@,
            tick: self.tick as int,
            liquidity: self.liquidity as int,
        }
    }

    /// The quote of a swap in one direction.
    pub open spec fn swap_quote(&self, amount_in: int, zero_for_one: bool) -> Result<
        int,
        SimError,
    > {
        match price_limit(self.known_range, zero_for_one) {
            Err(e) => Err(e),
            Ok(limit) => match swap_loop(
                self.curve(limit, zero_for_one),
                self.start(amount_in),
                max_rounds(),
            ) {
                Err(e) => Err(e),
                Ok(end) => if self.known_range is Some && end.remaining != 0 && end.sqrt_price
                    == limit {
                    Err(SimError::IncompleteState)
                } else {
                    Ok(end.calculated)
                },
            },
        }
    }

    /// The price at which a swap stops.
    fn sqrt_price_limit(&self, zero_for_one: bool) -> (r: Result<U256, SimError>)
        ensures
            quote_view(r) == price_limit(self.known_range, zero_for_one),
    {
        broadcast use lemma_u256_range;

        proof {
            lemma_small_mod((min_sqrt() + 1) as nat, two256() as nat);
            lemma_small_mod((max_sqrt() - 1) as nat, two256() as nat);
        }
        if zero_for_one {
            let chain = min_sqrt_ratio().wrapping_add(U256::one());
            if let Some((lo, _)) = self.known_range {
                if lo > MIN_TICK {
                    return Ok(price_at(lo)?.max_of(chain));
                }
            }
            Ok(chain)
        } else {
            let chain = max_sqrt_ratio().wrapping_sub(U256::one());
            if let Some((_, hi)) = self.known_range {
                if hi < MAX_TICK {
                    return Ok(price_at(hi)?.min_of(chain));
                }
            }
            Ok(chain)
        }
    }
}

/// Sorting ticks sorts them and keeps them.
pub proof fn lemma_sorted_ticks(ticks: Seq<TickData>, order: Seq<int>)
    requires
        crate::order::is_stable_order(tick_keys(ticks), order),
    ensures
        sorted_ticks(ticks) == crate::order::permute(ticks, order),
        ticks_sorted(sorted_ticks(ticks)),
        forall|t: int| has_tick(sorted_ticks(ticks), t) <==> has_tick(ticks, t),
{
    crate::order::lemma_stable_order(tick_keys(ticks), order);
    let out = sorted_ticks(ticks);
    assert forall|i: int, j: int| 0 <= i <= j < out.len() implies (#[trigger] out[i]).tick <= (
    #[trigger] out[j]).tick by {
        if i < j {
            assert(crate::order::comes_before(tick_keys(ticks), order[i], order[j]));
        }
    }
    assert forall|t: int| has_tick(out, t) <==> has_tick(ticks, t) by {
        if has_tick(ticks, t) {
            let k = choose|k: int| 0 <= k < ticks.len() && (#[trigger] ticks[k]).tick == t;
            crate::order::sorting_keeps_the_items(ticks, tick_keys(ticks), order, ticks[k]);
            assert(ticks.contains(ticks[k]));
            let m = choose|m: int| 0 <= m < out.len() && out[m] == ticks[k];
            assert(out[m].tick == t);
        }
        if has_tick(out, t) {
            let m = choose|m: int| 0 <= m < out.len() && (#[trigger] out[m]).tick == t;
            assert(ticks[order[m]].tick == t);
        }
    }
}

impl Pool for UniV3Pool {
    open spec fn wf(&self) -> bool {
        self.tick_spacing >= 1 && ticks_sorted(self.ticks@)
    }

    open spec fn spec_address(&self) -> Address {
        self.address
    }

    open spec fn spec_protocol(&self) -> Protocol {
        Protocol::UniswapV3
    }

    open spec fn spec_tokens(&self) -> Seq<Address> {
        self.tokens@
    }

    open spec fn spec_quote(
        &self,
        token_in: Address,
        token_out: Address,
        amount_in: int,
    ) -> Result<int, SimError> {
        if token_in == token_out {
            Err(SimError::SameToken)
        } else if amount_in == 0 {
            Err(SimError::ZeroAmount)
        } else if token_in != self.token0 && token_in != self.token1 {
            Err(SimError::UnknownToken(token_in))
        } else if token_out != self.token0 && token_out != self.token1 {
            Err(SimError::UnknownToken(token_out))
        } else {
            self.swap_quote(amount_in, token_in == self.token0 && token_out == self.token1)
        }
    }

    open spec fn spec_gas(&self) -> int {
        160_000
    }

    fn address(&self) -> (r: Address) {
        self.address
    }

    fn protocol(&self) -> (r: Protocol) {
        Protocol::UniswapV3
    }

    fn tokens(&self) -> (r: &[Address]) {
        vstd::array::array_as_slice(&self.tokens)
    }

    fn quote(&self, token_in: Address, token_out: Address, amount_in: U256) -> (r: Result<
        U256,
        SimError,
    >) {
        broadcast use lemma_u256_range;

        if token_in == token_out {
            return Err(SimError::SameToken);
        }
        if amount_in.is_zero() {
            return Err(SimError::ZeroAmount);
        }
        let zero_for_one = if token_in == self.token0 && token_out == self.token1 {
            true
        } else if token_in == self.token1 && token_out == self.token0 {
            false
        } else if token_in != self.token0 && token_in != self.token1 {
            return Err(SimError::UnknownToken(token_in));
        } else {
            return Err(SimError::UnknownToken(token_out));
        };
        let sqrt_price_limit = self.sqrt_price_limit(zero_for_one)?;
        let mut amount_remaining = amount_in;
        let mut amount_calculated = U256::zero();
        let mut sqrt_price = self.sqrt_price_x96;
        let mut tick: i32 = self.tick;
        let mut liquidity: u128 = self.liquidity;
        let mut guard: u32 = 0;
        let ghost c = self.curve(sqrt_price_limit@, zero_for_one);
        let ghost whole = swap_loop(c, self.start(amount_in@), max_rounds());
        while !amount_remaining.is_zero() && !sqrt_price.equals(&sqrt_price_limit)
            invariant_except_break
                swap_loop(
                    c,
                    SwapState {
                        remaining: amount_remaining@,
                        calculated: amount_calculated@,
                        sqrt_price: sqrt_price@,
                        tick: tick as int,
                        liquidity: liquidity as int,
                    },
                    (10_000 - guard) as nat,
                ) == whole,
            invariant
                self.wf(),
                guard <= 10_000,
                c == self.curve(sqrt_price_limit@, zero_for_one),
                whole == swap_loop(c, self.start(amount_in@), max_rounds()),
                token_in != token_out,
                amount_in@ != 0,
                token_in == self.token0 || token_in == self.token1,
                token_out == self.token0 || token_out == self.token1,
                zero_for_one == (token_in == self.token0 && token_out == self.token1),
                price_limit(self.known_range, zero_for_one) == Ok::<int, SimError>(
                    sqrt_price_limit@,
                ),
            ensures
                whole == Ok::<SwapState, SimError>(
                    SwapState {
                        remaining: amount_remaining@,
                        calculated: amount_calculated@,
                        sqrt_price: sqrt_price@,
                        tick: tick as int,
                        liquidity: liquidity as int,
                    },
                ),
            decreases 10_000 - guard,
        {
            broadcast use lemma_u256_range;

            let ghost s = SwapState {
                remaining: amount_remaining@,
                calculated: amount_calculated@,
                sqrt_price: sqrt_price@,
                tick: tick as int,
                liquidity: liquidity as int,
            };
            if guard >= 10_000 {
                return Err(SimError::BadConfig("swap did not converge"));
            }
            guard += 1;
            let (raw_next, found) = self.next_tick_within_word(tick, zero_for_one);
            let tick_next: i32 = if raw_next < MIN_TICK as i64 {
                MIN_TICK
            } else if raw_next > MAX_TICK as i64 {
                MAX_TICK
            } else {
                raw_next as i32
            };
            let initialized = found && tick_next as i64 == raw_next;
            let sqrt_price_next_tick = price_at(tick_next)?;
            let sqrt_target = if zero_for_one {
                sqrt_price_next_tick.max_of(sqrt_price_limit)
            } else {
                sqrt_price_next_tick.min_of(sqrt_price_limit)
            };
            assert(sqrt_target@ == step_target(c, sqrt_price_next_tick@));
            if liquidity == 0 {
                sqrt_price = sqrt_target;
            } else {
                let (sqrt_next, amount_in_step, amount_out_step, fee_amount) =
                    Self::compute_swap_step(
                    sqrt_price,
                    sqrt_target,
                    liquidity,
                    amount_remaining,
                    self.fee_pips,
                )?;
                let consumed = amount_in_step.checked_add(fee_amount).ok_or(SimError::Overflow)?;
                amount_remaining =
                match amount_remaining.checked_sub(consumed) {
                    Some(rest) => rest,
                    None => U256::zero(),
                };
                amount_calculated = amount_calculated.wrapping_add(amount_out_step);
                sqrt_price = sqrt_next;
            }
            let ghost m = SwapState {
                remaining: amount_remaining@,
                calculated: amount_calculated@,
                sqrt_price: sqrt_price@,
                tick: tick as int,
                liquidity: liquidity as int,
            };
            assert(moved(c, s, sqrt_target@) == Ok::<SwapState, SimError>(m));
            if sqrt_price.equals(&sqrt_price_next_tick) {
                if initialized {
                    let net: i128 = self.liquidity_net_at(tick_next);
                    liquidity = apply_liquidity_net(liquidity, net, zero_for_one)?;
                }
                tick =
                if zero_for_one {
                    tick_next - 1
                } else {
                    tick_next
                };
            } else {
                break;
            }
        }
        if self.known_range.is_some() && !amount_remaining.is_zero() && sqrt_price.equals(
            &sqrt_price_limit,
        ) {
            return Err(SimError::IncompleteState);
        }
        Ok(amount_calculated)
    }

    fn gas_estimate(&self) -> (r: u64) {
        let crossings: u64 = 2;
        120_000 + crossings * 20_000
    }
}

} // verus!
