//! Multi-hop path simulation across heterogeneous pools.
//!
//! An arb path is a sequence of legs that starts and ends in the same token.
//! [`simulate_path`] chains the per-pool quotes, [`net_profit`] deducts the gas, and
//! [`best_size`] searches for the size with the most net profit.
use crate::math::mul_div;
use crate::pool::{quote_view, Pool, SimError};
use crate::types::{lemma_u256_range, two256, Address, U256};
use vstd::arithmetic::div_mod::lemma_small_mod;
use vstd::arithmetic::power::{lemma_pow_adds, lemma_pow_positive, pow};
use vstd::prelude::*;

verus! {

/// One hop: trade `token_in` for `token_out` through `pool`.
pub struct Leg<'a> {
    pub pool: &'a dyn Pool,
    pub token_in: Address,
    pub token_out: Address,
}

/// Every leg's pool can be quoted.
pub open spec fn legs_wf(legs: Seq<Leg>) -> bool {
    forall|i: int| 0 <= i < legs.len() ==> (#[trigger] legs[i]).pool.wf()
}

/// What the first `k` legs turn `amount_in` into.
pub open spec fn chained(legs: Seq<Leg>, k: int, amount_in: int) -> Result<int, SimError>
    decreases k,
{
    if k <= 0 {
        Ok(amount_in)
    } else {
        match chained(legs, k - 1, amount_in) {
            Err(e) => Err(e),
            Ok(amount) => legs[k - 1].pool.spec_quote(
                legs[k - 1].token_in,
                legs[k - 1].token_out,
                amount,
            ),
        }
    }
}

/// What the whole path turns `amount_in` into.
pub open spec fn path_output(legs: Seq<Leg>, amount_in: int) -> Result<int, SimError> {
    if legs.len() == 0 {
        Err(SimError::ZeroAmount)
    } else {
        chained(legs, legs.len() as int, amount_in)
    }
}

/// Gas units of the first `k` legs.
pub open spec fn gas_of(legs: Seq<Leg>, k: int) -> int
    decreases k,
{
    if k <= 0 {
        0
    } else {
        gas_of(legs, k - 1) + legs[k - 1].pool.spec_gas()
    }
}

/// The path's gas fits in 64 bits, and so do the gas estimates it is made of.
pub open spec fn gas_fits(legs: Seq<Leg>) -> bool {
    &&& forall|i: int| 0 <= i < legs.len() ==> (#[trigger] legs[i]).pool.spec_gas() >= 0
    &&& gas_of(legs, legs.len() as int) <= u64::MAX
}

/// An error of an earlier leg is the error of the chain.
proof fn lemma_chain_error(legs: Seq<Leg>, k: int, n: int, amount_in: int)
    requires
        0 <= k <= n,
        chained(legs, k, amount_in) is Err,
    ensures
        chained(legs, n, amount_in) == chained(legs, k, amount_in),
    decreases n - k,
{
    if k < n {
        lemma_chain_error(legs, k + 1, n, amount_in);
    }
}

/// The gas of a prefix is at most the gas of the path.
proof fn lemma_gas_prefix(legs: Seq<Leg>, k: int)
    requires
        0 <= k <= legs.len(),
        forall|i: int| 0 <= i < legs.len() ==> (#[trigger] legs[i]).pool.spec_gas() >= 0,
    ensures
        gas_of(legs, k) <= gas_of(legs, legs.len() as int),
    decreases legs.len() - k,
{
    if k < legs.len() {
        lemma_gas_prefix(legs, k + 1);
        assert(legs[k].pool.spec_gas() >= 0);
    }
}

/// Run `amount_in` of the first leg's input token through every leg in order, gas not deducted.
pub fn simulate_path(legs: &[Leg], amount_in: U256) -> (r: Result<U256, SimError>)
    requires
        legs_wf(legs@),
    ensures
        quote_view(r) == path_output(legs@, amount_in@),
{
    if legs.len() == 0 {
        return Err(SimError::ZeroAmount);
    }
    let mut amount = amount_in;
    let mut i: usize = 0;
    while i < legs.len()
        invariant
            i <= legs@.len(),
            legs@.len() > 0,
            legs_wf(legs@),
            chained(legs@, i as int, amount_in@) == Ok::<int, SimError>(amount@),
        decreases legs@.len() - i,
    {
        assert(legs@[i as int].pool.wf());
        match legs[i].pool.quote(legs[i].token_in, legs[i].token_out, amount) {
            Ok(v) => {
                amount = v;
            },
            Err(e) => {
                proof {
                    lemma_chain_error(legs@, i + 1, legs@.len() as int, amount_in@);
                }
                return Err(e);
            },
        }
        i += 1;
    }
    Ok(amount)
}

/// Total gas, in units, to execute the whole path.
pub fn path_gas(legs: &[Leg]) -> (r: u64)
    requires
        gas_fits(legs@),
    ensures
        r == gas_of(legs@, legs@.len() as int),
{
    let mut total: u64 = 0;
    let mut i: usize = 0;
    while i < legs.len()
        invariant
            i <= legs@.len(),
            gas_fits(legs@),
            total == gas_of(legs@, i as int),
        decreases legs@.len() - i,
    {
        proof {
            lemma_gas_prefix(legs@, i + 1);
        }
        total = total + legs[i].pool.gas_estimate();
        i += 1;
    }
    total
}

/// Result of evaluating a closed loop path.
#[derive(Clone, Copy, Debug)]
pub struct NetResult {
    /// Output of the final leg, in the input token's units.
    pub gross_out: U256,
    /// Gas cost expressed in input-token units.
    pub gas_cost_in_token: U256,
    /// `gross_out - amount_in - gas_cost`, if positive.
    pub net_profit: Option<U256>,
}

/// A loop's evaluation in mathematical integers.
pub struct NetView {
    pub gross_out: int,
    pub gas_cost: int,
    pub net_profit: Option<int>,
}

impl NetResult {
    /// The result in mathematical integers.
    pub open spec fn model(&self) -> NetView {
        NetView {
            gross_out: self.gross_out@,
            gas_cost: self.gas_cost_in_token@,
            net_profit: match self.net_profit {
                Some(p) => Some(p@),
                None => None,
            },
        }
    }
}

/// Gas units times the gas price, in token units, for a ratio of token units per 10^18 native.
pub open spec fn gas_cost_value(gas_units: int, gas_price_wei: int, ratio: int) -> int {
    (gas_units * gas_price_wei * ratio) / 1_000_000_000_000_000_000
}

/// The evaluation of a closed loop net of gas.
pub open spec fn net_value(legs: Seq<Leg>, amount_in: int, gas_price_wei: int, ratio: int) -> Result<
    NetView,
    SimError,
> {
    let gas_units = gas_of(legs, legs.len() as int);
    let cost = gas_cost_value(gas_units, gas_price_wei, ratio);
    match path_output(legs, amount_in) {
        Err(e) => Err(e),
        Ok(gross_out) => if gas_units * gas_price_wei >= two256() || cost >= two256() {
            Err(SimError::Overflow)
        } else {
            Ok(
                NetView {
                    gross_out,
                    gas_cost: cost,
                    net_profit: if gross_out > amount_in + cost {
                        Some(gross_out - amount_in - cost)
                    } else {
                        None
                    },
                },
            )
        },
    }
}

/// Evaluate a closed loop net of gas.
///
/// `token_units_per_native_1e18` converts the gas, in wei, to input-token units: it is the
/// number of token units that 10^18 wei buy.
pub fn net_profit(
    legs: &[Leg],
    amount_in: U256,
    gas_price_wei: U256,
    token_units_per_native_1e18: U256,
) -> (r: Result<NetResult, SimError>)
    requires
        legs_wf(legs@),
        gas_fits(legs@),
    ensures
        (match r {
            Ok(n) => Ok::<NetView, SimError>(n.model()),
            Err(e) => Err(e),
        }) == net_value(legs@, amount_in@, gas_price_wei@, token_units_per_native_1e18@),
        r matches Ok(n) ==> {
            &&& path_output(legs@, amount_in@) == Ok::<int, SimError>(n.gross_out@)
            &&& n.net_profit is Some <==> n.gross_out@ > amount_in@ + n.gas_cost_in_token@
            &&& n.net_profit matches Some(p) ==> p@ + amount_in@ + n.gas_cost_in_token@
                == n.gross_out@
        },
{
    broadcast use lemma_u256_range;

    let gross_out = simulate_path(legs, amount_in)?;
    let gas_units = U256::from_u64(path_gas(legs));
    let gas_wei = gas_units.checked_mul(gas_price_wei).ok_or(SimError::Overflow)?;
    let gas_cost_in_token = mul_div(
        gas_wei,
        token_units_per_native_1e18,
        U256::from_u64(1_000_000_000_000_000_000),
    ).ok_or(SimError::Overflow)?;
    let net_profit = match gross_out.checked_sub(amount_in) {
        Some(edge) if edge > gas_cost_in_token => edge.checked_sub(gas_cost_in_token),
        _ => None,
    };
    Ok(NetResult { gross_out, gas_cost_in_token, net_profit })
}

/// The largest `i128`.
pub open spec fn i128_max() -> int {
    0x7fff_ffff_ffff_ffff_ffff_ffff_ffff_ffff
}

/// `x` held at the largest `i128`.
pub open spec fn capped(x: int) -> int {
    if x > i128_max() {
        i128_max()
    } else {
        x
    }
}

/// `x` as an `i128`, held at the largest one.
pub fn to_i128_sat(x: U256) -> (r: i128)
    ensures
        r == capped(x@),
{
    broadcast use lemma_u256_range;

    match x.to_u128() {
        Some(u) => if u > 0x7fff_ffff_ffff_ffff_ffff_ffff_ffff_ffff {
            i128::MAX
        } else {
            u as i128
        },
        None => i128::MAX,
    }
}

/// The signed net profit of a size; a loop that reverts scores the lowest value.
pub open spec fn score(legs: Seq<Leg>, gas_price_wei: int, ratio: int, x: int) -> int {
    match net_value(legs, x, gas_price_wei, ratio) {
        Ok(n) => {
            let net = capped(n.gross_out) - capped(x) - capped(n.gas_cost);
            if net < -i128_max() - 1 {
                -i128_max() - 1
            } else {
                net
            }
        },
        Err(_) => -i128_max() - 1,
    }
}

/// The signed net profit of a result at size `x`.
fn signed_net_of(result: &NetResult, x: U256) -> (r: i128)
    ensures
        r == ({
            let net = capped(result.gross_out@) - capped(x@) - capped(result.gas_cost_in_token@);
            if net < -i128_max() - 1 {
                -i128_max() - 1
            } else {
                net
            }
        }),
{
    broadcast use lemma_u256_range;

    let edge: i128 = to_i128_sat(result.gross_out) - to_i128_sat(x);
    match edge.checked_sub(to_i128_sat(result.gas_cost_in_token)) {
        Some(net) => net,
        None => i128::MIN,
    }
}

/// [`score`].
fn signed_net(legs: &[Leg], x: U256, gas_price_wei: U256, ratio: U256) -> (r: i128)
    requires
        legs_wf(legs@),
        gas_fits(legs@),
    ensures
        r == score(legs@, gas_price_wei@, ratio@, x@),
{
    match net_profit(legs, x, gas_price_wei, ratio) {
        Ok(n) => signed_net_of(&n, x),
        Err(_) => i128::MIN,
    }
}

/// The size-optimal evaluation of a closed loop.
#[derive(Clone, Copy, Debug)]
pub struct SizedResult {
    /// Trade size, in input-token units, that maximizes net profit.
    pub amount_in: U256,
    pub result: NetResult,
}

/// The size at which the marginal rate is probed.
pub open spec fn probe_size(min_amount: int, max_amount: int) -> int {
    if min_amount >= max_amount / 10_000 {
        min_amount
    } else {
        max_amount / 10_000
    }
}

/// Whether the loop returns more than it takes over the step from the probe size to its double.
pub open spec fn rate_exceeds_one(legs: Seq<Leg>, min_amount: int, max_amount: int) -> bool {
    let s = probe_size(min_amount, max_amount);
    match (path_output(legs, s), path_output(legs, 2 * s)) {
        (Ok(g1), Ok(g2)) => g2 - g1 > s,
        _ => false,
    }
}

/// Whether a search for the best size is made at all.
pub open spec fn is_searched(legs: Seq<Leg>, min_amount: int, max_amount: int) -> bool {
    &&& min_amount != 0
    &&& min_amount < max_amount
    &&& 2 * probe_size(min_amount, max_amount) < max_amount
    &&& rate_exceeds_one(legs, min_amount, max_amount)
}

/// The bracket left of `[lo, hi]` after at most `n` ternary steps.
pub open spec fn narrowed(
    legs: Seq<Leg>,
    gas_price_wei: int,
    ratio: int,
    lo: int,
    hi: int,
    n: nat,
) -> (int, int)
    decreases n,
{
    let third = (hi - lo) / 3;
    if n == 0 || third <= 0 {
        (lo, hi)
    } else if score(legs, gas_price_wei, ratio, lo + third) < score(
        legs,
        gas_price_wei,
        ratio,
        hi - third,
    ) {
        narrowed(legs, gas_price_wei, ratio, lo + third, hi, (n - 1) as nat)
    } else {
        narrowed(legs, gas_price_wei, ratio, lo, hi - third, (n - 1) as nat)
    }
}

/// The better of a choice so far and the size `x`: `x` replaces it only if it scores more.
pub open spec fn better(
    legs: Seq<Leg>,
    gas_price_wei: int,
    ratio: int,
    so_far: Option<int>,
    x: int,
) -> Option<int> {
    if net_value(legs, x, gas_price_wei, ratio) is Err {
        so_far
    } else {
        match so_far {
            None => Some(x),
            Some(b) => if score(legs, gas_price_wei, ratio, x) > score(
                legs,
                gas_price_wei,
                ratio,
                b,
            ) {
                Some(x)
            } else {
                Some(b)
            },
        }
    }
}

/// The best of the final bracket's ends and its midpoint.
pub open spec fn best_of_bracket(
    legs: Seq<Leg>,
    gas_price_wei: int,
    ratio: int,
    lo: int,
    hi: int,
) -> Option<int> {
    let mid = lo + (hi - lo) / 2;
    better(
        legs,
        gas_price_wei,
        ratio,
        better(
            legs,
            gas_price_wei,
            ratio,
            better(legs, gas_price_wei, ratio, None, lo),
            mid,
        ),
        hi,
    )
}

/// The size that [`best_size`] finds.
pub open spec fn best_size_value(
    legs: Seq<Leg>,
    min_amount: int,
    max_amount: int,
    gas_price_wei: int,
    ratio: int,
) -> Option<int> {
    if !is_searched(legs, min_amount, max_amount) {
        None
    } else {
        let (lo, hi) = narrowed(legs, gas_price_wei, ratio, min_amount, max_amount, 64);
        best_of_bracket(legs, gas_price_wei, ratio, lo, hi)
    }
}

/// [`better`], on a choice that carries its evaluation.
fn better_of(
    legs: &[Leg],
    gas_price_wei: U256,
    ratio: U256,
    so_far: Option<SizedResult>,
    x: U256,
) -> (r: Option<SizedResult>)
    requires
        legs_wf(legs@),
        gas_fits(legs@),
        so_far matches Some(s) ==> net_value(
            legs@,
            s.amount_in@,
            gas_price_wei@,
            ratio@,
        ) == Ok::<NetView, SimError>(s.result.model()),
    ensures
        (match r {
            Some(s) => Some(s.amount_in@),
            None => None,
        }) == better(
            legs@,
            gas_price_wei@,
            ratio@,
            match so_far {
                Some(s) => Some(s.amount_in@),
                None => None,
            },
            x@,
        ),
        r matches Some(s) ==> net_value(legs@, s.amount_in@, gas_price_wei@, ratio@) == Ok::<
            NetView,
            SimError,
        >(s.result.model()),
{
    match net_profit(legs, x, gas_price_wei, ratio) {
        Err(_) => so_far,
        Ok(result) => match so_far {
            None => Some(SizedResult { amount_in: x, result }),
            Some(s) => if signed_net_of(&result, x) > signed_net_of(&s.result, s.amount_in) {
                Some(SizedResult { amount_in: x, result })
            } else {
                Some(s)
            },
        },
    }
}

/// Find the trade size in `[min_amount, max_amount]` that maximizes net profit for a closed
/// loop.
///
/// The profit curve of a loop is concave with a single interior maximum, so a ternary search
/// converges on it. A loop whose rate at a small size is at most one has no profitable size and
/// is left out after two simulations. A size at which the loop reverts scores lowest, which
/// bounds the search to the feasible sizes.
pub fn best_size(
    legs: &[Leg],
    min_amount: U256,
    max_amount: U256,
    gas_price_wei: U256,
    native_per_token_q: U256,
) -> (r: Option<SizedResult>)
    requires
        legs_wf(legs@),
        gas_fits(legs@),
    ensures
        (match r {
            Some(s) => Some(s.amount_in@),
            None => None,
        }) == best_size_value(
            legs@,
            min_amount@,
            max_amount@,
            gas_price_wei@,
            native_per_token_q@,
        ),
        r matches Some(s) ==> net_value(
            legs@,
            s.amount_in@,
            gas_price_wei@,
            native_per_token_q@,
        ) == Ok::<NetView, SimError>(s.result.model()),
{
    broadcast use lemma_u256_range;

    if min_amount.is_zero() || max_amount <= min_amount {
        return None;
    }
    let s = min_amount.max_of(max_amount.div_floor(U256::from_u64(10_000)));
    let two_s = s.checked_mul(U256::from_u64(2))?;
    if two_s >= max_amount {
        return None;
    }
    let g1 = match simulate_path(legs, s) {
        Ok(g) => g,
        Err(_) => {
            return None;
        },
    };
    let g2 = match simulate_path(legs, two_s) {
        Ok(g) => g,
        Err(_) => {
            return None;
        },
    };
    let gained = g2.checked_sub(g1)?;
    proof {
        lemma_small_mod((two_s@ - s@) as nat, two256() as nat);
    }
    if gained <= two_s.wrapping_sub(s) {
        return None;
    }
    let mut lo = min_amount;
    let mut hi = max_amount;
    let mut n: u32 = 0;
    let ghost (gp, q) = (gas_price_wei@, native_per_token_q@);
    let ghost whole = narrowed(legs@, gp, q, min_amount@, max_amount@, 64);
    while n < 64
        invariant_except_break
            narrowed(legs@, gp, q, lo@, hi@, (64 - n) as nat) == whole,
        invariant
            n <= 64,
            legs_wf(legs@),
            gas_fits(legs@),
            gp == gas_price_wei@,
            q == native_per_token_q@,
            lo@ < hi@,
        ensures
            (lo@, hi@) == whole,
        decreases 64 - n,
    {
        broadcast use lemma_u256_range;

        proof {
            lemma_small_mod((hi@ - lo@) as nat, two256() as nat);
        }
        let third = hi.wrapping_sub(lo).div_floor(U256::from_u64(3));
        if third.is_zero() {
            break;
        }
        proof {
            lemma_small_mod((lo@ + third@) as nat, two256() as nat);
            lemma_small_mod((hi@ - third@) as nat, two256() as nat);
        }
        let m1 = lo.wrapping_add(third);
        let m2 = hi.wrapping_sub(third);
        if signed_net(legs, m1, gas_price_wei, native_per_token_q) < signed_net(
            legs,
            m2,
            gas_price_wei,
            native_per_token_q,
        ) {
            lo = m1;
        } else {
            hi = m2;
        }
        n += 1;
    }
    proof {
        lemma_small_mod((hi@ - lo@) as nat, two256() as nat);
        lemma_small_mod((lo@ + (hi@ - lo@) / 2) as nat, two256() as nat);
    }
    let mid = lo.wrapping_add(hi.wrapping_sub(lo).div_floor(U256::from_u64(2)));
    let first = better_of(legs, gas_price_wei, native_per_token_q, None, lo);
    let second = better_of(legs, gas_price_wei, native_per_token_q, first, mid);
    better_of(legs, gas_price_wei, native_per_token_q, second, hi)
}

/// The ternary search stays inside its bracket.
proof fn lemma_narrowed(legs: Seq<Leg>, gp: int, q: int, lo: int, hi: int, n: nat)
    requires
        lo <= hi,
    ensures
        lo <= narrowed(legs, gp, q, lo, hi, n).0 <= narrowed(legs, gp, q, lo, hi, n).1 <= hi,
    decreases n,
{
    let third = (hi - lo) / 3;
    if n > 0 && third > 0 {
        lemma_narrowed(legs, gp, q, lo + third, hi, (n - 1) as nat);
        lemma_narrowed(legs, gp, q, lo, hi - third, (n - 1) as nat);
    }
}

/// A size that is found lies within the allowed sizes, its loop does not revert, and it scores
/// at least as much as both ends of the final bracket and its midpoint. It is only looked for
/// when the loop's marginal rate exceeds one.
pub proof fn best_size_is_sound(
    legs: Seq<Leg>,
    min_amount: int,
    max_amount: int,
    gas_price_wei: int,
    ratio: int,
)
    ensures
        best_size_value(legs, min_amount, max_amount, gas_price_wei, ratio) matches Some(x) ==> {
            let (lo, hi) = narrowed(legs, gas_price_wei, ratio, min_amount, max_amount, 64);
            let mid = lo + (hi - lo) / 2;
            &&& min_amount <= x <= max_amount
            &&& rate_exceeds_one(legs, min_amount, max_amount)
            &&& net_value(legs, x, gas_price_wei, ratio) is Ok
            &&& score(legs, gas_price_wei, ratio, x) >= score(legs, gas_price_wei, ratio, lo)
            &&& score(legs, gas_price_wei, ratio, x) >= score(legs, gas_price_wei, ratio, mid)
            &&& score(legs, gas_price_wei, ratio, x) >= score(legs, gas_price_wei, ratio, hi)
        },
{
    if min_amount < max_amount {
        lemma_narrowed(legs, gas_price_wei, ratio, min_amount, max_amount, 64);
    }
}

/// The lowest score, that of a size at which the loop reverts.
pub open spec fn lowest_score() -> int {
    -i128_max() - 1
}

/// The score strictly rises up to `peak`; from there on it never rises, as where it falls until
/// the loop reverts.
pub open spec fn has_one_peak(
    legs: Seq<Leg>,
    min_amount: int,
    max_amount: int,
    gas_price_wei: int,
    ratio: int,
    peak: int,
) -> bool {
    &&& min_amount <= peak <= max_amount
    &&& forall|a: int, b: int|
        min_amount <= a < b <= peak ==> #[trigger] score(legs, gas_price_wei, ratio, a)
            < #[trigger] score(legs, gas_price_wei, ratio, b)
    &&& forall|a: int, b: int|
        peak <= a < b <= max_amount ==> #[trigger] score(legs, gas_price_wei, ratio, a)
            >= #[trigger] score(legs, gas_price_wei, ratio, b)
}

/// The ternary search never drops the peak.
proof fn lemma_peak_stays(
    legs: Seq<Leg>,
    min_amount: int,
    max_amount: int,
    gp: int,
    q: int,
    peak: int,
    lo: int,
    hi: int,
    n: nat,
)
    requires
        has_one_peak(legs, min_amount, max_amount, gp, q, peak),
        min_amount <= lo <= peak <= hi <= max_amount,
    ensures
        narrowed(legs, gp, q, lo, hi, n).0 <= peak <= narrowed(legs, gp, q, lo, hi, n).1,
    decreases n,
{
    let third = (hi - lo) / 3;
    if n > 0 && third > 0 {
        let (m1, m2) = (lo + third, hi - third);
        assert(m1 < m2);
        if score(legs, gp, q, m1) < score(legs, gp, q, m2) {
            lemma_peak_stays(legs, min_amount, max_amount, gp, q, peak, m1, hi, (n - 1) as nat);
        } else {
            lemma_peak_stays(legs, min_amount, max_amount, gp, q, peak, lo, m2, (n - 1) as nat);
        }
    }
}

/// The width of the search's bracket, less two, shrinks by a third in every step.
proof fn lemma_bracket_shrinks(legs: Seq<Leg>, gp: int, q: int, lo: int, hi: int, n: nat)
    requires
        hi - lo >= 2,
    ensures
        ({
            let (l, h) = narrowed(legs, gp, q, lo, hi, n);
            (h - l - 2) * pow(3, n) <= (hi - lo - 2) * pow(2, n)
        }),
    decreases n,
{
    let third = (hi - lo) / 3;
    if n == 0 {
        assert(pow(3, 0) == 1 && pow(2, 0) == 1) by {
            reveal_with_fuel(pow, 1);
        }
    } else if third <= 0 {
        assert(hi - lo == 2);
        assert((hi - lo - 2) * pow(3, n) == 0 && (hi - lo - 2) * pow(2, n) == 0);
    } else {
        let (m1, m2) = (lo + third, hi - third);
        let m = (n - 1) as nat;
        let (a, b) = if score(legs, gp, q, m1) < score(legs, gp, q, m2) {
            (m1, hi)
        } else {
            (lo, m2)
        };
        lemma_bracket_shrinks(legs, gp, q, a, b, m);
        let (l, h) = narrowed(legs, gp, q, lo, hi, n);
        let (p3, p2) = (pow(3, m), pow(2, m));
        reveal_with_fuel(pow, 2);
        lemma_pow_positive(2, m);
        assert((h - l - 2) * (3 * p3) <= (hi - lo - 2) * (2 * p2)) by (nonlinear_arith)
            requires
                (h - l - 2) * p3 <= (b - a - 2) * p2,
                3 * (b - a - 2) <= 2 * (hi - lo - 2),
                p2 > 0,
        ;
    }
}

/// Sizes that span at most 186 thousand million units are narrowed down to three.
proof fn lemma_three_sizes_left(legs: Seq<Leg>, gp: int, q: int, lo: int, hi: int)
    requires
        lo <= hi <= lo + 186_000_000_000,
    ensures
        narrowed(legs, gp, q, lo, hi, 64).1 - narrowed(legs, gp, q, lo, hi, 64).0 <= 2,
{
    let (l, h) = narrowed(legs, gp, q, lo, hi, 64);
    let w = hi - lo;
    if w >= 2 {
        lemma_bracket_shrinks(legs, gp, q, lo, hi, 64);
        lemma_powers_of_sixty_four();
        assert(h - l <= 2) by (nonlinear_arith)
            requires
                (h - l - 2) * 3433683820292512484657849089281 <= (w - 2) * 18446744073709551616,
                w <= 186_000_000_000,
        ;
    } else {
        lemma_narrowed(legs, gp, q, lo, hi, 64);
    }
}

/// On a profit curve with one peak, the search keeps the peak in its bracket, whatever the sizes
/// allowed. Where they span at most 186 thousand million units, the bracket shrinks onto it: the
/// size that is found scores at least as much as every other allowed size, and one is found
/// unless the loop reverts even at the peak.
pub proof fn best_size_is_optimal(
    legs: Seq<Leg>,
    min_amount: int,
    max_amount: int,
    gas_price_wei: int,
    ratio: int,
    peak: int,
    x: int,
)
    requires
        is_searched(legs, min_amount, max_amount),
        has_one_peak(legs, min_amount, max_amount, gas_price_wei, ratio, peak),
        min_amount <= x <= max_amount,
    ensures
        ({
            let (lo, hi) = narrowed(legs, gas_price_wei, ratio, min_amount, max_amount, 64);
            min_amount <= lo <= peak <= hi <= max_amount
        }),
        max_amount - min_amount <= 186_000_000_000 ==> {
            &&& best_size_value(
                legs,
                min_amount,
                max_amount,
                gas_price_wei,
                ratio,
            ) matches Some(b) ==> score(legs, gas_price_wei, ratio, x) <= score(
                legs,
                gas_price_wei,
                ratio,
                b,
            )
            &&& score(legs, gas_price_wei, ratio, peak) > lowest_score() ==> best_size_value(
                legs,
                min_amount,
                max_amount,
                gas_price_wei,
                ratio,
            ) is Some
        },
{
    let (gp, q) = (gas_price_wei, ratio);
    let (lo, hi) = narrowed(legs, gp, q, min_amount, max_amount, 64);
    lemma_narrowed(legs, gp, q, min_amount, max_amount, 64);
    lemma_peak_stays(
        legs,
        min_amount,
        max_amount,
        gp,
        q,
        peak,
        min_amount,
        max_amount,
        64,
    );
    if max_amount - min_amount <= 186_000_000_000 {
        lemma_three_sizes_left(legs, gp, q, min_amount, max_amount);
        let mid = lo + (hi - lo) / 2;
        assert(peak == lo || peak == mid || peak == hi);
        best_size_is_sound(legs, min_amount, max_amount, gp, q);
        assert(score(legs, gp, q, x) <= score(legs, gp, q, peak));
    }
}

/// `f` is concave on `[lo, hi]`: its slope never rises.
pub open spec fn is_concave(f: spec_fn(int) -> int, lo: int, hi: int) -> bool {
    forall|a: int, b: int, c: int|
        #![trigger f(a), f(b), f(c)]
        lo <= a < b < c <= hi ==> (f(b) - f(a)) * (c - b) >= (f(c) - f(b)) * (b - a)
}

/// The profit curve follows a concave one up to the size `top`, and the loop reverts past it.
/// `f` is the concave curve in units of one `scale`-th: the score, which is rounded, is off by at
/// most `error` of them.
pub open spec fn is_nearly_concave(
    legs: Seq<Leg>,
    min_amount: int,
    max_amount: int,
    gas_price_wei: int,
    ratio: int,
    f: spec_fn(int) -> int,
    scale: int,
    error: int,
    top: int,
) -> bool {
    &&& min_amount <= top <= max_amount
    &&& scale > 0
    &&& error >= 0
    &&& is_concave(f, min_amount, top)
    &&& forall|x: int|
        min_amount <= x <= top ==> -error <= #[trigger] f(x) - scale * score(
            legs,
            gas_price_wei,
            ratio,
            x,
        ) <= error
    &&& forall|x: int|
        top < x <= max_amount ==> #[trigger] score(legs, gas_price_wei, ratio, x)
            == lowest_score()
}

/// A curve that rises by at most `2e` over a stretch, and no faster past it, rises by at most `2e`
/// over a further stretch that is no longer.
proof fn lemma_slope(rise: int, gain: int, width: int, reach: int, e: int)
    by (nonlinear_arith)
    requires
        rise <= 2 * e,
        gain * width <= rise * reach,
        0 < reach <= width,
        e >= 0,
    ensures
        gain <= 2 * e,
{
    assert(rise * reach <= 2 * e * reach);
    assert(2 * e * reach <= 2 * e * width);
}

/// A step of the search loses at most twice the error: the bracket that is left holds a size
/// which is that close to the one that was there.
proof fn lemma_step_keeps_a_good_size(
    legs: Seq<Leg>,
    min_amount: int,
    max_amount: int,
    gp: int,
    q: int,
    f: spec_fn(int) -> int,
    scale: int,
    error: int,
    top: int,
    lo: int,
    hi: int,
    z: int,
) -> (r: int)
    requires
        is_nearly_concave(legs, min_amount, max_amount, gp, q, f, scale, error, top),
        min_amount <= lo <= z <= hi <= max_amount,
        z <= top,
        (hi - lo) / 3 > 0,
    ensures
        ({
            let third = (hi - lo) / 3;
            let (m1, m2) = (lo + third, hi - third);
            if score(legs, gp, q, m1) < score(legs, gp, q, m2) {
                m1 <= r <= hi
            } else {
                lo <= r <= m2
            }
        }),
        r <= top,
        f(r) >= f(z) - 2 * error,
{
    let third = (hi - lo) / 3;
    let (m1, m2) = (lo + third, hi - third);
    let (s1, s2) = (score(legs, gp, q, m1), score(legs, gp, q, m2));
    assert(m1 < m2 && third <= m2 - m1);
    if s1 < s2 {
        assert(m2 <= top);
        if z < m1 {
            assert(scale * s1 <= scale * s2) by (nonlinear_arith)
                requires
                    s1 < s2,
                    scale > 0,
            ;
            assert(f(m1) - scale * s1 <= error && f(m2) - scale * s2 >= -error);
            assert((f(m1) - f(z)) * (m2 - m1) >= (f(m2) - f(m1)) * (m1 - z));
            assert((f(z) - f(m1)) * (m2 - m1) <= (f(m1) - f(m2)) * (m1 - z)) by (nonlinear_arith)
                requires
                    (f(m1) - f(z)) * (m2 - m1) >= (f(m2) - f(m1)) * (m1 - z),
            ;
            lemma_slope(f(m1) - f(m2), f(z) - f(m1), m2 - m1, m1 - z, error);
            m1
        } else {
            z
        }
    } else if z > m2 {
        assert(scale * s2 <= scale * s1) by (nonlinear_arith)
            requires
                s2 <= s1,
                scale > 0,
        ;
        assert(f(m2) - scale * s2 <= error && f(m1) - scale * s1 >= -error);
        assert((f(m2) - f(m1)) * (z - m2) >= (f(z) - f(m2)) * (m2 - m1));
        lemma_slope(f(m2) - f(m1), f(z) - f(m2), m2 - m1, z - m2, error);
        m2
    } else {
        z
    }
}

/// `n` steps of the search lose at most `2n` errors.
proof fn lemma_search_keeps_a_good_size(
    legs: Seq<Leg>,
    min_amount: int,
    max_amount: int,
    gp: int,
    q: int,
    f: spec_fn(int) -> int,
    scale: int,
    error: int,
    top: int,
    lo: int,
    hi: int,
    z: int,
    n: nat,
) -> (r: int)
    requires
        is_nearly_concave(legs, min_amount, max_amount, gp, q, f, scale, error, top),
        min_amount <= lo <= z <= hi <= max_amount,
        z <= top,
    ensures
        narrowed(legs, gp, q, lo, hi, n).0 <= r <= narrowed(legs, gp, q, lo, hi, n).1,
        min_amount <= r <= top,
        f(r) >= f(z) - 2 * error * n,
    decreases n,
{
    let third = (hi - lo) / 3;
    if n == 0 || third <= 0 {
        assert(2 * error * n >= 0) by (nonlinear_arith)
            requires
                error >= 0,
                n >= 0,
        ;
        z
    } else {
        let (m1, m2) = (lo + third, hi - third);
        let m = (n - 1) as nat;
        let next = lemma_step_keeps_a_good_size(
            legs,
            min_amount,
            max_amount,
            gp,
            q,
            f,
            scale,
            error,
            top,
            lo,
            hi,
            z,
        );
        let (a, b) = if score(legs, gp, q, m1) < score(legs, gp, q, m2) {
            (m1, hi)
        } else {
            (lo, m2)
        };
        let r = lemma_search_keeps_a_good_size(
            legs,
            min_amount,
            max_amount,
            gp,
            q,
            f,
            scale,
            error,
            top,
            a,
            b,
            next,
            m,
        );
        assert(2 * error * n == 2 * error * m + 2 * error) by (nonlinear_arith)
            requires
                n == m + 1,
        ;
        r
    }
}

/// On a concave profit curve, up to where the loop reverts, the size that is found scores at least
/// as much as every other allowed size, where these span at most 186 thousand million units. A
/// curve that is concave but for rounding costs at most 130 times the rounding error.
pub proof fn concave_curves_are_searched_to_the_top(
    legs: Seq<Leg>,
    min_amount: int,
    max_amount: int,
    gas_price_wei: int,
    ratio: int,
    f: spec_fn(int) -> int,
    scale: int,
    error: int,
    top: int,
    x: int,
)
    requires
        is_searched(legs, min_amount, max_amount),
        max_amount - min_amount <= 186_000_000_000,
        is_nearly_concave(
            legs,
            min_amount,
            max_amount,
            gas_price_wei,
            ratio,
            f,
            scale,
            error,
            top,
        ),
        min_amount <= x <= max_amount,
    ensures
        best_size_value(legs, min_amount, max_amount, gas_price_wei, ratio) matches Some(b)
            ==> scale * score(legs, gas_price_wei, ratio, x) <= scale * score(
            legs,
            gas_price_wei,
            ratio,
            b,
        ) + 130 * error,
        best_size_value(legs, min_amount, max_amount, gas_price_wei, ratio) matches Some(b)
            ==> error == 0 ==> score(legs, gas_price_wei, ratio, x) <= score(
            legs,
            gas_price_wei,
            ratio,
            b,
        ),
{
    let (gp, q) = (gas_price_wei, ratio);
    if let Some(b) = best_size_value(legs, min_amount, max_amount, gp, q) {
        let (lo, hi) = narrowed(legs, gp, q, min_amount, max_amount, 64);
        let s = score(legs, gp, q, b);
        lemma_narrowed(legs, gp, q, min_amount, max_amount, 64);
        lemma_three_sizes_left(legs, gp, q, min_amount, max_amount);
        best_size_is_sound(legs, min_amount, max_amount, gp, q);
        let start = if x <= top {
            x
        } else {
            top
        };
        let z = lemma_search_keeps_a_good_size(
            legs,
            min_amount,
            max_amount,
            gp,
            q,
            f,
            scale,
            error,
            top,
            min_amount,
            max_amount,
            start,
            64,
        );
        let mid = lo + (hi - lo) / 2;
        assert(z == lo || z == mid || z == hi);
        let (sz, sx) = (score(legs, gp, q, z), score(legs, gp, q, x));
        assert(sz <= s);
        assert(f(z) - scale * sz <= error);
        assert(scale * sz <= scale * s) by (nonlinear_arith)
            requires
                sz <= s,
                scale > 0,
        ;
        if x <= top {
            assert(f(x) - scale * sx >= -error);
        } else {
            assert(sx <= s);
            assert(scale * sx <= scale * s) by (nonlinear_arith)
                requires
                    sx <= s,
                    scale > 0,
            ;
        }
        if error == 0 {
            assert(sx <= s) by (nonlinear_arith)
                requires
                    scale * sx <= scale * s,
                    scale > 0,
            ;
        }
    }
}

/// 2^64 and 3^64.
proof fn lemma_powers_of_sixty_four()
    ensures
        pow(2, 64) == 18446744073709551616,
        pow(3, 64) == 3433683820292512484657849089281,
{
    reveal_with_fuel(pow, 9);
    assert(pow(2, 8) == 256 && pow(3, 8) == 6561);
    lemma_pow_adds(2, 8, 8);
    assert(pow(2, 16) == 65536) by (nonlinear_arith)
        requires
            pow(2, 16) == pow(2, 8) * pow(2, 8),
            pow(2, 8) == 256,
    ;
    lemma_pow_adds(3, 8, 8);
    assert(pow(3, 16) == 43046721) by (nonlinear_arith)
        requires
            pow(3, 16) == pow(3, 8) * pow(3, 8),
            pow(3, 8) == 6561,
    ;
    lemma_pow_adds(2, 16, 16);
    assert(pow(2, 32) == 4294967296) by (nonlinear_arith)
        requires
            pow(2, 32) == pow(2, 16) * pow(2, 16),
            pow(2, 16) == 65536,
    ;
    lemma_pow_adds(3, 16, 16);
    assert(pow(3, 32) == 1853020188851841) by (nonlinear_arith)
        requires
            pow(3, 32) == pow(3, 16) * pow(3, 16),
            pow(3, 16) == 43046721,
    ;
    lemma_pow_adds(2, 32, 32);
    assert(pow(2, 64) == 18446744073709551616) by (nonlinear_arith)
        requires
            pow(2, 64) == pow(2, 32) * pow(2, 32),
            pow(2, 32) == 4294967296,
    ;
    lemma_pow_adds(3, 32, 32);
    assert(pow(3, 64) == 3433683820292512484657849089281) by (nonlinear_arith)
        requires
            pow(3, 64) == pow(3, 32) * pow(3, 32),
            pow(3, 32) == 1853020188851841,
    ;
}

/// Running a path is running its first legs and then the rest.
pub proof fn paths_compose(legs: Seq<Leg>, k: int, amount_in: int)
    requires
        0 <= k <= legs.len(),
    ensures
        chained(legs, legs.len() as int, amount_in) == (match chained(legs, k, amount_in) {
            Err(e) => Err::<int, SimError>(e),
            Ok(mid) => chained(legs.skip(k), legs.len() - k, mid),
        }),
{
    lemma_compose(legs, k, legs.len() as int, amount_in);
}

proof fn lemma_compose(legs: Seq<Leg>, k: int, n: int, amount_in: int)
    requires
        0 <= k <= n <= legs.len(),
    ensures
        chained(legs, n, amount_in) == (match chained(legs, k, amount_in) {
            Err(e) => Err::<int, SimError>(e),
            Ok(mid) => chained(legs.skip(k), n - k, mid),
        }),
    decreases n,
{
    if n > k {
        lemma_compose(legs, k, n - 1, amount_in);
        assert(legs.skip(k)[n - 1 - k] == legs[n - 1]);
    }
}

/// Without gas, the net profit is the gross edge, where there is one.
pub proof fn free_gas_nets_the_edge(legs: Seq<Leg>, amount_in: int, ratio: int)
    ensures
        match (path_output(legs, amount_in), net_value(legs, amount_in, 0, ratio)) {
            (Err(a), Err(b)) => a == b,
            (Ok(gross), Ok(n)) => n.gross_out == gross && n.gas_cost == 0 && n.net_profit == (
            if gross > amount_in {
                Some(gross - amount_in)
            } else {
                None
            }),
            _ => false,
        },
{
    let g = gas_of(legs, legs.len() as int);
    assert(g * 0 == 0);
    assert(g * 0 * ratio == 0) by (nonlinear_arith);
}

} // verus!
