//! Solidly stable pools (Aerodrome, Velodrome and Thena stable pairs).
//!
//! The invariant is `x^3*y + x*y^3 = k` on balances normalized to 18 decimals. There is no
//! closed form for the output, so the new reserve is found with Newton's method, step by step
//! as the contract does. Every product is 256-bit checked: where the contract would revert, so
//! does the quote.
use crate::amm::aerodrome::{after_fee, lemma_after_fee};
use crate::amm::balancer_math::one18;
use crate::math::mul_div;
use crate::pool::{Pool, Protocol, SimError};
use crate::types::{lemma_u256_range, two256, Address, U256};
use vstd::arithmetic::div_mod::lemma_small_mod;
use vstd::arithmetic::power::pow;
use vstd::prelude::*;

verus! {

/// A stable pair.
#[derive(Clone, Copy, Debug)]
pub struct SolidlyStablePool {
    pub address: Address,
    pub token0: Address,
    pub token1: Address,
    /// Raw reserves in native token units.
    pub reserve0: U256,
    pub reserve1: U256,
    pub decimals0: u8,
    pub decimals1: u8,
    /// Fee in basis points (stable pools are typically 5).
    pub fee_bps: u32,
    /// The two tokens, as [`Pool::tokens`] returns them.
    pub tokens: [Address; 2],
}

/// A number with its value as a mathematical integer.
pub open spec fn option_view(r: Option<U256>) -> Option<int> {
    match r {
        Some(v) => Some(v@),
        None => None,
    }
}

/// `10^dec` in 256-bit arithmetic.
pub open spec fn pow10_value(dec: int) -> int {
    pow(10, dec as nat) % two256()
}

/// `(a * b) / 10^18`, if the product fits.
pub open spec fn mul1e18_value(a: int, b: int) -> Option<int> {
    if a * b >= two256() {
        None
    } else {
        Some((a * b) / one18())
    }
}

/// The invariant `x^3*y + x*y^3` in the contract's order of operations.
pub open spec fn invariant_value(x: int, y: int) -> Option<int> {
    match (mul1e18_value(x, y), mul1e18_value(x, x), mul1e18_value(y, y)) {
        (Some(a), Some(x2), Some(y2)) => if x2 + y2 >= two256() {
            None
        } else {
            mul1e18_value(a, x2 + y2)
        },
        _ => None,
    }
}

/// The derivative of the invariant in `y`.
pub open spec fn derivative_value(x0: int, y: int) -> Option<int> {
    match (mul1e18_value(y, y), mul1e18_value(x0, x0)) {
        (Some(y2), Some(x2)) => {
            let t1 = (3 * x0 * y2) / one18();
            let t2 = (x2 * x0) / one18();
            if 3 * x0 >= two256() || 3 * x0 * y2 >= two256() || x2 * x0 >= two256() || t1 + t2
                >= two256() {
                None
            } else {
                Some(t1 + t2)
            }
        },
        _ => None,
    }
}

/// `x` scaled from `dec` decimals to 18, if the product fits.
pub open spec fn normalized(x: int, dec: int) -> Option<int> {
    if x * one18() >= two256() {
        None
    } else {
        Some((x * one18()) / pow10_value(dec))
    }
}

/// The invariant of two amounts in native units.
pub open spec fn raw_invariant(x: int, y: int, dec0: int, dec1: int) -> Option<int> {
    match (normalized(x, dec0), normalized(y, dec1)) {
        (Some(a), Some(b)) => invariant_value(a, b),
        _ => None,
    }
}

/// What one Newton step does: the root, the next candidate, or a revert.
pub enum Newton {
    Root(int),
    Next(int),
    Revert,
}

/// One Newton step from the candidate `y` toward `invariant(x0, y) == xy`.
pub open spec fn newton_step(x0: int, xy: int, y: int, dec0: int, dec1: int) -> Newton {
    match (invariant_value(x0, y), derivative_value(x0, y)) {
        (Some(k), Some(slope)) => if slope == 0 {
            Newton::Revert
        } else if k < xy {
            if (xy - k) * one18() >= two256() {
                Newton::Revert
            } else {
                let dy = ((xy - k) * one18()) / slope;
                if dy != 0 {
                    if y + dy >= two256() {
                        Newton::Revert
                    } else {
                        Newton::Next(y + dy)
                    }
                } else if y + 1 >= two256() {
                    Newton::Revert
                } else {
                    match raw_invariant(x0, y + 1, dec0, dec1) {
                        None => Newton::Revert,
                        Some(above) => if above > xy {
                            Newton::Root(y + 1)
                        } else {
                            Newton::Next(y + 1)
                        },
                    }
                }
            }
        } else {
            if (k - xy) * one18() >= two256() {
                Newton::Revert
            } else {
                let dy = ((k - xy) * one18()) / slope;
                if dy != 0 {
                    if dy > y {
                        Newton::Revert
                    } else {
                        Newton::Next(y - dy)
                    }
                } else if k == xy {
                    Newton::Root(y)
                } else if y == 0 {
                    Newton::Revert
                } else {
                    match invariant_value(x0, y - 1) {
                        None => Newton::Revert,
                        Some(below) => if below < xy {
                            Newton::Root(y)
                        } else {
                            Newton::Next(y - 1)
                        },
                    }
                }
            }
        },
        _ => Newton::Revert,
    }
}

/// The reserve that solves the invariant, found within `steps` Newton steps from `y`.
pub open spec fn newton_root(x0: int, xy: int, y: int, dec0: int, dec1: int, steps: nat) -> Option<
    int,
>
    decreases steps,
{
    if steps == 0 {
        None
    } else {
        match newton_step(x0, xy, y, dec0, dec1) {
            Newton::Root(root) => Some(root),
            Newton::Next(next) => newton_root(x0, xy, next, dec0, dec1, (steps - 1) as nat),
            Newton::Revert => None,
        }
    }
}

/// Newton steps after which the solve is given up.
pub open spec fn newton_steps() -> nat {
    255
}

/// 10^18.
fn e18() -> (r: U256)
    ensures
        r@ == one18(),
{
    U256::from_u64(1_000_000_000_000_000_000)
}

/// `10^dec` is not a multiple of 2^256 for any `dec` below 256.
pub proof fn lemma_pow10(dec: nat)
    requires
        dec < 256,
    ensures
        pow10_value(dec as int) != 0,
{
    use_pow2_256();
    let p = pow(10, dec);
    let (two_d, five_d) = (pow(2, dec), pow(5, dec));
    let rest = pow(2, (256 - dec) as nat);
    vstd::arithmetic::power::lemma_pow_distributes(2, 5, dec);
    vstd::arithmetic::power::lemma_pow_adds(2, dec, (256 - dec) as nat);
    vstd::arithmetic::power::lemma_pow_positive(2, dec);
    lemma_odd_power(dec);
    if p % two256() == 0 {
        let q = p / two256();
        vstd::arithmetic::div_mod::lemma_fundamental_div_mod(p, two256());
        // two_d * five_d == two_d * rest * q, so five_d == rest * q.
        assert(two_d * five_d == two_d * (rest * q)) by (nonlinear_arith)
            requires
                two_d * five_d == p,
                p == two256() * q,
                two256() == two_d * rest,
        ;
        assert(five_d == rest * q) by (nonlinear_arith)
            requires
                two_d * five_d == two_d * (rest * q),
                two_d > 0,
        ;
        vstd::arithmetic::power::lemma_pow_adds(2, 1, (255 - dec) as nat);
        vstd::arithmetic::power::lemma_pow1(2);
        let half = pow(2, (255 - dec) as nat);
        assert(five_d == 2 * (half * q)) by (nonlinear_arith)
            requires
                five_d == rest * q,
                rest == 2 * half,
        ;
    }
}

/// 2^256 as a power of two.
proof fn use_pow2_256()
    ensures
        pow(2, 256) == two256(),
{
    vstd::arithmetic::power2::lemma2_to64();
    vstd::arithmetic::power2::lemma_pow2(64);
    assert(pow(2, 64) == 0x1_0000_0000_0000_0000);
    vstd::arithmetic::power::lemma_pow_adds(2, 64, 64);
    assert(pow(2, 128) == pow(2, 64) * pow(2, 64));
    assert(pow(2, 128) == 0x1_0000_0000_0000_0000int * 0x1_0000_0000_0000_0000int);
    vstd::arithmetic::power::lemma_pow_adds(2, 128, 128);
}

/// A power of five is odd.
proof fn lemma_odd_power(e: nat)
    ensures
        pow(5, e) % 2 == 1,
    decreases e,
{
    reveal(pow);
    if e > 0 {
        lemma_odd_power((e - 1) as nat);
    }
}

/// `10^dec` in 256-bit arithmetic; never zero.
fn pow10(dec: u8) -> (r: U256)
    ensures
        r@ == pow10_value(dec as int),
        r@ != 0,
{
    proof {
        lemma_pow10(dec as nat);
    }
    U256::from_u64(10).wrapping_pow(U256::from_u64(dec as u64))
}

impl SolidlyStablePool {
    /// A stable pair over `token0` and `token1`.
    pub fn new(
        address: Address,
        token0: Address,
        token1: Address,
        reserve0: U256,
        reserve1: U256,
        decimals0: u8,
        decimals1: u8,
        fee_bps: u32,
    ) -> (r: SolidlyStablePool)
        ensures
            r.address == address,
            r.token0 == token0,
            r.token1 == token1,
            r.reserve0 == reserve0,
            r.reserve1 == reserve1,
            r.decimals0 == decimals0,
            r.decimals1 == decimals1,
            r.fee_bps == fee_bps,
            r.tokens@ == seq![token0, token1],
    {
        SolidlyStablePool {
            address,
            token0,
            token1,
            reserve0,
            reserve1,
            decimals0,
            decimals1,
            fee_bps,
            tokens: [token0, token1],
        }
    }

    /// `(a * b) / 10^18` with a 256-bit multiply: `None` exactly where the contract overflows.
    pub fn mul1e18(a: U256, b: U256) -> (r: Option<U256>)
        ensures
            option_view(r) == mul1e18_value(a@, b@),
    {
        broadcast use lemma_u256_range;

        Some(a.checked_mul(b)?.div_floor(e18()))
    }

    /// The invariant `x^3*y + x*y^3` on values normalized to 18 decimals.
    pub fn f(x: U256, y: U256) -> (r: Option<U256>)
        ensures
            option_view(r) == invariant_value(x@, y@),
    {
        broadcast use lemma_u256_range;

        let a = Self::mul1e18(x, y)?;
        let b = Self::mul1e18(x, x)?.checked_add(Self::mul1e18(y, y)?)?;
        Self::mul1e18(a, b)
    }

    /// The derivative of the invariant in `y`.
    pub fn d(x0: U256, y: U256) -> (r: Option<U256>)
        ensures
            option_view(r) == derivative_value(x0@, y@),
    {
        broadcast use lemma_u256_range;

        let y2 = Self::mul1e18(y, y)?;
        let t1 = U256::from_u64(3).checked_mul(x0)?.checked_mul(y2)?.div_floor(e18());
        let x2 = Self::mul1e18(x0, x0)?;
        let t2 = x2.checked_mul(x0)?.div_floor(e18());
        t1.checked_add(t2)
    }

    /// The invariant with both arguments rescaled by the pool's decimals, as the contract does
    /// even for arguments that are already normalized.
    pub fn k_rescaled(&self, x: U256, y: U256) -> (r: Option<U256>)
        ensures
            option_view(r) == raw_invariant(
                x@,
                y@,
                self.decimals0 as int,
                self.decimals1 as int,
            ),
    {
        broadcast use lemma_u256_range;

        let a = x.checked_mul(e18())?.div_floor(pow10(self.decimals0));
        let b = y.checked_mul(e18())?.div_floor(pow10(self.decimals1));
        Self::f(a, b)
    }

    /// The contract's Newton solve, with its rounding and its revert after 255 steps.
    pub fn get_y(&self, x0: U256, xy: U256, start: U256) -> (r: Option<U256>)
        ensures
            option_view(r) == newton_root(
                x0@,
                xy@,
                start@,
                self.decimals0 as int,
                self.decimals1 as int,
                newton_steps(),
            ),
    {
        broadcast use lemma_u256_range;

        let one = U256::one();
        let mut y = start;
        let mut i: u32 = 0;
        let ghost (d0, d1) = (self.decimals0 as int, self.decimals1 as int);
        while i < 255
            invariant
                i <= 255,
                one@ == 1,
                d0 == self.decimals0,
                d1 == self.decimals1,
                newton_root(x0@, xy@, y@, d0, d1, (255 - i) as nat) == newton_root(
                    x0@,
                    xy@,
                    start@,
                    d0,
                    d1,
                    newton_steps(),
                ),
            decreases 255 - i,
        {
            broadcast use lemma_u256_range;

            let k = Self::f(x0, y)?;
            let dd = Self::d(x0, y)?;
            if dd.is_zero() {
                return None;
            }
            if k < xy {
                proof {
                    lemma_small_mod((xy@ - k@) as nat, two256() as nat);
                }
                let dy = xy.wrapping_sub(k).checked_mul(e18())?.div_floor(dd);
                if dy.is_zero() {
                    let above = y.checked_add(one)?;
                    if self.k_rescaled(x0, above)? > xy {
                        return Some(above);
                    }
                    y = above;
                } else {
                    y = y.checked_add(dy)?;
                }
            } else {
                proof {
                    lemma_small_mod((k@ - xy@) as nat, two256() as nat);
                }
                let dy = k.wrapping_sub(xy).checked_mul(e18())?.div_floor(dd);
                if dy.is_zero() {
                    if k.equals(&xy) {
                        return Some(y);
                    }
                    let below = y.checked_sub(one)?;
                    if Self::f(x0, below)? < xy {
                        return Some(y);
                    }
                    y = below;
                } else {
                    y = y.checked_sub(dy)?;
                }
            }
            i += 1;
        }
        None
    }

    /// The quote in one direction.
    pub open spec fn quote_directed(&self, amount_in: int, from_token0: bool) -> Result<
        int,
        SimError,
    > {
        let (d0, d1) = (self.decimals0 as int, self.decimals1 as int);
        let dec_in = if from_token0 {
            d0
        } else {
            d1
        };
        let dec_out = if from_token0 {
            d1
        } else {
            d0
        };
        let kept = after_fee(amount_in, self.fee_bps as int);
        match (
            normalized(self.reserve0@, d0),
            normalized(self.reserve1@, d1),
            normalized(kept, dec_in),
        ) {
            (Some(rx), Some(ry), Some(paid)) => {
                let reserve_in = if from_token0 {
                    rx
                } else {
                    ry
                };
                let reserve_out = if from_token0 {
                    ry
                } else {
                    rx
                };
                match invariant_value(rx, ry) {
                    None => Err(SimError::Overflow),
                    Some(xy) => if paid + reserve_in >= two256() {
                        Err(SimError::Overflow)
                    } else {
                        match newton_root(
                            paid + reserve_in,
                            xy,
                            reserve_out,
                            d0,
                            d1,
                            newton_steps(),
                        ) {
                            None => Err(SimError::Overflow),
                            Some(root) => if root > reserve_out {
                                Err(SimError::InsufficientLiquidity)
                            } else if (reserve_out - root) * pow10_value(dec_out) >= two256() {
                                Err(SimError::Overflow)
                            } else {
                                Ok(((reserve_out - root) * pow10_value(dec_out)) / one18())
                            },
                        }
                    },
                }
            },
            _ => Err(SimError::Overflow),
        }
    }
}

impl Pool for SolidlyStablePool {
    open spec fn wf(&self) -> bool {
        true
    }

    open spec fn spec_address(&self) -> Address {
        self.address
    }

    open spec fn spec_protocol(&self) -> Protocol {
        Protocol::SolidlyStable
    }

    open spec fn spec_tokens(&self) -> Seq<Address> {
        self.tokens@
    }

    open spec fn spec_quote(
        &self,
        token_in: Address,
        token_out: Address,
        amount_in: int,
    ) -> Result<int, SimError> {
        if token_in == token_out {
            Err(SimError::SameToken)
        } else if amount_in == 0 {
            Err(SimError::ZeroAmount)
        } else if self.fee_bps >= 10_000 {
            Err(SimError::BadConfig("fee_bps >= 100%"))
        } else if token_in != self.token0 && token_in != self.token1 {
            Err(SimError::UnknownToken(token_in))
        } else if token_out != self.token0 && token_out != self.token1 {
            Err(SimError::UnknownToken(token_out))
        } else if self.reserve0@ == 0 || self.reserve1@ == 0 {
            Err(SimError::InsufficientLiquidity)
        } else {
            self.quote_directed(amount_in, token_in == self.token0 && token_out == self.token1)
        }
    }

    open spec fn spec_gas(&self) -> int {
        120_000
    }

    fn address(&self) -> (r: Address) {
        self.address
    }

    fn protocol(&self) -> (r: Protocol) {
        Protocol::SolidlyStable
    }

    fn tokens(&self) -> (r: &[Address]) {
        vstd::array::array_as_slice(&self.tokens)
    }

    fn quote(&self, token_in: Address, token_out: Address, amount_in: U256) -> (r: Result<
        U256,
        SimError,
    >) {
        broadcast use lemma_u256_range;

        if token_in == token_out {
            return Err(SimError::SameToken);
        }
        if amount_in.is_zero() {
            return Err(SimError::ZeroAmount);
        }
        if self.fee_bps >= 10_000 {
            return Err(SimError::BadConfig("fee_bps >= 100%"));
        }
        let from_token0 = if token_in == self.token0 && token_out == self.token1 {
            true
        } else if token_in == self.token1 && token_out == self.token0 {
            false
        } else if token_in != self.token0 && token_in != self.token1 {
            return Err(SimError::UnknownToken(token_in));
        } else {
            return Err(SimError::UnknownToken(token_out));
        };
        if self.reserve0.is_zero() || self.reserve1.is_zero() {
            return Err(SimError::InsufficientLiquidity);
        }
        let d0 = pow10(self.decimals0);
        let d1 = pow10(self.decimals1);
        proof {
            lemma_after_fee(amount_in@, self.fee_bps as int);
        }
        let fee = mul_div(
            amount_in,
            U256::from_u64(self.fee_bps as u64),
            U256::from_u64(10_000),
        ).ok_or(SimError::Overflow)?;
        proof {
            lemma_small_mod((amount_in@ - fee@) as nat, two256() as nat);
        }
        let kept = amount_in.wrapping_sub(fee);
        let rx = self.reserve0.checked_mul(e18()).ok_or(SimError::Overflow)?.div_floor(d0);
        let ry = self.reserve1.checked_mul(e18()).ok_or(SimError::Overflow)?.div_floor(d1);
        let xy = Self::f(rx, ry).ok_or(SimError::Overflow)?;
        let (reserve_a, reserve_b) = if from_token0 {
            (rx, ry)
        } else {
            (ry, rx)
        };
        let amt_in = if from_token0 {
            kept.checked_mul(e18()).ok_or(SimError::Overflow)?.div_floor(d0)
        } else {
            kept.checked_mul(e18()).ok_or(SimError::Overflow)?.div_floor(d1)
        };
        let x0 = amt_in.checked_add(reserve_a).ok_or(SimError::Overflow)?;
        let new_y = self.get_y(x0, xy, reserve_b).ok_or(SimError::Overflow)?;
        let y = reserve_b.checked_sub(new_y).ok_or(SimError::InsufficientLiquidity)?;
        let dec_out_factor = if from_token0 {
            d1
        } else {
            d0
        };
        Ok(y.checked_mul(dec_out_factor).ok_or(SimError::Overflow)?.div_floor(e18()))
    }

    fn gas_estimate(&self) -> (r: u64) {
        120_000
    }
}

/// With 18-decimal tokens the rescaled invariant is the invariant.
pub proof fn lemma_rescale_18(x: int)
    requires
        0 <= x,
    ensures
        normalized(x, 18) matches Some(v) ==> v == x,
{
    assert(pow(10, 18) == one18()) by {
        reveal_with_fuel(vstd::arithmetic::power::pow, 19);
    }
    lemma_small_mod(one18() as nat, two256() as nat);
    vstd::arithmetic::div_mod::lemma_div_by_multiple(x, one18());
}

/// A stable swap between 18-decimal tokens never lowers the invariant: at the reserve that the
/// solve returns, the invariant is at least what it was.
pub proof fn stable_swap_keeps_the_invariant(x0: int, xy: int, start: int, steps: nat)
    requires
        0 <= x0,
        0 <= start,
    ensures
        newton_root(x0, xy, start, 18, 18, steps) matches Some(root) ==> root >= 0 && (
        invariant_value(x0, root) matches Some(k) && k >= xy),
    decreases steps,
{
    if steps > 0 {
        lemma_rescale_18(x0);
        lemma_rescale_18(start + 1);
        match newton_step(x0, xy, start, 18, 18) {
            Newton::Next(next) => {
                if let (Some(k), Some(slope)) = (
                    invariant_value(x0, start),
                    derivative_value(x0, start),
                ) {
                    assert(next >= 0) by {
                        if k < xy {
                            lemma_step_up(xy - k, slope, x0, start);
                        }
                    }
                }
                stable_swap_keeps_the_invariant(x0, xy, next, (steps - 1) as nat);
            },
            _ => {},
        }
    }
}

/// The upward Newton step is not negative.
pub proof fn lemma_step_up(gap: int, slope: int, x0: int, y: int)
    requires
        gap > 0,
        0 <= x0,
        0 <= y,
        derivative_value(x0, y) == Some(slope),
        slope != 0,
    ensures
        (gap * one18()) / slope >= 0,
{
    assert(slope > 0) by {
        let y2 = (y * y) / one18();
        let x2 = (x0 * x0) / one18();
        assert(y * y >= 0 && x0 * x0 >= 0) by (nonlinear_arith);
        assert(3 * x0 * y2 >= 0 && x2 * x0 >= 0) by (nonlinear_arith)
            requires
                x0 >= 0,
                y2 >= 0,
                x2 >= 0,
        ;
    }
    assert((gap * one18()) / slope >= 0) by (nonlinear_arith)
        requires
            gap > 0,
            slope > 0,
    ;
}

} // verus!
