//! Curve StableSwap plain pools.
//!
//! The `get_dy` path: compute the invariant `D` for the current balances, then solve for the new
//! balance `y` of the output coin, both by Newton's method. Balances are held in a common
//! 18-decimal precision through per-coin rate multipliers.
use crate::amm::balancer_math::one18;
use crate::amm::solidly::option_view;
use crate::math::mul_div;
use crate::pool::{index_of_token, is_first_place, token_place, Pool, Protocol, SimError};
use crate::types::{lemma_u256_range, two256, Address, U256};
use vstd::arithmetic::div_mod::lemma_small_mod;
use vstd::prelude::*;

verus! {

/// A StableSwap pool.
#[derive(Clone, Debug)]
pub struct CurveStablePool {
    pub address: Address,
    /// Coin addresses, in pool index order.
    pub coins: Vec<Address>,
    /// Balances in native units, in coin order.
    pub balances: Vec<U256>,
    /// Rate multipliers that bring each coin to 18-decimal precision.
    pub rates: Vec<U256>,
    /// Amplification coefficient.
    pub a: U256,
    /// Fee in basis points, applied to the output.
    pub fee_bps: u32,
}

/// The integers that a sequence of numbers stands for.
pub open spec fn ints(s: Seq<U256>) -> Seq<int> {
    s.map_values(|x: U256| x@)
}

/// `x` if it fits in 256 bits.
pub open spec fn fit(x: int) -> Option<int> {
    if x >= two256() {
        None
    } else {
        Some(x)
    }
}

/// `floor(a * b / d)` if `d` is not zero and the quotient fits.
pub open spec fn mul_div_value(a: int, b: int, d: int) -> Option<int> {
    if d == 0 {
        None
    } else {
        fit((a * b) / d)
    }
}

/// The sum of the first `k` numbers.
pub open spec fn partial_sum(xp: Seq<int>, k: int) -> int
    decreases k,
{
    if k <= 0 {
        0
    } else {
        partial_sum(xp, k - 1) + xp[k - 1]
    }
}

/// `d` times `d / (x * n)` for each of the first `k` balances.
pub open spec fn d_product(xp: Seq<int>, d: int, k: int) -> Option<int>
    decreases k,
{
    if k <= 0 {
        Some(d)
    } else {
        match d_product(xp, d, k - 1) {
            None => None,
            Some(p) => {
                let below = xp[k - 1] * xp.len();
                if below >= two256() {
                    None
                } else {
                    mul_div_value(p, d, below)
                }
            },
        }
    }
}

/// One Newton step of the invariant.
pub open spec fn d_step(xp: Seq<int>, ann: int, d: int) -> Option<int> {
    let n = xp.len() as int;
    match d_product(xp, d, n) {
        None => None,
        Some(p) => {
            let top = ann * partial_sum(xp, n) + p * n;
            let bottom = (ann - 1) * d + p * (n + 1);
            if ann == 0 || ann * partial_sum(xp, n) >= two256() || p * n >= two256() || top
                >= two256() || (ann - 1) * d >= two256() || p * (n + 1) >= two256() || bottom
                >= two256() {
                None
            } else {
                mul_div_value(top, d, bottom)
            }
        },
    }
}

/// Whether two iterates differ by at most one.
pub open spec fn close(a: int, b: int) -> bool {
    -1 <= a - b <= 1
}

/// The invariant, iterated from `d` for at most `steps` steps.
pub open spec fn d_iterate(xp: Seq<int>, ann: int, d: int, steps: nat) -> Option<int>
    decreases steps,
{
    if steps == 0 {
        Some(d)
    } else {
        match d_step(xp, ann, d) {
            None => None,
            Some(next) => if close(next, d) {
                Some(next)
            } else {
                d_iterate(xp, ann, next, (steps - 1) as nat)
            },
        }
    }
}

/// The StableSwap invariant `D` of the balances `xp`.
pub open spec fn invariant_d(xp: Seq<int>, a: int) -> Option<int> {
    let n = xp.len() as int;
    let s = partial_sum(xp, n);
    if s >= two256() {
        None
    } else if s == 0 {
        Some(0)
    } else if a * n >= two256() {
        None
    } else {
        d_iterate(xp, a * n, s, 255)
    }
}

/// The balance of coin `k` when coin `i` is set to `x`.
pub open spec fn balance_with(xp: Seq<int>, i: int, x: int, k: int) -> int {
    if k == i {
        x
    } else {
        xp[k]
    }
}

/// The sum of the first `k` balances but coin `j`'s, and `c` taken over them.
pub open spec fn y_terms(xp: Seq<int>, i: int, j: int, x: int, d: int, k: int) -> Option<(int, int)>
    decreases k,
{
    if k <= 0 {
        Some((0int, d))
    } else {
        match y_terms(xp, i, j, x, d, k - 1) {
            None => None,
            Some((s, c)) => if k - 1 != i && k - 1 == j {
                Some((s, c))
            } else {
                let b = balance_with(xp, i, x, k - 1);
                if s + b >= two256() || b * xp.len() >= two256() {
                    None
                } else {
                    match mul_div_value(c, d, b * xp.len()) {
                        None => None,
                        Some(next) => Some((s + b, next)),
                    }
                }
            },
        }
    }
}

/// One Newton step of the new balance.
pub open spec fn y_step(b: int, c: int, d: int, y: int) -> Option<int> {
    let bottom = y * 2 + b - d;
    if y * y >= two256() || y * y + c >= two256() || y * 2 >= two256() || y * 2 + b >= two256()
        || bottom <= 0 {
        None
    } else {
        Some((y * y + c) / bottom)
    }
}

/// The new balance, iterated from `y` for at most `steps` steps.
pub open spec fn y_iterate(b: int, c: int, d: int, y: int, steps: nat) -> Option<int>
    decreases steps,
{
    if steps == 0 {
        Some(y)
    } else {
        match y_step(b, c, d, y) {
            None => None,
            Some(next) => if close(next, y) {
                Some(next)
            } else {
                y_iterate(b, c, d, next, (steps - 1) as nat)
            },
        }
    }
}

/// The balance of coin `j` that keeps the invariant when coin `i` is set to `x`.
pub open spec fn new_balance(i: int, j: int, x: int, xp: Seq<int>, a: int) -> Option<int> {
    let n = xp.len() as int;
    match invariant_d(xp, a) {
        None => None,
        Some(d) => {
            let ann = a * n;
            match y_terms(xp, i, j, x, d, n) {
                None => None,
                Some((s, c0)) => if ann >= two256() || ann * n >= two256() || ann == 0 {
                    None
                } else {
                    match mul_div_value(c0, d, ann * n) {
                        None => None,
                        Some(c) => if s + d / ann >= two256() {
                            None
                        } else {
                            y_iterate(s + d / ann, c, d, d, 255)
                        },
                    }
                },
            }
        },
    }
}

/// The first `k` balances scaled by their rates, 18 decimals.
pub open spec fn scaled_balances(balances: Seq<U256>, rates: Seq<U256>, k: int) -> Option<Seq<int>>
    decreases k,
{
    if k <= 0 {
        Some(Seq::empty())
    } else {
        match (
            scaled_balances(balances, rates, k - 1),
            fit((rates[k - 1]@ * balances[k - 1]@) / one18()),
        ) {
            (Some(rest), Some(x)) => Some(rest.push(x)),
            _ => None,
        }
    }
}

/// Partial sums of numbers that are not negative grow.
proof fn lemma_partial_sum_grows(xp: Seq<int>, k: int)
    requires
        0 <= k <= xp.len(),
        forall|i: int| 0 <= i < xp.len() ==> #[trigger] xp[i] >= 0,
    ensures
        0 <= partial_sum(xp, k) <= partial_sum(xp, xp.len() as int),
    decreases xp.len() - k,
{
    lemma_partial_sum_nonnegative(xp, k);
    if k < xp.len() {
        lemma_partial_sum_grows(xp, k + 1);
    }
}

pub proof fn lemma_partial_sum_nonnegative(xp: Seq<int>, k: int)
    requires
        0 <= k <= xp.len(),
        forall|i: int| 0 <= i < xp.len() ==> #[trigger] xp[i] >= 0,
    ensures
        0 <= partial_sum(xp, k),
    decreases k,
{
    if k > 0 {
        lemma_partial_sum_nonnegative(xp, k - 1);
    }
}

/// A revert in an earlier factor stays a revert.
proof fn lemma_d_product_none(xp: Seq<int>, d: int, k: int, n: int)
    requires
        0 <= k <= n,
        d_product(xp, d, k) is None,
    ensures
        d_product(xp, d, n) is None,
    decreases n - k,
{
    if k < n {
        lemma_d_product_none(xp, d, k + 1, n);
    }
}

/// A revert in an earlier term stays a revert.
proof fn lemma_y_terms_none(xp: Seq<int>, i: int, j: int, x: int, d: int, k: int, n: int)
    requires
        0 <= k <= n,
        y_terms(xp, i, j, x, d, k) is None,
    ensures
        y_terms(xp, i, j, x, d, n) is None,
    decreases n - k,
{
    if k < n {
        lemma_y_terms_none(xp, i, j, x, d, k + 1, n);
    }
}

/// A balance that does not fit makes all of them not fit.
proof fn lemma_scaled_none(balances: Seq<U256>, rates: Seq<U256>, k: int, n: int)
    requires
        0 <= k <= n,
        scaled_balances(balances, rates, k) is None,
    ensures
        scaled_balances(balances, rates, n) is None,
    decreases n - k,
{
    if k < n {
        lemma_scaled_none(balances, rates, k + 1, n);
    }
}

impl CurveStablePool {
    /// A pool over `coins`.
    pub fn new(
        address: Address,
        coins: Vec<Address>,
        balances: Vec<U256>,
        rates: Vec<U256>,
        a: U256,
        fee_bps: u32,
    ) -> (r: CurveStablePool)
        ensures
            r == (CurveStablePool { address, coins, balances, rates, a, fee_bps }),
    {
        CurveStablePool { address, coins, balances, rates, a, fee_bps }
    }

    /// The balances in the common 18-decimal precision.
    pub fn xp(&self) -> (r: Option<Vec<U256>>)
        requires
            self.balances@.len() == self.rates@.len(),
        ensures
            match r {
                Some(v) => scaled_balances(
                    self.balances@,
                    self.rates@,
                    self.balances@.len() as int,
                ) == Some(ints(v@)) && v@.len() == self.balances@.len(),
                None => scaled_balances(
                    self.balances@,
                    self.rates@,
                    self.balances@.len() as int,
                ) is None,
            },
    {
        let mut out: Vec<U256> = Vec::new();
        let mut k: usize = 0;
        let n: usize = self.balances.len();
        let ghost (bs, rs) = (self.balances@, self.rates@);
        while k < n
            invariant
                k <= n,
                n == bs.len(),
                n == rs.len(),
                bs == self.balances@,
                rs == self.rates@,
                out@.len() == k,
                scaled_balances(bs, rs, k as int) == Some(ints(out@)),
            decreases n - k,
        {
            match mul_div(
                self.rates[k],
                self.balances[k],
                U256::from_u64(1_000_000_000_000_000_000),
            ) {
                Some(x) => {
                    broadcast use lemma_u256_range;

                    let ghost before = ints(out@);
                    out.push(x);
                    assert(ints(out@) =~= before.push(x@));
                },
                None => {
                    proof {
                        lemma_scaled_none(bs, rs, k + 1, n as int);
                    }
                    return None;
                },
            }
            k += 1;
        }
        Some(out)
    }

    /// The sum of the balances, if it fits.
    fn sum_of(xp: &[U256]) -> (r: Option<U256>)
        ensures
            option_view(r) == fit(partial_sum(ints(xp@), xp@.len() as int)),
    {
        let mut s = U256::zero();
        let mut k: usize = 0;
        let ghost v = ints(xp@);
        proof {
            broadcast use lemma_u256_range;

            assert forall|i: int| 0 <= i < v.len() implies #[trigger] v[i] >= 0 by {
                assert(v[i] == xp@[i]@);
            }
        }
        while k < xp.len()
            invariant
                k <= xp@.len(),
                v == ints(xp@),
                forall|i: int| 0 <= i < v.len() ==> #[trigger] v[i] >= 0,
                s@ == partial_sum(v, k as int),
            decreases xp@.len() - k,
        {
            broadcast use lemma_u256_range;

            proof {
                lemma_partial_sum_grows(v, k + 1);
            }
            s = s.checked_add(xp[k])?;
            k += 1;
        }
        proof {
            broadcast use lemma_u256_range;

        }
        Some(s)
    }

    /// `d` times `d / (x * n)` for each balance.
    fn d_product_of(xp: &[U256], d: U256, n: U256) -> (r: Option<U256>)
        requires
            n@ == xp@.len(),
        ensures
            option_view(r) == d_product(ints(xp@), d@, xp@.len() as int),
    {
        let mut d_p = d;
        let mut k: usize = 0;
        let ghost v = ints(xp@);
        while k < xp.len()
            invariant
                k <= xp@.len(),
                v == ints(xp@),
                n@ == xp@.len(),
                d_product(v, d@, k as int) == Some(d_p@),
            decreases xp@.len() - k,
        {
            broadcast use lemma_u256_range;

            assert(v[k as int] == xp@[k as int]@);
            proof {
                if d_product(v, d@, k + 1) is None {
                    lemma_d_product_none(v, d@, k + 1, xp@.len() as int);
                }
            }
            let denom = xp[k].checked_mul(n)?;
            if denom.is_zero() {
                return None;
            }
            d_p = mul_div(d_p, d, denom)?;
            k += 1;
        }
        Some(d_p)
    }

    /// Whether two iterates differ by at most one.
    fn within_one(a: U256, b: U256) -> (r: bool)
        ensures
            r == close(a@, b@),
    {
        broadcast use lemma_u256_range;

        proof {
            if a@ > b@ {
                lemma_small_mod((a@ - b@) as nat, two256() as nat);
            } else {
                lemma_small_mod((b@ - a@) as nat, two256() as nat);
            }
        }
        if a > b {
            a.wrapping_sub(b) <= U256::one()
        } else {
            b.wrapping_sub(a) <= U256::one()
        }
    }

    /// The invariant `D` by Newton's method.
    pub fn get_d(xp: &[U256], a: U256) -> (r: Option<U256>)
        ensures
            option_view(r) == invariant_d(ints(xp@), a@),
    {
        broadcast use lemma_u256_range;

        let n = U256::from_u64(xp.len() as u64);
        let s = Self::sum_of(xp)?;
        if s.is_zero() {
            return Some(U256::zero());
        }
        let ann = a.checked_mul(n)?;
        let one = U256::one();
        let mut d = s;
        let mut i: u32 = 0;
        let ghost v = ints(xp@);
        let ghost whole = d_iterate(v, ann@, s@, 255);
        while i < 255
            invariant
                i <= 255,
                v == ints(xp@),
                n@ == xp@.len(),
                xp@.len() <= u64::MAX,
                one@ == 1,
                s@ == partial_sum(v, xp@.len() as int),
                invariant_d(v, a@) == whole,
                d_iterate(v, ann@, d@, (255 - i) as nat) == whole,
            decreases 255 - i,
        {
            broadcast use lemma_u256_range;

            let d_p = Self::d_product_of(xp, d, n)?;
            let d_prev = d;
            let num = ann.checked_mul(s)?.checked_add(d_p.checked_mul(n)?)?;
            proof {
                lemma_small_mod((n@ + 1) as nat, two256() as nat);
                assert(ann@ * s@ >= 0 && d_p@ * n@ >= 0 && d_p@ * (n@ + 1) >= 0)
                    by (nonlinear_arith)
                    requires
                        ann@ >= 0,
                        s@ >= 0,
                        d_p@ >= 0,
                        n@ >= 0,
                ;
            }
            let denom = ann.checked_sub(one)?.checked_mul(d)?.checked_add(
                d_p.checked_mul(n.wrapping_add(one))?,
            )?;
            d = mul_div(num, d, denom)?;
            if Self::within_one(d, d_prev) {
                return Some(d);
            }
            i += 1;
        }
        Some(d)
    }

    /// The sum of the balances but coin `j`'s, and `c` taken over them, with coin `i` set to `x`.
    fn terms_of(i: usize, j: usize, x: U256, xp: &[U256], d: U256, n: U256) -> (r: Option<
        (U256, U256),
    >)
        requires
            n@ == xp@.len(),
        ensures
            (match r {
                Some((s, c)) => Some((s@, c@)),
                None => None,
            }) == y_terms(ints(xp@), i as int, j as int, x@, d@, xp@.len() as int),
    {
        let mut c = d;
        let mut s = U256::zero();
        let mut k: usize = 0;
        let ghost v = ints(xp@);
        while k < xp.len()
            invariant
                k <= xp@.len(),
                v == ints(xp@),
                n@ == xp@.len(),
                y_terms(v, i as int, j as int, x@, d@, k as int) == Some((s@, c@)),
            decreases xp@.len() - k,
        {
            broadcast use lemma_u256_range;

            assert(v[k as int] == xp@[k as int]@);
            proof {
                if y_terms(v, i as int, j as int, x@, d@, k + 1) is None {
                    lemma_y_terms_none(
                        v,
                        i as int,
                        j as int,
                        x@,
                        d@,
                        k + 1,
                        xp@.len() as int,
                    );
                }
            }
            if k == i || k != j {
                let x_k = if k == i {
                    x
                } else {
                    xp[k]
                };
                s = s.checked_add(x_k)?;
                c = mul_div(c, d, x_k.checked_mul(n)?)?;
            }
            k += 1;
        }
        Some((s, c))
    }

    /// The new balance of coin `j` given coin `i` set to `x`.
    pub fn get_y(i: usize, j: usize, x: U256, xp: &[U256], a: U256) -> (r: Option<U256>)
        ensures
            option_view(r) == new_balance(i as int, j as int, x@, ints(xp@), a@),
    {
        broadcast use lemma_u256_range;

        let n = U256::from_u64(xp.len() as u64);
        let d = Self::get_d(xp, a)?;
        let ann = a.checked_mul(n)?;
        let (s, c0) = Self::terms_of(i, j, x, xp, d, n)?;
        proof {
            assert(ann@ == 0 ==> ann@ * n@ == 0);
        }
        let c = mul_div(c0, d, ann.checked_mul(n)?)?;
        if ann.is_zero() {
            return None;
        }
        let b = s.checked_add(d.div_floor(ann))?;
        let mut y = d;
        let mut k: u32 = 0;
        let ghost whole = y_iterate(b@, c@, d@, d@, 255);
        while k < 255
            invariant
                k <= 255,
                new_balance(i as int, j as int, x@, ints(xp@), a@) == whole,
                y_iterate(b@, c@, d@, y@, (255 - k) as nat) == whole,
            decreases 255 - k,
        {
            broadcast use lemma_u256_range;

            let y_prev = y;
            let num = mul_div(y, y, U256::one())?.checked_add(c)?;
            let denom = y.checked_mul(U256::from_u64(2))?.checked_add(b)?.checked_sub(d)?;
            if denom.is_zero() {
                return None;
            }
            y = num.div_floor(denom);
            if Self::within_one(y, y_prev) {
                return Some(y);
            }
            k += 1;
        }
        Some(y)
    }

    /// Where `token` stands in the pool.
    pub fn index_of(&self, token: Address) -> (r: Option<usize>)
        ensures
            match r {
                Some(i) => token_place(self.coins@, token) == Some(i as int) && i
                    < self.coins@.len(),
                None => token_place(self.coins@, token) is None,
            },
    {
        index_of_token(&self.coins, token)
    }

    /// The quote between the coins at `i` and `j`, from the scaled balances `xp`.
    pub open spec fn quote_between(&self, i: int, j: int, xp: Seq<int>, amount_in: int) -> Result<
        int,
        SimError,
    > {
        let paid = (amount_in * self.rates@[i]@) / one18();
        if paid >= two256() || xp[i] + paid >= two256() {
            Err(SimError::Overflow)
        } else {
            match new_balance(i, j, xp[i] + paid, xp, self.a@) {
                None => Err(SimError::Overflow),
                Some(y) => if xp[j] < y + 1 {
                    Err(SimError::InsufficientLiquidity)
                } else {
                    let dy = xp[j] - y - 1;
                    let fee = (dy * self.fee_bps) / 10_000;
                    if fee >= two256() {
                        Err(SimError::Overflow)
                    } else {
                        match mul_div_value((dy - fee) % two256(), one18(), self.rates@[j]@) {
                            None => Err(SimError::Overflow),
                            Some(out) => Ok(out),
                        }
                    }
                },
            }
        }
    }
}

impl Pool for CurveStablePool {
    open spec fn wf(&self) -> bool {
        true
    }

    open spec fn spec_address(&self) -> Address {
        self.address
    }

    open spec fn spec_protocol(&self) -> Protocol {
        Protocol::CurveStable
    }

    open spec fn spec_tokens(&self) -> Seq<Address> {
        self.coins@
    }

    open spec fn spec_quote(
        &self,
        token_in: Address,
        token_out: Address,
        amount_in: int,
    ) -> Result<int, SimError> {
        let n = self.coins@.len();
        if token_in == token_out {
            Err(SimError::SameToken)
        } else if amount_in == 0 {
            Err(SimError::ZeroAmount)
        } else if self.balances@.len() != n || self.rates@.len() != n {
            Err(SimError::BadConfig("coins/balances/rates length mismatch"))
        } else {
            match (token_place(self.coins@, token_in), token_place(self.coins@, token_out)) {
                (None, _) => Err(SimError::UnknownToken(token_in)),
                (_, None) => Err(SimError::UnknownToken(token_out)),
                (Some(i), Some(j)) => match scaled_balances(
                    self.balances@,
                    self.rates@,
                    n as int,
                ) {
                    None => Err(SimError::Overflow),
                    Some(xp) => self.quote_between(i, j, xp, amount_in),
                },
            }
        }
    }

    open spec fn spec_gas(&self) -> int {
        150_000
    }

    fn address(&self) -> (r: Address) {
        self.address
    }

    fn protocol(&self) -> (r: Protocol) {
        Protocol::CurveStable
    }

    fn tokens(&self) -> (r: &[Address]) {
        self.coins.as_slice()
    }

    fn quote(&self, token_in: Address, token_out: Address, amount_in: U256) -> (r: Result<
        U256,
        SimError,
    >) {
        broadcast use lemma_u256_range;

        if token_in == token_out {
            return Err(SimError::SameToken);
        }
        if amount_in.is_zero() {
            return Err(SimError::ZeroAmount);
        }
        if self.coins.len() != self.balances.len() || self.coins.len() != self.rates.len() {
            return Err(SimError::BadConfig("coins/balances/rates length mismatch"));
        }
        let i: usize = self.index_of(token_in).ok_or(SimError::UnknownToken(token_in))?;
        let j: usize = self.index_of(token_out).ok_or(SimError::UnknownToken(token_out))?;
        let xp = self.xp().ok_or(SimError::Overflow)?;
        assert(ints(xp@)[i as int] == xp@[i as int]@);
        assert(ints(xp@)[j as int] == xp@[j as int]@);
        let one = U256::from_u64(1_000_000_000_000_000_000);
        let dx_xp = mul_div(amount_in, self.rates[i], one).ok_or(SimError::Overflow)?;
        let x = xp[i].checked_add(dx_xp).ok_or(SimError::Overflow)?;
        let y = Self::get_y(i, j, x, xp.as_slice(), self.a).ok_or(SimError::Overflow)?;
        let dy_xp = xp[j].checked_sub(y).ok_or(SimError::InsufficientLiquidity)?.checked_sub(
            U256::one(),
        ).ok_or(SimError::InsufficientLiquidity)?;
        let fee = mul_div(
            dy_xp,
            U256::from_u64(self.fee_bps as u64),
            U256::from_u64(10_000),
        ).ok_or(SimError::Overflow)?;
        let dy_after_fee = dy_xp.wrapping_sub(fee);
        mul_div(dy_after_fee, one, self.rates[j]).ok_or(SimError::Overflow)
    }

    fn gas_estimate(&self) -> (r: u64) {
        150_000
    }
}

/// Balances that are not negative.
pub open spec fn all_held(xp: Seq<int>) -> bool {
    forall|i: int| 0 <= i < xp.len() ==> #[trigger] xp[i] >= 0
}

proof fn lemma_div_not_negative(a: int, b: int, d: int)
    requires
        a >= 0,
        b >= 0,
        d >= 0,
    ensures
        mul_div_value(a, b, d) matches Some(q) ==> q >= 0,
{
    if d > 0 {
        assert((a * b) / d >= 0) by (nonlinear_arith)
            requires
                a >= 0,
                b >= 0,
                d > 0,
        ;
    }
}

pub proof fn lemma_d_product_not_negative(xp: Seq<int>, d: int, k: int)
    requires
        all_held(xp),
        d >= 0,
        0 <= k <= xp.len(),
    ensures
        d_product(xp, d, k) matches Some(p) ==> p >= 0,
    decreases k,
{
    if k > 0 {
        lemma_d_product_not_negative(xp, d, k - 1);
        if let Some(p) = d_product(xp, d, k - 1) {
            let n = xp.len() as int;
            assert(xp[k - 1] * n >= 0) by (nonlinear_arith)
                requires
                    xp[k - 1] >= 0,
                    n >= 0,
            ;
            lemma_div_not_negative(p, d, xp[k - 1] * n);
        }
    }
}

pub proof fn lemma_d_not_negative(xp: Seq<int>, ann: int, d: int, steps: nat)
    requires
        all_held(xp),
        ann >= 0,
        d >= 0,
    ensures
        d_iterate(xp, ann, d, steps) matches Some(r) ==> r >= 0,
    decreases steps,
{
    if steps > 0 {
        let n = xp.len() as int;
        lemma_d_product_not_negative(xp, d, n);
        if let Some(p) = d_product(xp, d, n) {
            if let Some(next) = d_step(xp, ann, d) {
                let sum = partial_sum(xp, n);
                lemma_partial_sum_nonnegative(xp, n);
                assert(ann * sum + p * n >= 0 && (ann - 1) * d + p * (n + 1) >= 0)
                    by (nonlinear_arith)
                    requires
                        ann >= 1,
                        sum >= 0,
                        p >= 0,
                        n >= 0,
                        d >= 0,
                ;
                lemma_div_not_negative(
                    ann * sum + p * n,
                    d,
                    (ann - 1) * d + p * (n + 1),
                );
                lemma_d_not_negative(xp, ann, next, (steps - 1) as nat);
            }
        }
    }
}

pub proof fn lemma_invariant_not_negative(xp: Seq<int>, a: int)
    requires
        all_held(xp),
        a >= 0,
    ensures
        invariant_d(xp, a) matches Some(d) ==> d >= 0,
{
    let n = xp.len() as int;
    lemma_partial_sum_nonnegative(xp, n);
    assert(a * n >= 0) by (nonlinear_arith)
        requires
            a >= 0,
            n >= 0,
    ;
    lemma_d_not_negative(xp, a * n, partial_sum(xp, n), 255);
}

pub proof fn lemma_y_terms_not_negative(xp: Seq<int>, i: int, j: int, x: int, d: int, k: int)
    requires
        all_held(xp),
        x >= 0,
        d >= 0,
        0 <= k <= xp.len(),
    ensures
        y_terms(xp, i, j, x, d, k) matches Some((s, c)) ==> s >= 0 && c >= 0,
    decreases k,
{
    if k > 0 {
        lemma_y_terms_not_negative(xp, i, j, x, d, k - 1);
        if let Some((s, c)) = y_terms(xp, i, j, x, d, k - 1) {
            let b = balance_with(xp, i, x, k - 1);
            let n = xp.len() as int;
            assert(b * n >= 0) by (nonlinear_arith)
                requires
                    b >= 0,
                    n >= 0,
            ;
            lemma_div_not_negative(c, d, b * n);
        }
    }
}

/// One step solves the equation from above: the step's result, and one more, is never below the
/// root; and where the step moved by at most one, its result is not above it either.
proof fn lemma_y_step(b: int, c: int, d: int, y: int)
    requires
        y >= 0,
        c >= 0,
    ensures
        y_step(b, c, d, y) matches Some(r) ==> {
            &&& r >= 0
            &&& (r + 1) * (r + 1) + (b - d) * (r + 1) > c
            &&& close(r, y) ==> r * r + (b - d) * r <= c + 1
        },
{
    if let Some(r) = y_step(b, c, d, y) {
        let e = b - d;
        let top = y * y + c;
        let bottom = y * 2 + e;
        assert(y * 2 + b - d == bottom);
        assert(y * y >= 0) by (nonlinear_arith);
        assert(r >= 0 && r * bottom <= top && top < (r + 1) * bottom) by (nonlinear_arith)
            requires
                r == top / bottom,
                bottom > 0,
                top >= 0,
        ;
        let z = r + 1;
        assert(z * z + e * z > c) by (nonlinear_arith)
            requires
                y * y + c < z * (y * 2 + e),
        ;
        if close(r, y) {
            assert(r * r + e * r <= c + 1) by (nonlinear_arith)
                requires
                    r * (y * 2 + e) <= y * y + c,
                    -1 <= r - y <= 1,
            ;
        }
    }
}

/// The iteration ends because two iterates differ by at most one.
pub open spec fn y_settles(b: int, c: int, d: int, y: int, steps: nat) -> bool
    decreases steps,
{
    if steps == 0 {
        false
    } else {
        match y_step(b, c, d, y) {
            None => false,
            Some(next) => close(next, y) || y_settles(b, c, d, next, (steps - 1) as nat),
        }
    }
}

/// The solver finds the balance that keeps the invariant: `y` and one more is above the root of
/// `y^2 + (b - D) * y = c`, and once the iteration has settled `y` itself is not, but for a
/// rounding of one.
pub proof fn the_solver_brackets_the_root(b: int, c: int, d: int, y: int, steps: nat)
    requires
        steps >= 1,
        y >= 0,
        c >= 0,
    ensures
        y_iterate(b, c, d, y, steps) matches Some(r) ==> {
            &&& r >= 0
            &&& (r + 1) * (r + 1) + (b - d) * (r + 1) > c
            &&& y_settles(b, c, d, y, steps) ==> r * r + (b - d) * r <= c + 1
        },
    decreases steps,
{
    lemma_y_step(b, c, d, y);
    if let Some(next) = y_step(b, c, d, y) {
        if !close(next, y) {
            if steps == 1 {
                reveal_with_fuel(y_iterate, 2);
                reveal_with_fuel(y_settles, 2);
            } else {
                the_solver_brackets_the_root(b, c, d, next, (steps - 1) as nat);
            }
        }
    }
}

/// A swap keeps the invariant: the balance of the output coin that stays in the pool, the
/// solver's `y` and the one that is held back, lies above the root of the StableSwap equation
/// for `D`, so that rounding never works against the pool.
pub proof fn curve_keeps_the_invariant(i: int, j: int, x: int, xp: Seq<int>, a: int)
    requires
        all_held(xp),
        x >= 0,
        a >= 0,
        new_balance(i, j, x, xp, a) is Some,
    ensures
        ({
            let kept = new_balance(i, j, x, xp, a)->0 + 1;
            let n = xp.len() as int;
            let d = invariant_d(xp, a)->0;
            let (s, c) = y_terms(xp, i, j, x, d, n)->0;
            kept >= 1 && kept * kept + (s + d / (a * n) - d) * kept > (c * d) / (a * n * n)
        }),
{
    let n = xp.len() as int;
    lemma_invariant_not_negative(xp, a);
    let d = invariant_d(xp, a)->0;
    lemma_y_terms_not_negative(xp, i, j, x, d, n);
    let (s, c0) = y_terms(xp, i, j, x, d, n)->0;
    assert(a * n * n >= 0) by (nonlinear_arith)
        requires
            a >= 0,
            n >= 0,
    ;
    lemma_div_not_negative(c0, d, a * n * n);
    the_solver_brackets_the_root(s + d / (a * n), (c0 * d) / (a * n * n), d, d, 255);
}

pub proof fn lemma_scaled(balances: Seq<U256>, rates: Seq<U256>, k: int)
    requires
        0 <= k <= balances.len(),
        balances.len() == rates.len(),
    ensures
        scaled_balances(balances, rates, k) matches Some(xp) ==> {
            &&& xp.len() == k
            &&& all_held(xp)
            &&& forall|i: int|
                0 <= i < k ==> #[trigger] xp[i] == (rates[i]@ * balances[i]@) / one18() && xp[i]
                    < two256()
        },
    decreases k,
{
    broadcast use lemma_u256_range;

    if k > 0 {
        lemma_scaled(balances, rates, k - 1);
        let (r, b) = (rates[k - 1]@, balances[k - 1]@);
        assert((r * b) / one18() >= 0) by (nonlinear_arith)
            requires
                r >= 0,
                b >= 0,
                one18() > 0,
        ;
    }
}

/// A pool never pays more than it holds.
pub proof fn curve_pays_at_most_its_balance(
    pool: CurveStablePool,
    token_in: Address,
    token_out: Address,
    amount_in: int,
)
    requires
        amount_in >= 0,
        pool.fee_bps <= 10_000,
    ensures
        pool.spec_quote(token_in, token_out, amount_in) matches Ok(out) ==> {
            let j = token_place(pool.coins@, token_out);
            j is Some && 0 <= out <= pool.balances@[j->0]@
        },
{
    broadcast use lemma_u256_range;

    if let Ok(out) = pool.spec_quote(token_in, token_out, amount_in) {
        let n = pool.coins@.len() as int;
        let i = token_place(pool.coins@, token_in)->0;
        let j = token_place(pool.coins@, token_out)->0;
        assert(is_first_place(pool.coins@, token_in, i));
        assert(is_first_place(pool.coins@, token_out, j));
        lemma_scaled(pool.balances@, pool.rates@, n);
        let xp = scaled_balances(pool.balances@, pool.rates@, n)->0;
        let paid = (amount_in * pool.rates@[i]@) / one18();
        let ri = pool.rates@[i]@;
        assert(paid >= 0) by (nonlinear_arith)
            requires
                paid == (amount_in * ri) / one18(),
                amount_in >= 0,
                ri >= 0,
                one18() > 0,
        ;
        curve_keeps_the_invariant(i, j, xp[i] + paid, xp, pool.a@);
        let y = new_balance(i, j, xp[i] + paid, xp, pool.a@)->0;
        let dy = xp[j] - y - 1;
        let fee = (dy * pool.fee_bps) / 10_000;
        let f = pool.fee_bps as int;
        assert(0 <= fee <= dy) by (nonlinear_arith)
            requires
                fee == (dy * f) / 10_000,
                0 <= f <= 10_000,
                dy >= 0,
        ;
        lemma_small_mod((dy - fee) as nat, two256() as nat);
        let (rate, held) = (pool.rates@[j]@, pool.balances@[j]@);
        let left = dy - fee;
        let one = one18();
        let x = xp[j];
        assert(0 <= out <= held) by (nonlinear_arith)
            requires
                out == (left * one) / rate,
                x == (rate * held) / one,
                0 <= left <= x,
                one > 0,
                rate > 0,
                held >= 0,
        {
            assert(x * one <= rate * held);
            assert(left * one <= x * one);
            assert(out * rate <= left * one);
        }
    }
}

} // verus!
