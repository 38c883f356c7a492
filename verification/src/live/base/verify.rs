//! Differential wei-exact verification: the offline simulation against on-chain ground truth, all
//! at one block. A single-wei discrepancy is a failure, as profit is decided on the last wei.
use crate::book::PoolInfo;
use crate::live::base::groundtruth::{quoter_of, route, route_of, v3_quoter, GtOutcome, Route};
use crate::live::base::v3state::V3Snapshot;
use crate::live::base::v3sync::V3PoolState;
use crate::pool::SimError;
use crate::text::{decimal_signed, decimal_text, decimal_u256, same_text, signed_text};
use crate::types::{two256, Address, U256};
use vstd::arithmetic::power::pow;
use vstd::prelude::*;
use vstd::string::StringExecFns;

verus! {

/// A quote that differs from the chain's.
#[derive(Debug)]
pub struct Mismatch {
    pub pool: Address,
    pub exchange: String,
    pub token_in: Address,
    pub amount_in: U256,
    pub mine: String,
    pub chain: String,
}

/// What a verification found.
#[derive(Debug)]
pub struct VerifyReport {
    pub block: u64,
    pub pools_checked: usize,
    pub quotes_checked: usize,
    pub passed: usize,
    /// Windowed-state quotes that exceeded the tick window (correctly signalled
    /// `IncompleteState` rather than a wrong value): not failures.
    pub window_skips: usize,
    pub mismatches: Vec<Mismatch>,
}

impl Default for VerifyReport {
    fn default() -> (r: VerifyReport)
        ensures
            r.block == 0,
            r.pools_checked == 0,
            r.quotes_checked == 0,
            r.passed == 0,
            r.window_skips == 0,
            r.mismatches@ == Seq::<Mismatch>::empty(),
    {
        VerifyReport {
            block: 0,
            pools_checked: 0,
            quotes_checked: 0,
            passed: 0,
            window_skips: 0,
            mismatches: Vec::new(),
        }
    }
}

impl VerifyReport {
    /// Whether nothing differs.
    pub fn ok(&self) -> (r: bool)
        ensures
            r == (self.mismatches@.len() == 0),
    {
        self.mismatches.len() == 0
    }

    /// The counters have room for one more quote.
    pub open spec fn has_room(&self) -> bool {
        &&& self.quotes_checked < usize::MAX
        &&& self.passed < usize::MAX
        &&& self.window_skips < usize::MAX
    }

    /// One quote more was checked and passed.
    pub open spec fn passes(before: VerifyReport, after: VerifyReport) -> bool {
        &&& after.block == before.block
        &&& after.pools_checked == before.pools_checked
        &&& after.quotes_checked == before.quotes_checked + 1
        &&& after.passed == before.passed + 1
        &&& after.window_skips == before.window_skips
        &&& after.mismatches@ == before.mismatches@
    }

    /// One quote more was checked and differs.
    pub open spec fn fails(before: VerifyReport, after: VerifyReport) -> bool {
        &&& after.block == before.block
        &&& after.pools_checked == before.pools_checked
        &&& after.quotes_checked == before.quotes_checked + 1
        &&& after.passed == before.passed
        &&& after.window_skips == before.window_skips
        &&& after.mismatches@.len() == before.mismatches@.len() + 1
        &&& after.mismatches@.drop_last() == before.mismatches@
    }

    /// A quote of a windowed state that exceeds the window is skipped. Returns whether it was.
    pub fn skips(&mut self, mine: &Result<U256, SimError>) -> (r: bool)
        requires
            old(self).has_room(),
        ensures
            r == (*mine == Err::<U256, SimError>(SimError::IncompleteState)),
            !r ==> *final(self) == *old(self),
            r ==> *final(self) == (VerifyReport {
                window_skips: (old(self).window_skips + 1) as usize,
                ..*old(self)
            }),
    {
        match mine {
            Err(SimError::IncompleteState) => {
                self.window_skips = self.window_skips + 1;
                true
            },
            _ => false,
        }
    }
}

/// The values of a sequence that are not zero.
pub open spec fn nonzero(s: Seq<int>) -> Seq<int>
    decreases s.len(),
{
    if s.len() == 0 {
        s
    } else if s.last() == 0 {
        nonzero(s.drop_last())
    } else {
        nonzero(s.drop_last()).push(s.last())
    }
}

/// One whole unit of a token with `dec` decimals.
pub open spec fn whole_unit(dec: u8) -> int {
    pow(10, dec as nat) % two256()
}

/// Dust, 0.01, 1, 100 and 10_000 units.
pub open spec fn ladder(dec: u8) -> Seq<int> {
    let unit = whole_unit(dec);
    seq![1, unit / 100, unit, (unit * 100) % two256(), (unit * 10_000) % two256()]
}

/// Amounts as mathematical integers.
pub open spec fn amount_values(v: Seq<U256>) -> Seq<int> {
    v.map_values(|x: U256| x@)
}

/// Append an amount unless it is zero.
fn push_nonzero(out: &mut Vec<U256>, x: U256)
    ensures
        amount_values(final(out)@) == (if x@ == 0 {
            amount_values(old(out)@)
        } else {
            amount_values(old(out)@).push(x@)
        }),
{
    if !x.is_zero() {
        let ghost before = out@;
        out.push(x);
        assert(amount_values(out@) =~= amount_values(before).push(x@));
    }
}

/// Input ladder for a `dec`-decimal token: dust, 0.01, 1, 100, 10_000 units.
pub fn sweep(dec: u8) -> (r: Vec<U256>)
    ensures
        amount_values(r@) == nonzero(ladder(dec)),
{
    let unit = U256::from_u64(10).wrapping_pow(U256::from_u64(dec as u64));
    let mut out: Vec<U256> = Vec::new();
    push_nonzero(&mut out, U256::from_u64(1));
    push_nonzero(&mut out, unit.div_floor(U256::from_u64(100)));
    push_nonzero(&mut out, unit);
    push_nonzero(&mut out, unit.wrapping_mul(U256::from_u64(100)));
    push_nonzero(&mut out, unit.wrapping_mul(U256::from_u64(10_000)));
    proof {
        let l = ladder(dec);
        reveal_with_fuel(nonzero, 6);
        assert(l.drop_last() =~= seq![l[0], l[1], l[2], l[3]]);
        assert(l.drop_last().drop_last() =~= seq![l[0], l[1], l[2]]);
        assert(l.drop_last().drop_last().drop_last() =~= seq![l[0], l[1]]);
        assert(l.drop_last().drop_last().drop_last().drop_last() =~= seq![l[0]]);
        assert(l.drop_last().drop_last().drop_last().drop_last().drop_last()
            =~= Seq::<int>::empty());
    }
    out
}

/// Strict where it matters: any quote must equal the chain's to the wei. "No actionable quote"
/// (zero or an error) is acceptable only where the chain refuses too: both mean "do not trade".
pub open spec fn agrees(mine: Result<U256, SimError>, chain: GtOutcome) -> bool {
    match (mine, chain) {
        (Ok(m), GtOutcome::Out(c)) => m@ == c@,
        (Ok(m), GtOutcome::Revert) => m@ == 0,
        (Err(_), GtOutcome::Revert) => true,
        (Err(_), GtOutcome::Out(_)) => false,
    }
}

/// A simulated quote as text.
pub open spec fn mine_text(mine: Result<U256, SimError>) -> Seq<char> {
    match mine {
        Ok(m) => decimal_text(m@),
        Err(e) => "Err("@ + e.text() + ")"@,
    }
}

/// The chain's quote as text.
pub open spec fn chain_text(chain: GtOutcome) -> Seq<char> {
    match chain {
        GtOutcome::Out(c) => decimal_text(c@),
        GtOutcome::Revert => "Revert"@,
    }
}

/// Hold a simulated quote against the chain's and count it.
pub fn reconcile(
    mine: &Result<U256, SimError>,
    chain: &GtOutcome,
    p: &PoolInfo,
    token_in: Address,
    amount_in: U256,
    report: &mut VerifyReport,
)
    requires
        old(report).has_room(),
    ensures
        agrees(*mine, *chain) ==> VerifyReport::passes(*old(report), *final(report)),
        !agrees(*mine, *chain) ==> VerifyReport::fails(*old(report), *final(report)) && {
            let m = final(report).mismatches@.last();
            &&& m.pool == p.address
            &&& m.exchange@ == p.exchange@
            &&& m.token_in == token_in
            &&& m.amount_in == amount_in
            &&& m.mine@ == mine_text(*mine)
            &&& m.chain@ == chain_text(*chain)
        },
{
    report.quotes_checked = report.quotes_checked + 1;
    let pass = match (mine, chain) {
        (Ok(m), GtOutcome::Out(c)) => m.equals(c),
        (Ok(m), GtOutcome::Revert) => m.is_zero(),
        (Err(_), GtOutcome::Revert) => true,
        (Err(_), GtOutcome::Out(_)) => false,
    };
    if pass {
        report.passed = report.passed + 1;
    } else {
        let mine_said = match mine {
            Ok(m) => decimal_u256(*m),
            Err(e) => "Err(".to_owned().concat(e.message().as_str()).concat(")"),
        };
        let chain_said = match chain {
            GtOutcome::Out(c) => decimal_u256(*c),
            GtOutcome::Revert => "Revert".to_owned(),
        };
        report.mismatches.push(
            Mismatch {
                pool: p.address,
                exchange: p.exchange.clone(),
                token_in,
                amount_in,
                mine: mine_said,
                chain: chain_said,
            },
        );
        assert(report.mismatches@.drop_last() =~= old(report).mismatches@);
    }
}

/// Price, liquidity and tick as text.
pub open spec fn scalars_text(sqrt_price: int, liquidity: int, tick: int) -> Seq<char> {
    "sqrt="@ + decimal_text(sqrt_price) + " liq="@ + decimal_text(liquidity) + " tick="@
        + signed_text(tick)
}

fn scalars(sqrt_price: U256, liquidity: u128, tick: i32) -> (r: String)
    ensures
        r@ == scalars_text(sqrt_price@, liquidity as int, tick as int),
{
    "sqrt=".to_owned().concat(decimal_u256(sqrt_price).as_str()).concat(" liq=").concat(
        decimal_u256(U256::from_u128(liquidity)).as_str(),
    ).concat(" tick=").concat(decimal_signed(tick).as_str())
}

/// Hold price, liquidity and tick of an event-maintained state against a fresh reading.
pub fn check_scalars(
    state: &V3PoolState,
    fresh: &V3Snapshot,
    p: &PoolInfo,
    report: &mut VerifyReport,
)
    requires
        old(report).has_room(),
    ensures
        ({
            let same = fresh.sqrt_price_x96@ == state.sqrt_price_x96@ && fresh.liquidity
                == state.liquidity && fresh.tick == state.tick;
            &&& same ==> VerifyReport::passes(*old(report), *final(report))
            &&& !same ==> VerifyReport::fails(*old(report), *final(report)) && {
                let m = final(report).mismatches@.last();
                &&& m.pool == p.address
                &&& m.exchange@ == p.exchange@ + "/scalars"@
                &&& m.token_in.value() == 0
                &&& m.amount_in@ == 0
                &&& m.mine@ == scalars_text(
                    state.sqrt_price_x96@,
                    state.liquidity as int,
                    state.tick as int,
                )
                &&& m.chain@ == scalars_text(
                    fresh.sqrt_price_x96@,
                    fresh.liquidity as int,
                    fresh.tick as int,
                )
            }
        }),
{
    report.quotes_checked = report.quotes_checked + 1;
    if fresh.sqrt_price_x96.equals(&state.sqrt_price_x96) && fresh.liquidity == state.liquidity
        && fresh.tick == state.tick {
        report.passed = report.passed + 1;
    } else {
        report.mismatches.push(
            Mismatch {
                pool: p.address,
                exchange: p.exchange.clone().concat("/scalars"),
                token_in: Address::zero(),
                amount_in: U256::zero(),
                mine: scalars(state.sqrt_price_x96, state.liquidity, state.tick),
                chain: scalars(fresh.sqrt_price_x96, fresh.liquidity, fresh.tick),
            },
        );
        assert(report.mismatches@.drop_last() =~= old(report).mismatches@);
    }
}

/// How many pools of each family have been taken.
#[derive(Debug, Clone, Copy, PartialEq, Eq, Structural)]
pub struct Quota {
    pub max_per_family: usize,
    pub v3: usize,
    pub v2: usize,
    pub aero: usize,
}

impl Quota {
    /// No pool has been taken yet.
    pub fn new(max_per_family: usize) -> (r: Quota)
        ensures
            r == (Quota { max_per_family, v3: 0, v2: 0, aero: 0 }),
    {
        Quota { max_per_family, v3: 0, v2: 0, aero: 0 }
    }

    /// Take a pool, if it can be quoted on chain and its family is not full. Returns whether it
    /// was taken.
    pub fn take_in(&mut self, p: &PoolInfo) -> (r: bool)
        ensures
            r == (match route_of(*p) {
                Some(Route::V3 { .. }) => old(self).v3 < old(self).max_per_family,
                Some(Route::Aerodrome) => old(self).aero < old(self).max_per_family,
                Some(Route::V2 { .. }) => old(self).v2 < old(self).max_per_family,
                None => false,
            }),
            *final(self) == (if !r {
                *old(self)
            } else {
                match route_of(*p) {
                    Some(Route::V3 { .. }) => Quota { v3: (old(self).v3 + 1) as usize, ..*old(self) },
                    Some(Route::Aerodrome) => Quota {
                        aero: (old(self).aero + 1) as usize,
                        ..*old(self)
                    },
                    _ => Quota { v2: (old(self).v2 + 1) as usize, ..*old(self) },
                }
            }),
    {
        match route(p) {
            Some(Route::V3 { .. }) => {
                if self.v3 < self.max_per_family {
                    self.v3 = self.v3 + 1;
                    true
                } else {
                    false
                }
            },
            Some(Route::Aerodrome) => {
                if self.aero < self.max_per_family {
                    self.aero = self.aero + 1;
                    true
                } else {
                    false
                }
            },
            Some(Route::V2 { .. }) => {
                if self.v2 < self.max_per_family {
                    self.v2 = self.v2 + 1;
                    true
                } else {
                    false
                }
            },
            None => false,
        }
    }
}

/// A V3 pool that an on-chain quoter can check.
pub open spec fn is_checkable_v3(p: PoolInfo) -> bool {
    p.kind@ == "uniswap_v3"@ && quoter_of(p.exchange@) is Some
}

/// The places of the V3 pools that can be checked among the first `n`.
pub open spec fn checkable_v3(pools: Seq<PoolInfo>, n: int) -> Seq<usize>
    decreases n,
{
    if n <= 0 {
        Seq::empty()
    } else if is_checkable_v3(pools[n - 1]) {
        checkable_v3(pools, n - 1).push((n - 1) as usize)
    } else {
        checkable_v3(pools, n - 1)
    }
}

/// The places of the first `max_pools` V3 pools that can be checked.
pub fn v3_pools_to_check(pools: &Vec<PoolInfo>, max_pools: usize) -> (r: Vec<usize>)
    ensures
        r@ == (if checkable_v3(pools@, pools@.len() as int).len() <= max_pools {
            checkable_v3(pools@, pools@.len() as int)
        } else {
            checkable_v3(pools@, pools@.len() as int).take(max_pools as int)
        }),
{
    let mut out: Vec<usize> = Vec::new();
    let mut i: usize = 0;
    while i < pools.len()
        invariant
            i <= pools.len(),
            out@ == checkable_v3(pools@, i as int),
        decreases pools.len() - i,
    {
        let p = &pools[i];
        if same_text(p.kind.as_str(), "uniswap_v3") && v3_quoter(p.exchange.as_str()).is_some() {
            out.push(i);
        }
        i = i + 1;
    }
    if out.len() > max_pools {
        out.truncate(max_pools);
        assert(out@ =~= checkable_v3(pools@, pools@.len() as int).take(max_pools as int));
    }
    out
}

/// Every quote that was checked either passed or is listed as a mismatch.
pub open spec fn balanced(report: VerifyReport) -> bool {
    report.quotes_checked == report.passed + report.mismatches@.len()
}

/// Each check keeps the books balanced, so a report without mismatches has passed every quote
/// that it checked.
pub proof fn ok_means_that_all_passed(before: VerifyReport, after: VerifyReport)
    requires
        balanced(before),
        VerifyReport::passes(before, after) || VerifyReport::fails(before, after),
    ensures
        balanced(after),
        after.mismatches@.len() == 0 ==> after.passed == after.quotes_checked,
{
}

/// A number less another, or zero.
pub open spec fn less(a: u64, b: u64) -> u64 {
    if a >= b {
        (a - b) as u64
    } else {
        0
    }
}

/// The block that pools are checked at: five behind the head, so that every node has it.
pub fn block_to_check(head: u64) -> (r: u64)
    ensures
        r == less(head, 5),
{
    if head >= 5 {
        head - 5
    } else {
        0
    }
}

/// The block that a state is read at and the one that its logs are replayed up to.
pub fn replay_range(head: u64, lookback: u64) -> (r: (u64, u64))
    ensures
        r.1 == less(head, 5),
        r.0 == less(r.1, lookback),
        r.0 <= r.1,
{
    let n: u64 = block_to_check(head);
    if n >= lookback {
        (n - lookback, n)
    } else {
        (0, n)
    }
}

} // verus!
