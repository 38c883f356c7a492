//! Live pools kept in memory from one log subscription, and the decisions of the watcher that
//! quotes cycles against them.
//!
//! - V3 pools: [`V3PoolState`] maintained from `Swap`/`Mint`/`Burn`.
//! - V2 and Aerodrome pools: reserves maintained from `Sync` (absolute, every change); fee and
//!   decimals are fixed at the start.
//!
//! Logs are subscribed to before the snapshot is taken. Each pool's last key is `(B, MAX)` for a
//! snapshot at block `B`, so events that the snapshot holds are discarded: none is missed and
//! none is applied twice.
use crate::amm::aerodrome::AerodromeVolatilePool;
use crate::amm::solidly::SolidlyStablePool;
use crate::amm::univ2::UniV2Pool;
use crate::book::PoolInfo;
use crate::graph::Edge;
use crate::live::abi::{topic, topic_value, word, word_at, Log};
use crate::live::base::groundtruth::GtOutcome;
use crate::live::base::loader::{
    factory_fee, family, family_of, fee_or_zero, is_sim_of, is_stable_of, is_v2_of, is_volatile_of,
    makes_sim, read_after, sim_failure, AnyPool, Family, Readings,
};
use crate::live::base::price::{is_loaded, is_priceable, leg_of, legs_through, loaded_legs};
use crate::live::base::v3state::{window_fits, window_of, window_to_read};
use crate::live::base::v3sync::{
    after_log, applied, burn_sig, log_fits, mint_sig, swap_sig, tick_entries, v3_event_topics,
    V3PoolState,
};
use crate::live::event::{is_later, rank_of};
use crate::live::source::SourceError;
use crate::order::{key_values, sort_by_keys, sorted_by_keys};
use crate::path::{best_size, best_size_value, gas_of, net_value, Leg};
use crate::pool::{Pool, Protocol, SimError};
use crate::rank_map::AddressMap;
use crate::types::{lemma_u256_range, two256, two64, Address, B256, U256};
use vstd::prelude::*;

verus! {

/// The signature of the `Sync` event of V2 pairs.
pub open spec fn sync_uint112() -> Seq<char> {
    "Sync(uint112,uint112)"@
}

/// The signature of the `Sync` event of Aerodrome pools.
pub open spec fn sync_uint256() -> Seq<char> {
    "Sync(uint256,uint256)"@
}

/// All first topics that live pools consume: the V3 events and both `Sync` variants.
pub fn registry_topics() -> (r: Vec<B256>)
    ensures
        r@.len() == 5,
        r@[0].word@ == topic_value(swap_sig()),
        r@[1].word@ == topic_value(mint_sig()),
        r@[2].word@ == topic_value(burn_sig()),
        r@[3].word@ == topic_value(sync_uint112()),
        r@[4].word@ == topic_value(sync_uint256()),
{
    let mut t = v3_event_topics();
    t.push(topic("Sync(uint112,uint112)"));
    t.push(topic("Sync(uint256,uint256)"));
    t
}

/// The state of a live pool, by family.
pub enum LiveKind {
    V3(V3PoolState),
    V2 { sim: UniV2Pool, last: (u64, u64) },
    AeroVol { sim: AerodromeVolatilePool, last: (u64, u64) },
    AeroStable { sim: SolidlyStablePool, last: (u64, u64) },
}

/// A pool whose state is kept live from events; quotable as a [`Pool`].
pub struct LivePool {
    pub address: Address,
    pub tokens: [Address; 2],
    pub kind: LiveKind,
}

/// A log is a `Sync` with both reserves.
pub open spec fn is_any_sync(log: Log) -> bool {
    &&& log.is_event(sync_uint112()) || log.is_event(sync_uint256())
    &&& log.data@.len() >= 64
}

/// A log is a `Sync` that comes after what was last applied.
pub open spec fn syncs(last: (u64, u64), log: Log) -> bool {
    &&& is_any_sync(log)
    &&& log.spec_key() matches Some(key) && rank_of(key.0, key.1) > rank_of(last.0, last.1)
}

/// Reserves and last key after a log.
pub open spec fn synced(
    r0: int,
    r1: int,
    last: (u64, u64),
    log: Log,
) -> (int, int, (u64, u64)) {
    if syncs(last, log) {
        (word_at(log.data@, 0), word_at(log.data@, 1), log.spec_key()->0)
    } else {
        (r0, r1, last)
    }
}

/// Take reserves from a `Sync` log if it is newer than what was last applied.
fn apply_sync(r0: &mut U256, r1: &mut U256, last: &mut (u64, u64), log: &Log) -> (r: bool)
    ensures
        r == syncs(*old(last), *log),
        (final(r0)@, final(r1)@, *final(last)) == synced(
            old(r0)@,
            old(r1)@,
            *old(last),
            *log,
        ),
        !r ==> *final(r0) == *old(r0) && *final(r1) == *old(r1),
{
    let key = match log.key() {
        Some(key) => key,
        None => return false,
    };
    if !is_later(key.0, key.1, last.0, last.1) {
        return false;
    }
    if !log.has_topic("Sync(uint112,uint112)") && !log.has_topic("Sync(uint256,uint256)") {
        return false;
    }
    if log.data.len() < 64 {
        return false;
    }
    *r0 = word(log.data.as_slice(), 0);
    *r1 = word(log.data.as_slice(), 1);
    *last = key;
    true
}

/// What a log makes of a live pool's state.
pub open spec fn kind_after(before: LiveKind, after: LiveKind, log: Log) -> bool {
    match (before, after) {
        (LiveKind::V3(a), LiveKind::V3(b)) => b.model() == after_log(a.model(), log)
            && b.same_pool(a),
        (LiveKind::V2 { sim: a, last: x }, LiveKind::V2 { sim: b, last: y }) => {
            &&& (b.reserve0@, b.reserve1@, y) == synced(a.reserve0@, a.reserve1@, x, log)
            &&& b == (UniV2Pool { reserve0: b.reserve0, reserve1: b.reserve1, ..a })
        },
        (LiveKind::AeroVol { sim: a, last: x }, LiveKind::AeroVol { sim: b, last: y }) => {
            &&& (b.reserve0@, b.reserve1@, y) == synced(a.reserve0@, a.reserve1@, x, log)
            &&& b == (AerodromeVolatilePool {
                reserve0: b.reserve0,
                reserve1: b.reserve1,
                ..a
            })
        },
        (LiveKind::AeroStable { sim: a, last: x }, LiveKind::AeroStable { sim: b, last: y }) => {
            &&& (b.reserve0@, b.reserve1@, y) == synced(a.reserve0@, a.reserve1@, x, log)
            &&& b == (SolidlyStablePool { reserve0: b.reserve0, reserve1: b.reserve1, ..a })
        },
        _ => false,
    }
}

/// A log changes a live pool's state.
pub open spec fn takes(kind: LiveKind, log: Log) -> bool {
    match kind {
        LiveKind::V3(s) => applied(s.model(), log) is Some,
        LiveKind::V2 { sim, last } => syncs(last, log),
        LiveKind::AeroVol { sim, last } => syncs(last, log),
        LiveKind::AeroStable { sim, last } => syncs(last, log),
    }
}

/// What a log changes of a live pool can be held.
pub open spec fn kind_fits(kind: LiveKind, log: Log) -> bool {
    match kind {
        LiveKind::V3(s) => log_fits(s.model(), log),
        _ => true,
    }
}

impl LivePool {
    /// Whether what a log changes of this pool can be held.
    pub fn accepts_log(&self, log: &Log) -> (r: bool)
        ensures
            r == kind_fits(self.kind, *log),
    {
        match &self.kind {
            LiveKind::V3(s) => s.accepts_log(log),
            _ => true,
        }
    }

    /// Apply one routed log to this pool's state.
    pub fn apply_log(&mut self, log: &Log) -> (r: bool)
        requires
            kind_fits(old(self).kind, *log),
        ensures
            r == takes(old(self).kind, *log),
            kind_after(old(self).kind, final(self).kind, *log),
            final(self).address == old(self).address,
            final(self).tokens == old(self).tokens,
    {
        match &mut self.kind {
            LiveKind::V3(s) => s.apply_log(log),
            LiveKind::V2 { sim, last } => apply_sync(
                &mut sim.reserve0,
                &mut sim.reserve1,
                last,
                log,
            ),
            LiveKind::AeroVol { sim, last } => apply_sync(
                &mut sim.reserve0,
                &mut sim.reserve1,
                last,
                log,
            ),
            LiveKind::AeroStable { sim, last } => apply_sync(
                &mut sim.reserve0,
                &mut sim.reserve1,
                last,
                log,
            ),
        }
    }
}

impl LivePool {
    /// Apply one routed log if what it changes can be held. Returns whether it was applied, and
    /// nothing, with the pool as it was, if the change cannot be held.
    pub fn try_apply_log(&mut self, log: &Log) -> (r: Option<bool>)
        ensures
            match r {
                Some(done) => {
                    &&& kind_fits(old(self).kind, *log)
                    &&& done == takes(old(self).kind, *log)
                    &&& kind_after(old(self).kind, final(self).kind, *log)
                    &&& final(self).address == old(self).address
                    &&& final(self).tokens == old(self).tokens
                },
                None => !kind_fits(old(self).kind, *log) && *final(self) == *old(self),
            },
    {
        if self.accepts_log(log) {
            Some(self.apply_log(log))
        } else {
            None
        }
    }
}

impl Pool for LivePool {
    open spec fn wf(&self) -> bool {
        true
    }

    open spec fn spec_address(&self) -> Address {
        self.address
    }

    open spec fn spec_protocol(&self) -> Protocol {
        match self.kind {
            LiveKind::V3(_) => Protocol::UniswapV3,
            LiveKind::AeroStable { .. } => Protocol::SolidlyStable,
            _ => Protocol::UniswapV2,
        }
    }

    open spec fn spec_tokens(&self) -> Seq<Address> {
        self.tokens@
    }

    open spec fn spec_quote(
        &self,
        token_in: Address,
        token_out: Address,
        amount_in: int,
    ) -> Result<int, SimError> {
        match self.kind {
            LiveKind::V3(s) => s.spec_pool().spec_quote(token_in, token_out, amount_in),
            LiveKind::V2 { sim, last } => sim.spec_quote(token_in, token_out, amount_in),
            LiveKind::AeroVol { sim, last } => sim.spec_quote(token_in, token_out, amount_in),
            LiveKind::AeroStable { sim, last } => sim.spec_quote(token_in, token_out, amount_in),
        }
    }

    open spec fn spec_gas(&self) -> int {
        match self.kind {
            LiveKind::V3(_) => 160_000,
            LiveKind::V2 { .. } => 100_000,
            LiveKind::AeroVol { .. } => 110_000,
            LiveKind::AeroStable { .. } => 120_000,
        }
    }

    fn address(&self) -> (r: Address) {
        self.address
    }

    fn protocol(&self) -> (r: Protocol) {
        match &self.kind {
            LiveKind::V3(_) => Protocol::UniswapV3,
            LiveKind::AeroStable { .. } => Protocol::SolidlyStable,
            _ => Protocol::UniswapV2,
        }
    }

    fn tokens(&self) -> (r: &[Address]) {
        self.tokens.as_slice()
    }

    fn quote(&self, token_in: Address, token_out: Address, amount_in: U256) -> (r: Result<
        U256,
        SimError,
    >) {
        match &self.kind {
            LiveKind::V3(s) => s.quote(token_in, token_out, amount_in),
            LiveKind::V2 { sim, last } => sim.quote(token_in, token_out, amount_in),
            LiveKind::AeroVol { sim, last } => sim.quote(token_in, token_out, amount_in),
            LiveKind::AeroStable { sim, last } => sim.quote(token_in, token_out, amount_in),
        }
    }

    fn gas_estimate(&self) -> (r: u64) {
        match &self.kind {
            LiveKind::V3(s) => s.as_pool().gas_estimate(),
            LiveKind::V2 { sim, last } => sim.gas_estimate(),
            LiveKind::AeroVol { sim, last } => sim.gas_estimate(),
            LiveKind::AeroStable { sim, last } => sim.gas_estimate(),
        }
    }
}

/// A live pool of a listed one.
pub open spec fn is_live_of(pool: LivePool, p: PoolInfo) -> bool {
    pool.address == p.address && pool.tokens@ == seq![p.token0, p.token1]
}

/// The live pool of a V3 pool whose state was read.
pub fn live_v3(p: &PoolInfo, state: V3PoolState) -> (r: LivePool)
    ensures
        is_live_of(r, *p),
        r.kind == LiveKind::V3(state),
{
    LivePool { address: p.address, tokens: [p.token0, p.token1], kind: LiveKind::V3(state) }
}

/// The live pool of an Aerodrome pool read at `block`; none for an empty pool.
pub fn live_aero(
    p: &PoolInfo,
    stable: bool,
    r0: U256,
    r1: U256,
    fee_bps: u32,
    d0: u8,
    d1: u8,
    block: u64,
) -> (r: Option<LivePool>)
    ensures
        r is None <==> (r0@ == 0 || r1@ == 0),
        r matches Some(pool) ==> is_live_of(pool, *p) && match pool.kind {
            LiveKind::AeroStable { sim, last } => stable && is_stable_of(
                sim,
                *p,
                r0,
                r1,
                d0,
                d1,
                fee_bps,
            ) && last == (block, u64::MAX),
            LiveKind::AeroVol { sim, last } => !stable && is_volatile_of(
                sim,
                *p,
                r0,
                r1,
                fee_bps,
            ) && last == (block, u64::MAX),
            _ => false,
        },
{
    if r0.is_zero() || r1.is_zero() {
        return None;
    }
    let last: (u64, u64) = (block, u64::MAX);
    let kind = if stable {
        LiveKind::AeroStable {
            sim: SolidlyStablePool::new(p.address, p.token0, p.token1, r0, r1, d0, d1, fee_bps),
            last,
        }
    } else {
        LiveKind::AeroVol {
            sim: AerodromeVolatilePool::new(p.address, p.token0, p.token1, r0, r1, fee_bps),
            last,
        }
    };
    Some(LivePool { address: p.address, tokens: [p.token0, p.token1], kind })
}

/// The live pool of a V2 pair read at `block`; none for an empty pair.
pub fn live_v2(p: &PoolInfo, r0: U256, r1: U256, fee_bps: u32, block: u64) -> (r: Option<LivePool>)
    ensures
        r is None <==> (r0@ == 0 || r1@ == 0),
        r matches Some(pool) ==> is_live_of(pool, *p) && match pool.kind {
            LiveKind::V2 { sim, last } => is_v2_of(sim, *p, r0, r1, fee_bps) && last == (
                block,
                u64::MAX,
            ),
            _ => false,
        },
{
    if r0.is_zero() || r1.is_zero() {
        return None;
    }
    Some(
        LivePool {
            address: p.address,
            tokens: [p.token0, p.token1],
            kind: LiveKind::V2 {
                sim: UniV2Pool::new(p.address, p.token0, p.token1, r0, r1, fee_bps),
                last: (block, u64::MAX),
            },
        },
    )
}

/// The reading whose failure fails the build of a live pool.
pub open spec fn live_failure(p: PoolInfo, r: Readings) -> Option<SourceError> {
    match family_of(p) {
        Some(Family::V3) => match (r.slot0, r.ticks) {
            (Some(Err(e)), _) => Some(e),
            (Some(Ok(_)), Some(Err(e))) => Some(e),
            _ => None,
        },
        _ => sim_failure(p, r),
    }
}

/// The readings make a live pool. A V3 pool without liquidity is one: its events may add some.
pub open spec fn makes_live(p: PoolInfo, r: Readings) -> bool {
    match family_of(p) {
        Some(Family::V3) => match (r.slot0, r.ticks) {
            (Some(Ok(_)), Some(Ok(_))) => true,
            _ => false,
        },
        _ => makes_sim(p, r),
    }
}

/// The live pool holds the state that the readings at `block` show.
pub open spec fn shows(
    pool: LivePool,
    p: PoolInfo,
    r: Readings,
    d0: u8,
    d1: u8,
    block: u64,
    window_ticks: i32,
) -> bool {
    &&& is_live_of(pool, p)
    &&& match pool.kind {
        LiveKind::V3(s) => {
            let snap = r.slot0->0->Ok_0;
            let ticks = r.ticks->0->Ok_0@;
            &&& family_of(p) == Some(Family::V3)
            &&& s.address == p.address
            &&& s.token0 == p.token0
            &&& s.token1 == p.token1
            &&& s.fee_pips == fee_or_zero(p)
            &&& s.tick_spacing == snap.tick_spacing
            &&& s.sqrt_price_x96 == snap.sqrt_price_x96
            &&& s.liquidity == snap.liquidity
            &&& s.tick == snap.tick
            &&& s.ticks@ == tick_entries(ticks, ticks.len() as int)
            &&& s.last_key == (block, u64::MAX)
            &&& s.snapshot_block == block
            &&& s.window == window_of(snap.tick, window_ticks)
        },
        LiveKind::V2 { sim, last } => last == (block, u64::MAX) && is_sim_of(
            AnyPool::V2(sim),
            p,
            r,
            d0,
            d1,
        ),
        LiveKind::AeroVol { sim, last } => last == (block, u64::MAX) && is_sim_of(
            AnyPool::AeroVolatile(sim),
            p,
            r,
            d0,
            d1,
        ),
        LiveKind::AeroStable { sim, last } => last == (block, u64::MAX) && is_sim_of(
            AnyPool::AeroStable(sim),
            p,
            r,
            d0,
            d1,
        ),
    }
}

/// Build a pool's initial live state from what was read of it at `block` (a positive window means
/// that only the ticks around the current one were read), the decimals of its tokens given.
pub fn build_live_pool(
    p: &PoolInfo,
    r: Readings,
    d0: u8,
    d1: u8,
    block: u64,
    window_ticks: i32,
) -> (pool: Result<Option<LivePool>, SourceError>)
    requires
        read_after(*p, r, false) is Done,
        r.fee_fits(),
        window_ticks > 0 && r.slot0 is Some && r.slot0->0 is Ok ==> window_fits(
            r.slot0->0->Ok_0.tick,
            window_ticks,
        ),
    ensures
        match pool {
            Err(e) => live_failure(*p, r) == Some(e),
            Ok(None) => live_failure(*p, r) is None && !makes_live(*p, r),
            Ok(Some(pool)) => makes_live(*p, r) && shows(
                pool,
                *p,
                r,
                d0,
                d1,
                block,
                window_ticks,
            ),
        },
{
    match family(p) {
        None => Ok(None),
        Some(Family::V3) => match (r.slot0, r.ticks) {
            (Some(Err(e)), _) => Err(e),
            (Some(Ok(_)), Some(Err(e))) => Err(e),
            (Some(Ok(snap)), Some(Ok(ticks))) => {
                let fee: u32 = match p.fee_bps {
                    Some(fee) => fee,
                    None => 0,
                };
                let state = V3PoolState::from_snapshot(
                    p.address,
                    p.token0,
                    p.token1,
                    fee,
                    block,
                    snap,
                    ticks.as_slice(),
                    window_to_read(snap.tick, window_ticks),
                );
                Ok(Some(live_v3(p, state)))
            },
            _ => Ok(None),
        },
        Some(Family::Aerodrome) => match (r.stable, r.reserves, r.fee) {
            (Some(Ok(_)), Some(Err(e)), _) => Err(e),
            (Some(Ok(stable)), Some(Ok((r0, r1))), Some(Ok(fee))) => Ok(
                live_aero(p, stable, r0, r1, factory_fee(fee), d0, d1, block),
            ),
            (Some(Ok(_)), Some(Ok((r0, r1))), Some(Err(e))) => if r0.is_zero() || r1.is_zero() {
                Ok(None)
            } else {
                Err(e)
            },
            _ => Ok(None),
        },
        Some(Family::V2 { fee_bps }) => match r.reserves {
            Some(Ok((r0, r1))) => Ok(live_v2(p, r0, r1, fee_bps, block)),
            _ => Ok(None),
        },
    }
}

/// A log reaches the pool that emitted it, and only that one.
pub open spec fn routed(
    before: Map<Address, LivePool>,
    after: Map<Address, LivePool>,
    log: Log,
) -> bool {
    &&& after.dom() == before.dom()
    &&& forall|a: Address| #[trigger]
        after.dom().contains(a) && a != log.address ==> after[a] == before[a]
    &&& before.dom().contains(log.address) ==> kind_after(
        before[log.address].kind,
        after[log.address].kind,
        log,
    ) && after[log.address].address == before[log.address].address && after[log.address].tokens
        == before[log.address].tokens
}

/// Hand a log to the live pool that emitted it. Returns true if it was applied.
pub fn route_log(reg: &mut AddressMap<LivePool>, log: &Log) -> (r: bool)
    requires
        old(reg)@.dom().contains(log.address) ==> kind_fits(old(reg)@[log.address].kind, *log),
    ensures
        routed(old(reg)@, final(reg)@, *log),
        r == (old(reg)@.dom().contains(log.address) && takes(
            old(reg)@[log.address].kind,
            *log,
        )),
{
    match reg.remove(log.address) {
        None => {
            assert(reg@ =~= old(reg)@);
            false
        },
        Some(pool) => {
            let mut pool: LivePool = pool;
            let r = pool.apply_log(log);
            reg.insert(log.address, pool);
            assert(reg@.dom() =~= old(reg)@.dom());
            r
        },
    }
}

/// Hand a log to the live pool that emitted it, if what it changes can be held. Returns whether it
/// was applied, and nothing, with all pools as they were, if the change cannot be held.
pub fn try_route_log(reg: &mut AddressMap<LivePool>, log: &Log) -> (r: Option<bool>)
    ensures
        match r {
            Some(done) => {
                &&& old(reg)@.dom().contains(log.address) ==> kind_fits(
                    old(reg)@[log.address].kind,
                    *log,
                )
                &&& routed(old(reg)@, final(reg)@, *log)
                &&& done == (old(reg)@.dom().contains(log.address) && takes(
                    old(reg)@[log.address].kind,
                    *log,
                ))
            },
            None => {
                &&& old(reg)@.dom().contains(log.address)
                &&& !kind_fits(old(reg)@[log.address].kind, *log)
                &&& *final(reg) == *old(reg)
            },
        },
{
    if let Some(pool) = reg.get(log.address) {
        if !pool.accepts_log(log) {
            return None;
        }
    }
    Some(route_log(reg, log))
}

/// What a screen looks for.
#[derive(Debug, Clone, Copy)]
pub struct ScreenTerms {
    /// One base-token unit: the smallest size that is probed.
    pub scale: U256,
    /// The largest size.
    pub amount_in: U256,
    pub gas_price: U256,
    /// Base-token units per 10^18 wei.
    pub ratio: U256,
    pub min_profit: U256,
}

/// A cycle that nets enough in memory, at its best size.
#[derive(Debug, Clone, Copy)]
pub struct Candidate {
    pub net: U256,
    pub gas_cost: U256,
    pub amount: U256,
    /// Its place among the cycles.
    pub cycle: usize,
}

/// A candidate in mathematical integers.
pub struct CandidateView {
    pub net: int,
    pub gas_cost: int,
    pub amount: int,
    pub cycle: int,
}

impl Candidate {
    /// The candidate in mathematical integers.
    pub open spec fn model(self) -> CandidateView {
        CandidateView {
            net: self.net@,
            gas_cost: self.gas_cost@,
            amount: self.amount@,
            cycle: self.cycle as int,
        }
    }
}

/// The candidates in mathematical integers.
pub open spec fn candidate_views(v: Seq<Candidate>) -> Seq<CandidateView> {
    v.map_values(|c: Candidate| c.model())
}

/// What a screen of cycles found.
#[derive(Debug)]
pub struct Screen {
    /// The cycles that net enough, in their order.
    pub candidates: Vec<Candidate>,
    /// Cycles of which a pool is not live.
    pub missing: usize,
    /// Cycles whose rate exceeds one at their best size.
    pub latent: usize,
    /// The largest net profit of any cycle.
    pub best_net: U256,
}

/// The best size of a cycle through live pools, if it has one.
#[verifier::opaque]
pub open spec fn live_size(
    reg: Map<Address, LivePool>,
    cycle: Seq<Edge>,
    t: ScreenTerms,
) -> Option<int> {
    if is_loaded(reg, cycle) {
        best_size_value(
            loaded_legs(reg, cycle),
            t.scale@,
            t.amount_in@,
            t.gas_price@,
            t.ratio@,
        )
    } else {
        None
    }
}

/// What a cycle nets at its best size, if anything.
#[verifier::opaque]
pub open spec fn live_net(
    reg: Map<Address, LivePool>,
    cycle: Seq<Edge>,
    t: ScreenTerms,
    i: int,
) -> Option<CandidateView> {
    match live_size(reg, cycle, t) {
        None => None,
        Some(x) => match net_value(loaded_legs(reg, cycle), x, t.gas_price@, t.ratio@) {
            Err(_) => None,
            Ok(n) => match n.net_profit {
                None => None,
                Some(net) => Some(
                    CandidateView { net, gas_cost: n.gas_cost, amount: x, cycle: i },
                ),
            },
        },
    }
}

/// The candidates among the first `n` cycles.
pub open spec fn candidates(
    reg: Map<Address, LivePool>,
    cycles: Seq<Vec<Edge>>,
    t: ScreenTerms,
    n: int,
) -> Seq<CandidateView>
    decreases n,
{
    if n <= 0 {
        Seq::empty()
    } else {
        let before = candidates(reg, cycles, t, n - 1);
        match live_net(reg, cycles[n - 1]@, t, n - 1) {
            None => before,
            Some(c) => if c.net >= t.min_profit@ {
                before.push(c)
            } else {
                before
            },
        }
    }
}

/// How many of the first `n` cycles miss a pool.
pub open spec fn missing(reg: Map<Address, LivePool>, cycles: Seq<Vec<Edge>>, n: int) -> int
    decreases n,
{
    if n <= 0 {
        0
    } else {
        missing(reg, cycles, n - 1) + if is_loaded(reg, cycles[n - 1]@) {
            0int
        } else {
            1
        }
    }
}

/// How many of the first `n` cycles have a best size.
pub open spec fn latent(
    reg: Map<Address, LivePool>,
    cycles: Seq<Vec<Edge>>,
    t: ScreenTerms,
    n: int,
) -> int
    decreases n,
{
    if n <= 0 {
        0
    } else {
        latent(reg, cycles, t, n - 1) + if live_size(reg, cycles[n - 1]@, t) is Some {
            1int
        } else {
            0
        }
    }
}

/// The largest net profit among the first `n` cycles.
pub open spec fn best_net(
    reg: Map<Address, LivePool>,
    cycles: Seq<Vec<Edge>>,
    t: ScreenTerms,
    n: int,
) -> int
    decreases n,
{
    if n <= 0 {
        0
    } else {
        let before = best_net(reg, cycles, t, n - 1);
        match live_net(reg, cycles[n - 1]@, t, n - 1) {
            Some(c) => if c.net > before {
                c.net
            } else {
                before
            },
            None => before,
        }
    }
}

/// A leg through a live pool quotes and costs what the pool does.
proof fn lemma_live_leg(pool: LivePool, e: Edge)
    ensures
        leg_of(pool, e).pool.wf(),
        leg_of(pool, e).pool.spec_gas() == pool.spec_gas(),
{
    let leg = Leg { pool: &pool, token_in: e.from, token_out: e.to };
    assert(leg.pool.wf() == pool.wf());
}

proof fn lemma_live_gas(reg: Map<Address, LivePool>, cycle: Seq<Edge>, k: int)
    requires
        0 <= k <= cycle.len(),
    ensures
        0 <= gas_of(loaded_legs(reg, cycle), k) <= k * 160_000,
    decreases k,
{
    if k > 0 {
        lemma_live_gas(reg, cycle, k - 1);
        lemma_live_leg(reg[cycle[k - 1].pool], cycle[k - 1]);
    }
}

/// A cycle through live pools can be priced, unless it is too long for its gas to be counted.
pub proof fn live_cycles_are_priceable(reg: Map<Address, LivePool>, cycle: Seq<Edge>)
    requires
        cycle.len() * 160_000 <= u64::MAX,
    ensures
        is_priceable(reg, cycle),
{
    let legs = loaded_legs(reg, cycle);
    assert forall|i: int| 0 <= i < legs.len() implies (#[trigger] legs[i]).pool.wf()
        && legs[i].pool.spec_gas() >= 0 by {
        lemma_live_leg(reg[cycle[i].pool], cycle[i]);
    }
    lemma_live_gas(reg, cycle, cycle.len() as int);
}

/// What a screen makes of one cycle.
enum Screened {
    /// A pool of the cycle is not live.
    Missing,
    /// No size has a rate above one.
    Flat,
    /// The cycle has a best size; what it nets there, if anything.
    Rising(Option<Candidate>),
}

/// Screen the `i`-th cycle.
fn screen_cycle(reg: &AddressMap<LivePool>, cycle: &Vec<Edge>, t: ScreenTerms, i: usize) -> (r:
    Screened)
    requires
        cycle@.len() * 160_000 <= u64::MAX,
    ensures
        match r {
            Screened::Missing => !is_loaded(reg@, cycle@) && live_size(reg@, cycle@, t) is None
                && live_net(reg@, cycle@, t, i as int) is None,
            Screened::Flat => is_loaded(reg@, cycle@) && live_size(reg@, cycle@, t) is None
                && live_net(reg@, cycle@, t, i as int) is None,
            Screened::Rising(c) => {
                &&& is_loaded(reg@, cycle@)
                &&& live_size(reg@, cycle@, t) is Some
                &&& live_net(reg@, cycle@, t, i as int) == (match c {
                    Some(c) => Some(c.model()),
                    None => None,
                })
            },
        },
{
    proof {
        reveal(live_size);
        reveal(live_net);
        live_cycles_are_priceable(reg@, cycle@);
    }
    match legs_through(reg, cycle) {
        None => Screened::Missing,
        Some(legs) => match best_size(
            legs.as_slice(),
            t.scale,
            t.amount_in,
            t.gas_price,
            t.ratio,
        ) {
            None => Screened::Flat,
            Some(s) => Screened::Rising(
                match s.result.net_profit {
                    Some(net) => Some(
                        Candidate {
                            net,
                            gas_cost: s.result.gas_cost_in_token,
                            amount: s.amount_in,
                            cycle: i,
                        },
                    ),
                    None => None,
                },
            ),
        },
    }
}

/// Screen cycles in memory. For each cycle, the trade size that maximizes net profit is searched
/// for: a fixed size is too big for thin pools and irrelevant on deep ones.
pub fn screen(reg: &AddressMap<LivePool>, cycles: &[Vec<Edge>], t: ScreenTerms) -> (r: Screen)
    requires
        forall|i: int|
            0 <= i < cycles@.len() ==> (#[trigger] cycles@[i])@.len() * 160_000 <= u64::MAX,
    ensures
        candidate_views(r.candidates@) == candidates(reg@, cycles@, t, cycles@.len() as int),
        r.missing == missing(reg@, cycles@, cycles@.len() as int),
        r.latent == latent(reg@, cycles@, t, cycles@.len() as int),
        r.best_net@ == best_net(reg@, cycles@, t, cycles@.len() as int),
{
    let mut found = Screen {
        candidates: Vec::new(),
        missing: 0,
        latent: 0,
        best_net: U256::zero(),
    };
    let mut i: usize = 0;
    assert(candidate_views(found.candidates@) =~= Seq::<CandidateView>::empty());
    while i < cycles.len()
        invariant
            i <= cycles@.len(),
            forall|i: int|
                0 <= i < cycles@.len() ==> (#[trigger] cycles@[i])@.len() * 160_000 <= u64::MAX,
            found.holds(reg@, cycles@, t, i as int),
        decreases cycles@.len() - i,
    {
        let screened = screen_cycle(reg, &cycles[i], t, i);
        found.note(screened, t.min_profit);
        assert(found.holds(reg@, cycles@, t, i + 1));
        i = i + 1;
    }
    found
}

impl Screen {
    /// What a screen of the first `n` cycles found.
    pub open spec fn holds(
        &self,
        reg: Map<Address, LivePool>,
        cycles: Seq<Vec<Edge>>,
        t: ScreenTerms,
        n: int,
    ) -> bool {
        &&& candidate_views(self.candidates@) == candidates(reg, cycles, t, n)
        &&& self.missing == missing(reg, cycles, n)
        &&& self.latent == latent(reg, cycles, t, n)
        &&& self.best_net@ == best_net(reg, cycles, t, n)
        &&& self.missing <= n
        &&& self.latent <= n
    }

    /// Take in what a screen makes of one more cycle.
    fn note(&mut self, screened: Screened, min_profit: U256)
        requires
            old(self).missing < usize::MAX,
            old(self).latent < usize::MAX,
        ensures
            final(self).missing == old(self).missing + (if screened is Missing {
                1int
            } else {
                0
            }),
            final(self).latent == old(self).latent + (if screened is Rising {
                1int
            } else {
                0
            }),
            match screened {
                Screened::Rising(Some(c)) => {
                    &&& final(self).best_net@ == (if c.net@ > old(self).best_net@ {
                        c.net@
                    } else {
                        old(self).best_net@
                    })
                    &&& candidate_views(final(self).candidates@) == (if c.net@ >= min_profit@ {
                        candidate_views(old(self).candidates@).push(c.model())
                    } else {
                        candidate_views(old(self).candidates@)
                    })
                },
                _ => final(self).best_net == old(self).best_net && final(self).candidates == old(
                    self,
                ).candidates,
            },
    {
        match screened {
            Screened::Missing => {
                self.missing = self.missing + 1;
            },
            Screened::Flat => {},
            Screened::Rising(c) => {
                self.latent = self.latent + 1;
                if let Some(candidate) = c {
                    if candidate.net > self.best_net {
                        self.best_net = candidate.net;
                    }
                    if candidate.net >= min_profit {
                        let ghost before = self.candidates@;
                        self.candidates.push(candidate);
                        assert(candidate_views(self.candidates@) =~= candidate_views(before).push(
                            candidate.model(),
                        ));
                    }
                }
            },
        }
    }
}

/// Keys that sort by net profit, the largest first.
pub open spec fn net_keys(v: Seq<Candidate>) -> Seq<int> {
    v.map_values(|c: Candidate| two256() - 1 - c.net@)
}

/// The candidates with the largest net profit first, at most `n` of them.
pub open spec fn best_candidates(v: Seq<Candidate>, n: int) -> Seq<Candidate> {
    let sorted = sort_by_keys(v, net_keys(v));
    if n < sorted.len() {
        sorted.take(n)
    } else {
        sorted
    }
}

/// The candidates to confirm on chain: the best `max_confirm`, and one at least.
pub fn shortlist(found: &Vec<Candidate>, max_confirm: usize) -> (r: Vec<Candidate>)
    ensures
        r@ == best_candidates(
            found@,
            if max_confirm >= 1 {
                max_confirm as int
            } else {
                1
            },
        ),
{
    broadcast use lemma_u256_range;

    let mut keys: Vec<U256> = Vec::new();
    let mut i: usize = 0;
    while i < found.len()
        invariant
            i <= found.len(),
            keys.len() == i,
            forall|j: int| 0 <= j < i ==> (#[trigger] keys@[j])@ == two256() - 1 - found@[j].net@,
        decreases found.len() - i,
    {
        broadcast use lemma_u256_range;

        let net: U256 = found[i].net;
        proof {
            vstd::arithmetic::div_mod::lemma_small_mod(
                (two256() - 1 - net@) as nat,
                two256() as nat,
            );
        }
        keys.push(U256::max_value().wrapping_sub(net));
        i = i + 1;
    }
    assert(key_values(keys@) =~= net_keys(found@));
    let mut sorted = sorted_by_keys(found.as_slice(), keys.as_slice());
    let bound: usize = if max_confirm >= 1 {
        max_confirm
    } else {
        1
    };
    if bound < sorted.len() {
        sorted.truncate(bound);
    }
    assert(sorted@ =~= best_candidates(found@, bound as int));
    sorted
}

/// A walk along a cycle that asks the chain for each hop's output and hands it to the next hop.
#[derive(Debug, Clone, Copy)]
pub struct CycleCheck {
    /// The amount that the next hop takes.
    pub amount: U256,
    /// How many hops the chain has answered.
    pub done: usize,
    /// The chain refused a hop.
    pub refused: bool,
}

/// What the first `n` answers make of an amount: each hop must return something.
pub open spec fn answered(amount: U256, answers: Seq<Option<GtOutcome>>, n: int) -> Option<U256>
    decreases n,
{
    if n <= 0 {
        Some(amount)
    } else {
        match answered(amount, answers, n - 1) {
            None => None,
            Some(_) => match answers[n - 1] {
                Some(GtOutcome::Out(out)) => if out@ != 0 {
                    Some(out)
                } else {
                    None
                },
                _ => None,
            },
        }
    }
}

impl CycleCheck {
    /// A walk that starts with `amount_in`.
    pub fn new(amount_in: U256) -> (r: CycleCheck)
        ensures
            r == (CycleCheck { amount: amount_in, done: 0, refused: false }),
    {
        CycleCheck { amount: amount_in, done: 0, refused: false }
    }

    /// The hop to ask for next, if any is left.
    pub fn next_hop<'a>(&self, cycle: &'a Vec<Edge>) -> (r: Option<&'a Edge>)
        ensures
            match r {
                Some(e) => !self.refused && self.done < cycle.len() && *e
                    == cycle@[self.done as int],
                None => self.refused || self.done >= cycle.len(),
            },
    {
        if self.refused || self.done >= cycle.len() {
            None
        } else {
            Some(&cycle[self.done])
        }
    }

    /// Take the chain's answer for a hop: a revert, a zero or no answer ends the walk.
    pub fn answer(&mut self, outcome: Option<GtOutcome>)
        requires
            old(self).done < usize::MAX,
        ensures
            final(self).done == old(self).done + 1,
            match outcome {
                Some(GtOutcome::Out(out)) => if out@ != 0 {
                    final(self).amount == out && final(self).refused == old(self).refused
                } else {
                    final(self).refused && final(self).amount == old(self).amount
                },
                _ => final(self).refused && final(self).amount == old(self).amount,
            },
    {
        match outcome {
            Some(GtOutcome::Out(out)) => {
                if out.is_zero() {
                    self.refused = true;
                } else {
                    self.amount = out;
                }
            },
            _ => {
                self.refused = true;
            },
        }
        self.done = self.done + 1;
    }

    /// What the cycle returns on chain, or `None` if a hop reverts or returns zero.
    pub fn output(&self) -> (r: Option<U256>)
        ensures
            r == (if self.refused {
                None
            } else {
                Some(self.amount)
            }),
    {
        if self.refused {
            None
        } else {
            Some(self.amount)
        }
    }
}

/// A check says what `n` answers make of an amount.
pub open spec fn says(check: CycleCheck, amount: U256, answers: Seq<Option<GtOutcome>>) -> bool {
    &&& check.done == answers.len()
    &&& answered(amount, answers, answers.len() as int) == (if check.refused {
        None
    } else {
        Some(check.amount)
    })
}

/// A check that starts says what no answers make of its amount, and each answer keeps it right:
/// the output of a walk is what the chain's answers, one after the other, make of the amount.
pub proof fn checks_thread_the_answers(
    before: CycleCheck,
    after: CycleCheck,
    amount: U256,
    answers: Seq<Option<GtOutcome>>,
    outcome: Option<GtOutcome>,
)
    requires
        says(before, amount, answers),
        after.done == before.done + 1,
        match outcome {
            Some(GtOutcome::Out(out)) => if out@ != 0 {
                after.amount == out && after.refused == before.refused
            } else {
                after.refused && after.amount == before.amount
            },
            _ => after.refused && after.amount == before.amount,
        },
    ensures
        says(CycleCheck { amount, done: 0, refused: false }, amount, Seq::empty()),
        says(after, amount, answers.push(outcome)),
{
    lemma_answered_prefix(amount, answers, answers.push(outcome), answers.len() as int);
}

proof fn lemma_answered_prefix(
    amount: U256,
    a: Seq<Option<GtOutcome>>,
    b: Seq<Option<GtOutcome>>,
    n: int,
)
    requires
        n <= a.len(),
        n <= b.len(),
        forall|i: int| 0 <= i < n ==> a[i] == b[i],
    ensures
        answered(amount, a, n) == answered(amount, b, n),
    decreases n,
{
    if n > 0 {
        lemma_answered_prefix(amount, a, b, n - 1);
    }
}

/// What came of confirming a candidate on chain.
#[derive(Debug, Clone, Copy, PartialEq, Eq, Structural)]
pub enum Verdict {
    /// The chain pays this much more than the trade costs.
    Profit(U256),
    /// The chain pays this much less, or nothing more.
    Loss(U256),
    /// A hop reverts or returns zero.
    NotACycle,
}

/// What a trade of a candidate costs: its size and its gas.
pub open spec fn cost_of(c: Candidate) -> int {
    (c.amount@ + c.gas_cost@) % two256()
}

/// Hold a candidate against what its cycle returns on chain at its own size.
pub fn judge(c: Candidate, gross: Option<U256>) -> (r: Verdict)
    ensures
        match (gross, r) {
            (None, Verdict::NotACycle) => true,
            (Some(g), Verdict::Profit(net)) => g@ > cost_of(c) && net@ == g@ - cost_of(c),
            (Some(g), Verdict::Loss(d)) => g@ <= cost_of(c) && d@ == cost_of(c) - g@,
            _ => false,
        },
{
    broadcast use lemma_u256_range;

    let cost = c.amount.wrapping_add(c.gas_cost);
    match gross {
        None => Verdict::NotACycle,
        Some(g) => {
            if g > cost {
                proof {
                    vstd::arithmetic::div_mod::lemma_small_mod(
                        (g@ - cost@) as nat,
                        two256() as nat,
                    );
                }
                Verdict::Profit(g.wrapping_sub(cost))
            } else {
                proof {
                    vstd::arithmetic::div_mod::lemma_small_mod(
                        (cost@ - g@) as nat,
                        two256() as nat,
                    );
                }
                Verdict::Loss(cost.wrapping_sub(g))
            }
        },
    }
}

/// Whether a verdict confirms a candidate: it nets at least the smallest profit.
pub fn confirms(verdict: Verdict, min_profit: U256) -> (r: bool)
    ensures
        r == (verdict matches Verdict::Profit(net) && net@ >= min_profit@),
{
    match verdict {
        Verdict::Profit(net) => net >= min_profit,
        _ => false,
    }
}

/// Confirmed candidates, their net profit as the chain pays it, the largest first.
pub fn rank_confirmed(confirmed: &Vec<Candidate>) -> (r: Vec<Candidate>)
    ensures
        r@ == sort_by_keys(confirmed@, net_keys(confirmed@)),
{
    let all: usize = confirmed.len();
    let r = shortlist(confirmed, all);
    proof {
        crate::order::a_stable_order_exists(net_keys(confirmed@));
        assert(sort_by_keys(confirmed@, net_keys(confirmed@)).len() == confirmed.len());
    }
    r
}

/// What a watch has found so far.
#[derive(Debug, Clone, Copy)]
pub struct WatchTotals {
    /// The best confirmed profit of each evaluation, added up.
    pub total_potential: U256,
    pub profitable_blocks: u64,
}

impl WatchTotals {
    /// Nothing has been found yet.
    pub fn new() -> (r: WatchTotals)
        ensures
            r.total_potential@ == 0,
            r.profitable_blocks == 0,
    {
        WatchTotals { total_potential: U256::zero(), profitable_blocks: 0 }
    }

    /// Add the best of an evaluation's confirmed candidates, which stand the best first.
    pub fn record(&mut self, ranked: &Vec<Candidate>)
        requires
            old(self).profitable_blocks < u64::MAX,
        ensures
            ranked.len() == 0 ==> *final(self) == *old(self),
            ranked.len() > 0 ==> final(self).total_potential@ == (old(self).total_potential@
                + ranked@[0].net@) % two256() && final(self).profitable_blocks == old(
                self,
            ).profitable_blocks + 1,
    {
        if ranked.len() > 0 {
            self.total_potential = self.total_potential.wrapping_add(ranked[0].net);
            self.profitable_blocks = self.profitable_blocks + 1;
        }
    }
}

/// The state that candidates are confirmed against.
#[derive(Debug, Clone, Copy, PartialEq, Eq, Structural)]
pub enum BlockTag {
    /// A sealed block.
    Sealed(u64),
    /// The preconfirmed state.
    Pending,
}

/// An evaluation to be made.
#[derive(Debug, Clone, Copy, PartialEq, Eq, Structural)]
pub struct Evaluation {
    /// How many candidates are confirmed at most.
    pub max_confirm: usize,
    pub at: BlockTag,
}

/// The least time between two evaluations of preconfirmed state, in milliseconds.
pub const PENDING_PAUSE_MS: u64 = 800;

/// What drives the evaluations of a watch: sealed blocks, or, in pending mode, preconfirmations.
#[derive(Debug, Clone, Copy)]
pub struct Watcher {
    pub pending_mode: bool,
    /// How many findings are shown.
    pub top: usize,
    /// Sealed blocks seen.
    pub blocks: u64,
    /// When preconfirmed state was last evaluated.
    pub last_eval_ms: Option<u64>,
    pub gas_price: U256,
}

impl Watcher {
    /// A watch that has seen nothing yet.
    pub fn new(pending_mode: bool, top: usize, gas_price: U256) -> (r: Watcher)
        ensures
            r == (Watcher { pending_mode, top, blocks: 0, last_eval_ms: None, gas_price }),
    {
        Watcher { pending_mode, top, blocks: 0, last_eval_ms: None, gas_price }
    }

    /// A sealed block: it is counted, and evaluated unless preconfirmations drive the watch.
    pub fn on_head(&mut self, number: u64) -> (r: Option<Evaluation>)
        requires
            old(self).blocks < u64::MAX,
            !old(self).pending_mode ==> old(self).top * 2 <= usize::MAX,
        ensures
            *final(self) == (Watcher { blocks: (old(self).blocks + 1) as u64, ..*old(self) }),
            r == (if old(self).pending_mode {
                None
            } else {
                Some(
                    Evaluation {
                        max_confirm: if old(self).top >= 1 {
                            (old(self).top * 2) as usize
                        } else {
                            2
                        },
                        at: BlockTag::Sealed(number),
                    },
                )
            }),
    {
        self.blocks = self.blocks + 1;
        if self.pending_mode {
            return None;
        }
        let shown: usize = if self.top >= 1 {
            self.top
        } else {
            1
        };
        Some(Evaluation { max_confirm: shown * 2, at: BlockTag::Sealed(number) })
    }

    /// A preconfirmation at `now_ms`: preconfirmed state is evaluated, unless it just was.
    pub fn on_flashblock(&mut self, now_ms: u64) -> (r: Option<Evaluation>)
        ensures
            ({
                let paused = old(self).last_eval_ms matches Some(t) && now_ms - t < 800;
                let most: usize = if old(self).top < 1 {
                    1
                } else if old(self).top > 4 {
                    4
                } else {
                    old(self).top
                };
                &&& r == (if paused {
                    None
                } else {
                    Some(Evaluation { max_confirm: most, at: BlockTag::Pending })
                })
                &&& *final(self) == (if paused {
                    *old(self)
                } else {
                    Watcher { last_eval_ms: Some(now_ms), ..*old(self) }
                })
            }),
    {
        if let Some(t) = self.last_eval_ms {
            if now_ms < t || now_ms - t < PENDING_PAUSE_MS {
                return None;
            }
        }
        self.last_eval_ms = Some(now_ms);
        let most: usize = if self.top < 1 {
            1
        } else if self.top > 4 {
            4
        } else {
            self.top
        };
        Some(Evaluation { max_confirm: most, at: BlockTag::Pending })
    }

    /// A reading of the gas price; one that failed leaves the price as it was.
    pub fn on_gas_price(&mut self, price: Option<U256>)
        ensures
            *final(self) == (match price {
                Some(gas_price) => Watcher { gas_price, ..*old(self) },
                None => *old(self),
            }),
    {
        if let Some(price) = price {
            self.gas_price = price;
        }
    }
}

/// Confirmed candidates stand the best first, so an evaluation adds its largest profit.
pub proof fn the_best_is_recorded(confirmed: Seq<Candidate>, i: int)
    requires
        0 <= i < confirmed.len(),
    ensures
        sort_by_keys(confirmed, net_keys(confirmed))[0].net@ >= confirmed[i].net@,
{
    let keys = net_keys(confirmed);
    crate::order::a_stable_order_exists(keys);
    let order = crate::order::stable_order(keys);
    let sorted = sort_by_keys(confirmed, keys);
    crate::order::sorting_keeps_the_items(confirmed, keys, order, confirmed[i]);
    let k = choose|k: int| 0 <= k < sorted.len() && sorted[k] == confirmed[i];
    assert(0 <= order[0] < confirmed.len() && 0 <= order[k] < confirmed.len());
    if k > 0 {
        assert(crate::order::comes_before(keys, order[0], order[k]));
    }
}

/// Where a live pool's state stands in the chain: the last log that changed it.
pub open spec fn last_of(kind: LiveKind) -> (u64, u64) {
    match kind {
        LiveKind::V3(s) => s.last_key,
        LiveKind::V2 { sim, last } => last,
        LiveKind::AeroVol { sim, last } => last,
        LiveKind::AeroStable { sim, last } => last,
    }
}

/// No log is applied twice: once a log has changed a pool, it and every log before it change
/// nothing any more.
pub proof fn live_logs_apply_once(before: LiveKind, after: LiveKind, log: Log, older: Log)
    requires
        kind_after(before, after, log),
        takes(before, log),
        log.spec_key() matches Some(key) && older.spec_key() matches Some(other) && rank_of(
            other.0,
            other.1,
        ) <= rank_of(key.0, key.1),
    ensures
        last_of(after) == log.spec_key()->0,
        !takes(after, log),
        !takes(after, older),
{
}

/// A live pool that was read at a block takes no log of that block or an earlier one: the reading
/// holds them.
pub proof fn readings_hold_their_block(kind: LiveKind, block: u64, log: Log)
    requires
        last_of(kind) == (block, u64::MAX),
        log.spec_key() matches Some(key) && key.0 <= block,
    ensures
        !takes(kind, log),
{
    let key = log.spec_key()->0;
    assert(rank_of(key.0, key.1) <= rank_of(block, u64::MAX)) by {
        assert(key.0 * two64() <= block * two64()) by (nonlinear_arith)
            requires
                key.0 <= block,
        ;
    }
}

} // verus!
