//! Single source of truth for building an exact offline pool simulator from on-chain state. Both
//! the verifier and the ranker go through it, so the pools that pass verification are identical
//! to the pools that the ranker quotes against.
//!
//! Dispatch (Base):
//!   - `uniswap_v3` (Uniswap/Pancake V3): price, liquidity and full tick data.
//!   - exchange `aerodrome`: stable pools by the solidly invariant, volatile ones by the two-step
//!     fee constant product; the per-pool fee is read from the factory.
//!   - Uniswap/Pancake V2: reserves and a constant fee (30 / 25 bps).
use crate::amm::aerodrome::AerodromeVolatilePool;
use crate::amm::solidly::SolidlyStablePool;
use crate::amm::univ2::UniV2Pool;
use crate::amm::univ3::{sorted_ticks, TickData, UniV3Pool};
use crate::book::PoolInfo;
use crate::live::base::groundtruth::{router_of, v2_router};
use crate::live::base::v3state::{net_ticks, nets, V3Snapshot};
use crate::live::source::SourceError;
use crate::pool::{Pool, Protocol, SimError};
use crate::text::same_text;
use crate::types::{lemma_u256_range, two64, Address, U256};
use vstd::prelude::*;

verus! {

/// Aerodrome's pool factory on Base.
pub fn aero_factory() -> (r: Address)
    ensures
        r.hi == 0x420DD381,
        r.lo == 0xb31aEf6683db6B902084cB0FFECe40Da,
{
    Address { hi: 0x420DD381, lo: 0xb31aEf6683db6B902084cB0FFECe40Da }
}

/// A simulator of one of the supported families.
pub enum AnyPool {
    V3(UniV3Pool),
    V2(UniV2Pool),
    AeroVolatile(AerodromeVolatilePool),
    AeroStable(SolidlyStablePool),
}

impl Pool for AnyPool {
    open spec fn wf(&self) -> bool {
        match self {
            AnyPool::V3(p) => p.wf(),
            AnyPool::V2(p) => p.wf(),
            AnyPool::AeroVolatile(p) => p.wf(),
            AnyPool::AeroStable(p) => p.wf(),
        }
    }

    open spec fn spec_address(&self) -> Address {
        match self {
            AnyPool::V3(p) => p.spec_address(),
            AnyPool::V2(p) => p.spec_address(),
            AnyPool::AeroVolatile(p) => p.spec_address(),
            AnyPool::AeroStable(p) => p.spec_address(),
        }
    }

    open spec fn spec_protocol(&self) -> Protocol {
        match self {
            AnyPool::V3(p) => p.spec_protocol(),
            AnyPool::V2(p) => p.spec_protocol(),
            AnyPool::AeroVolatile(p) => p.spec_protocol(),
            AnyPool::AeroStable(p) => p.spec_protocol(),
        }
    }

    open spec fn spec_tokens(&self) -> Seq<Address> {
        match self {
            AnyPool::V3(p) => p.spec_tokens(),
            AnyPool::V2(p) => p.spec_tokens(),
            AnyPool::AeroVolatile(p) => p.spec_tokens(),
            AnyPool::AeroStable(p) => p.spec_tokens(),
        }
    }

    open spec fn spec_quote(
        &self,
        token_in: Address,
        token_out: Address,
        amount_in: int,
    ) -> Result<int, SimError> {
        match self {
            AnyPool::V3(p) => p.spec_quote(token_in, token_out, amount_in),
            AnyPool::V2(p) => p.spec_quote(token_in, token_out, amount_in),
            AnyPool::AeroVolatile(p) => p.spec_quote(token_in, token_out, amount_in),
            AnyPool::AeroStable(p) => p.spec_quote(token_in, token_out, amount_in),
        }
    }

    open spec fn spec_gas(&self) -> int {
        match self {
            AnyPool::V3(p) => p.spec_gas(),
            AnyPool::V2(p) => p.spec_gas(),
            AnyPool::AeroVolatile(p) => p.spec_gas(),
            AnyPool::AeroStable(p) => p.spec_gas(),
        }
    }

    fn address(&self) -> (r: Address) {
        match self {
            AnyPool::V3(p) => p.address(),
            AnyPool::V2(p) => p.address(),
            AnyPool::AeroVolatile(p) => p.address(),
            AnyPool::AeroStable(p) => p.address(),
        }
    }

    fn protocol(&self) -> (r: Protocol) {
        match self {
            AnyPool::V3(p) => p.protocol(),
            AnyPool::V2(p) => p.protocol(),
            AnyPool::AeroVolatile(p) => p.protocol(),
            AnyPool::AeroStable(p) => p.protocol(),
        }
    }

    fn tokens(&self) -> (r: &[Address]) {
        match self {
            AnyPool::V3(p) => p.tokens(),
            AnyPool::V2(p) => p.tokens(),
            AnyPool::AeroVolatile(p) => p.tokens(),
            AnyPool::AeroStable(p) => p.tokens(),
        }
    }

    fn quote(&self, token_in: Address, token_out: Address, amount_in: U256) -> (r: Result<
        U256,
        SimError,
    >) {
        match self {
            AnyPool::V3(p) => p.quote(token_in, token_out, amount_in),
            AnyPool::V2(p) => p.quote(token_in, token_out, amount_in),
            AnyPool::AeroVolatile(p) => p.quote(token_in, token_out, amount_in),
            AnyPool::AeroStable(p) => p.quote(token_in, token_out, amount_in),
        }
    }

    fn gas_estimate(&self) -> (r: u64) {
        match self {
            AnyPool::V3(p) => p.gas_estimate(),
            AnyPool::V2(p) => p.gas_estimate(),
            AnyPool::AeroVolatile(p) => p.gas_estimate(),
            AnyPool::AeroStable(p) => p.gas_estimate(),
        }
    }
}

/// How a pool's state is read.
#[derive(Debug, Clone, Copy, PartialEq, Eq, Structural)]
pub enum Family {
    V3,
    Aerodrome,
    V2 { fee_bps: u32 },
}

/// How a listed pool's state is read, if it is supported.
pub open spec fn family_of(p: PoolInfo) -> Option<Family> {
    if p.kind@ == "uniswap_v3"@ {
        Some(Family::V3)
    } else if p.exchange@ == "aerodrome"@ {
        Some(Family::Aerodrome)
    } else if router_of(p.exchange@) is Some {
        Some(
            Family::V2 {
                fee_bps: if p.exchange@ == "pancakeswap-v2"@ {
                    25
                } else {
                    30
                },
            },
        )
    } else {
        None
    }
}

/// How a listed pool's state is read, if it is supported.
pub fn family(p: &PoolInfo) -> (r: Option<Family>)
    ensures
        r == family_of(*p),
{
    if same_text(p.kind.as_str(), "uniswap_v3") {
        Some(Family::V3)
    } else if same_text(p.exchange.as_str(), "aerodrome") {
        Some(Family::Aerodrome)
    } else if v2_router(p.exchange.as_str()).is_some() {
        let pancake = same_text(p.exchange.as_str(), "pancakeswap-v2");
        Some(
            Family::V2 {
                fee_bps: if pancake {
                    25
                } else {
                    30
                },
            },
        )
    } else {
        None
    }
}

/// A listed fee, or none.
pub open spec fn fee_or_zero(p: PoolInfo) -> u32 {
    match p.fee_bps {
        Some(fee) => fee,
        None => 0,
    }
}

/// A V3 simulator of a listed pool.
pub open spec fn is_v3_of(pool: UniV3Pool, p: PoolInfo, snap: V3Snapshot, ticks: Seq<TickData>) -> bool {
    &&& pool.wf()
    &&& pool.address == p.address
    &&& pool.token0 == p.token0
    &&& pool.token1 == p.token1
    &&& pool.fee_pips == fee_or_zero(p)
    &&& pool.sqrt_price_x96 == snap.sqrt_price_x96
    &&& pool.liquidity == snap.liquidity
    &&& pool.tick == snap.tick
    &&& pool.tick_spacing == if snap.tick_spacing >= 1 {
        snap.tick_spacing
    } else {
        1
    }
    &&& pool.ticks@ == sorted_ticks(ticks)
    &&& pool.known_range is None
    &&& pool.tokens@ == seq![p.token0, p.token1]
}

/// A constant-product simulator of a listed pool.
pub open spec fn is_v2_of(pool: UniV2Pool, p: PoolInfo, r0: U256, r1: U256, fee_bps: u32) -> bool {
    &&& pool.address == p.address
    &&& pool.token0 == p.token0
    &&& pool.token1 == p.token1
    &&& pool.reserve0 == r0
    &&& pool.reserve1 == r1
    &&& pool.fee_bps == fee_bps
    &&& pool.spec_tokens() == seq![p.token0, p.token1]
}

/// A volatile simulator of a listed pool.
pub open spec fn is_volatile_of(
    pool: AerodromeVolatilePool,
    p: PoolInfo,
    r0: U256,
    r1: U256,
    fee_bps: u32,
) -> bool {
    &&& pool.address == p.address
    &&& pool.token0 == p.token0
    &&& pool.token1 == p.token1
    &&& pool.reserve0 == r0
    &&& pool.reserve1 == r1
    &&& pool.fee_bps == fee_bps
    &&& pool.spec_tokens() == seq![p.token0, p.token1]
}

/// A stable simulator of a listed pool.
pub open spec fn is_stable_of(
    pool: SolidlyStablePool,
    p: PoolInfo,
    r0: U256,
    r1: U256,
    d0: u8,
    d1: u8,
    fee_bps: u32,
) -> bool {
    &&& pool.address == p.address
    &&& pool.token0 == p.token0
    &&& pool.token1 == p.token1
    &&& pool.reserve0 == r0
    &&& pool.reserve1 == r1
    &&& pool.decimals0 == d0
    &&& pool.decimals1 == d1
    &&& pool.fee_bps == fee_bps
    &&& pool.spec_tokens() == seq![p.token0, p.token1]
}

/// Whether a V3 pool has a price and liquidity.
pub fn v3_is_live(snap: &V3Snapshot) -> (r: bool)
    ensures
        r == (snap.liquidity != 0 && snap.sqrt_price_x96@ != 0),
{
    snap.liquidity != 0 && !snap.sqrt_price_x96.is_zero()
}

/// The simulator of a V3 pool from what was read of it; none for a dead pool.
pub fn v3_sim(p: &PoolInfo, snap: V3Snapshot, ticks: Vec<TickData>) -> (r: Option<AnyPool>)
    ensures
        match r {
            None => snap.liquidity == 0 || snap.sqrt_price_x96@ == 0,
            Some(AnyPool::V3(pool)) => snap.liquidity != 0 && snap.sqrt_price_x96@ != 0
                && is_v3_of(pool, *p, snap, ticks@),
            _ => false,
        },
{
    if !v3_is_live(&snap) {
        return None;
    }
    let fee: u32 = match p.fee_bps {
        Some(fee) => fee,
        None => 0,
    };
    Some(
        AnyPool::V3(
            UniV3Pool::new(
                p.address,
                p.token0,
                p.token1,
                fee,
                snap.sqrt_price_x96,
                snap.liquidity,
                snap.tick,
                snap.tick_spacing,
                ticks,
            ),
        ),
    )
}

/// A fee that a factory returned, in basis points: its low 32 bits.
pub fn factory_fee(fee: U256) -> (r: u32)
    requires
        fee@ < two64(),
    ensures
        r == fee@ % 0x1_0000_0000,
{
    broadcast use lemma_u256_range;

    (fee.low_u128() % 0x1_0000_0000) as u32
}

/// The simulator of an Aerodrome pool from what was read of it; none for an empty pool.
pub fn aero_sim(
    p: &PoolInfo,
    stable: bool,
    r0: U256,
    r1: U256,
    fee_bps: u32,
    d0: u8,
    d1: u8,
) -> (r: Option<AnyPool>)
    ensures
        match r {
            None => r0@ == 0 || r1@ == 0,
            Some(AnyPool::AeroStable(pool)) => stable && r0@ != 0 && r1@ != 0 && is_stable_of(
                pool,
                *p,
                r0,
                r1,
                d0,
                d1,
                fee_bps,
            ),
            Some(AnyPool::AeroVolatile(pool)) => !stable && r0@ != 0 && r1@ != 0
                && is_volatile_of(pool, *p, r0, r1, fee_bps),
            _ => false,
        },
{
    if r0.is_zero() || r1.is_zero() {
        return None;
    }
    Some(
        if stable {
            AnyPool::AeroStable(
                SolidlyStablePool::new(p.address, p.token0, p.token1, r0, r1, d0, d1, fee_bps),
            )
        } else {
            AnyPool::AeroVolatile(
                AerodromeVolatilePool::new(p.address, p.token0, p.token1, r0, r1, fee_bps),
            )
        },
    )
}

/// The simulator of a V2 pair from what was read of it; none for an empty pair.
pub fn v2_sim(p: &PoolInfo, r0: U256, r1: U256, fee_bps: u32) -> (r: Option<AnyPool>)
    ensures
        match r {
            None => r0@ == 0 || r1@ == 0,
            Some(AnyPool::V2(pool)) => r0@ != 0 && r1@ != 0 && is_v2_of(pool, *p, r0, r1, fee_bps),
            _ => false,
        },
{
    if r0.is_zero() || r1.is_zero() {
        return None;
    }
    Some(AnyPool::V2(UniV2Pool::new(p.address, p.token0, p.token1, r0, r1, fee_bps)))
}

/// One reading of a pool's state on chain.
#[derive(Debug, Clone, Copy, PartialEq, Eq, Structural)]
pub enum Read {
    /// Price, liquidity, tick and tick spacing of a V3 pool.
    Slot0,
    /// The initialized ticks of a V3 pool.
    Ticks,
    /// Whether an Aerodrome pool is a stable one.
    Stable,
    /// Both reserves of a constant-product pair, which answers in 112 bits.
    Reserves,
    /// Both reserves of an Aerodrome pool, which answers in full words.
    WideReserves,
    /// The fee that Aerodrome's factory sets for the pool.
    Fee,
    /// Nothing more.
    Done,
}

/// What has been read of a pool so far: each reading with its result, where it has been made.
pub struct Readings {
    pub slot0: Option<Result<V3Snapshot, SourceError>>,
    /// Ticks with their gross and net liquidity.
    pub ticks: Option<Result<Vec<(i32, u128, i128)>, SourceError>>,
    pub stable: Option<Result<bool, SourceError>>,
    pub reserves: Option<Result<(U256, U256), SourceError>>,
    pub fee: Option<Result<U256, SourceError>>,
}

impl Readings {
    /// Nothing has been read yet.
    pub fn new() -> (r: Readings)
        ensures
            r.slot0 is None,
            r.ticks is None,
            r.stable is None,
            r.reserves is None,
            r.fee is None,
    {
        Readings { slot0: None, ticks: None, stable: None, reserves: None, fee: None }
    }

    /// A fee that was read is a number of 64 bits.
    pub open spec fn fee_fits(&self) -> bool {
        match self.fee {
            Some(Ok(fee)) => fee@ < two64(),
            _ => true,
        }
    }
}

/// A V3 pool with a price and liquidity.
pub open spec fn is_live(snap: V3Snapshot) -> bool {
    snap.liquidity != 0 && snap.sqrt_price_x96@ != 0
}

/// Both reserves are there.
pub open spec fn is_stocked(reserves: (U256, U256)) -> bool {
    reserves.0@ != 0 && reserves.1@ != 0
}

/// What is to be read of a pool next. With `prune`, the ticks of a dead V3 pool are not read.
pub open spec fn read_after(p: PoolInfo, r: Readings, prune: bool) -> Read {
    match family_of(p) {
        None => Read::Done,
        Some(Family::V3) => match r.slot0 {
            None => Read::Slot0,
            Some(Err(_)) => Read::Done,
            Some(Ok(snap)) => if prune && !is_live(snap) || r.ticks is Some {
                Read::Done
            } else {
                Read::Ticks
            },
        },
        Some(Family::Aerodrome) => match r.stable {
            None => Read::Stable,
            Some(Err(_)) => Read::Done,
            Some(Ok(_)) => match r.reserves {
                None => Read::WideReserves,
                Some(Err(_)) => Read::Done,
                Some(Ok(reserves)) => if !is_stocked(reserves) || r.fee is Some {
                    Read::Done
                } else {
                    Read::Fee
                },
            },
        },
        Some(Family::V2 { .. }) => if r.reserves is Some {
            Read::Done
        } else {
            Read::Reserves
        },
    }
}

/// What is to be read of a pool next. With `prune`, the ticks of a dead V3 pool are not read.
pub fn next_read(p: &PoolInfo, r: &Readings, prune: bool) -> (read: Read)
    ensures
        read == read_after(*p, *r, prune),
{
    match family(p) {
        None => Read::Done,
        Some(Family::V3) => match &r.slot0 {
            None => Read::Slot0,
            Some(Err(_)) => Read::Done,
            Some(Ok(snap)) => if (prune && !v3_is_live(snap)) || r.ticks.is_some() {
                Read::Done
            } else {
                Read::Ticks
            },
        },
        Some(Family::Aerodrome) => match &r.stable {
            None => Read::Stable,
            Some(Err(_)) => Read::Done,
            Some(Ok(_)) => match &r.reserves {
                None => Read::WideReserves,
                Some(Err(_)) => Read::Done,
                Some(Ok((r0, r1))) => if r0.is_zero() || r1.is_zero() || r.fee.is_some() {
                    Read::Done
                } else {
                    Read::Fee
                },
            },
        },
        Some(Family::V2 { .. }) => if r.reserves.is_some() {
            Read::Done
        } else {
            Read::Reserves
        },
    }
}

/// The reading whose failure fails the load of a simulator. A pool that does not answer its first
/// question is no pool of the family, and not a failure.
pub open spec fn sim_failure(p: PoolInfo, r: Readings) -> Option<SourceError> {
    match family_of(p) {
        Some(Family::V3) => match (r.slot0, r.ticks) {
            (Some(Ok(snap)), Some(Err(e))) => if is_live(snap) {
                Some(e)
            } else {
                None
            },
            _ => None,
        },
        Some(Family::Aerodrome) => match (r.stable, r.reserves, r.fee) {
            (Some(Ok(_)), Some(Err(e)), _) => Some(e),
            (Some(Ok(_)), Some(Ok(reserves)), Some(Err(e))) => if is_stocked(reserves) {
                Some(e)
            } else {
                None
            },
            _ => None,
        },
        _ => None,
    }
}

/// The readings make a simulator.
pub open spec fn makes_sim(p: PoolInfo, r: Readings) -> bool {
    match family_of(p) {
        None => false,
        Some(Family::V3) => match (r.slot0, r.ticks) {
            (Some(Ok(snap)), Some(Ok(_))) => is_live(snap),
            _ => false,
        },
        Some(Family::Aerodrome) => match (r.stable, r.reserves, r.fee) {
            (Some(Ok(_)), Some(Ok(reserves)), Some(Ok(_))) => is_stocked(reserves),
            _ => false,
        },
        Some(Family::V2 { .. }) => match r.reserves {
            Some(Ok(reserves)) => is_stocked(reserves),
            _ => false,
        },
    }
}

/// The simulator is the one that the readings make.
pub open spec fn is_sim_of(pool: AnyPool, p: PoolInfo, r: Readings, d0: u8, d1: u8) -> bool {
    match (family_of(p), pool) {
        (Some(Family::V3), AnyPool::V3(v3)) => is_v3_of(
            v3,
            p,
            r.slot0->0->Ok_0,
            nets(r.ticks->0->Ok_0@),
        ),
        (Some(Family::Aerodrome), AnyPool::AeroStable(sim)) => {
            let (r0, r1) = r.reserves->0->Ok_0;
            r.stable->0->Ok_0 && is_stable_of(
                sim,
                p,
                r0,
                r1,
                d0,
                d1,
                (r.fee->0->Ok_0@ % 0x1_0000_0000) as u32,
            )
        },
        (Some(Family::Aerodrome), AnyPool::AeroVolatile(sim)) => {
            let (r0, r1) = r.reserves->0->Ok_0;
            !r.stable->0->Ok_0 && is_volatile_of(
                sim,
                p,
                r0,
                r1,
                (r.fee->0->Ok_0@ % 0x1_0000_0000) as u32,
            )
        },
        (Some(Family::V2 { fee_bps }), AnyPool::V2(sim)) => {
            let (r0, r1) = r.reserves->0->Ok_0;
            is_v2_of(sim, p, r0, r1, fee_bps)
        },
        _ => false,
    }
}

/// Build the exact simulator of a pool from what was read of it on chain, the decimals of its
/// tokens given. Nothing comes of unsupported pools and of a dead or illiquid state.
pub fn load_sim(p: &PoolInfo, r: Readings, d0: u8, d1: u8) -> (sim: Result<
    Option<AnyPool>,
    SourceError,
>)
    requires
        read_after(*p, r, true) is Done,
        r.fee_fits(),
    ensures
        match sim {
            Err(e) => sim_failure(*p, r) == Some(e),
            Ok(None) => sim_failure(*p, r) is None && !makes_sim(*p, r),
            Ok(Some(pool)) => makes_sim(*p, r) && is_sim_of(pool, *p, r, d0, d1),
        },
{
    match family(p) {
        None => Ok(None),
        Some(Family::V3) => match (r.slot0, r.ticks) {
            (Some(Ok(snap)), Some(Ok(ticks))) => Ok(v3_sim(p, snap, net_ticks(ticks.as_slice()))),
            (Some(Ok(snap)), Some(Err(e))) => if v3_is_live(&snap) {
                Err(e)
            } else {
                Ok(None)
            },
            _ => Ok(None),
        },
        Some(Family::Aerodrome) => match (r.stable, r.reserves, r.fee) {
            (Some(Ok(_)), Some(Err(e)), _) => Err(e),
            (Some(Ok(stable)), Some(Ok((r0, r1))), Some(Ok(fee))) => Ok(
                aero_sim(p, stable, r0, r1, factory_fee(fee), d0, d1),
            ),
            (Some(Ok(_)), Some(Ok((r0, r1))), Some(Err(e))) => if r0.is_zero() || r1.is_zero() {
                Ok(None)
            } else {
                Err(e)
            },
            _ => Ok(None),
        },
        Some(Family::V2 { fee_bps }) => match r.reserves {
            Some(Ok((r0, r1))) => Ok(v2_sim(p, r0, r1, fee_bps)),
            _ => Ok(None),
        },
    }
}

} // verus!
