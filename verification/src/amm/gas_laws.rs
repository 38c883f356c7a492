//! Laws of what the pools are: their protocol, and the gas that a swap takes.
use crate::amm::aerodrome::AerodromeVolatilePool;
use crate::amm::balancer::BalancerWeightedPool;
use crate::amm::curve::CurveStablePool;
use crate::amm::solidly::SolidlyStablePool;
use crate::amm::univ2::UniV2Pool;
use crate::amm::univ3::UniV3Pool;
use crate::live::base::loader::AnyPool;
use crate::live::base::synced::{LiveKind, LivePool};
use crate::pool::{Pool, Protocol};
use crate::types::Address;
use vstd::prelude::*;

verus! {

/// A swap takes a fixed amount of gas by its kind of pool: a V3 pool's own 120,000 and 20,000 for
/// each of two ticks that it is likely to cross.
pub proof fn swaps_take_their_gas(
    v2: UniV2Pool,
    volatile: AerodromeVolatilePool,
    stable: SolidlyStablePool,
    weighted: BalancerWeightedPool,
    curve: CurveStablePool,
    v3: UniV3Pool,
)
    ensures
        v2.spec_gas() == 100_000,
        volatile.spec_gas() == 110_000,
        stable.spec_gas() == 120_000,
        weighted.spec_gas() == 140_000,
        curve.spec_gas() == 150_000,
        v3.spec_gas() == 120_000 + 2 * 20_000,
{
}

/// Every pool is of its protocol; a volatile Aerodrome pool is a constant-product one.
pub proof fn pools_are_of_their_protocol(
    v2: UniV2Pool,
    volatile: AerodromeVolatilePool,
    stable: SolidlyStablePool,
    weighted: BalancerWeightedPool,
    curve: CurveStablePool,
    v3: UniV3Pool,
)
    ensures
        v2.spec_protocol() == Protocol::UniswapV2,
        volatile.spec_protocol() == Protocol::UniswapV2,
        stable.spec_protocol() == Protocol::SolidlyStable,
        weighted.spec_protocol() == Protocol::BalancerWeighted,
        curve.spec_protocol() == Protocol::CurveStable,
        v3.spec_protocol() == Protocol::UniswapV3,
{
}

/// A pool that was loaded quotes as the pool that it holds, and takes as much gas.
pub proof fn loaded_pools_are_what_they_hold(pool: AnyPool, a: Address, b: Address, x: int)
    ensures
        match pool {
            AnyPool::V3(p) => pool.spec_quote(a, b, x) == p.spec_quote(a, b, x) && pool.spec_gas()
                == p.spec_gas() && pool.spec_tokens() == p.spec_tokens() && pool.spec_address()
                == p.address,
            AnyPool::V2(p) => pool.spec_quote(a, b, x) == p.spec_quote(a, b, x) && pool.spec_gas()
                == p.spec_gas() && pool.spec_tokens() == p.spec_tokens() && pool.spec_address()
                == p.address,
            AnyPool::AeroVolatile(p) => pool.spec_quote(a, b, x) == p.spec_quote(a, b, x)
                && pool.spec_gas() == p.spec_gas() && pool.spec_tokens() == p.spec_tokens()
                && pool.spec_address() == p.address,
            AnyPool::AeroStable(p) => pool.spec_quote(a, b, x) == p.spec_quote(a, b, x)
                && pool.spec_gas() == p.spec_gas() && pool.spec_tokens() == p.spec_tokens()
                && pool.spec_address() == p.address,
        },
{
}

/// And so does a live pool.
pub proof fn live_pools_are_what_they_hold(pool: LivePool, a: Address, b: Address, x: int)
    ensures
        match pool.kind {
            LiveKind::V3(s) => pool.spec_quote(a, b, x) == s.spec_pool().spec_quote(a, b, x)
                && pool.spec_gas() == s.spec_pool().spec_gas(),
            LiveKind::V2 { sim, last } => pool.spec_quote(a, b, x) == sim.spec_quote(a, b, x)
                && pool.spec_gas() == sim.spec_gas(),
            LiveKind::AeroVol { sim, last } => pool.spec_quote(a, b, x) == sim.spec_quote(a, b, x)
                && pool.spec_gas() == sim.spec_gas(),
            LiveKind::AeroStable { sim, last } => pool.spec_quote(a, b, x) == sim.spec_quote(a, b, x)
                && pool.spec_gas() == sim.spec_gas(),
        },
        pool.spec_address() == pool.address,
        pool.spec_tokens() == seq![pool.tokens@[0], pool.tokens@[1]],
{
}

} // verus!
