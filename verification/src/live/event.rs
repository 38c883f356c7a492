//! Chain event and state model shared by the streaming engine and its sources.
//!
//! Events carry the absolute state of a pool after the event, so applying one is idempotent and
//! the last write within a block wins.
use crate::types::{two64, Address, B256, U256};
use vstd::prelude::*;

verus! {

/// Absolute cached state of a pool.
#[derive(Clone, Copy, Debug, PartialEq, Eq, Structural)]
pub enum PoolState {
    UniV2 { reserve0: U256, reserve1: U256 },
    UniV3 { sqrt_price_x96: U256, liquidity: u128, tick: i32 },
}

/// What an event changed.
#[derive(Clone, Copy, Debug, PartialEq, Eq, Structural)]
pub enum EventKind {
    /// UniV2 and Solidly `Sync(uint112 reserve0, uint112 reserve1)`.
    SyncV2 { reserve0: U256, reserve1: U256 },
    /// UniV3 `Swap` price, liquidity and tick.
    SwapV3 { sqrt_price_x96: U256, liquidity: u128, tick: i32 },
}

/// A decoded, state-changing pool event in global stream order.
#[derive(Clone, Copy, Debug, PartialEq, Eq, Structural)]
pub struct PoolEvent {
    pub pool: Address,
    pub block: u64,
    pub log_index: u64,
    pub kind: EventKind,
}

/// An item delivered by a chain subscription: sealed blocks and their pool events.
#[derive(Clone, Copy, Debug, PartialEq, Eq, Structural)]
pub enum ChainItem {
    NewHead { number: u64, hash: B256, parent_hash: B256 },
    Event(PoolEvent),
}

/// The place of `(block, log_index)` in the total order of events.
pub open spec fn rank_of(block: u64, log_index: u64) -> int {
    block * two64() + log_index
}

/// The state that an event leaves behind.
pub open spec fn state_after(kind: EventKind) -> PoolState {
    match kind {
        EventKind::SyncV2 { reserve0, reserve1 } => PoolState::UniV2 { reserve0, reserve1 },
        EventKind::SwapV3 { sqrt_price_x96, liquidity, tick } => PoolState::UniV3 {
            sqrt_price_x96,
            liquidity,
            tick,
        },
    }
}

/// Whether `(block, log_index)` comes strictly after `(other_block, other_index)`.
pub fn is_later(block: u64, log_index: u64, other_block: u64, other_index: u64) -> (r: bool)
    ensures
        r == (rank_of(block, log_index) > rank_of(other_block, other_index)),
{
    block > other_block || (block == other_block && log_index > other_index)
}

impl PoolEvent {
    /// The event's place in the total order.
    pub open spec fn rank(&self) -> int {
        rank_of(self.block, self.log_index)
    }

    /// Total order key used for dedup and ordering.
    pub fn key(&self) -> (r: (u64, u64))
        ensures
            r == (self.block, self.log_index),
    {
        (self.block, self.log_index)
    }

    /// The state after this event. Events are absolute, so the state before does not matter.
    pub fn apply(&self, prev: &PoolState) -> (r: PoolState)
        ensures
            r == state_after(self.kind),
    {
        match self.kind {
            EventKind::SyncV2 { reserve0, reserve1 } => PoolState::UniV2 { reserve0, reserve1 },
            EventKind::SwapV3 { sqrt_price_x96, liquidity, tick } => PoolState::UniV3 {
                sqrt_price_x96,
                liquidity,
                tick,
            },
        }
    }
}

/// Two keys with the same rank are the same key.
pub proof fn rank_is_injective(block: u64, log_index: u64, other_block: u64, other_index: u64)
    ensures
        rank_of(block, log_index) == rank_of(other_block, other_index) ==> block == other_block
            && log_index == other_index,
{
}

} // verus!
