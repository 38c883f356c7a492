//! Laws of events and their order, and of what a run keeps of them.
use crate::live::bench::{mismatches_of, Mismatch};
use crate::live::engine::{event_stored, heads_after, item_stored, seeded};
use crate::live::event::{rank_of, state_after, ChainItem, EventKind, PoolEvent, PoolState};
use crate::live::registry::Entry;
use crate::live::source::MockChain;
use crate::types::{Address, U256};
use vstd::prelude::*;

verus! {

/// An event is later than another one in a later block, or later in the same block.
pub proof fn later_is_by_block_and_then_by_index(
    block: u64,
    log_index: u64,
    other_block: u64,
    other_index: u64,
)
    ensures
        rank_of(block, log_index) > rank_of(other_block, other_index) <==> block > other_block || (
        block == other_block && log_index > other_index),
{
}

/// An event carries the state that it leaves.
pub proof fn events_carry_the_state(
    reserve0: U256,
    reserve1: U256,
    sqrt_price_x96: U256,
    liquidity: u128,
    tick: i32,
)
    ensures
        state_after(EventKind::SyncV2 { reserve0, reserve1 }) == (PoolState::UniV2 {
            reserve0,
            reserve1,
        }),
        state_after(EventKind::SwapV3 { sqrt_price_x96, liquidity, tick }) == (PoolState::UniV3 {
            sqrt_price_x96,
            liquidity,
            tick,
        }),
{
}

/// The last head is the highest of the heads seen and of the one at the start.
pub proof fn the_last_head_is_the_highest(start: u64, items: Seq<ChainItem>, k: int)
    requires
        0 <= k <= items.len(),
    ensures
        heads_after(start, items, k) >= start,
        forall|i: int|
            0 <= i < k ==> (#[trigger] items[i] matches ChainItem::NewHead { number, .. } ==> number
                <= heads_after(start, items, k)),
        heads_after(start, items, k) == start || exists|i: int|
            0 <= i < k && (#[trigger] items[i] matches ChainItem::NewHead { number, .. } && number
                == heads_after(start, items, k)),
    decreases k,
{
    if k > 0 {
        the_last_head_is_the_highest(start, items, k - 1);
        let item = items[k - 1];
        if heads_after(start, items, k - 1) != start && heads_after(start, items, k)
            == heads_after(start, items, k - 1) {
            let i = choose|i: int|
                0 <= i < k - 1 && (#[trigger] items[i] matches ChainItem::NewHead { number, .. }
                    && number == heads_after(start, items, k - 1));
            assert(items[i] matches ChainItem::NewHead { number, .. } && number == heads_after(
                start,
                items,
                k,
            ));
        }
    }
}

/// An event comes after what an entry holds.
pub open spec fn is_news(ev: PoolEvent, entry: Entry) -> bool {
    ev.block > entry.block || (ev.block == entry.block && ev.log_index > entry.log_index)
}

/// An event after the snapshot replaces the entry of its pool if it comes after it; no event
/// changes anything else.
pub proof fn newer_events_replace_the_entry(
    entries: Map<Address, Entry>,
    snapshot_block: u64,
    ev: PoolEvent,
    pool: Address,
)
    ensures
        ({
            let after = item_stored(entries, snapshot_block, ChainItem::Event(ev));
            &&& after.dom() == entries.dom()
            &&& entries.dom().contains(pool) ==> if pool == ev.pool && ev.block > snapshot_block
                && is_news(ev, entries[pool]) {
                &&& after[pool].state == state_after(ev.kind)
                &&& after[pool].block == ev.block
                &&& after[pool].log_index == ev.log_index
            } else {
                after[pool] == entries[pool]
            }
        }),
{
    if entries.dom().contains(ev.pool) {
        let entry = entries[ev.pool];
        later_is_by_block_and_then_by_index(
            ev.block,
            ev.log_index,
            entry.block,
            entry.log_index,
        );
    }
    let after = event_stored(entries, snapshot_block, ev);
    assert(after.dom() =~= entries.dom());
}

/// A head changes no entry.
pub proof fn heads_change_no_entry(
    entries: Map<Address, Entry>,
    snapshot_block: u64,
    item: ChainItem,
)
    requires
        item is NewHead,
    ensures
        item_stored(entries, snapshot_block, item) == entries,
{
}

/// A registry starts with the snapshot of every pool, which comes after all of its block.
pub proof fn pools_start_from_their_snapshot(
    src: MockChain,
    pools: Seq<Address>,
    b: u64,
    k: int,
    pool: Address,
)
    requires
        0 <= k <= pools.len(),
    ensures
        ({
            let start = seeded(src, pools, b, k);
            &&& start.dom().contains(pool) <==> exists|i: int|
                0 <= i < k && #[trigger] pools[i] == pool
            &&& start.dom().contains(pool) ==> {
                &&& start[pool].state == src.spec_snapshot(pool, b)->0
                &&& start[pool].block == b
                &&& forall|ev: PoolEvent| #[trigger] is_news(ev, start[pool]) ==> ev.block > b
            }
        }),
    decreases k,
{
    if k > 0 {
        pools_start_from_their_snapshot(src, pools, b, k - 1, pool);
        if pools[k - 1] == pool {
            assert(seeded(src, pools, b, k).dom().contains(pool));
        }
    }
}

/// A pool whose replayed state is not its snapshot is reported, with both; no other pool is.
pub proof fn differing_pools_are_reported(
    entries: Map<Address, Entry>,
    src: MockChain,
    pools: Seq<Address>,
    cut_block: u64,
    k: int,
    m: Mismatch,
)
    requires
        0 <= k <= pools.len(),
    ensures
        mismatches_of(entries, src, pools, cut_block, k).contains(m) <==> (exists|i: int|
            0 <= i < k && #[trigger] pools[i] == m.pool) && m.replayed == entries[m.pool].state
            && m.onchain == src.spec_snapshot(m.pool, cut_block)->0 && m.replayed != m.onchain,
    decreases k,
{
    if k > 0 {
        differing_pools_are_reported(entries, src, pools, cut_block, k - 1, m);
        let before = mismatches_of(entries, src, pools, cut_block, k - 1);
        let after = mismatches_of(entries, src, pools, cut_block, k);
        if before.contains(m) {
            let j = choose|j: int| 0 <= j < before.len() && before[j] == m;
            assert(after[j] == m);
        }
        if after.contains(m) {
            let j = choose|j: int| 0 <= j < after.len() && after[j] == m;
            if j < before.len() {
                assert(before[j] == m);
                assert(before.contains(m));
            } else {
                assert(pools[k - 1] == m.pool);
            }
        }
        if pools[k - 1] == m.pool && m.replayed == entries[m.pool].state && m.onchain
            == src.spec_snapshot(m.pool, cut_block)->0 && m.replayed != m.onchain {
            assert(after[before.len() as int] == m);
        }
    }
}

} // verus!
