//! Laws of the two views: what an event changes, and which events a block settles.
use crate::live::base::dual::{
    block_sealed, event_applied, flash_applied, flash_outcome, later_than, no_later_than, split_block,
    DualView, FlashOutcome,
};
use crate::live::base::flashblocks::Flashblock;
use crate::live::event::{state_after, PoolEvent};
use crate::live::event_laws::{is_news, later_is_by_block_and_then_by_index};
use crate::live::registry::Entry;
use crate::types::Address;
use vstd::prelude::*;

verus! {

/// An event replaces the entry of its pool if it comes after it, and changes nothing else.
pub proof fn newer_events_are_applied(map: Map<Address, Entry>, ev: PoolEvent, pool: Address)
    ensures
        event_applied(map, ev).dom() == map.dom(),
        map.dom().contains(pool) ==> if pool == ev.pool && is_news(ev, map[pool]) {
            event_applied(map, ev)[pool] == (Entry {
                state: state_after(ev.kind),
                block: ev.block,
                log_index: ev.log_index,
            })
        } else {
            event_applied(map, ev)[pool] == map[pool]
        },
{
    if map.dom().contains(ev.pool) {
        let entry = map[ev.pool];
        later_is_by_block_and_then_by_index(ev.block, ev.log_index, entry.block, entry.log_index);
    }
    assert(event_applied(map, ev).dom() =~= map.dom());
}

/// The events that come after a block are kept in their order, and the others are settled.
pub proof fn blocks_part_the_events(events: Seq<PoolEvent>, block: u64, k: int)
    requires
        0 <= k <= events.len(),
    ensures
        later_than(events, block, k) == events.take(k).filter(|e: PoolEvent| block < e.block),
        no_later_than(events, block, k) == events.take(k).filter(|e: PoolEvent| e.block <= block),
    decreases k,
{
    reveal(Seq::filter);
    if k > 0 {
        blocks_part_the_events(events, block, k - 1);
        assert(events.take(k).drop_last() == events.take(k - 1));
    }
}

/// The events of a block are taken out of the buffer in their order, and the others stay.
pub proof fn a_block_is_taken_out(buffer: Seq<PoolEvent>, b: u64, k: int)
    requires
        0 <= k <= buffer.len(),
    ensures
        split_block(buffer, b, true, k) == buffer.take(k).filter(|e: PoolEvent| e.block == b),
        split_block(buffer, b, false, k) == buffer.take(k).filter(|e: PoolEvent| e.block != b),
    decreases k,
{
    reveal(Seq::filter);
    if k > 0 {
        a_block_is_taken_out(buffer, b, k - 1);
        assert(buffer.take(k).drop_last() == buffer.take(k - 1));
    }
}

/// The first flashblock after a sealed block is taken, whatever its index.
pub proof fn the_first_flashblock_is_taken(v: DualView, fb: Flashblock)
    requires
        v.last_flash is None,
    ensures
        fb.block > v.confirmed_block ==> flash_outcome(
            v.confirmed_block,
            v.last_flash,
            fb.block,
            fb.index,
        ) == FlashOutcome::Applied && flash_applied(v, fb).last_flash == Some((fb.block, fb.index))
            && flash_applied(v, fb).gaps == v.gaps,
        fb.block <= v.confirmed_block ==> flash_applied(v, fb) == v,
{
}

/// What is pending is what flashblocks brought that no sealed block has settled.
pub proof fn pending_events_wait_for_their_block(
    v: DualView,
    fb: Flashblock,
    block: u64,
    events: Seq<PoolEvent>,
)
    ensures
        flash_applied(v, fb).pending == v.pending || flash_applied(v, fb).pending == v.pending
            + fb.events@,
        flash_applied(v, fb).last_flash != v.last_flash ==> flash_applied(v, fb).pending
            == v.pending + fb.events@,
        block > v.confirmed_block ==> {
            let after = block_sealed(v, block, events);
            &&& after.pending == v.pending.filter(|e: PoolEvent| block < e.block)
            &&& after.gaps == v.gaps
            &&& match v.last_flash {
                Some((b, i)) => after.last_flash == if b > block {
                    Some((b, i))
                } else {
                    None
                },
                None => after.last_flash is None,
            }
        },
        block <= v.confirmed_block ==> block_sealed(v, block, events) == v,
{
    let n = v.pending.len() as int;
    blocks_part_the_events(v.pending, block, n);
    assert(v.pending.take(n) == v.pending);
}

} // verus!
