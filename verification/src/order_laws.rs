//! Laws of sorting, and of what is sorted: events and logs come in the order of the chain.
use crate::live::abi::Log;
use crate::live::base::dual::{event_keys, in_order};
use crate::live::base::v3sync::{in_chain_order, log_ranks};
use crate::live::event::PoolEvent;
use crate::live::event_laws::later_is_by_block_and_then_by_index;
use crate::order::{a_stable_order_exists, sort_by_keys, stable_order};
use vstd::prelude::*;

verus! {

/// What a sort makes of items: the place of each in the list that is sorted.
pub open spec fn is_sorted_from<T>(
    items: Seq<T>,
    keys: Seq<int>,
    sorted: Seq<T>,
    places: Seq<int>,
) -> bool {
    &&& sorted.len() == items.len()
    &&& places.len() == items.len()
    &&& forall|i: int|
        0 <= i < places.len() ==> 0 <= #[trigger] places[i] < items.len() && sorted[i]
            == items[places[i]]
    &&& forall|i: int, j: int|
        0 <= i < j < places.len() ==> #[trigger] places[i] != #[trigger] places[j]
    &&& forall|i: int, j: int|
        0 <= i < j < places.len() ==> keys[#[trigger] places[i]] <= keys[#[trigger] places[j]]
    &&& forall|i: int, j: int|
        0 <= i < j < places.len() && keys[#[trigger] places[i]] == keys[#[trigger] places[j]]
            ==> places[i] < places[j]
}

/// Sorting puts every item in one place, keys ascending, and items of one key in the order in
/// which they came.
pub proof fn sorting_is_stable<T>(items: Seq<T>, keys: Seq<int>) -> (places: Seq<int>)
    requires
        items.len() == keys.len(),
    ensures
        is_sorted_from(items, keys, sort_by_keys(items, keys), places),
{
    a_stable_order_exists(keys);
    stable_order(keys)
}

/// Events are applied in the order of the chain: by block, and then by index.
pub proof fn events_come_in_chain_order(events: Seq<PoolEvent>, i: int, j: int)
    requires
        0 <= i < j < events.len(),
    ensures
        ({
            let (a, b) = (in_order(events)[i], in_order(events)[j]);
            a.block < b.block || (a.block == b.block && a.log_index <= b.log_index)
        }),
        in_order(events).len() == events.len(),
{
    let places = sorting_is_stable(events, event_keys(events));
    let (p, q) = (places[i], places[j]);
    let (a, b) = (events[p], events[q]);
    assert(event_keys(events)[p] <= event_keys(events)[q]);
    later_is_by_block_and_then_by_index(a.block, a.log_index, b.block, b.log_index);
}

/// Logs are applied in the order of the chain; a log that names no block or no index counts as
/// the first.
pub proof fn logs_come_in_chain_order(logs: Seq<Log>, i: int, j: int)
    requires
        0 <= i < j < logs.len(),
    ensures
        ({
            let (a, b) = (in_chain_order(logs)[i], in_chain_order(logs)[j]);
            let (x, y) = (
                if a.block_number is Some {
                    a.block_number->0
                } else {
                    0
                },
                if b.block_number is Some {
                    b.block_number->0
                } else {
                    0
                },
            );
            let (k, l) = (
                if a.log_index is Some {
                    a.log_index->0
                } else {
                    0
                },
                if b.log_index is Some {
                    b.log_index->0
                } else {
                    0
                },
            );
            x < y || (x == y && k <= l)
        }),
        in_chain_order(logs).len() == logs.len(),
{
    let places = sorting_is_stable(logs, log_ranks(logs));
    assert(log_ranks(logs)[places[i]] <= log_ranks(logs)[places[j]]);
}

} // verus!
