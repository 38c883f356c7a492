//! Initialization and live replay.
//!
//! The startup order is block-height safe: subscribe first, pin a snapshot block `B`, snapshot
//! every pool at `B`, then drain the stream applying only events after `B`, in order and with
//! per-pool dedup.
use crate::live::event::{is_later, rank_of, state_after, ChainItem, PoolEvent, PoolState};
use crate::live::reconcile::{deciding_event, drain_decision, replayed, Decision};
use crate::live::registry::{Entry, PoolRegistry};
use crate::live::source::{MockChain, SourceError};
use crate::types::{two64, Address};
use vstd::prelude::*;

verus! {

/// What a run leaves behind.
pub struct EngineOutcome {
    pub registry: PoolRegistry,
    /// The pinned block the initial snapshot was taken at.
    pub snapshot_block: u64,
    /// Highest block header observed during the run.
    pub last_head: u64,
}

/// The entry of a state read at the end of block `block`.
pub open spec fn sealed_entry(state: PoolState, block: u64) -> Entry {
    Entry { state, block, log_index: u64::MAX }
}

/// Install the snapshot of a pool at block `block`. The log index marks the end of the block.
pub fn seed(registry: &mut PoolRegistry, pool: Address, state: PoolState, block: u64)
    ensures
        final(registry)@ == old(registry)@.insert(pool, sealed_entry(state, block)),
{
    registry.store(pool, Entry { state, block, log_index: u64::MAX });
}

/// The registry after one event.
pub open spec fn event_stored(
    entries: Map<Address, Entry>,
    snapshot_block: u64,
    ev: PoolEvent,
) -> Map<Address, Entry> {
    if ev.block > snapshot_block && entries.dom().contains(ev.pool) && ev.rank() > rank_of(
        entries[ev.pool].block,
        entries[ev.pool].log_index,
    ) {
        entries.insert(
            ev.pool,
            Entry { state: state_after(ev.kind), block: ev.block, log_index: ev.log_index },
        )
    } else {
        entries
    }
}

/// The registry after one item.
pub open spec fn item_stored(
    entries: Map<Address, Entry>,
    snapshot_block: u64,
    item: ChainItem,
) -> Map<Address, Entry> {
    match item {
        ChainItem::NewHead { .. } => entries,
        ChainItem::Event(ev) => event_stored(entries, snapshot_block, ev),
    }
}

/// The highest head after one item.
pub open spec fn head_after(last_head: u64, item: ChainItem) -> u64 {
    match item {
        ChainItem::NewHead { number, .. } => if number > last_head {
            number
        } else {
            last_head
        },
        ChainItem::Event(_) => last_head,
    }
}

/// The registry after the first `k` items.
pub open spec fn items_stored(
    entries: Map<Address, Entry>,
    snapshot_block: u64,
    items: Seq<ChainItem>,
    k: int,
) -> Map<Address, Entry>
    decreases k,
{
    if k <= 0 {
        entries
    } else {
        item_stored(
            items_stored(entries, snapshot_block, items, k - 1),
            snapshot_block,
            items[k - 1],
        )
    }
}

/// The highest head after the first `k` items.
pub open spec fn heads_after(last_head: u64, items: Seq<ChainItem>, k: int) -> u64
    decreases k,
{
    if k <= 0 {
        last_head
    } else {
        head_after(heads_after(last_head, items, k - 1), items[k - 1])
    }
}

/// Apply one streamed item to the registry.
pub fn apply_item(
    registry: &mut PoolRegistry,
    snapshot_block: u64,
    item: &ChainItem,
    last_head: &mut u64,
)
    ensures
        final(registry)@ == item_stored(old(registry)@, snapshot_block, *item),
        *final(last_head) == head_after(*old(last_head), *item),
{
    match *item {
        ChainItem::NewHead { number, .. } => {
            if number > *last_head {
                *last_head = number;
            }
        },
        ChainItem::Event(ev) => {
            if drain_decision(ev.block, snapshot_block) == Decision::Apply {
                if let Some(cur) = registry.load(ev.pool) {
                    if is_later(ev.block, ev.log_index, cur.block, cur.log_index) {
                        let next = ev.apply(&cur.state);
                        registry.store(
                            ev.pool,
                            Entry { state: next, block: ev.block, log_index: ev.log_index },
                        );
                    }
                }
            }
        },
    }
}

/// The snapshots of the first `k` pools at block `b`.
pub open spec fn seeded(src: MockChain, pools: Seq<Address>, b: u64, k: int) -> Map<Address, Entry>
    decreases k,
{
    if k <= 0 {
        Map::empty()
    } else {
        seeded(src, pools, b, k - 1).insert(
            pools[k - 1],
            sealed_entry(src.spec_snapshot(pools[k - 1], b)->0, b),
        )
    }
}

/// Pool `i` is the first without a snapshot at block `b`.
pub open spec fn is_first_missing(src: MockChain, pools: Seq<Address>, b: u64, i: int) -> bool {
    &&& 0 <= i < pools.len()
    &&& src.spec_snapshot(pools[i], b) is None
    &&& forall|j: int| 0 <= j < i ==> src.spec_snapshot(#[trigger] pools[j], b) is Some
}

/// `out` is what a run of the first `n` items leaves behind.
pub open spec fn is_run_of(out: EngineOutcome, src: MockChain, pools: Seq<Address>, n: int) -> bool {
    &&& out.snapshot_block == src.head
    &&& out.last_head == heads_after(src.head, src.items@, n)
    &&& out.registry@ == items_stored(
        seeded(src, pools, src.head, pools.len() as int),
        src.head,
        src.items@,
        n,
    )
}

/// Run a scripted source until a deadline that strikes when `until` items were delivered, or to
/// its end: snapshot the pools at its head, then apply its items. What was applied stays.
pub fn run_scripted_until(src: &MockChain, pools: &[Address], until: usize) -> (r: Result<
    EngineOutcome,
    SourceError,
>)
    ensures
        match r {
            Ok(out) => {
                &&& is_run_of(
                    out,
                    *src,
                    pools@,
                    if until < src.items@.len() {
                        until as int
                    } else {
                        src.items@.len() as int
                    },
                )
                &&& forall|i: int|
                    0 <= i < pools@.len() ==> src.spec_snapshot(
                        #[trigger] pools@[i],
                        src.head,
                    ) is Some
            },
            Err(e) => exists|i: int|
                is_first_missing(*src, pools@, src.head, i) && e == SourceError::NoSnapshot(
                    #[trigger] pools@[i],
                    src.head,
                ),
        },
{
    let b: u64 = src.head;
    let mut registry = PoolRegistry::new();
    let mut i: usize = 0;
    while i < pools.len()
        invariant
            i <= pools@.len(),
            b == src.head,
            registry@ == seeded(*src, pools@, b, i as int),
            forall|j: int| 0 <= j < i ==> src.spec_snapshot(#[trigger] pools@[j], b) is Some,
        decreases pools@.len() - i,
    {
        let pool = pools[i];
        match src.snapshot_pool(pool, b) {
            Ok(state) => {
                seed(&mut registry, pool, state, b);
            },
            Err(e) => {
                assert(is_first_missing(*src, pools@, b, i as int));
                return Err(e);
            },
        }
        i += 1;
    }
    let mut last_head: u64 = b;
    let mut k: usize = 0;
    let ghost start = registry@;
    while k < src.items.len() && k < until
        invariant
            k <= src.items@.len(),
            k <= until,
            b == src.head,
            registry@ == items_stored(start, b, src.items@, k as int),
            last_head == heads_after(b, src.items@, k as int),
        decreases src.items@.len() - k,
    {
        apply_item(&mut registry, b, &src.items[k], &mut last_head);
        k += 1;
    }
    Ok(EngineOutcome { registry, snapshot_block: b, last_head })
}

/// Run a scripted source to its end: snapshot the pools at its head, then apply its items.
pub fn run_scripted(src: &MockChain, pools: &[Address]) -> (r: Result<EngineOutcome, SourceError>)
    ensures
        match r {
            Ok(out) => {
                &&& is_run_of(out, *src, pools@, src.items@.len() as int)
                &&& forall|i: int|
                    0 <= i < pools@.len() ==> src.spec_snapshot(
                        #[trigger] pools@[i],
                        src.head,
                    ) is Some
            },
            Err(e) => exists|i: int|
                is_first_missing(*src, pools@, src.head, i) && e == SourceError::NoSnapshot(
                    #[trigger] pools@[i],
                    src.head,
                ),
        },
{
    run_scripted_until(src, pools, src.items.len())
}

/// Every pool is seeded.
pub proof fn lemma_seeded(src: MockChain, pools: Seq<Address>, b: u64, k: int, i: int)
    requires
        0 <= i < k <= pools.len(),
    ensures
        seeded(src, pools, b, k).dom().contains(pools[i]),
    decreases k,
{
    if i < k - 1 {
        lemma_seeded(src, pools, b, k - 1, i);
    }
}

/// Items neither add nor drop pools.
pub proof fn lemma_keys_stay(
    entries: Map<Address, Entry>,
    snapshot_block: u64,
    items: Seq<ChainItem>,
    k: int,
)
    ensures
        items_stored(entries, snapshot_block, items, k).dom() == entries.dom(),
    decreases k,
{
    if k > 0 {
        lemma_keys_stay(entries, snapshot_block, items, k - 1);
        let before = items_stored(entries, snapshot_block, items, k - 1);
        assert(item_stored(before, snapshot_block, items[k - 1]).dom() =~= before.dom());
    }
}

/// The entries of pool states read at the end of block `b`.
pub open spec fn sealed_entries(states: Map<Address, PoolState>, b: u64) -> Map<Address, Entry> {
    Map::new(|p: Address| states.dom().contains(p), |p: Address| sealed_entry(states[p], b))
}

/// The items that deliver `events`.
pub open spec fn as_items(events: Seq<PoolEvent>) -> Seq<ChainItem> {
    events.map_values(|e: PoolEvent| ChainItem::Event(e))
}

/// Draining events through the registry gives the same pool states as replaying them.
pub proof fn engine_agrees_with_replay(
    states: Map<Address, PoolState>,
    events: Seq<PoolEvent>,
    b: u64,
    k: int,
)
    requires
        0 <= k <= events.len(),
    ensures
        ({
            let drained = items_stored(sealed_entries(states, b), b, as_items(events), k);
            let end = replayed(states, events, b, k);
            &&& drained.dom() == states.dom()
            &&& forall|p: Address|
                states.dom().contains(p) ==> (#[trigger] drained[p]).state == end[p]
        }),
{
    lemma_drained(states, events, b, k);
    let drained = items_stored(sealed_entries(states, b), b, as_items(events), k);
    assert(drained.dom() =~= states.dom());
}

proof fn lemma_drained(
    states: Map<Address, PoolState>,
    events: Seq<PoolEvent>,
    b: u64,
    k: int,
)
    requires
        0 <= k <= events.len(),
    ensures
        ({
            let drained = items_stored(sealed_entries(states, b), b, as_items(events), k);
            &&& forall|p: Address| #[trigger]
                drained.dom().contains(p) <==> states.dom().contains(p)
            &&& forall|p: Address|
                states.dom().contains(p) ==> #[trigger] drained[p] == (match deciding_event(
                    events,
                    p,
                    b,
                    k,
                ) {
                    Some(i) => Entry {
                        state: state_after(events[i].kind),
                        block: events[i].block,
                        log_index: events[i].log_index,
                    },
                    None => sealed_entry(states[p], b),
                })
        }),
    decreases k,
{
    if k > 0 {
        lemma_drained(states, events, b, k - 1);
        let ev = events[k - 1];
        let before = items_stored(sealed_entries(states, b), b, as_items(events), k - 1);
        assert(as_items(events)[k - 1] == ChainItem::Event(ev));
        assert(ev.block > b ==> ev.rank() > rank_of(b, u64::MAX)) by (nonlinear_arith)
            requires
                ev.rank() == ev.block * two64() + ev.log_index,
                rank_of(b, u64::MAX) == b * two64() + u64::MAX,
        ;
    }
}

} // verus!
