//! Block-height-safe replay.
//!
//! A state read pinned to block `B` returns the state after the entire block `B`, so every event
//! of block `B`, whatever its log index, is already in it: events up to `B` are discarded and
//! later ones applied. Splitting block `B` by log index would apply events twice.
use crate::rank_map::AddressMap;
use crate::live::event::{is_later, state_after, PoolEvent, PoolState};
use crate::types::Address;
use vstd::prelude::*;

verus! {

/// What to do with an event.
#[derive(Clone, Copy, Debug, PartialEq, Eq, Structural)]
pub enum Decision {
    Discard,
    Apply,
}

/// The reconcile rule for a single event against a pinned snapshot block.
pub fn drain_decision(event_block: u64, snapshot_block: u64) -> (r: Decision)
    ensures
        r == if event_block <= snapshot_block { Decision::Discard } else { Decision::Apply },
{
    if event_block <= snapshot_block {
        Decision::Discard
    } else {
        Decision::Apply
    }
}

/// The index of the event, among the first `k`, that decides the pool's state: events up to the
/// snapshot block do not count, and an event counts only if it comes after every one that
/// counted before it.
pub open spec fn deciding_event(
    tail: Seq<PoolEvent>,
    pool: Address,
    snapshot_block: u64,
    k: int,
) -> Option<int>
    decreases k,
{
    if k <= 0 {
        None
    } else {
        let before = deciding_event(tail, pool, snapshot_block, k - 1);
        let ev = tail[k - 1];
        if ev.pool == pool && ev.block > snapshot_block && match before {
            Some(i) => ev.rank() > tail[i].rank(),
            None => true,
        } {
            Some(k - 1)
        } else {
            before
        }
    }
}

/// The pool states after replaying the first `k` events.
pub open spec fn replayed(
    states: Map<Address, PoolState>,
    tail: Seq<PoolEvent>,
    snapshot_block: u64,
    k: int,
) -> Map<Address, PoolState> {
    Map::new(
        |p: Address| states.dom().contains(p),
        |p: Address|
            match deciding_event(tail, p, snapshot_block, k) {
                Some(i) => state_after(tail[i].kind),
                None => states[p],
            },
    )
}

/// Apply an ordered tail of events to a snapshot of pool states: only events after the snapshot
/// block, and per pool only events with a strictly newer `(block, log_index)`, so that events
/// delivered again after a reconnect change nothing. Events of other pools are ignored.
pub fn replay(states: &mut AddressMap<PoolState>, snapshot_block: u64, ordered_tail: &[PoolEvent])
    ensures
        final(states)@ == replayed(
            old(states)@,
            ordered_tail@,
            snapshot_block,
            ordered_tail@.len() as int,
        ),
{
    let mut last_applied: AddressMap<(u64, u64)> = AddressMap::new();
    let mut k: usize = 0;
    let ghost tail = ordered_tail@;
    let ghost start = states@;
    assert(states@ =~= replayed(start, tail, snapshot_block, 0));
    while k < ordered_tail.len()
        invariant
            k <= tail.len(),
            tail == ordered_tail@,
            states@ == replayed(start, tail, snapshot_block, k as int),
            forall|p: Address|
                start.dom().contains(p) ==> match deciding_event(
                    tail,
                    p,
                    snapshot_block,
                    k as int,
                ) {
                    Some(i) => 0 <= i < k && last_applied@.dom().contains(p) && last_applied@[p]
                        == (tail[i].block, tail[i].log_index),
                    None => !last_applied@.dom().contains(p),
                },
            forall|p: Address| last_applied@.dom().contains(p) ==> start.dom().contains(p),
        decreases tail.len() - k,
    {
        let ev = ordered_tail[k];
        let fresh = match last_applied.get(ev.pool) {
            Some(prev) => is_later(ev.block, ev.log_index, prev.0, prev.1),
            None => true,
        };
        if drain_decision(ev.block, snapshot_block) == Decision::Apply && fresh {
            let next = match states.get(ev.pool) {
                Some(state) => Some(ev.apply(state)),
                None => None,
            };
            if let Some(state) = next {
                states.insert(ev.pool, state);
                last_applied.insert(ev.pool, ev.key());
            }
        }
        k += 1;
        proof {
            assert(states@ =~= replayed(start, tail, snapshot_block, k as int));
        }
    }
}

/// Replaying a tail a second time changes nothing.
pub proof fn replay_is_idempotent(
    states: Map<Address, PoolState>,
    tail: Seq<PoolEvent>,
    snapshot_block: u64,
)
    ensures
        ({
            let n = tail.len() as int;
            let once = replayed(states, tail, snapshot_block, n);
            replayed(once, tail, snapshot_block, n) == once
        }),
{
    let n = tail.len() as int;
    let once = replayed(states, tail, snapshot_block, n);
    assert(replayed(once, tail, snapshot_block, n) =~= once);
}

/// The deciding event has the highest key among the events that come after the snapshot.
proof fn lemma_deciding(tail: Seq<PoolEvent>, pool: Address, b: u64, k: int)
    requires
        0 <= k <= tail.len(),
    ensures
        match deciding_event(tail, pool, b, k) {
            Some(i) => 0 <= i < k && tail[i].pool == pool && tail[i].block > b && (forall|j: int|
                0 <= j < k && (#[trigger] tail[j]).pool == pool && tail[j].block > b
                    ==> tail[j].rank() <= tail[i].rank()),
            None => forall|j: int|
                0 <= j < k && (#[trigger] tail[j]).pool == pool ==> tail[j].block <= b,
        },
    decreases k,
{
    if k > 0 {
        lemma_deciding(tail, pool, b, k - 1);
    }
}

/// An event with the highest key after the snapshot decides its pool's state; a pool without
/// such an event keeps its snapshot state. In particular an event of the snapshot block never
/// counts.
pub proof fn newest_event_wins(
    states: Map<Address, PoolState>,
    tail: Seq<PoolEvent>,
    snapshot_block: u64,
    pool: Address,
)
    requires
        states.dom().contains(pool),
        // One event per key and pool.
        forall|i: int, j: int|
            0 <= i < j < tail.len() && (#[trigger] tail[i]).pool == pool && (#[trigger] tail[j]).pool
                == pool ==> tail[i].rank() != tail[j].rank() || tail[i].kind == tail[j].kind,
    ensures
        ({
            let end = replayed(states, tail, snapshot_block, tail.len() as int)[pool];
            &&& forall|i: int|
                0 <= i < tail.len() && (#[trigger] tail[i]).pool == pool && tail[i].block
                    > snapshot_block && (forall|j: int|
                    0 <= j < tail.len() && (#[trigger] tail[j]).pool == pool && tail[j].block
                        > snapshot_block ==> tail[j].rank() <= tail[i].rank()) ==> end
                    == state_after(tail[i].kind)
            &&& (forall|i: int|
                0 <= i < tail.len() && (#[trigger] tail[i]).pool == pool ==> tail[i].block
                    <= snapshot_block) ==> end == states[pool]
        }),
{
    lemma_deciding(tail, pool, snapshot_block, tail.len() as int);
}

/// Delivering a tail again behind itself changes nothing: every event of the second delivery is
/// a duplicate.
pub proof fn redelivery_changes_nothing(
    states: Map<Address, PoolState>,
    tail: Seq<PoolEvent>,
    snapshot_block: u64,
)
    ensures
        replayed(states, tail + tail, snapshot_block, 2 * tail.len() as int) == replayed(
            states,
            tail,
            snapshot_block,
            tail.len() as int,
        ),
{
    let n = tail.len() as int;
    assert forall|p: Address| #[trigger] states.dom().contains(p) implies deciding_event(
        tail + tail,
        p,
        snapshot_block,
        2 * n,
    ) == deciding_event(tail, p, snapshot_block, n) by {
        lemma_prefix(tail, tail, p, snapshot_block, n);
        lemma_second_delivery(tail, p, snapshot_block, n);
        lemma_deciding(tail, p, snapshot_block, n);
    }
    assert(replayed(states, tail + tail, snapshot_block, 2 * n) =~= replayed(
        states,
        tail,
        snapshot_block,
        n,
    )) by {
        assert forall|p: Address| states.dom().contains(p) implies #[trigger] replayed(
            states,
            tail + tail,
            snapshot_block,
            2 * n,
        )[p] == replayed(states, tail, snapshot_block, n)[p] by {
            lemma_deciding(tail, p, snapshot_block, n);
        }
    }
}

proof fn lemma_prefix(a: Seq<PoolEvent>, b: Seq<PoolEvent>, p: Address, s: u64, k: int)
    requires
        0 <= k <= a.len(),
    ensures
        deciding_event(a + b, p, s, k) == deciding_event(a, p, s, k),
    decreases k,
{
    if k > 0 {
        lemma_prefix(a, b, p, s, k - 1);
        lemma_deciding(a, p, s, k - 1);
    }
}

proof fn lemma_second_delivery(tail: Seq<PoolEvent>, p: Address, s: u64, k: int)
    requires
        0 <= k <= tail.len(),
    ensures
        deciding_event(tail + tail, p, s, tail.len() + k) == deciding_event(
            tail,
            p,
            s,
            tail.len() as int,
        ),
    decreases k,
{
    let n = tail.len() as int;
    lemma_deciding(tail, p, s, n);
    if k == 0 {
        lemma_prefix(tail, tail, p, s, n);
    } else {
        lemma_second_delivery(tail, p, s, k - 1);
        assert((tail + tail)[n + k - 1] == tail[k - 1]);
    }
}

} // verus!
