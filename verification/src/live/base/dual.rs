//! Dual-tier reconcile.
//!
//! Two views of pool state are kept: the confirmed one, from sealed blocks, and the optimistic
//! one, which adds the preconfirmations of blocks in progress. When a block seals, the confirmed
//! view advances, the preconfirmations up to it are dropped, the optimistic view is rebased onto
//! the confirmed one, and every pool whose prediction was wrong is reported: what the
//! preconfirmations up to that block made of it is not what the block made of it.
use crate::rank_map::{ascending, AddressMap};
use crate::live::base::flashblocks::Flashblock;
use crate::live::event::{is_later, rank_of, state_after, PoolEvent, PoolState};
use crate::live::registry::Entry;
use crate::order::{
    a_stable_order_exists, comes_before, key_values, lemma_order_covers, sort_by_keys,
    sorted_by_keys, stable_order,
};
use crate::types::{Address, U256};
use vstd::prelude::*;

verus! {

/// Outcome of applying one Flashblock.
#[derive(Clone, Copy, Debug, PartialEq, Eq, Structural)]
pub enum FlashOutcome {
    /// Applied to the optimistic view.
    Applied,
    /// For a block at or below the confirmed tip: ignored.
    Stale,
    /// The index was not contiguous: applied, but a Flashblock was missed.
    Gap,
}

/// A pool whose prediction did not match the sealed block.
#[derive(Clone, Copy, Debug, PartialEq, Eq, Structural)]
pub struct Divergence {
    pub pool: Address,
    pub predicted: PoolState,
    pub sealed: PoolState,
}

/// Both views of the tracked pools.
pub struct DualState {
    pub confirmed: AddressMap<Entry>,
    pub optimistic: AddressMap<Entry>,
    pub confirmed_block: u64,
    /// Preconfirmation events of blocks above the confirmed one, in arrival order.
    pub pending: Vec<PoolEvent>,
    /// Block and index of the last Flashblock seen.
    pub last_flash: Option<(u64, u64)>,
    pub gaps: u64,
    pub divergences: u64,
}

/// The entry that an event leaves.
pub open spec fn entry_of(ev: PoolEvent) -> Entry {
    Entry { state: state_after(ev.kind), block: ev.block, log_index: ev.log_index }
}

/// The view after one event: an event that is not newer than the pool's entry, or whose pool is
/// not tracked, changes nothing.
pub open spec fn event_applied(map: Map<Address, Entry>, ev: PoolEvent) -> Map<Address, Entry> {
    if map.dom().contains(ev.pool) && ev.rank() > rank_of(
        map[ev.pool].block,
        map[ev.pool].log_index,
    ) {
        map.insert(ev.pool, entry_of(ev))
    } else {
        map
    }
}

/// The view after the first `k` events.
pub open spec fn events_applied(
    map: Map<Address, Entry>,
    events: Seq<PoolEvent>,
    k: int,
) -> Map<Address, Entry>
    decreases k,
{
    if k <= 0 {
        map
    } else {
        event_applied(events_applied(map, events, k - 1), events[k - 1])
    }
}

/// The keys that events sort by.
pub open spec fn event_keys(events: Seq<PoolEvent>) -> Seq<int> {
    events.map_values(|e: PoolEvent| e.rank())
}

/// The events in `(block, log_index)` order; events with one key keep their order.
pub open spec fn in_order(events: Seq<PoolEvent>) -> Seq<PoolEvent> {
    sort_by_keys(events, event_keys(events))
}

/// The view after all events, applied in order.
pub open spec fn all_applied(map: Map<Address, Entry>, events: Seq<PoolEvent>) -> Map<
    Address,
    Entry,
> {
    events_applied(map, in_order(events), events.len() as int)
}

/// The first `k` events that come after `block`.
pub open spec fn later_than(events: Seq<PoolEvent>, block: u64, k: int) -> Seq<PoolEvent>
    decreases k,
{
    if k <= 0 {
        Seq::empty()
    } else if events[k - 1].block > block {
        later_than(events, block, k - 1).push(events[k - 1])
    } else {
        later_than(events, block, k - 1)
    }
}

/// The first `k` events that do not come after `block`.
pub open spec fn no_later_than(events: Seq<PoolEvent>, block: u64, k: int) -> Seq<PoolEvent>
    decreases k,
{
    if k <= 0 {
        Seq::empty()
    } else if events[k - 1].block > block {
        no_later_than(events, block, k - 1)
    } else {
        no_later_than(events, block, k - 1).push(events[k - 1])
    }
}

/// The preconfirmations that a sealed block settles.
pub open spec fn settled_by(pending: Seq<PoolEvent>, block: u64) -> Seq<PoolEvent> {
    no_later_than(pending, block, pending.len() as int)
}

/// What the preconfirmations up to `block` make of the confirmed view.
pub open spec fn predicted_at(
    confirmed: Map<Address, Entry>,
    pending: Seq<PoolEvent>,
    block: u64,
) -> Map<Address, Entry> {
    all_applied(confirmed, settled_by(pending, block))
}

/// Whether some event is of `pool`.
pub open spec fn touches(events: Seq<PoolEvent>, pool: Address) -> bool {
    exists|i: int| 0 <= i < events.len() && (#[trigger] events[i]).pool == pool
}

/// Apply an event; whether it changed the view.
fn apply_event(map: &mut AddressMap<Entry>, ev: &PoolEvent) -> (r: bool)
    ensures
        final(map)@ == event_applied(old(map)@, *ev),
        r == (old(map)@.dom().contains(ev.pool) && ev.rank() > rank_of(
            old(map)@[ev.pool].block,
            old(map)@[ev.pool].log_index,
        )),
{
    let next = match map.get(ev.pool) {
        Some(cur) => if is_later(ev.block, ev.log_index, cur.block, cur.log_index) {
            Some(Entry { state: ev.apply(&cur.state), block: ev.block, log_index: ev.log_index })
        } else {
            None
        },
        None => None,
    };
    match next {
        Some(entry) => {
            map.insert(ev.pool, entry);
            true
        },
        None => false,
    }
}

/// The events in order.
fn ordered(events: &[PoolEvent]) -> (r: Vec<PoolEvent>)
    ensures
        r@ == in_order(events@),
        r@.len() == events@.len(),
{
    let mut keys: Vec<U256> = Vec::new();
    let mut i: usize = 0;
    while i < events.len()
        invariant
            i <= events@.len(),
            keys@.len() == i,
            forall|j: int| 0 <= j < i ==> (#[trigger] keys@[j])@ == events@[j].rank(),
        decreases events@.len() - i,
    {
        keys.push(U256::from_limbs(events[i].log_index, events[i].block, 0, 0));
        i += 1;
    }
    assert(key_values(keys@) =~= event_keys(events@));
    sorted_by_keys(events, keys.as_slice())
}

/// Apply events in their `(block, log_index)` order.
fn apply_all(map: &mut AddressMap<Entry>, events: &[PoolEvent])
    ensures
        final(map)@ == all_applied(old(map)@, events@),
{
    let sorted = ordered(events);
    let mut i: usize = 0;
    let ghost start = map@;
    while i < sorted.len()
        invariant
            i <= sorted@.len(),
            sorted@ == in_order(events@),
            sorted@.len() == events@.len(),
            map@ == events_applied(start, sorted@, i as int),
        decreases sorted@.len() - i,
    {
        apply_event(map, &sorted[i]);
        i += 1;
    }
}

/// How a Flashblock relates to the last one seen.
pub open spec fn flash_outcome(
    confirmed_block: u64,
    last_flash: Option<(u64, u64)>,
    block: u64,
    index: u64,
) -> FlashOutcome {
    if block <= confirmed_block {
        FlashOutcome::Stale
    } else {
        match last_flash {
            None => FlashOutcome::Applied,
            Some((last_block, last_index)) => if block < last_block {
                FlashOutcome::Stale
            } else if block == last_block {
                if index == last_index + 1 {
                    FlashOutcome::Applied
                } else {
                    FlashOutcome::Gap
                }
            } else if index == 0 {
                FlashOutcome::Applied
            } else {
                FlashOutcome::Gap
            },
        }
    }
}

/// What a pool's entry says of its state.
pub open spec fn state_of(map: Map<Address, Entry>, pool: Address) -> Option<PoolState> {
    if map.dom().contains(pool) {
        Some(map[pool].state)
    } else {
        None
    }
}

/// Two lists of events, one after the other.
fn joined(a: &[PoolEvent], b: &[PoolEvent]) -> (r: Vec<PoolEvent>)
    ensures
        r@ == a@ + b@,
{
    let mut out: Vec<PoolEvent> = Vec::new();
    let mut i: usize = 0;
    while i < a.len()
        invariant
            i <= a@.len(),
            out@ == a@.take(i as int),
        decreases a@.len() - i,
    {
        out.push(a[i]);
        i += 1;
        assert(a@.take(i as int) =~= a@.take(i - 1).push(a@[i - 1]));
    }
    let mut j: usize = 0;
    assert(out@ =~= a@ + b@.take(0));
    while j < b.len()
        invariant
            j <= b@.len(),
            out@ == a@ + b@.take(j as int),
        decreases b@.len() - j,
    {
        out.push(b[j]);
        j += 1;
        assert(a@ + b@.take(j as int) =~= (a@ + b@.take(j - 1)).push(b@[j - 1]));
    }
    assert(a@ + b@.take(j as int) =~= a@ + b@);
    out
}

/// The forecast states of the pools that the events touch.
fn predictions(forecast: &AddressMap<Entry>, events: &[PoolEvent]) -> (r: AddressMap<PoolState>)
    ensures
        forall|p: Address| #[trigger]
            r@.dom().contains(p) <==> touches(events@, p) && forecast@.dom().contains(p),
        forall|p: Address|
            r@.dom().contains(p) ==> #[trigger] r@[p] == forecast@[p].state,
        r@.dom().finite(),
        r@.dom().len() <= events@.len(),
{
    let mut predicted: AddressMap<PoolState> = AddressMap::new();
    let mut i: usize = 0;
    while i < events.len()
        invariant
            i <= events@.len(),
            forall|p: Address| #[trigger]
                predicted@.dom().contains(p) <==> touches(events@.take(i as int), p)
                    && forecast@.dom().contains(p),
            forall|p: Address|
                predicted@.dom().contains(p) ==> #[trigger] predicted@[p] == forecast@[p].state,
            predicted@.dom().finite(),
            predicted@.dom().len() <= i,
        decreases events@.len() - i,
    {
        let pool = events[i].pool;
        proof {
            let (a, b) = (events@.take(i as int), events@.take(i + 1));
            assert forall|p: Address| touches(b, p) <==> touches(a, p) || p == pool by {
                if touches(a, p) {
                    let j = choose|j: int| 0 <= j < a.len() && (#[trigger] a[j]).pool == p;
                    assert(b[j].pool == p);
                }
                if p == pool {
                    assert(b[i as int].pool == p);
                }
                if touches(b, p) && p != pool {
                    let j = choose|j: int| 0 <= j < b.len() && (#[trigger] b[j]).pool == p;
                    assert(a[j].pool == p);
                }
            }
        }
        if let Some(entry) = forecast.get(pool) {
            predicted.insert(pool, entry.state);
        }
        i += 1;
    }
    assert(events@.take(i as int) =~= events@);
    predicted
}

/// The predictions that the sealed states refute.
fn diverged(
    predicted: &AddressMap<PoolState>,
    sealed: &AddressMap<Entry>,
    events: &[PoolEvent],
    Ghost(forecast): Ghost<Map<Address, Entry>>,
) -> (r: Vec<Divergence>)
    requires
        forall|p: Address| #[trigger]
            predicted@.dom().contains(p) <==> touches(events@, p) && forecast.dom().contains(p),
        forall|p: Address|
            predicted@.dom().contains(p) ==> #[trigger] predicted@[p] == forecast[p].state,
        predicted@.dom().len() <= events@.len(),
    ensures
        is_divergence_report(r@, forecast, sealed@, events@),
        r@.len() <= events@.len(),
{
    let n: usize = predicted.len();
    let ghost keys = predicted.key_seq();
    let mut out: Vec<Divergence> = Vec::new();
    let mut i: usize = 0;
    while i < n
        invariant
            i <= n,
            n == keys.len(),
            keys == predicted.key_seq(),
            ascending(keys),
            forall|a: Address| #[trigger] keys.contains(a) <==> predicted@.dom().contains(a),
            out@.len() <= i,
            forall|a: int, b: int|
                0 <= a < b < out@.len() ==> (#[trigger] out@[a]).pool.value() < (
                #[trigger] out@[b]).pool.value(),
            forall|a: int|
                0 <= a < out@.len() ==> {
                    let d = #[trigger] out@[a];
                    &&& predicted@.dom().contains(d.pool)
                    &&& predicted@[d.pool] == d.predicted
                    &&& state_of(sealed@, d.pool) == Some(d.sealed)
                    &&& d.predicted != d.sealed
                    &&& exists|j: int| 0 <= j < i && keys[j] == d.pool
                },
            forall|j: int|
                0 <= j < i ==> {
                    let p = #[trigger] keys[j];
                    sealed@.dom().contains(p) && sealed@[p].state != predicted@[p] ==> out@.contains(
                        Divergence { pool: p, predicted: predicted@[p], sealed: sealed@[p].state },
                    )
                },
        decreases n - i,
    {
        let pool = predicted.key_at(i);
        let pred = *predicted.value_at(i);
        let ghost before = out@;
        if let Some(entry) = sealed.get(pool) {
            let truth = entry.state;
            if truth != pred {
                let d = Divergence { pool, predicted: pred, sealed: truth };
                proof {
                    assert forall|a: int| 0 <= a < before.len() implies (
                    #[trigger] before[a]).pool.value() < pool.value() by {
                        let j = choose|j: int| 0 <= j < i && keys[j] == before[a].pool;
                        assert(keys[j].value() < keys[i as int].value());
                    }
                }
                out.push(d);
                assert(out@[before.len() as int] == d);
                assert(out@.contains(d));
            }
        }
        proof {
            assert forall|d: Divergence| before.contains(d) implies out@.contains(d) by {
                let a = choose|a: int| 0 <= a < before.len() && before[a] == d;
                assert(out@[a] == d);
            }
        }
        i += 1;
        proof {
            assert forall|a: int| 0 <= a < out@.len() implies exists|j: int|
                0 <= j < i && keys[j] == (#[trigger] out@[a]).pool by {
                if a < before.len() {
                    let j = choose|j: int| 0 <= j < i - 1 && keys[j] == before[a].pool;
                    assert(keys[j] == out@[a].pool);
                } else {
                    assert(keys[i - 1] == out@[a].pool);
                }
            }
        }
    }
    proof {
        assert forall|d: Divergence| #[trigger]
            out@.contains(d) <==> touches(events@, d.pool) && state_of(forecast, d.pool) == Some(
                d.predicted,
            ) && state_of(sealed@, d.pool) == Some(d.sealed) && d.predicted != d.sealed by {
            if touches(events@, d.pool) && state_of(forecast, d.pool) == Some(d.predicted)
                && state_of(sealed@, d.pool) == Some(d.sealed) && d.predicted != d.sealed {
                assert(predicted@.dom().contains(d.pool));
                assert(keys.contains(d.pool));
                let j = choose|j: int| 0 <= j < keys.len() && keys[j] == d.pool;
                assert(keys[j] == d.pool);
            }
            if out@.contains(d) {
                let a = choose|a: int| 0 <= a < out@.len() && out@[a] == d;
                assert(out@[a] == d);
                assert(predicted@.dom().contains(d.pool));
                assert(predicted@[d.pool] == forecast[d.pool].state);
            }
        }
    }
    out
}

/// A sealed block's report: the pools that the events touch, the block's and those of the
/// preconfirmations it settles, whose prediction differs from the sealed state, in ascending
/// address order.
pub open spec fn is_divergence_report(
    report: Seq<Divergence>,
    predicted: Map<Address, Entry>,
    sealed: Map<Address, Entry>,
    events: Seq<PoolEvent>,
) -> bool {
    &&& forall|i: int, j: int|
        0 <= i < j < report.len() ==> (#[trigger] report[i]).pool.value() < (
        #[trigger] report[j]).pool.value()
    &&& forall|d: Divergence| #[trigger]
        report.contains(d) <==> touches(events, d.pool) && state_of(predicted, d.pool) == Some(
            d.predicted,
        ) && state_of(sealed, d.pool) == Some(d.sealed) && d.predicted != d.sealed
}

impl DualState {
    /// Both views from a sealed snapshot pinned at `block`.
    pub fn new(snapshot: AddressMap<Entry>, block: u64) -> (r: DualState)
        ensures
            r.confirmed@ == snapshot@,
            r.optimistic@ == snapshot@,
            r.confirmed_block == block,
            r.pending@ == Seq::<PoolEvent>::empty(),
            r.last_flash is None,
            r.gaps == 0,
            r.divergences == 0,
    {
        DualState {
            optimistic: snapshot.duplicate(),
            confirmed: snapshot,
            confirmed_block: block,
            pending: Vec::new(),
            last_flash: None,
            gaps: 0,
            divergences: 0,
        }
    }

    /// The last sealed block.
    pub fn confirmed_block(&self) -> (r: u64)
        ensures
            r == self.confirmed_block,
    {
        self.confirmed_block
    }

    /// The state to quote against.
    pub fn optimistic(&self, pool: Address) -> (r: Option<PoolState>)
        ensures
            r == state_of(self.optimistic@, pool),
    {
        match self.optimistic.get(pool) {
            Some(e) => Some(e.state),
            None => None,
        }
    }

    /// The sealed state.
    pub fn confirmed(&self, pool: Address) -> (r: Option<PoolState>)
        ensures
            r == state_of(self.confirmed@, pool),
    {
        match self.confirmed.get(pool) {
            Some(e) => Some(e.state),
            None => None,
        }
    }

    /// Apply a preconfirmation to the optimistic view.
    pub fn apply_flashblock(&mut self, fb: &Flashblock) -> (r: FlashOutcome)
        requires
            old(self).gaps < u64::MAX,
        ensures
            r == flash_outcome(
                old(self).confirmed_block,
                old(self).last_flash,
                fb.block,
                fb.index,
            ),
            final(self).confirmed@ == old(self).confirmed@,
            final(self).confirmed_block == old(self).confirmed_block,
            final(self).divergences == old(self).divergences,
            final(self).gaps == old(self).gaps + if r == FlashOutcome::Gap { 1int } else { 0 },
            if r == FlashOutcome::Stale {
                &&& final(self).optimistic@ == old(self).optimistic@
                &&& final(self).pending@ == old(self).pending@
                &&& final(self).last_flash == old(self).last_flash
            } else {
                &&& final(self).optimistic@ == events_applied(
                    old(self).optimistic@,
                    fb.events@,
                    fb.events@.len() as int,
                )
                &&& final(self).pending@ == old(self).pending@ + fb.events@
                &&& final(self).last_flash == Some((fb.block, fb.index))
            },
    {
        if fb.block <= self.confirmed_block {
            return FlashOutcome::Stale;
        }
        let outcome = match self.last_flash {
            None => FlashOutcome::Applied,
            Some((lb, li)) => if fb.block == lb {
                if li < u64::MAX && fb.index == li + 1 {
                    FlashOutcome::Applied
                } else {
                    FlashOutcome::Gap
                }
            } else if fb.block > lb {
                if fb.index == 0 {
                    FlashOutcome::Applied
                } else {
                    FlashOutcome::Gap
                }
            } else {
                FlashOutcome::Stale
            },
        };
        if outcome == FlashOutcome::Stale {
            return outcome;
        }
        if outcome == FlashOutcome::Gap {
            self.gaps = self.gaps + 1;
        }
        self.last_flash = Some((fb.block, fb.index));
        let mut i: usize = 0;
        let ghost (start, queue) = (self.optimistic@, self.pending@);
        let ghost held = *self;
        while i < fb.events.len()
            invariant
                i <= fb.events@.len(),
                self.optimistic@ == events_applied(start, fb.events@, i as int),
                self.pending@ == queue + fb.events@.take(i as int),
                self.confirmed == held.confirmed,
                self.confirmed_block == held.confirmed_block,
                self.divergences == held.divergences,
                self.gaps == held.gaps,
                self.last_flash == held.last_flash,
            decreases fb.events@.len() - i,
        {
            let ev = fb.events[i];
            self.pending.push(ev);
            apply_event(&mut self.optimistic, &ev);
            i += 1;
            assert(queue + fb.events@.take(i as int) =~= (queue + fb.events@.take(i - 1)).push(ev));
        }
        assert(queue + fb.events@.take(i as int) =~= queue + fb.events@);
        outcome
    }

    /// Reconcile a sealed block: advance the confirmed view, drop the preconfirmations that it
    /// settles, rebase the optimistic view, and return the pools where they diverged.
    pub fn apply_sealed_block(&mut self, block: u64, events: &[PoolEvent]) -> (r: Vec<Divergence>)
        requires
            old(self).divergences + events@.len() + old(self).pending@.len() <= u64::MAX,
        ensures
            if block <= old(self).confirmed_block {
                &&& r@ == Seq::<Divergence>::empty()
                &&& final(self).confirmed@ == old(self).confirmed@
                &&& final(self).optimistic@ == old(self).optimistic@
                &&& final(self).confirmed_block == old(self).confirmed_block
                &&& final(self).pending@ == old(self).pending@
                &&& final(self).last_flash == old(self).last_flash
            } else {
                &&& final(self).confirmed@ == all_applied(old(self).confirmed@, events@)
                &&& final(self).confirmed_block == block
                &&& final(self).pending@ == later_than(
                    old(self).pending@,
                    block,
                    old(self).pending@.len() as int,
                )
                &&& final(self).optimistic@ == all_applied(
                    final(self).confirmed@,
                    final(self).pending@,
                )
                &&& final(self).last_flash == (match old(self).last_flash {
                    Some((b, i)) => if b <= block {
                        None
                    } else {
                        Some((b, i))
                    },
                    None => None,
                })
                &&& is_divergence_report(
                    r@,
                    predicted_at(old(self).confirmed@, old(self).pending@, block),
                    final(self).confirmed@,
                    events@ + settled_by(old(self).pending@, block),
                )
            },
            final(self).divergences == old(self).divergences + r@.len(),
            final(self).gaps == old(self).gaps,
            r@.len() + final(self).pending@.len() <= events@.len() + old(self).pending@.len(),
    {
        if block <= self.confirmed_block {
            return Vec::new();
        }
        let mut settled: Vec<PoolEvent> = Vec::new();
        let mut pending: Vec<PoolEvent> = Vec::new();
        let mut i: usize = 0;
        while i < self.pending.len()
            invariant
                i <= self.pending@.len(),
                settled@ == no_later_than(self.pending@, block, i as int),
                pending@ == later_than(self.pending@, block, i as int),
                settled@.len() + pending@.len() == i,
            decreases self.pending@.len() - i,
        {
            if self.pending[i].block > block {
                pending.push(self.pending[i]);
            } else {
                settled.push(self.pending[i]);
            }
            i += 1;
        }
        let mut forecast = self.confirmed.duplicate();
        apply_all(&mut forecast, settled.as_slice());
        let touched = joined(events, settled.as_slice());
        let predicted = predictions(&forecast, touched.as_slice());
        apply_all(&mut self.confirmed, events);
        self.confirmed_block = block;
        self.pending = pending;
        if let Some((lb, _)) = self.last_flash {
            if lb <= block {
                self.last_flash = None;
            }
        }
        let mut rebased = self.confirmed.duplicate();
        apply_all(&mut rebased, self.pending.as_slice());
        self.optimistic = rebased;
        let divergences = diverged(
            &predicted,
            &self.confirmed,
            touched.as_slice(),
            Ghost(forecast@),
        );
        self.divergences = self.divergences + divergences.len() as u64;
        divergences
    }
}

// ---- the two streams ----

/// Both views in mathematical terms.
pub struct DualView {
    pub confirmed: Map<Address, Entry>,
    pub optimistic: Map<Address, Entry>,
    pub confirmed_block: u64,
    pub pending: Seq<PoolEvent>,
    pub last_flash: Option<(u64, u64)>,
    pub gaps: int,
    pub divergences: int,
}

impl DualState {
    /// The state in mathematical terms.
    pub open spec fn model(&self) -> DualView {
        DualView {
            confirmed: self.confirmed@,
            optimistic: self.optimistic@,
            confirmed_block: self.confirmed_block,
            pending: self.pending@,
            last_flash: self.last_flash,
            gaps: self.gaps as int,
            divergences: self.divergences as int,
        }
    }
}

/// The pools whose prediction a sealed block refutes.
pub open spec fn divergent_pools(
    predicted: Map<Address, Entry>,
    sealed: Map<Address, Entry>,
    events: Seq<PoolEvent>,
) -> Set<Address> {
    Set::new(
        |p: Address|
            touches(events, p) && predicted.dom().contains(p) && sealed.dom().contains(p)
                && predicted[p].state != sealed[p].state,
    )
}

/// The views after a sealed block.
pub open spec fn block_sealed(v: DualView, block: u64, events: Seq<PoolEvent>) -> DualView {
    if block <= v.confirmed_block {
        v
    } else {
        let confirmed = all_applied(v.confirmed, events);
        let pending = later_than(v.pending, block, v.pending.len() as int);
        DualView {
            confirmed,
            optimistic: all_applied(confirmed, pending),
            confirmed_block: block,
            pending,
            last_flash: match v.last_flash {
                Some((b, i)) => if b <= block {
                    None
                } else {
                    Some((b, i))
                },
                None => None,
            },
            gaps: v.gaps,
            divergences: v.divergences + divergent_pools(
                predicted_at(v.confirmed, v.pending, block),
                confirmed,
                events + settled_by(v.pending, block),
            ).len(),
        }
    }
}

/// A report has one entry per divergent pool.
proof fn lemma_report_length(
    report: Seq<Divergence>,
    predicted: Map<Address, Entry>,
    sealed: Map<Address, Entry>,
    events: Seq<PoolEvent>,
)
    requires
        is_divergence_report(report, predicted, sealed, events),
    ensures
        divergent_pools(predicted, sealed, events).finite(),
        divergent_pools(predicted, sealed, events).len() == report.len(),
{
    let pools = report.map_values(|d: Divergence| d.pool);
    assert(pools.no_duplicates()) by {
        assert forall|i: int, j: int| 0 <= i < j < pools.len() implies pools[i] != pools[j] by {
            assert(report[i].pool.value() < report[j].pool.value());
        }
    }
    pools.unique_seq_to_set();
    assert(pools.to_set() =~= divergent_pools(predicted, sealed, events)) by {
        assert forall|p: Address|
            pools.to_set().contains(p) <==> divergent_pools(predicted, sealed, events).contains(
                p,
            ) by {
            if pools.contains(p) {
                let i = choose|i: int| 0 <= i < pools.len() && pools[i] == p;
                assert(report.contains(report[i]));
            }
            if divergent_pools(predicted, sealed, events).contains(p) {
                let d = Divergence {
                    pool: p,
                    predicted: predicted[p].state,
                    sealed: sealed[p].state,
                };
                assert(report.contains(d));
                let i = choose|i: int| 0 <= i < report.len() && report[i] == d;
                assert(pools[i] == p);
            }
        }
    }
}

/// `b` is the lowest block below `number` that the buffer holds events of.
pub open spec fn is_lowest_complete(buffer: Seq<PoolEvent>, number: u64, b: u64) -> bool {
    &&& b < number
    &&& exists|i: int| 0 <= i < buffer.len() && (#[trigger] buffer[i]).block == b
    &&& forall|i: int|
        0 <= i < buffer.len() && (#[trigger] buffer[i]).block < number ==> b <= buffer[i].block
}

/// The events of block `b` among the first `k`, if `of` is set; the others, if it is not.
pub open spec fn split_block(buffer: Seq<PoolEvent>, b: u64, of: bool, k: int) -> Seq<PoolEvent>
    decreases k,
{
    if k <= 0 {
        Seq::empty()
    } else if (buffer[k - 1].block == b) == of {
        split_block(buffer, b, of, k - 1).push(buffer[k - 1])
    } else {
        split_block(buffer, b, of, k - 1)
    }
}

/// The views and the buffer once every block below `number` that the buffer holds events of is
/// sealed, lowest first, in at most `steps` blocks.
pub open spec fn flushed(v: DualView, buffer: Seq<PoolEvent>, number: u64, steps: nat) -> (
    DualView,
    Seq<PoolEvent>,
)
    decreases steps,
{
    if steps == 0 || !(exists|b: u64| is_lowest_complete(buffer, number, b)) {
        (v, buffer)
    } else {
        let b = choose|b: u64| is_lowest_complete(buffer, number, b);
        let n = buffer.len() as int;
        flushed(
            block_sealed(v, b, split_block(buffer, b, true, n)),
            split_block(buffer, b, false, n),
            number,
            (steps - 1) as nat,
        )
    }
}

/// Merges sealed blocks and preconfirmations: sealed events wait until a later head proves their
/// block complete.
pub struct DualFeed {
    pub state: DualState,
    /// Sealed events of blocks that are not known to be complete, in arrival order.
    pub buffer: Vec<PoolEvent>,
}

/// Splitting keeps every event on one side.
proof fn lemma_split(buffer: Seq<PoolEvent>, b: u64, k: int)
    requires
        0 <= k <= buffer.len(),
    ensures
        split_block(buffer, b, true, k).len() + split_block(buffer, b, false, k).len() == k,
        (exists|i: int| 0 <= i < k && (#[trigger] buffer[i]).block == b) ==> split_block(
            buffer,
            b,
            true,
            k,
        ).len() > 0,
    decreases k,
{
    if k > 0 {
        lemma_split(buffer, b, k - 1);
        if exists|i: int| 0 <= i < k && (#[trigger] buffer[i]).block == b {
            let i = choose|i: int| 0 <= i < k && (#[trigger] buffer[i]).block == b;
            if i < k - 1 {
                assert(exists|i: int| 0 <= i < k - 1 && (#[trigger] buffer[i]).block == b);
            }
        }
    }
}

/// There is at most one lowest complete block.
proof fn lemma_lowest_unique(buffer: Seq<PoolEvent>, number: u64, b: u64)
    requires
        is_lowest_complete(buffer, number, b),
    ensures
        (choose|c: u64| is_lowest_complete(buffer, number, c)) == b,
{
    let c = choose|c: u64| is_lowest_complete(buffer, number, c);
    let i = choose|i: int| 0 <= i < buffer.len() && (#[trigger] buffer[i]).block == b;
    let j = choose|j: int| 0 <= j < buffer.len() && (#[trigger] buffer[j]).block == c;
    assert(b <= buffer[j].block && c <= buffer[i].block);
}

impl DualFeed {
    /// The counters have room for everything that is buffered or preconfirmed.
    pub open spec fn wf(&self) -> bool {
        self.state.divergences + self.buffer@.len() + self.state.pending@.len() <= u64::MAX
    }

    /// A feed over both views, with nothing buffered.
    pub fn new(state: DualState) -> (r: DualFeed)
        requires
            state.divergences + state.pending@.len() <= u64::MAX,
        ensures
            r.state == state,
            r.buffer@ == Seq::<PoolEvent>::empty(),
            r.wf(),
    {
        DualFeed { state, buffer: Vec::new() }
    }

    /// A sealed event: buffered unless its block is already confirmed.
    pub fn on_event(&mut self, ev: PoolEvent)
        requires
            old(self).wf(),
            old(self).state.divergences + old(self).buffer@.len() + old(self).state.pending@.len()
                < u64::MAX,
        ensures
            final(self).wf(),
            final(self).state == old(self).state,
            final(self).buffer@ == if ev.block > old(self).state.confirmed_block {
                old(self).buffer@.push(ev)
            } else {
                old(self).buffer@
            },
    {
        if ev.block > self.state.confirmed_block() {
            self.buffer.push(ev);
        }
    }

    /// The lowest buffered block below `number`.
    fn lowest_complete(&self, number: u64) -> (r: Option<u64>)
        ensures
            match r {
                Some(b) => is_lowest_complete(self.buffer@, number, b),
                None => forall|b: u64| !is_lowest_complete(self.buffer@, number, b),
            },
    {
        let mut best: Option<u64> = None;
        let mut i: usize = 0;
        while i < self.buffer.len()
            invariant
                i <= self.buffer@.len(),
                match best {
                    Some(b) => b < number && (exists|j: int|
                        0 <= j < i && (#[trigger] self.buffer@[j]).block == b) && forall|j: int|
                        0 <= j < i && (#[trigger] self.buffer@[j]).block < number ==> b
                            <= self.buffer@[j].block,
                    None => forall|j: int|
                        0 <= j < i ==> (#[trigger] self.buffer@[j]).block >= number,
                },
            decreases self.buffer@.len() - i,
        {
            let block: u64 = self.buffer[i].block;
            assert(self.buffer@[i as int].block == block);
            if block < number {
                match best {
                    Some(b) => {
                        if block < b {
                            best = Some(block);
                        }
                    },
                    None => {
                        best = Some(block);
                    },
                }
            }
            i += 1;
        }
        best
    }

    /// A new head: the blocks below it are complete. Those with buffered events are sealed, lowest
    /// first; a block without any stays open, for an event of it may still come in.
    pub fn on_head(&mut self, number: u64)
        requires
            old(self).wf(),
        ensures
            final(self).wf(),
            (final(self).state.model(), final(self).buffer@) == flushed(
                old(self).state.model(),
                old(self).buffer@,
                number,
                old(self).buffer@.len(),
            ),
    {
        let ghost whole = flushed(
            self.state.model(),
            self.buffer@,
            number,
            self.buffer@.len(),
        );
        let ghost mut steps: nat = self.buffer@.len();
        let mut next = self.lowest_complete(number);
        while next.is_some()
            invariant
                self.wf(),
                match next {
                    Some(b) => is_lowest_complete(self.buffer@, number, b),
                    None => forall|b: u64| !is_lowest_complete(self.buffer@, number, b),
                },
                steps >= self.buffer@.len(),
                whole == flushed(self.state.model(), self.buffer@, number, steps),
            decreases self.buffer@.len(),
        {
            let b: u64 = next.unwrap();
            let ghost buf = self.buffer@;
            let ghost before = self.state.model();
            let mut sealed: Vec<PoolEvent> = Vec::new();
            let mut kept: Vec<PoolEvent> = Vec::new();
            let mut i: usize = 0;
            while i < self.buffer.len()
                invariant
                    i <= self.buffer@.len(),
                    self.buffer@ == buf,
                    sealed@ == split_block(buf, b, true, i as int),
                    kept@ == split_block(buf, b, false, i as int),
                decreases self.buffer@.len() - i,
            {
                if self.buffer[i].block == b {
                    sealed.push(self.buffer[i]);
                } else {
                    kept.push(self.buffer[i]);
                }
                i += 1;
            }
            proof {
                lemma_split(buf, b, buf.len() as int);
                lemma_lowest_unique(buf, number, b);
            }
            let report = self.state.apply_sealed_block(b, sealed.as_slice());
            self.buffer = kept;
            proof {
                if b > before.confirmed_block {
                    lemma_report_length(
                        report@,
                        predicted_at(before.confirmed, before.pending, b),
                        self.state.confirmed@,
                        sealed@ + settled_by(before.pending, b),
                    );
                }
                assert(self.state.model() == block_sealed(before, b, sealed@));
                steps = (steps - 1) as nat;
            }
            next = self.lowest_complete(number);
        }
    }

    /// A preconfirmation.
    pub fn on_flashblock(&mut self, fb: &Flashblock) -> (r: FlashOutcome)
        requires
            old(self).wf(),
            old(self).state.gaps < u64::MAX,
            old(self).state.divergences + old(self).buffer@.len() + old(self).state.pending@.len()
                + fb.events@.len() <= u64::MAX,
        ensures
            final(self).wf(),
            final(self).buffer == old(self).buffer,
            r == flash_outcome(
                old(self).state.confirmed_block,
                old(self).state.last_flash,
                fb.block,
                fb.index,
            ),
            final(self).state.model() == flash_applied(old(self).state.model(), *fb),
    {
        self.state.apply_flashblock(fb)
    }
}

/// The views after a Flashblock.
pub open spec fn flash_applied(v: DualView, fb: Flashblock) -> DualView {
    let outcome = flash_outcome(v.confirmed_block, v.last_flash, fb.block, fb.index);
    if outcome == FlashOutcome::Stale {
        v
    } else {
        DualView {
            optimistic: events_applied(v.optimistic, fb.events@, fb.events@.len() as int),
            pending: v.pending + fb.events@,
            last_flash: Some((fb.block, fb.index)),
            gaps: v.gaps + if outcome == FlashOutcome::Gap {
                1int
            } else {
                0
            },
            ..v
        }
    }
}

// ---- laws ----

/// A Flashblock never touches the confirmed view.
pub proof fn preconfirmations_leave_the_confirmed_view(v: DualView, fb: Flashblock)
    ensures
        flash_applied(v, fb).confirmed == v.confirmed,
        flash_applied(v, fb).confirmed_block == v.confirmed_block,
        fb.block <= v.confirmed_block ==> flash_applied(v, fb) == v,
{
}

/// The preconfirmations that remain after sealing a block are those of later blocks.
pub proof fn later_preconfirmations_survive(
    pending: Seq<PoolEvent>,
    block: u64,
    ev: PoolEvent,
    k: int,
)
    requires
        0 <= k <= pending.len(),
    ensures
        later_than(pending, block, k).contains(ev) <==> ev.block > block && pending.take(
            k,
        ).contains(ev),
    decreases k,
{
    if k > 0 {
        later_preconfirmations_survive(pending, block, ev, k - 1);
        let rest = later_than(pending, block, k - 1);
        let last = pending[k - 1];
        assert(pending.take(k) =~= pending.take(k - 1).push(last));
        assert(pending.take(k).contains(ev) <==> pending.take(k - 1).contains(ev) || ev == last)
            by {
            if pending.take(k - 1).contains(ev) {
                let shorter = pending.take(k - 1);
                let i = choose|i: int| 0 <= i < shorter.len() && shorter[i] == ev;
                assert(pending.take(k)[i] == ev);
            }
            if ev == last {
                assert(pending.take(k)[k - 1] == ev);
            }
        }
        if last.block > block {
            assert(rest.push(last).contains(ev) <==> rest.contains(ev) || ev == last) by {
                if rest.contains(ev) {
                    let i = choose|i: int| 0 <= i < rest.len() && rest[i] == ev;
                    assert(rest.push(last)[i] == ev);
                }
                if ev == last {
                    assert(rest.push(last)[rest.len() as int] == ev);
                }
            }
        }
    }
}

/// Sealing exactly what was predicted reports nothing, and a block is never sealed twice.
pub proof fn correct_predictions_do_not_diverge(v: DualView, block: u64, events: Seq<PoolEvent>)
    ensures
        (forall|p: Address|
            touches(events + settled_by(v.pending, block), p) && #[trigger] v.confirmed.dom().contains(
                p,
            ) ==> predicted_at(v.confirmed, v.pending, block)[p].state == all_applied(
                v.confirmed,
                events,
            )[p].state) ==> block_sealed(v, block, events).divergences == v.divergences,
        block_sealed(block_sealed(v, block, events), block, events) == block_sealed(
            v,
            block,
            events,
        ),
{
    let confirmed = all_applied(v.confirmed, events);
    let predicted = predicted_at(v.confirmed, v.pending, block);
    let touching = events + settled_by(v.pending, block);
    lemma_same_pools(v.confirmed, in_order(events), events.len() as int);
    let early = settled_by(v.pending, block);
    lemma_same_pools(v.confirmed, in_order(early), early.len() as int);
    if forall|p: Address|
        touches(touching, p) && #[trigger] v.confirmed.dom().contains(p) ==> predicted[p].state
            == confirmed[p].state {
        assert(divergent_pools(predicted, confirmed, touching) =~= Set::<Address>::empty());
    }
}

/// Applying events tracks no further pool and drops none.
proof fn lemma_same_pools(map: Map<Address, Entry>, events: Seq<PoolEvent>, k: int)
    ensures
        events_applied(map, events, k).dom() == map.dom(),
    decreases k,
{
    if k > 0 {
        lemma_same_pools(map, events, k - 1);
        assert(events_applied(map, events, k).dom() =~= map.dom());
    }
}

/// Without preconfirmations left, the rebased optimistic view is the confirmed view.
pub proof fn rebase_without_preconfirmations(v: DualView, block: u64, events: Seq<PoolEvent>)
    requires
        block > v.confirmed_block,
        forall|i: int| 0 <= i < v.pending.len() ==> (#[trigger] v.pending[i]).block <= block,
    ensures
        block_sealed(v, block, events).optimistic == block_sealed(v, block, events).confirmed,
        block_sealed(v, block, events).pending.len() == 0,
{
    lemma_none_later(v.pending, block, v.pending.len() as int);
}

proof fn lemma_none_later(pending: Seq<PoolEvent>, block: u64, k: int)
    requires
        0 <= k <= pending.len(),
        forall|i: int| 0 <= i < pending.len() ==> (#[trigger] pending[i]).block <= block,
    ensures
        later_than(pending, block, k) == Seq::<PoolEvent>::empty(),
    decreases k,
{
    if k > 0 {
        lemma_none_later(pending, block, k - 1);
    }
}

/// Event `i` is the newest of `pool` among the first `k`, the first of them where several share
/// its block and log index.
pub open spec fn is_newest_of(events: Seq<PoolEvent>, k: int, pool: Address, i: int) -> bool {
    &&& 0 <= i < k
    &&& events[i].pool == pool
    &&& forall|j: int|
        0 <= j < k && (#[trigger] events[j]).pool == pool ==> events[j].rank() < events[i].rank()
            || (events[j].rank() == events[i].rank() && i <= j)
}

/// No confirmed entry lies past the confirmed block.
pub open spec fn confirmed_so_far(v: DualView) -> bool {
    forall|p: Address| #[trigger]
        v.confirmed.dom().contains(p) ==> v.confirmed[p].block <= v.confirmed_block
}

/// Every preconfirmation that is kept is of a block past the confirmed one.
pub open spec fn pending_ahead(v: DualView) -> bool {
    forall|i: int|
        0 <= i < v.pending.len() ==> (#[trigger] v.pending[i]).block > v.confirmed_block
}

/// A pool that some event touches has a newest one.
proof fn lemma_some_newest(events: Seq<PoolEvent>, k: int, pool: Address)
    requires
        0 <= k <= events.len(),
        exists|i: int| 0 <= i < k && (#[trigger] events[i]).pool == pool,
    ensures
        exists|i: int| is_newest_of(events, k, pool, i),
    decreases k,
{
    let i = choose|i: int| 0 <= i < k && (#[trigger] events[i]).pool == pool;
    if exists|i: int| 0 <= i < k - 1 && (#[trigger] events[i]).pool == pool {
        lemma_some_newest(events, k - 1, pool);
        let m = k - 1;
        let n = choose|n: int| is_newest_of(events, m, pool, n);
        if events[k - 1].pool == pool && events[k - 1].rank() > events[n].rank() {
            assert(is_newest_of(events, k, pool, k - 1));
        } else {
            assert(is_newest_of(events, k, pool, n));
        }
    } else {
        assert(i == k - 1);
        assert(is_newest_of(events, k, pool, i));
    }
}

/// What the first `k` events leave of a pool, whatever their order: the newest of them, if it is
/// newer than the entry.
proof fn lemma_newest_stays(
    map: Map<Address, Entry>,
    events: Seq<PoolEvent>,
    k: int,
    pool: Address,
)
    requires
        0 <= k <= events.len(),
        map.dom().contains(pool),
    ensures
        forall|i: int|
            is_newest_of(events, k, pool, i) && (#[trigger] events[i]).rank() > rank_of(
                map[pool].block,
                map[pool].log_index,
            ) ==> events_applied(map, events, k)[pool] == entry_of(events[i]),
        (forall|i: int|
            0 <= i < k && (#[trigger] events[i]).pool == pool ==> events[i].rank() <= rank_of(
                map[pool].block,
                map[pool].log_index,
            )) ==> events_applied(map, events, k)[pool] == map[pool],
    decreases k,
{
    if k > 0 {
        lemma_newest_stays(map, events, k - 1, pool);
        lemma_same_pools(map, events, k - 1);
        let m = events_applied(map, events, k - 1);
        let ev = events[k - 1];
        let own = rank_of(map[pool].block, map[pool].log_index);
        assert forall|i: int|
            is_newest_of(events, k, pool, i) && (#[trigger] events[i]).rank()
                > own implies events_applied(map, events, k)[pool] == entry_of(events[i]) by {
            if i < k - 1 {
                assert(is_newest_of(events, k - 1, pool, i));
                assert(m[pool] == entry_of(events[i]));
                assert(ev.pool == pool ==> ev.rank() <= events[i].rank());
            } else if exists|j: int| 0 <= j < k - 1 && (#[trigger] events[j]).pool == pool {
                lemma_some_newest(events, k - 1, pool);
                let front = k - 1;
                let n = choose|n: int| is_newest_of(events, front, pool, n);
                if events[n].rank() > own {
                    assert(m[pool] == entry_of(events[n]));
                } else {
                    assert(m[pool] == map[pool]);
                }
                assert(events[n].rank() < ev.rank());
            } else {
                assert(m[pool] == map[pool]);
            }
        }
    }
}

/// What all events, applied in order, leave of a pool.
proof fn lemma_newest_in_order(
    map: Map<Address, Entry>,
    events: Seq<PoolEvent>,
    pool: Address,
)
    requires
        map.dom().contains(pool),
    ensures
        all_applied(map, events).dom() == map.dom(),
        forall|i: int|
            is_newest_of(events, events.len() as int, pool, i) && (#[trigger] events[i]).rank()
                > rank_of(map[pool].block, map[pool].log_index) ==> all_applied(map, events)[pool]
                == entry_of(events[i]),
        !touches(events, pool) ==> all_applied(map, events)[pool] == map[pool],
{
    let keys = event_keys(events);
    let order = stable_order(keys);
    let sorted = in_order(events);
    let n = events.len() as int;
    a_stable_order_exists(keys);
    lemma_same_pools(map, sorted, n);
    lemma_newest_stays(map, sorted, n, pool);
    assert forall|j: int| 0 <= j < n implies #[trigger] sorted[j] == events[order[j]] && 0
        <= order[j] < n by {}
    assert forall|i: int|
        is_newest_of(events, n, pool, i) && (#[trigger] events[i]).rank() > rank_of(
            map[pool].block,
            map[pool].log_index,
        ) implies all_applied(map, events)[pool] == entry_of(events[i]) by {
        lemma_order_covers(keys, order, i);
        let q = choose|q: int| 0 <= q < order.len() && order[q] == i;
        assert(sorted[q] == events[i]);
        assert forall|j: int| 0 <= j < n && (#[trigger] sorted[j]).pool == pool implies sorted[j].rank()
            < sorted[q].rank() || (sorted[j].rank() == sorted[q].rank() && q <= j) by {
            let o = order[j];
            assert(events[o].pool == pool);
            assert(keys[o] == events[o].rank() && keys[i] == events[i].rank());
            if j < q {
                assert(comes_before(keys, order[j], order[q]));
            }
        }
        assert(is_newest_of(sorted, n, pool, q));
    }
    if !touches(events, pool) {
        assert forall|j: int| 0 <= j < n implies (#[trigger] sorted[j]).pool != pool by {
            assert(events[order[j]].pool != pool);
        }
    }
}

/// After a sealed block, a tracked pool's confirmed entry is the block's event of it with the
/// largest log index, or what it was; its optimistic entry is the newest preconfirmation of it
/// for a later block, or the confirmed one.
pub proof fn sealed_pools_hold_their_last_event(
    v: DualView,
    block: u64,
    events: Seq<PoolEvent>,
    pool: Address,
)
    requires
        confirmed_so_far(v),
        block > v.confirmed_block,
        forall|i: int| 0 <= i < events.len() ==> (#[trigger] events[i]).block == block,
        v.confirmed.dom().contains(pool),
    ensures
        block_sealed(v, block, events).confirmed_block == block,
        block_sealed(v, block, events).confirmed.dom() == v.confirmed.dom(),
        block_sealed(v, block, events).optimistic.dom() == v.confirmed.dom(),
        touches(events, pool) ==> exists|i: int|
            is_newest_of(events, events.len() as int, pool, i) && block_sealed(
                v,
                block,
                events,
            ).confirmed[pool] == entry_of(#[trigger] events[i]),
        !touches(events, pool) ==> block_sealed(v, block, events).confirmed[pool]
            == v.confirmed[pool],
        ({
            let pending = block_sealed(v, block, events).pending;
            touches(pending, pool) ==> exists|i: int|
                is_newest_of(pending, pending.len() as int, pool, i) && block_sealed(
                    v,
                    block,
                    events,
                ).optimistic[pool] == entry_of(#[trigger] pending[i])
        }),
        !touches(block_sealed(v, block, events).pending, pool) ==> block_sealed(
            v,
            block,
            events,
        ).optimistic[pool] == block_sealed(v, block, events).confirmed[pool],
{
    let after = block_sealed(v, block, events);
    lemma_newest_in_order(v.confirmed, events, pool);
    if touches(events, pool) {
        lemma_some_newest(events, events.len() as int, pool);
        let count = events.len() as int;
        let i = choose|i: int| is_newest_of(events, count, pool, i);
        assert(events[i].rank() > rank_of(
            v.confirmed[pool].block,
            v.confirmed[pool].log_index,
        ));
        assert(after.confirmed[pool] == entry_of(events[i]));
    }
    assert(after.confirmed[pool].block <= block);
    lemma_newest_in_order(after.confirmed, after.pending, pool);
    if touches(after.pending, pool) {
        let n = after.pending.len() as int;
        lemma_some_newest(after.pending, n, pool);
        let i = choose|i: int| is_newest_of(after.pending, n, pool, i);
        assert(after.pending.contains(after.pending[i]));
        later_preconfirmations_survive(
            v.pending,
            block,
            after.pending[i],
            v.pending.len() as int,
        );
        assert(after.pending[i].rank() > rank_of(
            after.confirmed[pool].block,
            after.confirmed[pool].log_index,
        ));
        assert(after.optimistic[pool] == entry_of(after.pending[i]));
    }
}

/// Events up to a block leave entries up to that block.
proof fn lemma_entries_up_to(
    map: Map<Address, Entry>,
    events: Seq<PoolEvent>,
    k: int,
    block: u64,
)
    requires
        0 <= k <= events.len(),
        forall|p: Address| #[trigger] map.dom().contains(p) ==> map[p].block <= block,
        forall|i: int| 0 <= i < events.len() ==> (#[trigger] events[i]).block <= block,
    ensures
        forall|p: Address| #[trigger]
            events_applied(map, events, k).dom().contains(p) ==> events_applied(
                map,
                events,
                k,
            )[p].block <= block,
    decreases k,
{
    if k > 0 {
        lemma_entries_up_to(map, events, k - 1, block);
    }
}

/// Neither a Flashblock nor a sealed block puts a confirmed entry past the confirmed block, or
/// keeps a preconfirmation that is not past it.
pub proof fn confirmed_entries_stay_behind(
    v: DualView,
    fb: Flashblock,
    block: u64,
    events: Seq<PoolEvent>,
)
    requires
        forall|i: int| 0 <= i < events.len() ==> (#[trigger] events[i]).block <= block,
        forall|i: int| 0 <= i < fb.events@.len() ==> (#[trigger] fb.events@[i]).block == fb.block,
    ensures
        confirmed_so_far(v) ==> confirmed_so_far(flash_applied(v, fb)) && confirmed_so_far(
            block_sealed(v, block, events),
        ),
        pending_ahead(v) ==> pending_ahead(flash_applied(v, fb)) && pending_ahead(
            block_sealed(v, block, events),
        ),
{
    if confirmed_so_far(v) && block > v.confirmed_block {
        let sorted = in_order(events);
        a_stable_order_exists(event_keys(events));
        assert forall|j: int| 0 <= j < sorted.len() implies (#[trigger] sorted[j]).block <= block by {
            let o = stable_order(event_keys(events))[j];
            assert(sorted[j] == events[o]);
        }
        lemma_entries_up_to(v.confirmed, sorted, events.len() as int, block);
    }
    if pending_ahead(v) {
        lemma_pending_ahead(v, block, events);
    }
}

/// A Flashblock is stale at or below the confirmed block and below the block of the last one;
/// the next index of that block, and the first of a later one, are applied; anything else is a
/// gap, which is counted and applied all the same. Sealed state and the divergences stay.
pub proof fn flashblocks_are_told_apart(
    v: DualView,
    fb: Flashblock,
    last_block: u64,
    last_index: u64,
)
    requires
        v.last_flash == Some((last_block, last_index)),
        last_block > v.confirmed_block,
        last_index < u64::MAX,
    ensures
        ({
            let outcome = flash_outcome(v.confirmed_block, v.last_flash, fb.block, fb.index);
            let after = flash_applied(v, fb);
            let stale = fb.block <= v.confirmed_block || fb.block < last_block;
            let next = (fb.block == last_block && fb.index == last_index + 1) || (fb.block
                > last_block && fb.index == 0);
            &&& outcome == FlashOutcome::Stale <==> stale
            &&& outcome == FlashOutcome::Applied <==> next
            &&& outcome == FlashOutcome::Gap <==> !stale && !next
            &&& stale ==> after == v
            &&& next ==> after.gaps == v.gaps
            &&& outcome == FlashOutcome::Gap ==> after.gaps == v.gaps + 1
            &&& !stale ==> after.optimistic == events_applied(
                v.optimistic,
                fb.events@,
                fb.events@.len() as int,
            )
            &&& after.confirmed == v.confirmed
            &&& after.confirmed_block == v.confirmed_block
            &&& after.divergences == v.divergences
        }),
{
}

/// A sealed block keeps only preconfirmations past the confirmed block.
proof fn lemma_pending_ahead(v: DualView, block: u64, events: Seq<PoolEvent>)
    requires
        pending_ahead(v),
    ensures
        pending_ahead(block_sealed(v, block, events)),
{
    let after = block_sealed(v, block, events);
    if block > v.confirmed_block {
        assert forall|i: int| 0 <= i < after.pending.len() implies (
        #[trigger] after.pending[i]).block > block by {
            assert(after.pending.contains(after.pending[i]));
            later_preconfirmations_survive(
                v.pending,
                block,
                after.pending[i],
                v.pending.len() as int,
            );
        }
    }
}

/// The events of the first `k` that are of `number` or later, in order.
pub open spec fn from_block(buffer: Seq<PoolEvent>, number: u64, k: int) -> Seq<PoolEvent>
    decreases k,
{
    if k <= 0 {
        Seq::empty()
    } else if buffer[k - 1].block >= number {
        from_block(buffer, number, k - 1).push(buffer[k - 1])
    } else {
        from_block(buffer, number, k - 1)
    }
}

/// Among the blocks below `number` in the buffer there is a lowest one.
proof fn lemma_lowest_exists(buffer: Seq<PoolEvent>, number: u64, i: int)
    requires
        0 <= i < buffer.len(),
        buffer[i].block < number,
    ensures
        exists|b: u64| is_lowest_complete(buffer, number, b),
    decreases buffer[i].block,
{
    let b = buffer[i].block;
    if !is_lowest_complete(buffer, number, b) {
        let j = choose|j: int|
            0 <= j < buffer.len() && (#[trigger] buffer[j]).block < number && b > buffer[j].block;
        lemma_lowest_exists(buffer, number, j);
    }
}

/// A buffer without complete blocks keeps every event.
proof fn lemma_from_all(buffer: Seq<PoolEvent>, number: u64, k: int)
    requires
        0 <= k <= buffer.len(),
        forall|i: int| 0 <= i < buffer.len() ==> (#[trigger] buffer[i]).block >= number,
    ensures
        from_block(buffer, number, k) == buffer.take(k),
    decreases k,
{
    if k > 0 {
        lemma_from_all(buffer, number, k - 1);
        assert(buffer.take(k) =~= buffer.take(k - 1).push(buffer[k - 1]));
    } else {
        assert(buffer.take(0) =~= Seq::empty());
    }
}

/// The first `k` events of a longer sequence are told apart as in it.
proof fn lemma_from_push(buffer: Seq<PoolEvent>, e: PoolEvent, number: u64, k: int)
    requires
        0 <= k <= buffer.len(),
    ensures
        from_block(buffer.push(e), number, k) == from_block(buffer, number, k),
    decreases k,
{
    if k > 0 {
        lemma_from_push(buffer, e, number, k - 1);
    }
}

/// Taking a complete block out leaves the events of incomplete ones, and every other event.
proof fn lemma_from_split(buffer: Seq<PoolEvent>, b: u64, number: u64, k: int)
    requires
        0 <= k <= buffer.len(),
        b < number,
    ensures
        ({
            let kept = split_block(buffer, b, false, k);
            &&& from_block(kept, number, kept.len() as int) == from_block(buffer, number, k)
            &&& forall|i: int|
                0 <= i < k && (#[trigger] buffer[i]).block != b ==> kept.contains(buffer[i])
            &&& forall|e: PoolEvent| #[trigger]
                kept.contains(e) ==> (exists|i: int| 0 <= i < k && #[trigger] buffer[i] == e)
        }),
    decreases k,
{
    if k > 0 {
        lemma_from_split(buffer, b, number, k - 1);
        let before = split_block(buffer, b, false, k - 1);
        let kept = split_block(buffer, b, false, k);
        if buffer[k - 1].block != b {
            lemma_from_push(before, buffer[k - 1], number, before.len() as int);
            assert(kept == before.push(buffer[k - 1]));
            assert(kept[before.len() as int] == buffer[k - 1]);
            assert forall|i: int| 0 <= i < k && (#[trigger] buffer[i]).block != b implies kept.contains(
                buffer[i],
            ) by {
                if i < k - 1 {
                    let j = choose|j: int| 0 <= j < before.len() && before[j] == buffer[i];
                    assert(kept[j] == buffer[i]);
                }
            }
            assert forall|e: PoolEvent| #[trigger] kept.contains(e) implies (exists|i: int|
                0 <= i < k && #[trigger] buffer[i] == e) by {
                let j = choose|j: int| 0 <= j < kept.len() && kept[j] == e;
                if j < before.len() {
                    assert(before.contains(e));
                } else {
                    assert(buffer[k - 1] == e);
                }
            }
        }
    } else {
        assert(split_block(buffer, b, false, k) =~= Seq::empty());
    }
}

/// A head takes the events of the blocks below it out of the buffer and leaves the others as they
/// came. The confirmed block rises to the last block below the head that had events, and to no
/// other: a head that finds none changes nothing. The preconfirmations stay ahead of it.
pub proof fn heads_seal_the_buffered_blocks(
    v: DualView,
    buffer: Seq<PoolEvent>,
    number: u64,
    steps: nat,
)
    requires
        steps >= buffer.len(),
    ensures
        ({
            let (after, kept) = flushed(v, buffer, number, steps);
            &&& kept == from_block(buffer, number, buffer.len() as int)
            &&& v.confirmed_block <= after.confirmed_block
            &&& forall|i: int|
                0 <= i < buffer.len() && (#[trigger] buffer[i]).block < number ==> buffer[i].block
                    <= after.confirmed_block
            &&& after.confirmed_block == v.confirmed_block || exists|i: int|
                0 <= i < buffer.len() && (#[trigger] buffer[i]).block < number && buffer[i].block
                    == after.confirmed_block
            &&& (forall|i: int| 0 <= i < buffer.len() ==> (#[trigger] buffer[i]).block >= number)
                ==> after == v && kept == buffer
            &&& pending_ahead(v) ==> pending_ahead(after)
        }),
    decreases steps,
{
    let n = buffer.len() as int;
    if exists|b: u64| is_lowest_complete(buffer, number, b) {
        let b = choose|b: u64| is_lowest_complete(buffer, number, b);
        let at = choose|i: int| 0 <= i < buffer.len() && (#[trigger] buffer[i]).block == b;
        let sealed = split_block(buffer, b, true, n);
        let rest = split_block(buffer, b, false, n);
        let next = block_sealed(v, b, sealed);
        lemma_split(buffer, b, n);
        lemma_from_split(buffer, b, number, n);
        if pending_ahead(v) {
            lemma_pending_ahead(v, b, sealed);
        }
        heads_seal_the_buffered_blocks(next, rest, number, (steps - 1) as nat);
        let after = flushed(v, buffer, number, steps).0;
        assert forall|i: int| 0 <= i < n && (#[trigger] buffer[i]).block < number implies buffer[i].block
            <= after.confirmed_block by {
            if buffer[i].block != b {
                assert(rest.contains(buffer[i]));
                let j = choose|j: int| 0 <= j < rest.len() && rest[j] == buffer[i];
                assert(rest[j].block < number);
            }
        }
        if after.confirmed_block != next.confirmed_block {
            let j = choose|j: int|
                0 <= j < rest.len() && (#[trigger] rest[j]).block < number && rest[j].block
                    == after.confirmed_block;
            assert(rest.contains(rest[j]));
        }
    } else {
        assert forall|i: int| 0 <= i < n implies (#[trigger] buffer[i]).block >= number by {
            if buffer[i].block < number {
                lemma_lowest_exists(buffer, number, i);
            }
        }
        lemma_from_all(buffer, number, n);
        assert(buffer.take(n) =~= buffer);
    }
}

} // verus!
