//! Earnings simulation engine.
//!
//! Replays a single chain's swap-event stream and estimates realized arbitrage profit under the
//! latency model: when a candidate USDC→…→USDC cycle is detected at stream index `t`, we draw
//! `K` from the [`LatencyPdf`] and recompute the *same* trade against the pool state advanced
//! by `K` events (the state at `t + K`), counting it only if still net-positive.
//!
//! Everything here is deterministic: `(seed, stream, cycles, pdf)` fully determine the
//! [`SimReport`]. State lookups are a binary search; no AMM math is replayed to move through
//! the stream, only each candidate cycle's own quotes run, against the chosen snapshot.
use crate::amm::univ2::UniV2Pool;
use crate::path::{gas_of, net_profit, net_value, Leg};
use crate::sim::pdf::{delay_of, shares_partition_the_scale, LatencyPdf, SCALE};
use crate::sim::rng::{accepted_state, mixed, stepped, value_below, SplitMix64};
use crate::types::{lemma_u256_ext, lemma_u256_range, two256, Address, U256};
use vstd::prelude::*;

verus! {

pub type PoolId = usize;

/// Absolute post-event state of a pool (what on-chain logs carry).
#[derive(Clone, Copy, Debug, PartialEq, Eq, Structural)]
pub enum PoolStateSnapshot {
    UniV2 { reserve0: U256, reserve1: U256 },
}

/// Static pool configuration, paired with snapshots to build a concrete pool for quoting.
#[derive(Clone, Copy, Debug)]
pub enum PoolMeta {
    UniV2 { address: Address, token0: Address, token1: Address, fee_bps: u32 },
}

impl PoolMeta {
    /// The pool in the given state.
    pub open spec fn pool_in(self, state: PoolStateSnapshot) -> UniV2Pool {
        match (self, state) {
            (
                PoolMeta::UniV2 { address, token0, token1, fee_bps },
                PoolStateSnapshot::UniV2 { reserve0, reserve1 },
            ) => UniV2Pool {
                address,
                token0,
                token1,
                reserve0,
                reserve1,
                fee_bps,
                tokens: [token0, token1],
            },
        }
    }

    /// The pool in the given state.
    pub fn build(&self, state: &PoolStateSnapshot) -> (r: UniV2Pool)
        ensures
            r == self.pool_in(*state),
    {
        match (*self, *state) {
            (
                PoolMeta::UniV2 { address, token0, token1, fee_bps },
                PoolStateSnapshot::UniV2 { reserve0, reserve1 },
            ) => UniV2Pool {
                address,
                token0,
                token1,
                reserve0,
                reserve1,
                fee_bps,
                tokens: [token0, token1],
            },
        }
    }
}

/// The set of pools being simulated, with their initial states.
pub struct PoolUniverse {
    pub metas: Vec<PoolMeta>,
    pub initial: Vec<PoolStateSnapshot>,
}

/// One state-changing event in global stream order; carries the touched pool's absolute
/// post-event state.
#[derive(Clone, Copy, Debug)]
pub struct PoolEvent {
    pub pool: PoolId,
    pub state: PoolStateSnapshot,
}

/// The events of a chain in order.
pub struct ChainEventStream {
    pub events: Vec<PoolEvent>,
}

/// One hop of a closed cycle. `hops[0].token_in == hops[last].token_out` (USDC).
#[derive(Clone, Copy, Debug)]
pub struct Hop {
    pub pool: PoolId,
    pub token_in: Address,
    pub token_out: Address,
}

/// A closed cycle of hops.
#[derive(Clone, Debug)]
pub struct Cycle {
    pub hops: Vec<Hop>,
}

/// What a simulation runs under.
#[derive(Clone, Debug)]
pub struct SimConfig {
    pub pdf: LatencyPdf,
    pub seed: u64,
    /// Fixed input size committed at detection time (the same `amount_in` is reused for the
    /// delayed recompute: calldata is fixed once submitted).
    pub amount_in: U256,
    pub gas_price_wei: U256,
    pub token_units_per_native_1e18: U256,
}

/// What a simulation found.
#[derive(Clone, Debug, PartialEq, Eq)]
pub struct SimReport {
    pub realized_profit: U256,
    pub detected: u64,
    pub landed_profitable: u64,
    pub missed_latency: u64,
    /// `delay_histogram[k]` = number of fired opportunities that drew `K = k`.
    pub delay_histogram: Vec<u64>,
}

impl Default for SimReport {
    fn default() -> (r: SimReport)
        ensures
            r.realized_profit@ == 0,
            r.detected == 0,
            r.landed_profitable == 0,
            r.missed_latency == 0,
            r.delay_histogram@ == Seq::<u64>::empty(),
    {
        SimReport {
            realized_profit: U256::zero(),
            detected: 0,
            landed_profitable: 0,
            missed_latency: 0,
            delay_histogram: Vec::new(),
        }
    }
}

/// The places of a pool's events among the first `n`.
pub open spec fn places(events: Seq<PoolEvent>, pool: PoolId, n: int) -> Seq<usize>
    decreases n,
{
    if n <= 0 {
        Seq::empty()
    } else if events[n - 1].pool == pool {
        places(events, pool, n - 1).push((n - 1) as usize)
    } else {
        places(events, pool, n - 1)
    }
}

/// A pool's states over the first `n` events: the initial one, then one after each of its own.
pub open spec fn states(
    initial: PoolStateSnapshot,
    events: Seq<PoolEvent>,
    pool: PoolId,
    n: int,
) -> Seq<PoolStateSnapshot>
    decreases n,
{
    if n <= 0 {
        seq![initial]
    } else if events[n - 1].pool == pool {
        states(initial, events, pool, n - 1).push(events[n - 1].state)
    } else {
        states(initial, events, pool, n - 1)
    }
}

/// A pool's state after the first `n` events.
pub open spec fn state_after(
    initial: PoolStateSnapshot,
    events: Seq<PoolEvent>,
    pool: PoolId,
    n: int,
) -> PoolStateSnapshot
    decreases n,
{
    if n <= 0 {
        initial
    } else if events[n - 1].pool == pool {
        events[n - 1].state
    } else {
        state_after(initial, events, pool, n - 1)
    }
}

/// How many of `n` events have happened just after index `t`: none follow the last.
pub open spec fn happened(t: int, n: int) -> int {
    if t + 1 < n {
        t + 1
    } else {
        n
    }
}

/// How many of the places are at most `t`.
pub open spec fn seen(positions: Seq<usize>, t: int) -> int
    decreases positions.len(),
{
    if positions.len() == 0 {
        0
    } else {
        seen(positions.drop_last(), t) + if positions.last() <= t {
            1int
        } else {
            0
        }
    }
}

/// Per-pool state history for `state_at` lookups.
pub struct StateHistory {
    /// `snapshots[p][s]` = pool `p`'s state after its `s`-th event (`s==0` initial).
    pub snapshots: Vec<Vec<PoolStateSnapshot>>,
    /// `positions[p][k]` = global index of pool `p`'s `(k+1)`-th event.
    pub positions: Vec<Vec<usize>>,
}

/// Places in ascending order.
pub open spec fn ascending(positions: Seq<usize>) -> bool {
    forall|i: int, j: int|
        0 <= i < j < positions.len() ==> #[trigger] positions[i] < #[trigger] positions[j]
}

/// The places up to `t` are the first ones of an ascending list.
proof fn lemma_seen(positions: Seq<usize>, t: int, n: int)
    requires
        0 <= n <= positions.len(),
        forall|k: int| 0 <= k < n ==> positions[k] <= t,
        forall|k: int| n <= k < positions.len() ==> positions[k] > t,
    ensures
        seen(positions, t) == n,
    decreases positions.len(),
{
    if positions.len() > 0 {
        let front = positions.drop_last();
        if n == positions.len() {
            lemma_seen(front, t, n - 1);
        } else {
            lemma_seen(front, t, n);
        }
    }
}

/// The places of a pool's events ascend and are below `n`.
proof fn lemma_places(events: Seq<PoolEvent>, pool: PoolId, n: int)
    requires
        0 <= n <= events.len() <= usize::MAX,
    ensures
        ascending(places(events, pool, n)),
        forall|k: int|
            0 <= k < places(events, pool, n).len() ==> #[trigger] places(events, pool, n)[k] < n,
    decreases n,
{
    if n > 0 {
        lemma_places(events, pool, n - 1);
    }
}

/// The snapshot at the number of places seen is the state after the events that happened.
proof fn lemma_history(
    initial: PoolStateSnapshot,
    events: Seq<PoolEvent>,
    pool: PoolId,
    t: int,
    n: int,
)
    requires
        0 <= n <= events.len() <= usize::MAX,
        0 <= t,
    ensures
        states(initial, events, pool, n).len() == places(events, pool, n).len() + 1,
        0 <= seen(places(events, pool, n), t) <= places(events, pool, n).len(),
        states(initial, events, pool, n).last() == state_after(initial, events, pool, n),
        states(initial, events, pool, n)[seen(places(events, pool, n), t)] == state_after(
            initial,
            events,
            pool,
            happened(t, n),
        ),
        n <= t + 1 ==> seen(places(events, pool, n), t) == places(events, pool, n).len(),
    decreases n,
{
    if n > 0 {
        lemma_history(initial, events, pool, t, n - 1);
        if events[n - 1].pool == pool {
            assert(places(events, pool, n).drop_last() =~= places(events, pool, n - 1));
        }
    }
}

impl StateHistory {
    /// Each pool has its initial state and one more per event, whose places ascend.
    pub open spec fn wf(self) -> bool {
        &&& self.snapshots.len() == self.positions.len()
        &&& forall|p: int|
            0 <= p < self.positions.len() ==> (#[trigger] self.snapshots@[p]).len()
                == self.positions@[p].len() + 1
        &&& forall|p: int|
            0 <= p < self.positions.len() ==> ascending(#[trigger] self.positions@[p]@)
    }

    /// What the history of a stream is.
    pub open spec fn records(
        self,
        initial: Seq<PoolStateSnapshot>,
        events: Seq<PoolEvent>,
        n: int,
    ) -> bool {
        &&& self.snapshots.len() == initial.len()
        &&& self.positions.len() == initial.len()
        &&& forall|p: int|
            0 <= p < initial.len() ==> (#[trigger] self.positions@[p])@ == places(
                events,
                p as usize,
                n,
            )
        &&& forall|p: int|
            0 <= p < initial.len() ==> (#[trigger] self.snapshots@[p])@ == states(
                initial[p],
                events,
                p as usize,
                n,
            )
    }

    /// The history of a stream from the initial states.
    pub fn build(initial: &[PoolStateSnapshot], stream: &ChainEventStream) -> (r: StateHistory)
        requires
            forall|i: int|
                0 <= i < stream.events.len() ==> (#[trigger] stream.events@[i]).pool
                    < initial@.len(),
        ensures
            r.records(initial@, stream.events@, stream.events.len() as int),
            r.wf(),
    {
        let mut snapshots: Vec<Vec<PoolStateSnapshot>> = Vec::new();
        let mut positions: Vec<Vec<usize>> = Vec::new();
        let mut i: usize = 0;
        while i < initial.len()
            invariant
                i <= initial@.len(),
                snapshots.len() == i,
                positions.len() == i,
                forall|p: int| 0 <= p < i ==> (#[trigger] positions@[p])@ == Seq::<usize>::empty(),
                forall|p: int|
                    0 <= p < i ==> (#[trigger] snapshots@[p])@ == seq![initial@[p]],
            decreases initial@.len() - i,
        {
            let mut first: Vec<PoolStateSnapshot> = Vec::new();
            first.push(initial[i]);
            assert(first@ =~= seq![initial@[i as int]]);
            snapshots.push(first);
            positions.push(Vec::new());
            i = i + 1;
        }
        let mut g: usize = 0;
        let ghost events = stream.events@;
        while g < stream.events.len()
            invariant
                g <= events.len(),
                events == stream.events@,
                forall|i: int| 0 <= i < events.len() ==> (#[trigger] events[i]).pool < initial@.len(),
                snapshots.len() == initial@.len(),
                positions.len() == initial@.len(),
                forall|p: int|
                    0 <= p < initial@.len() ==> (#[trigger] positions@[p])@ == places(
                        events,
                        p as usize,
                        g as int,
                    ),
                forall|p: int|
                    0 <= p < initial@.len() ==> (#[trigger] snapshots@[p])@ == states(
                        initial@[p],
                        events,
                        p as usize,
                        g as int,
                    ),
            decreases events.len() - g,
        {
            let event = stream.events[g];
            snapshots[event.pool].push(event.state);
            positions[event.pool].push(g);
            g = g + 1;
        }
        let r = StateHistory { snapshots, positions };
        proof {
            assert forall|p: int| 0 <= p < r.positions.len() implies ascending(
                #[trigger] r.positions@[p]@,
            ) && r.snapshots@[p].len() == r.positions@[p].len() + 1 by {
                lemma_places(events, p as usize, g as int);
                lemma_history(initial@[p], events, p as usize, 0, g as int);
            }
        }
        r
    }

    /// Number of pool-`p` events with global index `<= t`.
    pub fn seq_at(&self, p: PoolId, t: usize) -> (r: usize)
        requires
            self.wf(),
            p < self.positions.len(),
        ensures
            r == seen(self.positions@[p as int]@, t as int),
            r <= self.positions@[p as int].len(),
    {
        let positions = &self.positions[p];
        let mut lo: usize = 0;
        let mut hi: usize = positions.len();
        assert(ascending(self.positions@[p as int]@));
        while lo < hi
            invariant
                lo <= hi <= positions.len(),
                ascending(positions@),
                forall|k: int| 0 <= k < lo ==> positions@[k] <= t,
                forall|k: int| hi <= k < positions.len() ==> positions@[k] > t,
            decreases hi - lo,
        {
            let mid: usize = lo + (hi - lo) / 2;
            if positions[mid] <= t {
                lo = mid + 1;
            } else {
                hi = mid;
            }
        }
        proof {
            lemma_seen(positions@, t as int, lo as int);
        }
        lo
    }

    /// Pool `p`'s state as of just after global index `t` (clamped to the end).
    pub fn state_at(&self, p: PoolId, t: usize) -> (r: &PoolStateSnapshot)
        requires
            self.wf(),
            p < self.positions.len(),
        ensures
            *r == self.snapshots@[p as int]@[seen(self.positions@[p as int]@, t as int)],
    {
        let s: usize = self.seq_at(p, t);
        assert(self.snapshots@[p as int].len() == self.positions@[p as int].len() + 1);
        &self.snapshots[p][s]
    }
}

/// A history gives back each pool's state after the events up to an index, however large: past
/// the end it is the final state.
pub proof fn history_replays_the_stream(
    history: StateHistory,
    initial: Seq<PoolStateSnapshot>,
    events: Seq<PoolEvent>,
    p: PoolId,
    t: usize,
)
    requires
        events.len() <= usize::MAX,
        history.records(initial, events, events.len() as int),
        p < initial.len(),
    ensures
        history.snapshots@[p as int]@[seen(history.positions@[p as int]@, t as int)]
            == state_after(initial[p as int], events, p, happened(t as int, events.len() as int)),
        t >= events.len() ==> history.snapshots@[p as int]@[seen(
            history.positions@[p as int]@,
            t as int,
        )] == state_after(initial[p as int], events, p, events.len() as int),
{
    assert(history.positions@[p as int]@ == places(events, p, events.len() as int));
    assert(history.snapshots@[p as int]@ == states(
        initial[p as int],
        events,
        p,
        events.len() as int,
    ));
    lemma_history(initial[p as int], events, p, t as int, events.len() as int);
}

/// A pool's state just after index `t` of the stream.
pub open spec fn state_just_after(
    universe: PoolUniverse,
    events: Seq<PoolEvent>,
    pool: PoolId,
    t: int,
) -> PoolStateSnapshot {
    state_after(
        universe.initial@[pool as int],
        events,
        pool,
        happened(t, events.len() as int),
    )
}

/// A hop through its pool.
pub open spec fn leg_through<'a>(pool: UniV2Pool, hop: Hop) -> Leg<'a> {
    Leg { pool: &pool, token_in: hop.token_in, token_out: hop.token_out }
}

/// The pool of a hop just after index `t`.
pub open spec fn hop_pool(
    universe: PoolUniverse,
    events: Seq<PoolEvent>,
    hop: Hop,
    t: int,
) -> UniV2Pool {
    universe.metas@[hop.pool as int].pool_in(state_just_after(universe, events, hop.pool, t))
}

/// The legs of a cycle against the pools just after index `t`.
pub open spec fn cycle_legs<'a>(
    universe: PoolUniverse,
    events: Seq<PoolEvent>,
    cycle: Cycle,
    t: int,
) -> Seq<Leg<'a>> {
    Seq::new(
        cycle.hops@.len(),
        |i: int| leg_through(hop_pool(universe, events, cycle.hops@[i], t), cycle.hops@[i]),
    )
}

/// What a cycle nets just after index `t`, if anything.
pub open spec fn cycle_net(
    universe: PoolUniverse,
    events: Seq<PoolEvent>,
    cycle: Cycle,
    t: int,
    cfg: SimConfig,
) -> Option<int> {
    match net_value(
        cycle_legs(universe, events, cycle, t),
        cfg.amount_in@,
        cfg.gas_price_wei@,
        cfg.token_units_per_native_1e18@,
    ) {
        Ok(net) => net.net_profit,
        Err(_) => None,
    }
}

/// The pools that a cycle names are there, and its gas fits in 64 bits.
pub open spec fn cycle_wf(universe: PoolUniverse, cycle: Cycle) -> bool {
    &&& forall|i: int|
        0 <= i < cycle.hops.len() ==> (#[trigger] cycle.hops@[i]).pool < universe.metas.len()
            && cycle.hops@[i].pool < universe.initial.len()
    &&& cycle.hops.len() * 100_000 <= u64::MAX
}

/// The pools that the events touch are there.
pub open spec fn stream_wf(universe: PoolUniverse, events: Seq<PoolEvent>) -> bool {
    forall|i: int|
        0 <= i < events.len() ==> (#[trigger] events[i]).pool < universe.metas.len()
            && events[i].pool < universe.initial.len()
}

/// Each constant-product leg takes the same gas.
proof fn lemma_cycle_gas(
    universe: PoolUniverse,
    events: Seq<PoolEvent>,
    cycle: Cycle,
    t: int,
    k: int,
)
    requires
        0 <= k <= cycle.hops@.len(),
    ensures
        gas_of(cycle_legs(universe, events, cycle, t), k) == k * 100_000,
    decreases k,
{
    if k > 0 {
        lemma_cycle_gas(universe, events, cycle, t, k - 1);
    }
}

/// Evaluate a cycle's net profit against the state as of global index `t`. Returns
/// `Some(profit)` only if strictly net-positive (after fees and gas).
pub fn eval_cycle(
    universe: &PoolUniverse,
    hist: &StateHistory,
    cycle: &Cycle,
    t: usize,
    cfg: &SimConfig,
    stream: &ChainEventStream,
) -> (r: Option<U256>)
    requires
        cycle_wf(*universe, *cycle),
        hist.wf(),
        hist.records(universe.initial@, stream.events@, stream.events.len() as int),
    ensures
        (match r {
            Some(profit) => Some(profit@),
            None => None,
        }) == cycle_net(*universe, stream.events@, *cycle, t as int, *cfg),
        r matches Some(profit) ==> profit@ > 0,
{
    let ghost events = stream.events@;
    let ghost wanted = cycle_legs(*universe, events, *cycle, t as int);
    let mut pools: Vec<UniV2Pool> = Vec::new();
    let mut i: usize = 0;
    while i < cycle.hops.len()
        invariant
            i <= cycle.hops.len(),
            pools.len() == i,
            cycle_wf(*universe, *cycle),
            hist.wf(),
            events == stream.events@,
            events.len() <= usize::MAX,
            hist.records(universe.initial@, events, events.len() as int),
            forall|j: int|
                0 <= j < i ==> #[trigger] pools@[j] == hop_pool(
                    *universe,
                    events,
                    cycle.hops@[j],
                    t as int,
                ),
        decreases cycle.hops.len() - i,
    {
        let hop = cycle.hops[i];
        proof {
            history_replays_the_stream(*hist, universe.initial@, events, hop.pool, t);
        }
        pools.push(universe.metas[hop.pool].build(hist.state_at(hop.pool, t)));
        i = i + 1;
    }
    let mut legs: Vec<Leg> = Vec::new();
    let mut i: usize = 0;
    while i < cycle.hops.len()
        invariant
            i <= cycle.hops.len(),
            pools.len() == cycle.hops.len(),
            legs.len() == i,
            events == stream.events@,
            wanted == cycle_legs(*universe, events, *cycle, t as int),
            forall|j: int|
                0 <= j < pools.len() ==> #[trigger] pools@[j] == hop_pool(
                    *universe,
                    events,
                    cycle.hops@[j],
                    t as int,
                ),
            forall|j: int| 0 <= j < i ==> #[trigger] legs@[j] == wanted[j],
        decreases cycle.hops.len() - i,
    {
        let hop = cycle.hops[i];
        let pool: &UniV2Pool = &pools[i];
        let leg = Leg { pool, token_in: hop.token_in, token_out: hop.token_out };
        assert(leg == wanted[i as int]);
        legs.push(leg);
        i = i + 1;
    }
    proof {
        assert(legs@ =~= wanted);
        lemma_cycle_gas(*universe, events, *cycle, t as int, cycle.hops@.len() as int);
    }
    match net_profit(
        legs.as_slice(),
        cfg.amount_in,
        cfg.gas_price_wei,
        cfg.token_units_per_native_1e18,
    ) {
        Ok(r) => r.net_profit,
        Err(_) => None,
    }
}

/// One of the hops goes through `pool`.
pub open spec fn touches(hops: Seq<Hop>, pool: PoolId) -> bool {
    exists|i: int| 0 <= i < hops.len() && (#[trigger] hops[i]).pool == pool
}

/// Which of the first `n` cycles go through `pool`.
pub open spec fn touching(cycles: Seq<Cycle>, pool: PoolId, n: int) -> Seq<usize>
    decreases n,
{
    if n <= 0 {
        Seq::empty()
    } else if touches(cycles[n - 1].hops@, pool) {
        touching(cycles, pool, n - 1).push((n - 1) as usize)
    } else {
        touching(cycles, pool, n - 1)
    }
}

/// How far a simulation has come.
pub struct Progress {
    /// The generator's state.
    pub rng: u64,
    /// Which cycles have an edge that has been fired on.
    pub active: Seq<bool>,
    pub realized_profit: int,
    pub detected: int,
    pub landed_profitable: int,
    pub missed_latency: int,
    pub delay_histogram: Seq<int>,
}

/// Nothing has happened yet.
pub open spec fn started(cycles: Seq<Cycle>, cfg: SimConfig) -> Progress {
    Progress {
        rng: cfg.seed,
        active: Seq::new(cycles.len(), |i: int| false),
        realized_profit: 0,
        detected: 0,
        landed_profitable: 0,
        missed_latency: 0,
        delay_histogram: Seq::new(cfg.pdf.weights@.len(), |i: int| 0),
    }
}

/// The cycle `c` is looked at after event `t`. An edge that opens is fired on once: the trade
/// lands a drawn number of events late, and earns what it nets then, if anything. An edge that
/// closes can be fired on again.
pub open spec fn looked_at(
    universe: PoolUniverse,
    cycles: Seq<Cycle>,
    events: Seq<PoolEvent>,
    cfg: SimConfig,
    p: Progress,
    t: int,
    c: int,
) -> Progress {
    if cycle_net(universe, events, cycles[c], t, cfg) is None {
        Progress { active: p.active.update(c, false), ..p }
    } else if p.active[c] {
        p
    } else {
        let rng = accepted_state(stepped(p.rng), SCALE);
        let k = delay_of(cfg.pdf.weights@, value_below(rng, SCALE));
        let fired = Progress {
            rng,
            active: p.active.update(c, true),
            detected: p.detected + 1,
            delay_histogram: p.delay_histogram.update(k, p.delay_histogram[k] + 1),
            ..p
        };
        match cycle_net(universe, events, cycles[c], t + k, cfg) {
            Some(profit) => Progress {
                realized_profit: (p.realized_profit + profit) % two256(),
                landed_profitable: p.landed_profitable + 1,
                ..fired
            },
            None => Progress { missed_latency: p.missed_latency + 1, ..fired },
        }
    }
}

/// The first `j` cycles that go through the pool of event `t` have been looked at.
pub open spec fn after_cycles(
    universe: PoolUniverse,
    cycles: Seq<Cycle>,
    events: Seq<PoolEvent>,
    cfg: SimConfig,
    p: Progress,
    t: int,
    j: int,
) -> Progress
    decreases j,
{
    if j <= 0 {
        p
    } else {
        looked_at(
            universe,
            cycles,
            events,
            cfg,
            after_cycles(universe, cycles, events, cfg, p, t, j - 1),
            t,
            touching(cycles, events[t].pool, cycles.len() as int)[j - 1] as int,
        )
    }
}

/// The first `n` events have been replayed.
pub open spec fn after_events(
    universe: PoolUniverse,
    cycles: Seq<Cycle>,
    events: Seq<PoolEvent>,
    cfg: SimConfig,
    n: int,
) -> Progress
    decreases n,
{
    if n <= 0 {
        started(cycles, cfg)
    } else {
        after_cycles(
            universe,
            cycles,
            events,
            cfg,
            after_events(universe, cycles, events, cfg, n - 1),
            n - 1,
            touching(cycles, events[n - 1].pool, cycles.len() as int).len() as int,
        )
    }
}

/// The sum of a histogram.
pub open spec fn tally(histogram: Seq<int>) -> int
    decreases histogram.len(),
{
    if histogram.len() == 0 {
        0
    } else {
        tally(histogram.drop_last()) + histogram.last()
    }
}

impl SimReport {
    /// The report says how far the simulation has come.
    pub open spec fn reports(&self, p: Progress) -> bool {
        &&& self.realized_profit@ == p.realized_profit
        &&& self.detected == p.detected
        &&& self.landed_profitable == p.landed_profitable
        &&& self.missed_latency == p.missed_latency
        &&& self.delay_histogram@.len() == p.delay_histogram.len()
        &&& forall|k: int|
            0 <= k < p.delay_histogram.len() ==> #[trigger] self.delay_histogram@[k]
                == p.delay_histogram[k]
    }
}

/// The cycles that go through a pool are listed once each, in order.
proof fn lemma_touching(cycles: Seq<Cycle>, pool: PoolId, n: int)
    requires
        0 <= n <= cycles.len() <= usize::MAX,
    ensures
        touching(cycles, pool, n).len() <= n,
        forall|j: int|
            0 <= j < touching(cycles, pool, n).len() ==> #[trigger] touching(cycles, pool, n)[j] < n,
    decreases n,
{
    if n > 0 {
        lemma_touching(cycles, pool, n - 1);
    }
}

/// For each pool, the cycles that go through it.
fn cycles_by_pool(universe: &PoolUniverse, cycles: &[Cycle]) -> (r: Vec<Vec<usize>>)
    requires
        forall|c: int| 0 <= c < cycles@.len() ==> cycle_wf(*universe, #[trigger] cycles@[c]),
    ensures
        r.len() == universe.metas.len(),
        forall|p: int|
            0 <= p < r.len() ==> (#[trigger] r@[p])@ == touching(
                cycles@,
                p as usize,
                cycles@.len() as int,
            ),
{
    let mut inverted: Vec<Vec<usize>> = Vec::new();
    let mut i: usize = 0;
    while i < universe.metas.len()
        invariant
            i <= universe.metas.len(),
            inverted.len() == i,
            forall|p: int| 0 <= p < i ==> (#[trigger] inverted@[p])@ == Seq::<usize>::empty(),
        decreases universe.metas.len() - i,
    {
        inverted.push(Vec::new());
        i = i + 1;
    }
    let mut c: usize = 0;
    while c < cycles.len()
        invariant
            c <= cycles@.len(),
            forall|c: int| 0 <= c < cycles@.len() ==> cycle_wf(*universe, #[trigger] cycles@[c]),
            inverted.len() == universe.metas.len(),
            forall|p: int|
                0 <= p < inverted.len() ==> (#[trigger] inverted@[p])@ == touching(
                    cycles@,
                    p as usize,
                    c as int,
                ),
        decreases cycles@.len() - c,
    {
        let ghost hops = cycles@[c as int].hops@;
        let mut j: usize = 0;
        while j < cycles[c].hops.len()
            invariant
                c < cycles@.len(),
                j <= hops.len(),
                hops == cycles@[c as int].hops@,
                cycle_wf(*universe, cycles@[c as int]),
                inverted.len() == universe.metas.len(),
                forall|p: int|
                    0 <= p < inverted.len() ==> (#[trigger] inverted@[p])@ == (if touches(
                        hops.take(j as int),
                        p as usize,
                    ) {
                        touching(cycles@, p as usize, c as int).push(c)
                    } else {
                        touching(cycles@, p as usize, c as int)
                    }),
            decreases hops.len() - j,
        {
            let pool = cycles[c].hops[j].pool;
            let ghost before = inverted@;
            let known: usize = inverted[pool].len();
            proof {
                lemma_touching(cycles@, pool, c as int);
                let taken = hops.take(j + 1);
                assert(taken =~= hops.take(j as int).push(hops[j as int]));
                assert(taken[j as int].pool == pool);
                assert forall|p: usize| p != pool implies touches(taken, p) == touches(
                    hops.take(j as int),
                    p,
                ) by {
                    if touches(hops.take(j as int), p) {
                        let i = choose|i: int|
                            0 <= i < hops.take(j as int).len() && (#[trigger] hops.take(
                                j as int,
                            )[i]).pool == p;
                        assert(taken[i].pool == p);
                    }
                    if touches(taken, p) {
                        let i = choose|i: int|
                            0 <= i < taken.len() && (#[trigger] taken[i]).pool == p;
                        assert(hops.take(j as int)[i].pool == p);
                    }
                }
            }
            if known == 0 || inverted[pool][known - 1] != c {
                inverted[pool].push(c);
            }
            j = j + 1;
        }
        assert(hops.take(j as int) =~= hops);
        c = c + 1;
    }
    inverted
}

/// A simulation under way.
struct Run {
    rng: SplitMix64,
    active: Vec<bool>,
    report: SimReport,
}

impl Run {
    /// How far it has come.
    spec fn progress(self) -> Progress {
        Progress {
            rng: self.rng.state,
            active: self.active@,
            realized_profit: self.report.realized_profit@,
            detected: self.report.detected as int,
            landed_profitable: self.report.landed_profitable as int,
            missed_latency: self.report.missed_latency as int,
            delay_histogram: self.report.delay_histogram@.map_values(|count: u64| count as int),
        }
    }

    /// A run over `cycles` cycles in which nothing has happened yet.
    fn new(cycles: &[Cycle], cfg: &SimConfig) -> (r: Run)
        requires
            cfg.pdf.wf(),
        ensures
            r.progress() == started(cycles@, *cfg),
    {
        let mut active: Vec<bool> = Vec::new();
        while active.len() < cycles.len()
            invariant
                active.len() <= cycles@.len(),
                forall|c: int| 0 <= c < active.len() ==> !(#[trigger] active@[c]),
            decreases cycles@.len() - active.len(),
        {
            active.push(false);
        }
        let mut report = SimReport::default();
        let buckets: usize = cfg.pdf.max_delay() + 1;
        let mut delay_histogram: Vec<u64> = Vec::new();
        while delay_histogram.len() < buckets
            invariant
                delay_histogram.len() <= buckets,
                forall|k: int|
                    0 <= k < delay_histogram.len() ==> #[trigger] delay_histogram@[k] == 0,
            decreases buckets - delay_histogram.len(),
        {
            delay_histogram.push(0);
        }
        report.delay_histogram = delay_histogram;
        let r = Run { rng: SplitMix64::new(cfg.seed), active, report };
        proof {
            assert(r.progress().active =~= started(cycles@, *cfg).active);
            assert(r.progress().delay_histogram =~= started(cycles@, *cfg).delay_histogram);
        }
        r
    }

    /// Look at the cycle `c` after event `t`.
    fn look_at(
        &mut self,
        universe: &PoolUniverse,
        cycles: &[Cycle],
        hist: &StateHistory,
        stream: &ChainEventStream,
        cfg: &SimConfig,
        t: usize,
        c: usize,
    )
        requires
            c < cycles@.len(),
            cycle_wf(*universe, cycles@[c as int]),
            hist.wf(),
            hist.records(universe.initial@, stream.events@, stream.events.len() as int),
            t < stream.events.len(),
            cfg.pdf.wf(),
            steady(cycles@, *cfg, old(self).progress()),
            old(self).progress().detected < u64::MAX,
        ensures
            final(self).progress() == looked_at(
                *universe,
                cycles@,
                stream.events@,
                *cfg,
                old(self).progress(),
                t as int,
                c as int,
            ),
    {
        broadcast use lemma_u256_range;

        let ghost p = self.progress();
        let ghost events = stream.events@;
        if eval_cycle(universe, hist, &cycles[c], t, cfg, stream).is_none() {
            self.active.set(c, false);
            return ;
        }
        if self.active[c] {
            return ;
        }
        self.active.set(c, true);
        self.report.detected = self.report.detected + 1;
        let k: usize = cfg.pdf.sample(&mut self.rng);
        let count: u64 = self.report.delay_histogram[k];
        proof {
            assert(p.delay_histogram[k as int] == count);
            lemma_tally_bounds(p.delay_histogram, k as int);
        }
        self.report.delay_histogram.set(k, count + 1);
        let late: usize = if k > usize::MAX - t {
            usize::MAX
        } else {
            t + k
        };
        proof {
            lemma_late(late as int, t + k, events.len() as int);
            assert(cycle_legs(*universe, events, cycles@[c as int], late as int) =~= cycle_legs(
                *universe,
                events,
                cycles@[c as int],
                t + k,
            ));
        }
        match eval_cycle(universe, hist, &cycles[c], late, cfg, stream) {
            Some(profit) => {
                self.report.realized_profit = self.report.realized_profit.wrapping_add(profit);
                self.report.landed_profitable = self.report.landed_profitable + 1;
            },
            None => {
                self.report.missed_latency = self.report.missed_latency + 1;
            },
        }
        proof {
            assert(self.progress().delay_histogram =~= p.delay_histogram.update(
                k as int,
                p.delay_histogram[k as int] + 1,
            ));
        }
    }
}

/// Looking at a cycle detects at most one opportunity.
proof fn lemma_detections_are_bounded(
    universe: PoolUniverse,
    cycles: Seq<Cycle>,
    events: Seq<PoolEvent>,
    cfg: SimConfig,
    p: Progress,
    t: int,
    j: int,
)
    requires
        0 <= j,
    ensures
        after_cycles(universe, cycles, events, cfg, p, t, j).detected <= p.detected + j,
    decreases j,
{
    if j > 0 {
        lemma_detections_are_bounded(universe, cycles, events, cfg, p, t, j - 1);
    }
}

/// Run the simulation. Iteration order (stream order, then ascending cycle id) is load-bearing
/// for the draws.
pub fn simulate(
    universe: &PoolUniverse,
    cycles: &[Cycle],
    stream: &ChainEventStream,
    cfg: &SimConfig,
) -> (r: SimReport)
    requires
        stream_wf(*universe, stream.events@),
        forall|c: int| 0 <= c < cycles@.len() ==> cycle_wf(*universe, #[trigger] cycles@[c]),
        cfg.pdf.wf(),
        stream.events.len() * cycles@.len() <= u64::MAX,
    ensures
        r.reports(
            after_events(*universe, cycles@, stream.events@, *cfg, stream.events.len() as int),
        ),
{
    let hist = StateHistory::build(universe.initial.as_slice(), stream);
    let inverted = cycles_by_pool(universe, cycles);
    let ghost events = stream.events@;
    let count: usize = cycles.len();
    let mut run = Run::new(cycles, cfg);
    let mut t: usize = 0;
    while t < stream.events.len()
        invariant
            t <= events.len(),
            events == stream.events@,
            stream_wf(*universe, events),
            forall|c: int| 0 <= c < cycles@.len() ==> cycle_wf(*universe, #[trigger] cycles@[c]),
            cfg.pdf.wf(),
            cycles@.len() == count,
            events.len() * cycles@.len() <= u64::MAX,
            hist.wf(),
            hist.records(universe.initial@, events, events.len() as int),
            inverted.len() == universe.metas.len(),
            forall|p: int|
                0 <= p < inverted.len() ==> (#[trigger] inverted@[p])@ == touching(
                    cycles@,
                    p as usize,
                    cycles@.len() as int,
                ),
            run.progress() == after_events(*universe, cycles@, events, *cfg, t as int),
            run.progress().detected <= t * cycles@.len(),
        decreases events.len() - t,
    {
        let pool = stream.events[t].pool;
        let ghost so_far = run.progress();
        let ghost ids = touching(cycles@, pool, cycles@.len() as int);
        proof {
            lemma_touching(cycles@, pool, cycles@.len() as int);
            lemma_steady(*universe, cycles@, events, *cfg, t as int);
            assert((t + 1) * cycles@.len() == t * cycles@.len() + cycles@.len())
                by (nonlinear_arith);
            assert((t + 1) * cycles@.len() <= events.len() * cycles@.len()) by (nonlinear_arith)
                requires
                    t + 1 <= events.len(),
            ;
        }
        let mut j: usize = 0;
        while j < inverted[pool].len()
            invariant
                t < events.len(),
                events == stream.events@,
                pool == events[t as int].pool,
                pool < inverted.len(),
                inverted@[pool as int]@ == ids,
                ids == touching(cycles@, pool, cycles@.len() as int),
                j <= ids.len() <= cycles@.len(),
                cycles@.len() == count,
                forall|i: int| 0 <= i < ids.len() ==> #[trigger] ids[i] < cycles@.len(),
                forall|c: int|
                    0 <= c < cycles@.len() ==> cycle_wf(*universe, #[trigger] cycles@[c]),
                cfg.pdf.wf(),
                hist.wf(),
                hist.records(universe.initial@, events, events.len() as int),
                steady(cycles@, *cfg, so_far),
                so_far.detected + cycles@.len() <= u64::MAX,
                run.progress() == after_cycles(
                    *universe,
                    cycles@,
                    events,
                    *cfg,
                    so_far,
                    t as int,
                    j as int,
                ),
            decreases ids.len() - j,
        {
            proof {
                lemma_looks_are_steady(
                    *universe,
                    cycles@,
                    events,
                    *cfg,
                    so_far,
                    t as int,
                    j as int,
                );
                lemma_detections_are_bounded(
                    *universe,
                    cycles@,
                    events,
                    *cfg,
                    so_far,
                    t as int,
                    j as int,
                );
            }
            let c: usize = inverted[pool][j];
            run.look_at(universe, cycles, &hist, stream, cfg, t, c);
            j = j + 1;
        }
        proof {
            lemma_detections_are_bounded(
                *universe,
                cycles@,
                events,
                *cfg,
                so_far,
                t as int,
                j as int,
            );
        }
        t = t + 1;
    }
    run.report
}

/// Two indices past the end come to the same.
proof fn lemma_late(a: int, b: int, n: int)
    requires
        a == b || (a >= n && b >= n),
    ensures
        happened(a, n) == happened(b, n),
{
}

/// Every detection lands or misses, and has drawn one delay.
pub open spec fn sound(p: Progress) -> bool {
    &&& p.detected == p.landed_profitable + p.missed_latency
    &&& p.landed_profitable >= 0
    &&& p.missed_latency >= 0
    &&& tally(p.delay_histogram) == p.detected
    &&& forall|k: int| 0 <= k < p.delay_histogram.len() ==> 0 <= #[trigger] p.delay_histogram[k]
}

/// A histogram without counts sums to zero.
proof fn lemma_tally_of_zeros(histogram: Seq<int>)
    requires
        forall|i: int| 0 <= i < histogram.len() ==> #[trigger] histogram[i] == 0,
    ensures
        tally(histogram) == 0,
    decreases histogram.len(),
{
    if histogram.len() > 0 {
        lemma_tally_of_zeros(histogram.drop_last());
    }
}

/// A count in a histogram is at most the sum.
proof fn lemma_tally_bounds(histogram: Seq<int>, k: int)
    requires
        0 <= k < histogram.len(),
        forall|i: int| 0 <= i < histogram.len() ==> 0 <= #[trigger] histogram[i],
    ensures
        0 <= histogram[k] <= tally(histogram),
    decreases histogram.len(),
{
    let front = histogram.drop_last();
    assert forall|i: int| 0 <= i < front.len() implies 0 <= #[trigger] front[i] by {
        assert(front[i] == histogram[i]);
    }
    assert(histogram[histogram.len() - 1] >= 0);
    assert(tally(histogram) == tally(front) + histogram[histogram.len() - 1]);
    if k < front.len() {
        lemma_tally_bounds(front, k);
    } else if front.len() > 0 {
        lemma_tally_bounds(front, 0);
    }
}

/// One more in a histogram makes the sum one more.
proof fn lemma_tally_update(histogram: Seq<int>, k: int)
    requires
        0 <= k < histogram.len(),
    ensures
        tally(histogram.update(k, histogram[k] + 1)) == tally(histogram) + 1,
    decreases histogram.len(),
{
    let updated = histogram.update(k, histogram[k] + 1);
    if k < histogram.len() - 1 {
        lemma_tally_update(histogram.drop_last(), k);
        assert(updated.drop_last() =~= histogram.drop_last().update(k, histogram[k] + 1));
    } else {
        assert(updated.drop_last() =~= histogram.drop_last());
    }
}

/// A drawn delay is one of the distribution's, of a weight above zero.
proof fn lemma_drawn_delay(cfg: SimConfig, rng: u64)
    requires
        cfg.pdf.wf(),
    ensures
        0 <= delay_of(cfg.pdf.weights@, value_below(rng, SCALE)) < cfg.pdf.weights@.len(),
        cfg.pdf.weights@[delay_of(cfg.pdf.weights@, value_below(rng, SCALE))] > 0,
{
    let draw = value_below(rng, SCALE);
    assert(0 <= draw < SCALE) by (nonlinear_arith)
        requires
            draw == (mixed(rng) * SCALE) / 0x1_0000_0000_0000_0000int,
            0 <= mixed(rng) < 0x1_0000_0000_0000_0000int,
            SCALE == 1_000_000_000,
    ;
    shares_partition_the_scale(cfg.pdf, draw, 0);
    shares_partition_the_scale(cfg.pdf, draw, delay_of(cfg.pdf.weights@, draw));
}

/// What holds of a simulation at every point.
spec fn steady(cycles: Seq<Cycle>, cfg: SimConfig, p: Progress) -> bool {
    &&& sound(p)
    &&& p.active.len() == cycles.len()
    &&& p.delay_histogram.len() == cfg.pdf.weights@.len()
    &&& cfg.pdf.weights@.len() == 1 ==> p.missed_latency == 0
    &&& p.landed_profitable == 0 ==> p.realized_profit == 0
    &&& forall|k: int|
        0 <= k < p.delay_histogram.len() && cfg.pdf.weights@[k] == 0
            ==> #[trigger] p.delay_histogram[k] == 0
}

/// Looking at a cycle keeps what holds at every point.
proof fn lemma_look_is_steady(
    universe: PoolUniverse,
    cycles: Seq<Cycle>,
    events: Seq<PoolEvent>,
    cfg: SimConfig,
    p: Progress,
    t: int,
    c: int,
)
    requires
        cfg.pdf.wf(),
        steady(cycles, cfg, p),
        0 <= c < cycles.len(),
    ensures
        steady(cycles, cfg, looked_at(universe, cycles, events, cfg, p, t, c)),
{
    let rng = accepted_state(stepped(p.rng), SCALE);
    lemma_drawn_delay(cfg, rng);
    let k = delay_of(cfg.pdf.weights@, value_below(rng, SCALE));
    lemma_tally_update(p.delay_histogram, k);
}

/// So does looking at some of the cycles that go through a pool.
proof fn lemma_looks_are_steady(
    universe: PoolUniverse,
    cycles: Seq<Cycle>,
    events: Seq<PoolEvent>,
    cfg: SimConfig,
    p: Progress,
    t: int,
    j: int,
)
    requires
        cfg.pdf.wf(),
        steady(cycles, cfg, p),
        cycles.len() <= usize::MAX,
        0 <= j <= touching(cycles, events[t].pool, cycles.len() as int).len(),
    ensures
        steady(cycles, cfg, after_cycles(universe, cycles, events, cfg, p, t, j)),
    decreases j,
{
    if j > 0 {
        lemma_looks_are_steady(universe, cycles, events, cfg, p, t, j - 1);
        lemma_touching(cycles, events[t].pool, cycles.len() as int);
        lemma_look_is_steady(
            universe,
            cycles,
            events,
            cfg,
            after_cycles(universe, cycles, events, cfg, p, t, j - 1),
            t,
            touching(cycles, events[t].pool, cycles.len() as int)[j - 1] as int,
        );
    }
}

proof fn lemma_steady(
    universe: PoolUniverse,
    cycles: Seq<Cycle>,
    events: Seq<PoolEvent>,
    cfg: SimConfig,
    n: int,
)
    requires
        cfg.pdf.wf(),
        cycles.len() <= usize::MAX,
        0 <= n <= events.len(),
    ensures
        steady(cycles, cfg, after_events(universe, cycles, events, cfg, n)),
    decreases n,
{
    if n > 0 {
        lemma_steady(universe, cycles, events, cfg, n - 1);
        lemma_looks_are_steady(
            universe,
            cycles,
            events,
            cfg,
            after_events(universe, cycles, events, cfg, n - 1),
            n - 1,
            touching(cycles, events[n - 1].pool, cycles.len() as int).len() as int,
        );
    } else {
        lemma_tally_of_zeros(started(cycles, cfg).delay_histogram);
    }
}

/// Every detected opportunity either lands profitably or is missed, and is counted once among
/// the delays, at every point of the stream.
pub proof fn detections_land_or_miss(
    universe: PoolUniverse,
    cycles: Seq<Cycle>,
    events: Seq<PoolEvent>,
    cfg: SimConfig,
    n: int,
)
    requires
        cfg.pdf.wf(),
        cycles.len() <= usize::MAX,
        0 <= n <= events.len(),
    ensures
        sound(after_events(universe, cycles, events, cfg, n)),
{
    lemma_steady(universe, cycles, events, cfg, n);
}

/// A report adds up: every detection landed or missed and is counted at the delay that it drew,
/// none at a delay of weight zero; where nothing landed, nothing was earned.
pub proof fn reports_add_up(
    universe: PoolUniverse,
    cycles: Seq<Cycle>,
    events: Seq<PoolEvent>,
    cfg: SimConfig,
    r: SimReport,
)
    requires
        cfg.pdf.wf(),
        cycles.len() <= usize::MAX,
        r.reports(after_events(universe, cycles, events, cfg, events.len() as int)),
    ensures
        r.detected == r.landed_profitable + r.missed_latency,
        r.detected == tally(r.delay_histogram@.map_values(|count: u64| count as int)),
        r.delay_histogram@.len() == cfg.pdf.weights@.len(),
        forall|k: int|
            0 <= k < cfg.pdf.weights@.len() && cfg.pdf.weights@[k] == 0
                ==> #[trigger] r.delay_histogram@[k] == 0,
        r.landed_profitable == 0 ==> r.realized_profit@ == 0,
{
    let p = after_events(universe, cycles, events, cfg, events.len() as int);
    lemma_steady(universe, cycles, events, cfg, events.len() as int);
    assert(r.delay_histogram@.map_values(|count: u64| count as int) =~= p.delay_histogram);
    assert forall|k: int|
        0 <= k < cfg.pdf.weights@.len() && cfg.pdf.weights@[k] == 0 implies
        #[trigger] r.delay_histogram@[k] == 0 by {
        assert(p.delay_histogram[k] == 0);
    }
}

/// Two runs over one input report the same.
pub proof fn simulations_are_reproducible(a: SimReport, b: SimReport, p: Progress)
    requires
        a.reports(p),
        b.reports(p),
    ensures
        a.realized_profit == b.realized_profit,
        a.detected == b.detected,
        a.landed_profitable == b.landed_profitable,
        a.missed_latency == b.missed_latency,
        a.delay_histogram@ == b.delay_histogram@,
{
    lemma_u256_ext(a.realized_profit, b.realized_profit);
    assert(a.delay_histogram@ =~= b.delay_histogram@) by {
        assert forall|k: int| 0 <= k < a.delay_histogram@.len() implies a.delay_histogram@[k]
            == b.delay_histogram@[k] by {
            assert(a.delay_histogram@[k] == p.delay_histogram[k]);
            assert(b.delay_histogram@[k] == p.delay_histogram[k]);
        }
    }
}

/// A transaction that is always on time lands everything: nothing is missed.
pub proof fn on_time_lands_everything(
    universe: PoolUniverse,
    cycles: Seq<Cycle>,
    events: Seq<PoolEvent>,
    cfg: SimConfig,
    n: int,
)
    requires
        cfg.pdf.wf(),
        cfg.pdf.weights@.len() == 1,
        cycles.len() <= usize::MAX,
        0 <= n <= events.len(),
    ensures
        after_events(universe, cycles, events, cfg, n).missed_latency == 0,
        after_events(universe, cycles, events, cfg, n).landed_profitable == after_events(
            universe,
            cycles,
            events,
            cfg,
            n,
        ).detected,
{
    lemma_steady(universe, cycles, events, cfg, n);
}

/// A standing opportunity fires once: while its edge stays open, looking at the cycle again
/// changes nothing, and once it closes the next opening fires anew.
pub proof fn standing_edges_fire_once(
    universe: PoolUniverse,
    cycles: Seq<Cycle>,
    events: Seq<PoolEvent>,
    cfg: SimConfig,
    p: Progress,
    t: int,
    u: int,
    c: int,
)
    requires
        0 <= c < p.active.len(),
    ensures
        ({
            let first = looked_at(universe, cycles, events, cfg, p, t, c);
            let second = looked_at(universe, cycles, events, cfg, first, u, c);
            let open = |i: int| cycle_net(universe, events, cycles[c], i, cfg) is Some;
            &&& open(t) && open(u) ==> second == first
            &&& !open(t) && open(u) ==> second.detected == p.detected + 1
            &&& !open(u) ==> second.detected == first.detected && !second.active[c]
            &&& open(t) ==> first.detected == p.detected + if p.active[c] {
                0int
            } else {
                1
            }
        }),
{
}

} // verus!
