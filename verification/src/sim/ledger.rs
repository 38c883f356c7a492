//! The trades of a simulation, one by one: when each was fired, how late it landed, and what it
//! earned then.
use crate::amm::univ2::UniV2Pool;
use crate::path::{net_value, Leg};
use crate::sim::engine::{
    after_cycles, after_events, cycle_legs, cycle_net, happened, hop_pool, leg_through, looked_at,
    state_after, state_just_after, touches, touching, Cycle, Hop, PoolEvent, PoolId, PoolMeta,
    PoolStateSnapshot, PoolUniverse, Progress, SimConfig, SimReport,
};
use crate::sim::pdf::{delay_of, shares_partition_the_scale, SCALE};
use crate::sim::rng::{accepted_state, mixed, stepped, value_below};
use crate::types::two256;
use vstd::arithmetic::div_mod::lemma_add_mod_noop;
use vstd::prelude::*;

verus! {

// ---- the state of a pool, and what a cycle nets in it ----

/// `i` is the last event at or before index `t` that touches `pool`.
pub open spec fn is_last_event(events: Seq<PoolEvent>, pool: PoolId, t: int, i: int) -> bool {
    &&& 0 <= i < events.len()
    &&& i <= t
    &&& events[i].pool == pool
    &&& forall|j: int| i < j <= t && j < events.len() ==> (#[trigger] events[j]).pool != pool
}

/// A pool just after index `t` is as its last event at or before `t` left it, and as it was at
/// first where there is none.
pub open spec fn is_state_then(
    initial: PoolStateSnapshot,
    events: Seq<PoolEvent>,
    pool: PoolId,
    t: int,
    state: PoolStateSnapshot,
) -> bool {
    ||| exists|i: int| #[trigger] is_last_event(events, pool, t, i) && state == events[i].state
    ||| (forall|i: int|
        0 <= i <= t && i < events.len() ==> (#[trigger] events[i]).pool != pool) && state
        == initial
}

proof fn lemma_state_after(
    initial: PoolStateSnapshot,
    events: Seq<PoolEvent>,
    pool: PoolId,
    n: int,
)
    requires
        0 <= n <= events.len(),
    ensures
        is_state_then(initial, events, pool, n - 1, state_after(initial, events, pool, n)),
    decreases n,
{
    if n > 0 {
        if events[n - 1].pool == pool {
            assert(is_last_event(events, pool, n - 1, n - 1));
        } else {
            lemma_state_after(initial, events, pool, n - 1);
            if exists|i: int|
                #[trigger] is_last_event(events, pool, n - 2, i) && state_after(
                    initial,
                    events,
                    pool,
                    n - 1,
                ) == events[i].state {
                let i = choose|i: int|
                    #[trigger] is_last_event(events, pool, n - 2, i) && state_after(
                        initial,
                        events,
                        pool,
                        n - 1,
                    ) == events[i].state;
                assert(is_last_event(events, pool, n - 1, i));
            }
        }
    }
}

proof fn lemma_state_just_after(
    universe: PoolUniverse,
    events: Seq<PoolEvent>,
    pool: PoolId,
    t: int,
)
    requires
        t >= 0,
    ensures
        is_state_then(
            universe.initial@[pool as int],
            events,
            pool,
            t,
            state_just_after(universe, events, pool, t),
        ),
{
    let n = happened(t, events.len() as int);
    let initial = universe.initial@[pool as int];
    lemma_state_after(initial, events, pool, n);
    let state = state_just_after(universe, events, pool, t);
    if exists|i: int|
        #[trigger] is_last_event(events, pool, n - 1, i) && state == events[i].state {
        let i = choose|i: int|
            #[trigger] is_last_event(events, pool, n - 1, i) && state == events[i].state;
        assert(is_last_event(events, pool, t, i));
    }
}

/// The state of a pool just after `t` is one only.
proof fn lemma_one_state(
    initial: PoolStateSnapshot,
    events: Seq<PoolEvent>,
    pool: PoolId,
    t: int,
    a: PoolStateSnapshot,
    b: PoolStateSnapshot,
)
    requires
        is_state_then(initial, events, pool, t, a),
        is_state_then(initial, events, pool, t, b),
    ensures
        a == b,
{
    if exists|i: int| #[trigger] is_last_event(events, pool, t, i) && a == events[i].state {
        let i = choose|i: int| #[trigger] is_last_event(events, pool, t, i) && a == events[i].state;
        assert(events[i].pool == pool);
        let j = choose|j: int| #[trigger] is_last_event(events, pool, t, j) && b == events[j].state;
        assert(is_last_event(events, pool, t, j));
        assert(events[j].pool == pool);
        assert(i == j);
    } else if exists|j: int| #[trigger] is_last_event(events, pool, t, j) && b == events[j].state {
        let j = choose|j: int| #[trigger] is_last_event(events, pool, t, j) && b == events[j].state;
        assert(events[j].pool == pool);
    }
}

/// `pool` is the one that `meta` describes, with the reserves of `state`.
pub open spec fn is_pool_in(meta: PoolMeta, state: PoolStateSnapshot, pool: UniV2Pool) -> bool {
    match (meta, state) {
        (
            PoolMeta::UniV2 { address, token0, token1, fee_bps },
            PoolStateSnapshot::UniV2 { reserve0, reserve1 },
        ) => {
            &&& pool.address == address
            &&& pool.token0 == token0
            &&& pool.token1 == token1
            &&& pool.reserve0 == reserve0
            &&& pool.reserve1 == reserve1
            &&& pool.fee_bps == fee_bps
            &&& pool.tokens == [token0, token1]
        },
    }
}

/// One hop, through its own pool.
pub open spec fn hop_through<'a>(pool: UniV2Pool, hop: Hop) -> Leg<'a> {
    Leg { pool: &pool, token_in: hop.token_in, token_out: hop.token_out }
}

/// The hops, each through its own pool.
pub open spec fn legs_through<'a>(hops: Seq<Hop>, pools: Seq<UniV2Pool>) -> Seq<Leg<'a>> {
    Seq::new(hops.len(), |i: int| hop_through(pools[i], hops[i]))
}

/// What a cycle nets just after index `t` is what its hops net, one after the other, through the
/// pools as they are then.
pub proof fn cycles_run_through_the_pools_as_they_are_then(
    universe: PoolUniverse,
    events: Seq<PoolEvent>,
    cycle: Cycle,
    t: int,
    cfg: SimConfig,
    states: Seq<PoolStateSnapshot>,
    pools: Seq<UniV2Pool>,
)
    requires
        t >= 0,
        states.len() == cycle.hops@.len(),
        pools.len() == cycle.hops@.len(),
        forall|i: int|
            0 <= i < states.len() ==> is_state_then(
                universe.initial@[cycle.hops@[i].pool as int],
                events,
                cycle.hops@[i].pool,
                t,
                #[trigger] states[i],
            ),
        forall|i: int|
            0 <= i < pools.len() ==> is_pool_in(
                universe.metas@[cycle.hops@[i].pool as int],
                states[i],
                #[trigger] pools[i],
            ),
    ensures
        cycle_net(universe, events, cycle, t, cfg) == (match net_value(
            legs_through(cycle.hops@, pools),
            cfg.amount_in@,
            cfg.gas_price_wei@,
            cfg.token_units_per_native_1e18@,
        ) {
            Ok(net) => net.net_profit,
            Err(_) => None,
        }),
{
    let legs = legs_through(cycle.hops@, pools);
    let wanted = cycle_legs(universe, events, cycle, t);
    assert forall|i: int| 0 <= i < legs.len() implies #[trigger] legs[i] == wanted[i] by {
        let hop = cycle.hops@[i];
        lemma_state_just_after(universe, events, hop.pool, t);
        lemma_one_state(
            universe.initial@[hop.pool as int],
            events,
            hop.pool,
            t,
            states[i],
            state_just_after(universe, events, hop.pool, t),
        );
        assert(is_pool_in(universe.metas@[hop.pool as int], states[i], pools[i]));
        assert(pools[i] == hop_pool(universe, events, hop, t));
        assert(wanted[i] == leg_through(pools[i], hop));
    }
    assert(legs =~= wanted);
}

// ---- trades ----

/// A trade: fired on `cycle` just after event `t`, and landed `delay` events late.
pub struct Trade {
    pub t: int,
    pub cycle: int,
    pub delay: int,
}

/// The cycle `c` is looked at after event `t`: it goes through the pool that the event touches.
pub open spec fn is_looked_at(
    cycles: Seq<Cycle>,
    events: Seq<PoolEvent>,
    t: int,
    c: int,
) -> bool {
    exists|i: int|
        0 <= i < cycles[c].hops@.len() && (#[trigger] cycles[c].hops@[i]).pool == events[t].pool
}

/// The edge of the cycle `c` opens at event `t`: it is looked at and nets something, and where it
/// was looked at before, it netted nothing the last time.
pub open spec fn opens(
    universe: PoolUniverse,
    cycles: Seq<Cycle>,
    events: Seq<PoolEvent>,
    cfg: SimConfig,
    t: int,
    c: int,
) -> bool {
    &&& is_looked_at(cycles, events, t, c)
    &&& cycle_net(universe, events, cycles[c], t, cfg) is Some
    &&& forall|u: int|
        0 <= u < t && #[trigger] is_looked_at(cycles, events, u, c) && (forall|v: int|
            u < v < t ==> !#[trigger] is_looked_at(cycles, events, v, c)) ==> cycle_net(
            universe,
            events,
            cycles[c],
            u,
            cfg,
        ) is None
}

/// What a trade nets where it lands: `delay` events after the one that it was fired on.
pub open spec fn landed_net(
    universe: PoolUniverse,
    cycles: Seq<Cycle>,
    events: Seq<PoolEvent>,
    cfg: SimConfig,
    trade: Trade,
) -> Option<int> {
    cycle_net(universe, events, cycles[trade.cycle], trade.t + trade.delay, cfg)
}

/// The sum of what the trades net where they land.
pub open spec fn earned(
    universe: PoolUniverse,
    cycles: Seq<Cycle>,
    events: Seq<PoolEvent>,
    cfg: SimConfig,
    trades: Seq<Trade>,
) -> int
    decreases trades.len(),
{
    if trades.len() == 0 {
        0
    } else {
        earned(universe, cycles, events, cfg, trades.drop_last()) + match landed_net(
            universe,
            cycles,
            events,
            cfg,
            trades.last(),
        ) {
            Some(profit) => profit,
            None => 0,
        }
    }
}

/// How many of the trades net something where they land.
pub open spec fn landed(
    universe: PoolUniverse,
    cycles: Seq<Cycle>,
    events: Seq<PoolEvent>,
    cfg: SimConfig,
    trades: Seq<Trade>,
) -> int
    decreases trades.len(),
{
    if trades.len() == 0 {
        0
    } else {
        landed(universe, cycles, events, cfg, trades.drop_last()) + if landed_net(
            universe,
            cycles,
            events,
            cfg,
            trades.last(),
        ) is Some {
            1int
        } else {
            0
        }
    }
}

/// How many of the trades land `k` events late.
pub open spec fn that_late(trades: Seq<Trade>, k: int) -> int
    decreases trades.len(),
{
    if trades.len() == 0 {
        0
    } else {
        that_late(trades.drop_last(), k) + if trades.last().delay == k {
            1int
        } else {
            0
        }
    }
}

/// The generator's state after `n` draws from a seed.
pub open spec fn state_of_draw(seed: u64, n: int) -> u64
    decreases n,
{
    if n <= 0 {
        seed
    } else {
        accepted_state(stepped(state_of_draw(seed, n - 1)), SCALE)
    }
}

/// The `n`-th delay drawn, counted from zero.
pub open spec fn drawn_delay(cfg: SimConfig, n: int) -> int {
    delay_of(cfg.pdf.weights@, value_below(state_of_draw(cfg.seed, n + 1), SCALE))
}

/// The trades fired at the events before `n`, and at event `n` on the cycles before `m`: one for
/// each edge that opens, in the order of the events and then of the cycles, each with the next
/// delay drawn.
#[verifier::opaque]
pub open spec fn is_ledger(
    universe: PoolUniverse,
    cycles: Seq<Cycle>,
    events: Seq<PoolEvent>,
    cfg: SimConfig,
    trades: Seq<Trade>,
    n: int,
    m: int,
) -> bool {
    &&& forall|i: int|
        0 <= i < trades.len() ==> (#[trigger] trades[i]).delay == drawn_delay(cfg, i)
    &&& forall|i: int|
        0 <= i < trades.len() ==> {
            &&& 0 <= (#[trigger] trades[i]).t
            &&& 0 <= trades[i].cycle < cycles.len()
            &&& trades[i].t < n || (trades[i].t == n && trades[i].cycle < m)
            &&& opens(universe, cycles, events, cfg, trades[i].t, trades[i].cycle)
        }
    &&& forall|i: int, j: int|
        0 <= i < j < trades.len() ==> (#[trigger] trades[i]).t < (#[trigger] trades[j]).t || (
        trades[i].t == trades[j].t && trades[i].cycle < trades[j].cycle)
    &&& forall|t: int, c: int|
        0 <= t && 0 <= c < cycles.len() && (t < n || (t == n && c < m)) && #[trigger] opens(
            universe,
            cycles,
            events,
            cfg,
            t,
            c,
        ) ==> exists|i: int|
            0 <= i < trades.len() && (#[trigger] trades[i]).t == t && trades[i].cycle == c
}

/// The last look at the cycle `c` before event `n` found it open.
spec fn stands_open(
    universe: PoolUniverse,
    cycles: Seq<Cycle>,
    events: Seq<PoolEvent>,
    cfg: SimConfig,
    n: int,
    c: int,
) -> bool
    decreases n,
{
    if n <= 0 {
        false
    } else if is_looked_at(cycles, events, n - 1, c) {
        cycle_net(universe, events, cycles[c], n - 1, cfg) is Some
    } else {
        stands_open(universe, cycles, events, cfg, n - 1, c)
    }
}

/// The last look, found.
proof fn lemma_stands_open(
    universe: PoolUniverse,
    cycles: Seq<Cycle>,
    events: Seq<PoolEvent>,
    cfg: SimConfig,
    n: int,
    c: int,
)
    requires
        n >= 0,
    ensures
        stands_open(universe, cycles, events, cfg, n, c) <==> exists|u: int|
            0 <= u < n && #[trigger] is_looked_at(cycles, events, u, c) && (forall|v: int|
                u < v < n ==> !#[trigger] is_looked_at(cycles, events, v, c)) && cycle_net(
                universe,
                events,
                cycles[c],
                u,
                cfg,
            ) is Some,
    decreases n,
{
    if n > 0 {
        lemma_stands_open(universe, cycles, events, cfg, n - 1, c);
        if !is_looked_at(cycles, events, n - 1, c) {
            if stands_open(universe, cycles, events, cfg, n - 1, c) {
                let u = choose|u: int|
                    0 <= u < n - 1 && #[trigger] is_looked_at(cycles, events, u, c) && (forall|
                        v: int,
                    |
                        u < v < n - 1 ==> !#[trigger] is_looked_at(cycles, events, v, c))
                        && cycle_net(universe, events, cycles[c], u, cfg) is Some;
                assert forall|v: int| u < v < n implies !#[trigger] is_looked_at(
                    cycles,
                    events,
                    v,
                    c,
                ) by {}
            }
        }
    }
}

proof fn lemma_opens(
    universe: PoolUniverse,
    cycles: Seq<Cycle>,
    events: Seq<PoolEvent>,
    cfg: SimConfig,
    t: int,
    c: int,
)
    requires
        t >= 0,
    ensures
        opens(universe, cycles, events, cfg, t, c) <==> is_looked_at(cycles, events, t, c)
            && cycle_net(universe, events, cycles[c], t, cfg) is Some && !stands_open(
            universe,
            cycles,
            events,
            cfg,
            t,
            c,
        ),
{
    lemma_stands_open(universe, cycles, events, cfg, t, c);
}

/// The progress is what the trades come to.
#[verifier::opaque]
spec fn comes_to(
    universe: PoolUniverse,
    cycles: Seq<Cycle>,
    events: Seq<PoolEvent>,
    cfg: SimConfig,
    trades: Seq<Trade>,
    p: Progress,
) -> bool {
    &&& p.detected == trades.len()
    &&& p.landed_profitable == landed(universe, cycles, events, cfg, trades)
    &&& p.missed_latency == trades.len() - landed(universe, cycles, events, cfg, trades)
    &&& p.realized_profit == earned(universe, cycles, events, cfg, trades) % two256()
    &&& p.delay_histogram.len() == cfg.pdf.weights@.len()
    &&& forall|k: int|
        0 <= k < p.delay_histogram.len() ==> #[trigger] p.delay_histogram[k] == that_late(trades, k)
    &&& p.rng == state_of_draw(cfg.seed, trades.len() as int)
}

/// Which cycles are marked as fired on.
#[verifier::opaque]
spec fn marks(
    universe: PoolUniverse,
    cycles: Seq<Cycle>,
    events: Seq<PoolEvent>,
    cfg: SimConfig,
    p: Progress,
    n: int,
    m: int,
) -> bool {
    &&& p.active.len() == cycles.len()
    &&& forall|c: int|
        0 <= c < cycles.len() ==> #[trigger] p.active[c] == (if c < m {
            stands_open(universe, cycles, events, cfg, n + 1, c)
        } else {
            stands_open(universe, cycles, events, cfg, n, c)
        })
}

/// The cycles that go through a pool, up to `m`, are the first of all of them.
proof fn lemma_touching_prefix(cycles: Seq<Cycle>, pool: PoolId, m: int, n: int)
    requires
        0 <= m <= n <= cycles.len() <= usize::MAX,
    ensures
        touching(cycles, pool, m).len() <= touching(cycles, pool, n).len(),
        forall|j: int|
            0 <= j < touching(cycles, pool, m).len() ==> touching(cycles, pool, n)[j]
                == #[trigger] touching(cycles, pool, m)[j],
    decreases n - m,
{
    if m < n {
        lemma_touching_prefix(cycles, pool, m, n - 1);
    }
}

/// A drawn delay is one of the distribution's.
proof fn lemma_delay_in_range(cfg: SimConfig, rng: u64)
    requires
        cfg.pdf.wf(),
    ensures
        0 <= delay_of(cfg.pdf.weights@, value_below(rng, SCALE)) < cfg.pdf.weights@.len(),
{
    let draw = value_below(rng, SCALE);
    assert(0 <= draw < SCALE) by (nonlinear_arith)
        requires
            draw == (mixed(rng) * SCALE) / 0x1_0000_0000_0000_0000int,
            0 <= mixed(rng) < 0x1_0000_0000_0000_0000int,
            SCALE == 1_000_000_000,
    ;
    shares_partition_the_scale(cfg.pdf, draw, 0);
    shares_partition_the_scale(cfg.pdf, draw, delay_of(cfg.pdf.weights@, draw));
}

/// A trade that an opening edge fires, written into the ledger.
proof fn lemma_fired(
    universe: PoolUniverse,
    cycles: Seq<Cycle>,
    events: Seq<PoolEvent>,
    cfg: SimConfig,
    trades: Seq<Trade>,
    n: int,
    m: int,
    k: int,
)
    requires
        n >= 0,
        0 <= m < cycles.len(),
        is_ledger(universe, cycles, events, cfg, trades, n, m),
        opens(universe, cycles, events, cfg, n, m),
        k == drawn_delay(cfg, trades.len() as int),
    ensures
        is_ledger(
            universe,
            cycles,
            events,
            cfg,
            trades.push(Trade { t: n, cycle: m, delay: k }),
            n,
            m + 1,
        ),
{
    reveal(is_ledger);
    let r = trades.push(Trade { t: n, cycle: m, delay: k });
    assert forall|t: int, c: int|
        0 <= t && 0 <= c < cycles.len() && (t < n || (t == n && c < m + 1)) && #[trigger] opens(
            universe,
            cycles,
            events,
            cfg,
            t,
            c,
        ) implies exists|i: int|
        0 <= i < r.len() && (#[trigger] r[i]).t == t && r[i].cycle == c by {
        if t == n && c == m {
            assert(r[trades.len() as int].t == t);
        } else {
            let i = choose|i: int|
                0 <= i < trades.len() && (#[trigger] trades[i]).t == t && trades[i].cycle == c;
            assert(r[i].t == t);
        }
    }
}

/// An edge that does not open leaves the ledger.
proof fn lemma_not_fired(
    universe: PoolUniverse,
    cycles: Seq<Cycle>,
    events: Seq<PoolEvent>,
    cfg: SimConfig,
    trades: Seq<Trade>,
    n: int,
    m: int,
)
    requires
        is_ledger(universe, cycles, events, cfg, trades, n, m),
        !opens(universe, cycles, events, cfg, n, m),
    ensures
        is_ledger(universe, cycles, events, cfg, trades, n, m + 1),
{
    reveal(is_ledger);
}

/// All cycles of an event have been looked at.
proof fn lemma_next_event(
    universe: PoolUniverse,
    cycles: Seq<Cycle>,
    events: Seq<PoolEvent>,
    cfg: SimConfig,
    trades: Seq<Trade>,
    n: int,
)
    requires
        is_ledger(universe, cycles, events, cfg, trades, n, cycles.len() as int),
    ensures
        is_ledger(universe, cycles, events, cfg, trades, n + 1, 0),
{
    reveal(is_ledger);
}

/// What one more trade comes to.
proof fn lemma_counted(
    universe: PoolUniverse,
    cycles: Seq<Cycle>,
    events: Seq<PoolEvent>,
    cfg: SimConfig,
    trades: Seq<Trade>,
    p: Progress,
    q: Progress,
    trade: Trade,
)
    requires
        comes_to(universe, cycles, events, cfg, trades, p),
        0 <= trade.delay < p.delay_histogram.len(),
        q.detected == p.detected + 1,
        q.delay_histogram == p.delay_histogram.update(
            trade.delay,
            p.delay_histogram[trade.delay] + 1,
        ),
        q.rng == accepted_state(stepped(p.rng), SCALE),
        match landed_net(universe, cycles, events, cfg, trade) {
            Some(profit) => q.realized_profit == (p.realized_profit + profit) % two256()
                && q.landed_profitable == p.landed_profitable + 1 && q.missed_latency
                == p.missed_latency,
            None => q.realized_profit == p.realized_profit && q.landed_profitable
                == p.landed_profitable && q.missed_latency == p.missed_latency + 1,
        },
    ensures
        comes_to(universe, cycles, events, cfg, trades.push(trade), q),
{
    reveal(comes_to);
    let r = trades.push(trade);
    assert(r.drop_last() =~= trades);
    assert(state_of_draw(cfg.seed, r.len() as int) == q.rng);
    let old_sum = earned(universe, cycles, events, cfg, trades);
    if let Some(profit) = landed_net(universe, cycles, events, cfg, trade) {
        lemma_add_mod_noop(old_sum, profit, two256());
        lemma_add_mod_noop(old_sum % two256(), profit, two256());
    }
}

/// A look marks the cycle by what it finds.
proof fn lemma_marked(
    universe: PoolUniverse,
    cycles: Seq<Cycle>,
    events: Seq<PoolEvent>,
    cfg: SimConfig,
    p: Progress,
    q: Progress,
    n: int,
    m: int,
)
    requires
        n >= 0,
        0 <= m < cycles.len(),
        marks(universe, cycles, events, cfg, p, n, m),
        q.active == p.active.update(m, stands_open(universe, cycles, events, cfg, n + 1, m)),
    ensures
        marks(universe, cycles, events, cfg, q, n, m + 1),
{
    reveal(marks);
}

/// One look writes at most one trade into the ledger.
proof fn lemma_look(
    universe: PoolUniverse,
    cycles: Seq<Cycle>,
    events: Seq<PoolEvent>,
    cfg: SimConfig,
    trades: Seq<Trade>,
    p: Progress,
    n: int,
    m: int,
) -> (r: Seq<Trade>)
    requires
        cfg.pdf.wf(),
        n >= 0,
        0 <= m < cycles.len(),
        is_looked_at(cycles, events, n, m),
        is_ledger(universe, cycles, events, cfg, trades, n, m),
        comes_to(universe, cycles, events, cfg, trades, p),
        marks(universe, cycles, events, cfg, p, n, m),
    ensures
        ({
            let q = looked_at(universe, cycles, events, cfg, p, n, m);
            &&& is_ledger(universe, cycles, events, cfg, r, n, m + 1)
            &&& comes_to(universe, cycles, events, cfg, r, q)
            &&& marks(universe, cycles, events, cfg, q, n, m + 1)
        }),
{
    let q = looked_at(universe, cycles, events, cfg, p, n, m);
    lemma_opens(universe, cycles, events, cfg, n, m);
    assert(p.active.len() == cycles.len() && p.active[m] == stands_open(
        universe,
        cycles,
        events,
        cfg,
        n,
        m,
    )) by {
        reveal(marks);
    }
    assert(stands_open(universe, cycles, events, cfg, n + 1, m) == cycle_net(
        universe,
        events,
        cycles[m],
        n,
        cfg,
    ) is Some);
    assert(q.active =~= p.active.update(m, stands_open(universe, cycles, events, cfg, n + 1, m)));
    lemma_marked(universe, cycles, events, cfg, p, q, n, m);
    if opens(universe, cycles, events, cfg, n, m) {
        let rng = accepted_state(stepped(p.rng), SCALE);
        let k = delay_of(cfg.pdf.weights@, value_below(rng, SCALE));
        lemma_delay_in_range(cfg, rng);
        let trade = Trade { t: n, cycle: m, delay: k };
        assert(p.rng == state_of_draw(cfg.seed, trades.len() as int) && p.delay_histogram.len()
            == cfg.pdf.weights@.len()) by {
            reveal(comes_to);
        }
        assert(drawn_delay(cfg, trades.len() as int) == k);
        lemma_fired(universe, cycles, events, cfg, trades, n, m, k);
        lemma_counted(universe, cycles, events, cfg, trades, p, q, trade);
        trades.push(trade)
    } else {
        lemma_not_fired(universe, cycles, events, cfg, trades, n, m);
        assert(comes_to(universe, cycles, events, cfg, trades, q)) by {
            reveal(comes_to);
        }
        trades
    }
}

/// A cycle that is not looked at is left as it is.
proof fn lemma_no_look(
    universe: PoolUniverse,
    cycles: Seq<Cycle>,
    events: Seq<PoolEvent>,
    cfg: SimConfig,
    trades: Seq<Trade>,
    p: Progress,
    n: int,
    m: int,
)
    requires
        n >= 0,
        0 <= m < cycles.len(),
        !is_looked_at(cycles, events, n, m),
        is_ledger(universe, cycles, events, cfg, trades, n, m),
        marks(universe, cycles, events, cfg, p, n, m),
    ensures
        is_ledger(universe, cycles, events, cfg, trades, n, m + 1),
        marks(universe, cycles, events, cfg, p, n, m + 1),
{
    lemma_not_fired(universe, cycles, events, cfg, trades, n, m);
    reveal(marks);
}

/// The ledger while the cycles are looked at after event `n`.
proof fn lemma_looks(
    universe: PoolUniverse,
    cycles: Seq<Cycle>,
    events: Seq<PoolEvent>,
    cfg: SimConfig,
    trades: Seq<Trade>,
    p: Progress,
    n: int,
    m: int,
) -> (r: Seq<Trade>)
    requires
        cfg.pdf.wf(),
        cycles.len() <= usize::MAX,
        0 <= n < events.len(),
        0 <= m <= cycles.len(),
        is_ledger(universe, cycles, events, cfg, trades, n, 0),
        comes_to(universe, cycles, events, cfg, trades, p),
        marks(universe, cycles, events, cfg, p, n, 0),
    ensures
        ({
            let j = touching(cycles, events[n].pool, m).len() as int;
            let q = after_cycles(universe, cycles, events, cfg, p, n, j);
            &&& is_ledger(universe, cycles, events, cfg, r, n, m)
            &&& comes_to(universe, cycles, events, cfg, r, q)
            &&& marks(universe, cycles, events, cfg, q, n, m)
        }),
    decreases m,
{
    if m == 0 {
        trades
    } else {
        let pool = events[n].pool;
        let before = lemma_looks(universe, cycles, events, cfg, trades, p, n, m - 1);
        let j = touching(cycles, pool, m - 1).len() as int;
        let q = after_cycles(universe, cycles, events, cfg, p, n, j);
        if touches(cycles[m - 1].hops@, pool) {
            let i = choose|i: int|
                0 <= i < cycles[m - 1].hops@.len() && (#[trigger] cycles[m - 1].hops@[i]).pool
                    == pool;
            assert(is_looked_at(cycles, events, n, m - 1));
            lemma_touching_prefix(cycles, pool, m, cycles.len() as int);
            assert(touching(cycles, pool, m)[j] == m - 1);
            lemma_look(universe, cycles, events, cfg, before, q, n, m - 1)
        } else {
            assert(!is_looked_at(cycles, events, n, m - 1)) by {
                if is_looked_at(cycles, events, n, m - 1) {
                    let i = choose|i: int|
                        0 <= i < cycles[m - 1].hops@.len() && (
                        #[trigger] cycles[m - 1].hops@[i]).pool == events[n].pool;
                    assert(cycles[m - 1].hops@[i].pool == pool);
                }
            }
            lemma_no_look(universe, cycles, events, cfg, before, q, n, m - 1);
            before
        }
    }
}

/// The ledger after the first `n` events.
proof fn lemma_ledger(
    universe: PoolUniverse,
    cycles: Seq<Cycle>,
    events: Seq<PoolEvent>,
    cfg: SimConfig,
    n: int,
) -> (r: Seq<Trade>)
    requires
        cfg.pdf.wf(),
        cycles.len() <= usize::MAX,
        0 <= n <= events.len(),
    ensures
        is_ledger(universe, cycles, events, cfg, r, n, 0),
        comes_to(
            universe,
            cycles,
            events,
            cfg,
            r,
            after_events(universe, cycles, events, cfg, n),
        ),
        marks(universe, cycles, events, cfg, after_events(universe, cycles, events, cfg, n), n, 0),
    decreases n,
{
    if n == 0 {
        reveal(is_ledger);
        reveal(comes_to);
        reveal(marks);
        Seq::empty()
    } else {
        let before = lemma_ledger(universe, cycles, events, cfg, n - 1);
        let p = after_events(universe, cycles, events, cfg, n - 1);
        let r = lemma_looks(universe, cycles, events, cfg, before, p, n - 1, cycles.len() as int);
        lemma_next_event(universe, cycles, events, cfg, r, n - 1);
        assert(marks(
            universe,
            cycles,
            events,
            cfg,
            after_events(universe, cycles, events, cfg, n),
            n,
            0,
        )) by {
            reveal(marks);
        }
        r
    }
}

/// A report is the sum of its trades. One trade is fired for each edge that opens, in the order of
/// the events and then of the cycles, with the next delay drawn. What is earned is the sum, in 256
/// bits, of what each trade nets as many events late as its delay says: not what it would have
/// netted when it was fired.
pub proof fn reports_are_the_sum_of_their_trades(
    universe: PoolUniverse,
    cycles: Seq<Cycle>,
    events: Seq<PoolEvent>,
    cfg: SimConfig,
    r: SimReport,
) -> (trades: Seq<Trade>)
    requires
        cfg.pdf.wf(),
        cycles.len() <= usize::MAX,
        r.reports(after_events(universe, cycles, events, cfg, events.len() as int)),
    ensures
        is_ledger(universe, cycles, events, cfg, trades, events.len() as int, 0),
        r.detected == trades.len(),
        r.landed_profitable == landed(universe, cycles, events, cfg, trades),
        r.missed_latency == trades.len() - landed(universe, cycles, events, cfg, trades),
        r.realized_profit@ == earned(universe, cycles, events, cfg, trades) % two256(),
        r.delay_histogram@.len() == cfg.pdf.weights@.len(),
        forall|k: int|
            0 <= k < r.delay_histogram@.len() ==> #[trigger] r.delay_histogram@[k] == that_late(
                trades,
                k,
            ),
{
    let n = events.len() as int;
    let trades = lemma_ledger(universe, cycles, events, cfg, n);
    let p = after_events(universe, cycles, events, cfg, n);
    reveal(comes_to);
    assert forall|k: int| 0 <= k < r.delay_histogram@.len() implies #[trigger] r.delay_histogram@[k]
        == that_late(trades, k) by {
        assert(p.delay_histogram[k] == that_late(trades, k));
    }
    trades
}

} // verus!
