//! Laws of pricing and screening: which cycles are priced, against which pools, and which are
//! kept.
use crate::graph::Edge;
use crate::live::base::loader::AnyPool;
use crate::live::base::price::{
    best_priced, first_rate, is_loaded, leg_of, loaded_legs, output_keys, pools_along, prices,
    tokens_along, PricedView,
};
use crate::live::base::synced::{
    best_candidates, best_net, candidates, cost_of, latent, live_net, live_size, missing, net_keys,
    Candidate, CandidateView, LivePool, ScreenTerms,
};
use crate::order::{a_stable_order_exists, comes_before, sort_by_keys, stable_order};
use crate::path::{best_size_value, net_value, Leg, NetView};
use crate::pool::{Pool, SimError};
use crate::types::{lemma_u256_range, two256, Address};
use vstd::prelude::*;

verus! {

// ---- legs ----

/// A leg through a loaded pool quotes and costs what the pool does.
proof fn lemma_loaded_leg(pool: AnyPool, e: Edge, a: Address, b: Address, x: int)
    ensures
        leg_of(pool, e).token_in == e.from,
        leg_of(pool, e).token_out == e.to,
        leg_of(pool, e).pool.spec_quote(a, b, x) == pool.spec_quote(a, b, x),
        leg_of(pool, e).pool.spec_gas() == pool.spec_gas(),
{
    let leg = Leg { pool: &pool, token_in: e.from, token_out: e.to };
    assert(leg.pool.spec_quote(a, b, x) == pool.spec_quote(a, b, x));
    assert(leg.pool.spec_gas() == pool.spec_gas());
}

/// The legs of a cycle through a loaded pools go along it: each trades its edge's tokens, in the edge's
/// direction, through the pool that the edge names.
pub proof fn loaded_legs_go_along_the_cycle(pools: Map<Address, AnyPool>, cycle: Seq<Edge>, i: int, x: int)
    requires
        0 <= i < cycle.len(),
    ensures
        ({
            let legs = loaded_legs(pools, cycle);
            let pool = pools[cycle[i].pool];
            &&& legs.len() == cycle.len()
            &&& legs[i].token_in == cycle[i].from
            &&& legs[i].token_out == cycle[i].to
            &&& legs[i].pool.spec_gas() == pool.spec_gas()
            &&& legs[i].pool.spec_quote(cycle[i].from, cycle[i].to, x) == pool.spec_quote(
                cycle[i].from,
                cycle[i].to,
                x,
            )
        }),
        is_loaded(pools, cycle) ==> pools.dom().contains(cycle[i].pool),
{
    lemma_loaded_leg(pools[cycle[i].pool], cycle[i], cycle[i].from, cycle[i].to, x);
    assert(loaded_legs(pools, cycle)[i] == leg_of(pools[cycle[i].pool], cycle[i]));
}

/// A leg through a live pool quotes and costs what the pool does.
proof fn lemma_live_leg(pool: LivePool, e: Edge, a: Address, b: Address, x: int)
    ensures
        leg_of(pool, e).token_in == e.from,
        leg_of(pool, e).token_out == e.to,
        leg_of(pool, e).pool.spec_quote(a, b, x) == pool.spec_quote(a, b, x),
        leg_of(pool, e).pool.spec_gas() == pool.spec_gas(),
{
    let leg = Leg { pool: &pool, token_in: e.from, token_out: e.to };
    assert(leg.pool.spec_quote(a, b, x) == pool.spec_quote(a, b, x));
    assert(leg.pool.spec_gas() == pool.spec_gas());
}

/// The legs of a cycle through a live pools go along it: each trades its edge's tokens, in the edge's
/// direction, through the pool that the edge names.
pub proof fn live_legs_go_along_the_cycle(pools: Map<Address, LivePool>, cycle: Seq<Edge>, i: int, x: int)
    requires
        0 <= i < cycle.len(),
    ensures
        ({
            let legs = loaded_legs(pools, cycle);
            let pool = pools[cycle[i].pool];
            &&& legs.len() == cycle.len()
            &&& legs[i].token_in == cycle[i].from
            &&& legs[i].token_out == cycle[i].to
            &&& legs[i].pool.spec_gas() == pool.spec_gas()
            &&& legs[i].pool.spec_quote(cycle[i].from, cycle[i].to, x) == pool.spec_quote(
                cycle[i].from,
                cycle[i].to,
                x,
            )
        }),
        is_loaded(pools, cycle) ==> pools.dom().contains(cycle[i].pool),
{
    lemma_live_leg(pools[cycle[i].pool], cycle[i], cycle[i].from, cycle[i].to, x);
    assert(loaded_legs(pools, cycle)[i] == leg_of(pools[cycle[i].pool], cycle[i]));
}

// ---- pricing ----

/// A price names the pools and the tokens of its cycle, in order, and what the cycle gives.
pub open spec fn is_price_of(v: PricedView, cycle: Seq<Edge>, net: NetView) -> bool {
    &&& v.pools.len() == cycle.len()
    &&& forall|i: int| 0 <= i < cycle.len() ==> #[trigger] v.pools[i] == cycle[i].pool
    &&& v.tokens.len() == cycle.len() + 1
    &&& v.tokens[0] == cycle[0].from
    &&& forall|i: int| 0 < i <= cycle.len() ==> #[trigger] v.tokens[i] == cycle[i - 1].to
    &&& v.gross_out == net.gross_out
    &&& v.net_profit == net.net_profit
}

/// The cycles that can be priced, all of them and no others, are priced in order: those whose
/// pools are all there and which run through them.
pub proof fn cycles_are_priced_in_order<P: Pool>(
    pools: Map<Address, P>,
    cycles: Seq<Vec<Edge>>,
    amount_in: int,
    gas_price: int,
    ratio: int,
    n: int,
) -> (from: Seq<int>)
    requires
        0 <= n <= cycles.len(),
    ensures
        prices(pools, cycles, amount_in, gas_price, ratio, n).len() == from.len(),
        forall|a: int, b: int| 0 <= a < b < from.len() ==> #[trigger] from[a] < #[trigger] from[b],
        forall|m: int|
            0 <= m < from.len() ==> {
                let legs = loaded_legs(pools, cycles[from[m]]@);
                &&& 0 <= #[trigger] from[m] < n
                &&& forall|i: int|
                    0 <= i < cycles[from[m]]@.len() ==> pools.dom().contains(
                        (#[trigger] cycles[from[m]]@[i]).pool,
                    )
                &&& net_value(legs, amount_in, gas_price, ratio) is Ok
                &&& is_price_of(
                    prices(pools, cycles, amount_in, gas_price, ratio, n)[m],
                    cycles[from[m]]@,
                    net_value(legs, amount_in, gas_price, ratio)->Ok_0,
                )
            },
        forall|c: int|
            0 <= c < n && is_loaded(pools, (#[trigger] cycles[c])@) && net_value(
                loaded_legs(pools, cycles[c]@),
                amount_in,
                gas_price,
                ratio,
            ) is Ok ==> from.contains(c),
    decreases n,
{
    if n == 0 {
        Seq::empty()
    } else {
        let before = cycles_are_priced_in_order(
            pools,
            cycles,
            amount_in,
            gas_price,
            ratio,
            n - 1,
        );
        let cycle = cycles[n - 1]@;
        let old = prices(pools, cycles, amount_in, gas_price, ratio, n - 1);
        let all = prices(pools, cycles, amount_in, gas_price, ratio, n);
        if is_loaded(pools, cycle) && net_value(
            loaded_legs(pools, cycle),
            amount_in,
            gas_price,
            ratio,
        ) is Ok {
            let from = before.push(n - 1);
            assert forall|m: int| 0 <= m < from.len() implies ({
                let legs = loaded_legs(pools, cycles[from[m]]@);
                &&& 0 <= #[trigger] from[m] < n
                &&& forall|i: int|
                    0 <= i < cycles[from[m]]@.len() ==> pools.dom().contains(
                        (#[trigger] cycles[from[m]]@[i]).pool,
                    )
                &&& net_value(legs, amount_in, gas_price, ratio) is Ok
                &&& is_price_of(
                    all[m],
                    cycles[from[m]]@,
                    net_value(legs, amount_in, gas_price, ratio)->Ok_0,
                )
            }) by {
                if m < before.len() {
                    assert(from[m] == before[m]);
                    assert(all[m] == old[m]);
                } else {
                    assert(all[m].pools == pools_along(cycle));
                    assert(all[m].tokens == tokens_along(cycle));
                }
            }
            assert forall|c: int|
                0 <= c < n && is_loaded(pools, (#[trigger] cycles[c])@) && net_value(
                    loaded_legs(pools, cycles[c]@),
                    amount_in,
                    gas_price,
                    ratio,
                ) is Ok implies from.contains(c) by {
                if c < n - 1 {
                    assert(before.contains(c));
                    let m = choose|m: int| 0 <= m < before.len() && before[m] == c;
                    assert(from[m] == c);
                } else {
                    assert(from[before.len() as int] == c);
                }
            }
            from
        } else {
            before
        }
    }
}

// ---- ranking ----

/// `r` are the best of `v` by `score`, at most `n` of them, best first and earlier first among
/// equals; `from` says where each stood. What is left out scores no more than what is kept.
pub open spec fn are_the_best<T>(
    v: Seq<T>,
    score: spec_fn(T) -> int,
    n: int,
    r: Seq<T>,
    from: Seq<int>,
) -> bool {
    &&& r.len() == if n < v.len() {
        n
    } else {
        v.len() as int
    }
    &&& from.len() == r.len()
    &&& forall|m: int|
        0 <= m < r.len() ==> 0 <= #[trigger] from[m] < v.len() && r[m] == v[from[m]]
    &&& forall|a: int, b: int|
        0 <= a < b < r.len() ==> score(v[#[trigger] from[a]]) > score(v[#[trigger] from[b]]) || (
        score(v[from[a]]) == score(v[from[b]]) && from[a] < from[b])
    &&& forall|k: int, m: int|
        0 <= k < v.len() && !from.contains(k) && 0 <= m < r.len() ==> score(#[trigger] v[k])
            <= score(v[#[trigger] from[m]])
}

proof fn lemma_best<T>(v: Seq<T>, keys: Seq<int>, score: spec_fn(T) -> int, n: int) -> (from: Seq<
    int,
>)
    requires
        0 <= n,
        keys.len() == v.len(),
        forall|k: int| 0 <= k < v.len() ==> #[trigger] keys[k] == two256() - 1 - score(v[k]),
    ensures
        are_the_best(
            v,
            score,
            n,
            if n < sort_by_keys(v, keys).len() {
                sort_by_keys(v, keys).take(n)
            } else {
                sort_by_keys(v, keys)
            },
            from,
        ),
{
    let order = stable_order(keys);
    a_stable_order_exists(keys);
    let sorted = sort_by_keys(v, keys);
    let count = if n < sorted.len() {
        n
    } else {
        sorted.len() as int
    };
    let r = if n < sorted.len() {
        sorted.take(n)
    } else {
        sorted
    };
    let from = order.take(count);
    assert forall|a: int, b: int| 0 <= a < b < r.len() implies score(v[#[trigger] from[a]]) > score(
        v[#[trigger] from[b]],
    ) || (score(v[from[a]]) == score(v[from[b]]) && from[a] < from[b]) by {
        assert(comes_before(keys, order[a], order[b]));
        assert(keys[order[a]] == two256() - 1 - score(v[order[a]]));
        assert(keys[order[b]] == two256() - 1 - score(v[order[b]]));
    }
    assert forall|k: int, m: int|
        0 <= k < v.len() && !from.contains(k) && 0 <= m < r.len() implies score(#[trigger] v[k])
        <= score(v[#[trigger] from[m]]) by {
        crate::order::sorting_keeps_the_items(
            Seq::new(v.len(), |i: int| i),
            keys,
            order,
            k,
        );
        let all = crate::order::permute(Seq::new(v.len(), |i: int| i), order);
        assert(Seq::new(v.len(), |i: int| i)[k] == k);
        assert(Seq::new(v.len(), |i: int| i).contains(k));
        let j = choose|j: int| 0 <= j < all.len() && all[j] == k;
        assert(order[j] == k);
        if j < count {
            assert(from[j] == k);
        }
        assert(comes_before(keys, order[m], order[j]));
        assert(keys[order[m]] == two256() - 1 - score(v[order[m]]));
        assert(keys[k] == two256() - 1 - score(v[k]));
    }
    from
}

/// The prices that are kept are those with the largest outputs, largest first.
pub proof fn the_largest_outputs_are_kept(v: Seq<PricedView>, top: int) -> (from: Seq<int>)
    requires
        0 <= top,
    ensures
        are_the_best(v, |p: PricedView| p.gross_out, top, best_priced(v, top), from),
{
    lemma_best(v, output_keys(v), |p: PricedView| p.gross_out, top)
}

/// The candidates that are kept are those that net the most, most first.
pub proof fn the_most_profitable_are_kept(v: Seq<Candidate>, n: int) -> (from: Seq<int>)
    requires
        0 <= n,
    ensures
        are_the_best(v, |c: Candidate| c.net@, n, best_candidates(v, n), from),
{
    lemma_best(v, net_keys(v), |c: Candidate| c.net@, n)
}

/// Confirmed candidates are all kept, those that net the most first.
pub proof fn confirmed_candidates_are_ranked(v: Seq<Candidate>) -> (from: Seq<int>)
    ensures
        are_the_best(
            v,
            |c: Candidate| c.net@,
            v.len() as int,
            sort_by_keys(v, net_keys(v)),
            from,
        ),
{
    let from = lemma_best(v, net_keys(v), |c: Candidate| c.net@, v.len() as int);
    a_stable_order_exists(net_keys(v));
    assert(sort_by_keys(v, net_keys(v)).len() == v.len());
    from
}

// ---- the native rate ----

/// A pool gives a rate where it trades both tokens and pays something for 10^18 of the first.
pub open spec fn gives_rate<P: Pool>(pool: P, usdc: Address, weth: Address, rate: int) -> bool {
    &&& pool.spec_tokens().contains(weth)
    &&& pool.spec_tokens().contains(usdc)
    &&& pool.spec_quote(weth, usdc, 1_000_000_000_000_000_000) == Ok::<int, SimError>(rate)
    &&& rate != 0
}

/// The rate is what the first pool that gives one pays for 10^18 of the native token, in the base
/// token's units; there is none only where no pool gives one.
pub proof fn the_rate_is_the_first_that_is_given<P: Pool>(
    order: Seq<Address>,
    pools: Map<Address, P>,
    usdc: Address,
    weth: Address,
    n: int,
) -> (at: int)
    requires
        n >= 0,
    ensures
        match first_rate(order, pools, usdc, weth, n) {
            Some(rate) => {
                &&& 0 <= at < n
                &&& gives_rate(pools[order[at]], usdc, weth, rate)
                &&& forall|i: int, other: int|
                    0 <= i < at ==> !#[trigger] gives_rate(pools[order[i]], usdc, weth, other)
            },
            None => forall|i: int, other: int|
                0 <= i < n ==> !#[trigger] gives_rate(pools[order[i]], usdc, weth, other),
        },
    decreases n,
{
    if n == 0 {
        0
    } else {
        let at = the_rate_is_the_first_that_is_given(order, pools, usdc, weth, n - 1);
        if first_rate(order, pools, usdc, weth, n - 1) is Some {
            at
        } else {
            n - 1
        }
    }
}

// ---- screening ----

/// What screening finds in a cycle: the size that [`best_size_value`] finds through its pools,
/// and what the cycle nets at that size.
#[verifier::opaque]
pub open spec fn is_found(
    reg: Map<Address, LivePool>,
    cycle: Seq<Edge>,
    t: ScreenTerms,
    c: CandidateView,
) -> bool {
    let legs = loaded_legs(reg, cycle);
    &&& forall|i: int| 0 <= i < cycle.len() ==> reg.dom().contains((#[trigger] cycle[i]).pool)
    &&& best_size_value(legs, t.scale@, t.amount_in@, t.gas_price@, t.ratio@) == Some(c.amount)
    &&& net_value(legs, c.amount, t.gas_price@, t.ratio@) matches Ok(n) && n.net_profit == Some(
        c.net,
    ) && n.gas_cost == c.gas_cost
}

proof fn lemma_found(reg: Map<Address, LivePool>, cycle: Seq<Edge>, t: ScreenTerms, i: int)
    ensures
        live_net(reg, cycle, t, i) matches Some(c) ==> is_found(reg, cycle, t, c) && c.cycle == i,
        live_net(reg, cycle, t, i) is None ==> forall|c: CandidateView|
            !#[trigger] is_found(reg, cycle, t, c),
        live_net(reg, cycle, t, i) matches Some(d) ==> forall|c: CandidateView|
            #[trigger] is_found(reg, cycle, t, c) && c.cycle == i ==> c == d,
{
    reveal(is_found);
    reveal(live_size);
    reveal(live_net);
    let legs = loaded_legs(reg, cycle);
    let size = best_size_value(legs, t.scale@, t.amount_in@, t.gas_price@, t.ratio@);
    assert(live_size(reg, cycle, t) == if is_loaded(reg, cycle) {
        size
    } else {
        None
    });
    if live_net(reg, cycle, t, i) is None {
        assert forall|c: CandidateView| !#[trigger] is_found(reg, cycle, t, c) by {
            if is_found(reg, cycle, t, c) {
                assert(is_loaded(reg, cycle));
                assert(size == Some(c.amount));
            }
        }
    }
}

/// Screening keeps, in the order of the cycles, exactly those that net at least the least profit
/// at their best size.
pub proof fn screening_keeps_what_nets_enough(
    reg: Map<Address, LivePool>,
    cycles: Seq<Vec<Edge>>,
    t: ScreenTerms,
    n: int,
)
    requires
        0 <= n <= cycles.len(),
    ensures
        ({
            let kept = candidates(reg, cycles, t, n);
            &&& forall|a: int, b: int|
                0 <= a < b < kept.len() ==> (#[trigger] kept[a]).cycle < (#[trigger] kept[b]).cycle
            &&& forall|m: int|
                0 <= m < kept.len() ==> {
                    &&& 0 <= (#[trigger] kept[m]).cycle < n
                    &&& is_found(reg, cycles[kept[m].cycle]@, t, kept[m])
                    &&& kept[m].net >= t.min_profit@
                }
            &&& forall|c: CandidateView|
                0 <= c.cycle < n && c.net >= t.min_profit@ && #[trigger] is_found(
                    reg,
                    cycles[c.cycle]@,
                    t,
                    c,
                ) ==> kept.contains(c)
        }),
    decreases n,
{
    if n > 0 {
        screening_keeps_what_nets_enough(reg, cycles, t, n - 1);
        let before = candidates(reg, cycles, t, n - 1);
        let kept = candidates(reg, cycles, t, n);
        lemma_found(reg, cycles[n - 1]@, t, n - 1);
        assert forall|c: CandidateView|
            0 <= c.cycle < n && c.net >= t.min_profit@ && #[trigger] is_found(
                reg,
                cycles[c.cycle]@,
                t,
                c,
            ) implies kept.contains(c) by {
            if c.cycle < n - 1 {
                assert(before.contains(c));
                let m = choose|m: int| 0 <= m < before.len() && before[m] == c;
                assert(kept[m] == c);
            } else {
                let d = live_net(reg, cycles[n - 1]@, t, n - 1)->0;
                assert(d == c);
                assert(kept[before.len() as int] == c);
            }
        }
    }
}

/// The best that screening reports is what the most profitable cycle nets, whether or not it is
/// enough, and nothing where none nets anything.
pub proof fn the_best_net_is_the_most_that_is_found(
    reg: Map<Address, LivePool>,
    cycles: Seq<Vec<Edge>>,
    t: ScreenTerms,
    n: int,
)
    requires
        0 <= n <= cycles.len(),
    ensures
        best_net(reg, cycles, t, n) >= 0,
        forall|c: CandidateView|
            0 <= c.cycle < n && #[trigger] is_found(reg, cycles[c.cycle]@, t, c) ==> c.net
                <= best_net(reg, cycles, t, n),
        best_net(reg, cycles, t, n) > 0 ==> exists|c: CandidateView|
            0 <= c.cycle < n && #[trigger] is_found(reg, cycles[c.cycle]@, t, c) && c.net
                == best_net(reg, cycles, t, n),
    decreases n,
{
    if n > 0 {
        the_best_net_is_the_most_that_is_found(reg, cycles, t, n - 1);
        let before = best_net(reg, cycles, t, n - 1);
        lemma_found(reg, cycles[n - 1]@, t, n - 1);
        if let Some(d) = live_net(reg, cycles[n - 1]@, t, n - 1) {
            assert(is_found(reg, cycles[d.cycle]@, t, d));
        }
        if before > 0 {
            let c = choose|c: CandidateView|
                0 <= c.cycle < n - 1 && #[trigger] is_found(reg, cycles[c.cycle]@, t, c) && c.net
                    == before;
            assert(is_found(reg, cycles[c.cycle]@, t, c));
        }
    }
}

/// How many of the first `n` satisfy `p`.
pub open spec fn how_many(p: spec_fn(int) -> bool, n: int) -> int
    decreases n,
{
    if n <= 0 {
        0
    } else {
        how_many(p, n - 1) + if p(n - 1) {
            1int
        } else {
            0
        }
    }
}

/// Screening counts the cycles that lack a pool, and those for which there is a size at all.
pub proof fn screening_counts(
    reg: Map<Address, LivePool>,
    cycles: Seq<Vec<Edge>>,
    t: ScreenTerms,
    n: int,
)
    requires
        0 <= n <= cycles.len(),
    ensures
        missing(reg, cycles, n) == how_many(
            |c: int|
                exists|i: int|
                    0 <= i < cycles[c]@.len() && !reg.dom().contains(
                        (#[trigger] cycles[c]@[i]).pool,
                    ),
            n,
        ),
        latent(reg, cycles, t, n) == how_many(
            |c: int|
                is_loaded(reg, cycles[c]@) && best_size_value(
                    loaded_legs(reg, cycles[c]@),
                    t.scale@,
                    t.amount_in@,
                    t.gas_price@,
                    t.ratio@,
                ) is Some,
            n,
        ),
    decreases n,
{
    if n > 0 {
        screening_counts(reg, cycles, t, n - 1);
        reveal(live_size);
        let cycle = cycles[n - 1]@;
        let size = best_size_value(
            loaded_legs(reg, cycle),
            t.scale@,
            t.amount_in@,
            t.gas_price@,
            t.ratio@,
        );
        assert(live_size(reg, cycle, t) is Some <==> is_loaded(reg, cycle) && size is Some);
    }
}

/// What a confirmed trade costs is what goes in and the gas, as long as that fits in 256 bits.
pub proof fn costs_are_the_input_and_the_gas(c: Candidate)
    requires
        c.amount@ + c.gas_cost@ < two256(),
    ensures
        cost_of(c) == c.amount@ + c.gas_cost@,
{
    broadcast use lemma_u256_range;

    vstd::arithmetic::div_mod::lemma_small_mod(
        (c.amount@ + c.gas_cost@) as nat,
        two256() as nat,
    );
}

} // verus!
