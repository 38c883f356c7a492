//! Pricing of graph cycles: quote every USDC→…→USDC cycle against loaded pools and rank by
//! gas- and fee-adjusted output.
use crate::graph::Edge;
use crate::live::base::loader::AnyPool;
use crate::order::{
    a_stable_order_exists, as_ints, is_stable_order, key_values, permute, sort_by_keys,
    stable_order, stable_order_of,
};
use crate::path::{gas_fits, gas_of, legs_wf, net_profit, net_value, Leg};
use crate::pool::Pool;
use crate::rank_map::{ascending, AddressMap, RankMap};
use crate::types::{lemma_u256_range, two256, Address, U256};
use vstd::prelude::*;

verus! {

/// One hop of a cycle through its pool.
pub open spec fn leg_of<'a, P: Pool>(pool: P, e: Edge) -> Leg<'a> {
    Leg { pool: &pool, token_in: e.from, token_out: e.to }
}

/// Every pool of the cycle is loaded.
pub open spec fn is_loaded<P: Pool>(pools: Map<Address, P>, cycle: Seq<Edge>) -> bool {
    forall|i: int| 0 <= i < cycle.len() ==> pools.dom().contains((#[trigger] cycle[i]).pool)
}

/// The legs of a cycle through loaded pools.
pub open spec fn loaded_legs<'a, P: Pool>(
    pools: Map<Address, P>,
    cycle: Seq<Edge>,
) -> Seq<Leg<'a>> {
    Seq::new(cycle.len(), |i: int| leg_of(pools[cycle[i].pool], cycle[i]))
}

/// The cycle can be priced: its pools can be quoted, and its gas fits in 64 bits.
pub open spec fn is_priceable<P: Pool>(pools: Map<Address, P>, cycle: Seq<Edge>) -> bool {
    is_loaded(pools, cycle) ==> legs_wf(loaded_legs(pools, cycle)) && gas_fits(
        loaded_legs(pools, cycle),
    )
}

/// Every cycle can be priced.
pub open spec fn all_priceable<P: Pool>(pools: Map<Address, P>, cycles: Seq<Vec<Edge>>) -> bool {
    forall|i: int| 0 <= i < cycles.len() ==> is_priceable(pools, (#[trigger] cycles[i])@)
}

/// A cycle goes through a pool.
pub open spec fn goes_through(cycles: Seq<Vec<Edge>>, pool: Address) -> bool {
    exists|c: int, i: int|
        0 <= c < cycles.len() && 0 <= i < cycles[c]@.len() && (#[trigger] cycles[c]@[i]).pool
            == pool
}

/// The pools that the cycles go through, in address order.
pub fn needed_pools(cycles: &[Vec<Edge>]) -> (r: Vec<Address>)
    ensures
        ascending(r@),
        forall|a: Address| r@.contains(a) <==> goes_through(cycles@, a),
{
    let mut seen: AddressMap<bool> = RankMap::new();
    let mut c: usize = 0;
    while c < cycles.len()
        invariant
            c <= cycles@.len(),
            forall|a: Address| #[trigger]
                seen@.dom().contains(a) <==> goes_through(cycles@.take(c as int), a),
        decreases cycles@.len() - c,
    {
        let ghost before = seen@;
        let ghost taken = cycles@.take(c as int);
        let ghost next = cycles@.take(c + 1);
        let ghost edges = cycles@[c as int]@;
        let mut i: usize = 0;
        while i < cycles[c].len()
            invariant
                c < cycles@.len(),
                edges == cycles@[c as int]@,
                i <= edges.len(),
                forall|a: Address| #[trigger]
                    seen@.dom().contains(a) <==> (before.dom().contains(a) || exists|j: int|
                        0 <= j < i && (#[trigger] edges[j]).pool == a),
            decreases edges.len() - i,
        {
            let ghost known = seen@;
            let pool = cycles[c][i].pool;
            seen.insert(pool, true);
            proof {
                assert forall|a: Address| #[trigger]
                    seen@.dom().contains(a) <==> (before.dom().contains(a) || exists|j: int|
                        0 <= j < i + 1 && (#[trigger] edges[j]).pool == a) by {
                    if a == pool {
                        assert(edges[i as int].pool == a);
                    } else {
                        assert(known.dom().contains(a) == seen@.dom().contains(a));
                    }
                }
            }
            i = i + 1;
        }
        proof {
            assert forall|a: Address| #[trigger]
                seen@.dom().contains(a) <==> goes_through(next, a) by {
                if before.dom().contains(a) {
                    let (k, j) = choose|k: int, j: int|
                        0 <= k < taken.len() && 0 <= j < taken[k]@.len() && (
                        #[trigger] taken[k]@[j]).pool == a;
                    assert(next[k]@[j].pool == a);
                }
                if exists|j: int| 0 <= j < i && (#[trigger] edges[j]).pool == a {
                    let j = choose|j: int| 0 <= j < i && (#[trigger] edges[j]).pool == a;
                    assert(next[c as int]@[j].pool == a);
                }
                if goes_through(next, a) {
                    let (k, j) = choose|k: int, j: int|
                        0 <= k < next.len() && 0 <= j < next[k]@.len() && (
                        #[trigger] next[k]@[j]).pool == a;
                    if k < c {
                        assert(taken[k]@[j].pool == a);
                    } else {
                        assert(edges[j].pool == a);
                    }
                }
            }
        }
        c = c + 1;
    }
    assert(cycles@.take(c as int) =~= cycles@);
    let count: usize = seen.len();
    let ghost keys = seen.key_seq();
    let mut out: Vec<Address> = Vec::new();
    let mut i: usize = 0;
    while i < count
        invariant
            i <= count,
            count == keys.len(),
            keys == seen.key_seq(),
            out@ == keys.take(i as int),
        decreases count - i,
    {
        assert(keys.take(i + 1) =~= keys.take(i as int).push(keys[i as int]));
        out.push(seen.key_at(i));
        i = i + 1;
    }
    assert(keys.take(i as int) =~= keys);
    out
}

/// The legs of a cycle, if every pool of it is loaded.
pub fn legs_through<'a, P: Pool>(pools: &'a AddressMap<P>, cycle: &Vec<Edge>) -> (r: Option<
    Vec<Leg<'a>>,
>)
    ensures
        match r {
            Some(legs) => is_loaded(pools@, cycle@) && legs@ == loaded_legs(pools@, cycle@),
            None => !is_loaded(pools@, cycle@),
        },
{
    let ghost wanted = loaded_legs(pools@, cycle@);
    let mut legs: Vec<Leg<'a>> = Vec::new();
    let mut i: usize = 0;
    while i < cycle.len()
        invariant
            i <= cycle.len(),
            wanted == loaded_legs(pools@, cycle@),
            legs@ == wanted.take(i as int),
            forall|j: int| 0 <= j < i ==> pools@.dom().contains((#[trigger] cycle@[j]).pool),
        decreases cycle.len() - i,
    {
        let e = &cycle[i];
        match pools.get(e.pool) {
            None => {
                assert(!pools@.dom().contains(cycle@[i as int].pool));
                return None;
            },
            Some(pool) => {
                let leg: Leg<'a> = Leg { pool, token_in: e.from, token_out: e.to };
                proof {
                    assert(leg == leg_of(*pool, *e));
                    assert(leg == wanted[i as int]);
                    assert(wanted.take(i + 1) =~= wanted.take(i as int).push(leg));
                }
                legs.push(leg);
            },
        }
        i = i + 1;
    }
    assert(wanted.take(i as int) =~= wanted);
    Some(legs)
}

/// A cycle with its price.
#[derive(Debug, Clone)]
pub struct PricedCycle {
    pub pools: Vec<Address>,
    pub tokens: Vec<Address>,
    pub gross_out: U256,
    pub net_profit: Option<U256>,
}

/// A priced cycle in mathematical values.
pub struct PricedView {
    pub pools: Seq<Address>,
    pub tokens: Seq<Address>,
    pub gross_out: int,
    pub net_profit: Option<int>,
}

impl PricedCycle {
    /// The priced cycle in mathematical values.
    pub open spec fn model(&self) -> PricedView {
        PricedView {
            pools: self.pools@,
            tokens: self.tokens@,
            gross_out: self.gross_out@,
            net_profit: match self.net_profit {
                Some(p) => Some(p@),
                None => None,
            },
        }
    }
}

/// The priced cycles in mathematical values.
pub open spec fn priced_views(v: Seq<PricedCycle>) -> Seq<PricedView> {
    v.map_values(|p: PricedCycle| p.model())
}

/// The pools along a cycle.
pub open spec fn pools_along(cycle: Seq<Edge>) -> Seq<Address> {
    cycle.map_values(|e: Edge| e.pool)
}

/// The tokens along a cycle: where it starts, and where each edge leads.
pub open spec fn tokens_along(cycle: Seq<Edge>) -> Seq<Address> {
    seq![cycle[0].from] + cycle.map_values(|e: Edge| e.to)
}

/// The pools along a cycle.
pub fn pools_of(cycle: &Vec<Edge>) -> (r: Vec<Address>)
    ensures
        r@ == pools_along(cycle@),
{
    let mut out: Vec<Address> = Vec::new();
    let mut i: usize = 0;
    while i < cycle.len()
        invariant
            i <= cycle.len(),
            out@ == pools_along(cycle@).take(i as int),
        decreases cycle.len() - i,
    {
        assert(pools_along(cycle@).take(i + 1) =~= pools_along(cycle@).take(i as int).push(
            cycle@[i as int].pool,
        ));
        out.push(cycle[i].pool);
        i = i + 1;
    }
    assert(pools_along(cycle@).take(i as int) =~= pools_along(cycle@));
    out
}

/// The tokens along a cycle: where it starts, and where each edge leads.
pub fn tokens_of(cycle: &Vec<Edge>) -> (r: Vec<Address>)
    requires
        cycle.len() > 0,
    ensures
        r@ == tokens_along(cycle@),
{
    let mut out: Vec<Address> = Vec::new();
    out.push(cycle[0].from);
    let mut i: usize = 0;
    assert(out@ =~= tokens_along(cycle@).take(1));
    while i < cycle.len()
        invariant
            i <= cycle.len(),
            out@ == tokens_along(cycle@).take(i + 1),
        decreases cycle.len() - i,
    {
        assert(tokens_along(cycle@).take(i + 2) =~= tokens_along(cycle@).take(i + 1).push(
            cycle@[i as int].to,
        ));
        out.push(cycle[i].to);
        i = i + 1;
    }
    assert(tokens_along(cycle@).take(i + 1) =~= tokens_along(cycle@));
    out
}

/// The prices of the first `n` cycles, without those that miss a pool or cannot be traded.
pub open spec fn prices<P: Pool>(
    pools: Map<Address, P>,
    cycles: Seq<Vec<Edge>>,
    amount_in: int,
    gas_price: int,
    ratio: int,
    n: int,
) -> Seq<PricedView>
    decreases n,
{
    if n <= 0 {
        Seq::empty()
    } else {
        let before = prices(pools, cycles, amount_in, gas_price, ratio, n - 1);
        let cycle = cycles[n - 1]@;
        if !is_loaded(pools, cycle) {
            before
        } else {
            match net_value(loaded_legs(pools, cycle), amount_in, gas_price, ratio) {
                Err(_) => before,
                Ok(net) => before.push(
                    PricedView {
                        pools: pools_along(cycle),
                        tokens: tokens_along(cycle),
                        gross_out: net.gross_out,
                        net_profit: net.net_profit,
                    },
                ),
            }
        }
    }
}

/// Quote every cycle whose pools are loaded.
pub fn price_cycles<P: Pool>(
    pools: &AddressMap<P>,
    cycles: &[Vec<Edge>],
    amount_in: U256,
    gas_price: U256,
    ratio: U256,
) -> (r: Vec<PricedCycle>)
    requires
        all_priceable(pools@, cycles@),
    ensures
        priced_views(r@) == prices(
            pools@,
            cycles@,
            amount_in@,
            gas_price@,
            ratio@,
            cycles@.len() as int,
        ),
{
    let mut priced: Vec<PricedCycle> = Vec::new();
    let mut i: usize = 0;
    assert(priced_views(priced@) =~= Seq::<PricedView>::empty());
    while i < cycles.len()
        invariant
            i <= cycles@.len(),
            all_priceable(pools@, cycles@),
            priced_views(priced@) == prices(
                pools@,
                cycles@,
                amount_in@,
                gas_price@,
                ratio@,
                i as int,
            ),
        decreases cycles@.len() - i,
    {
        let cycle = &cycles[i];
        assert(is_priceable(pools@, cycles@[i as int]@));
        match legs_through(pools, cycle) {
            None => {},
            Some(legs) => {
                if cycle.len() > 0 {
                    match net_profit(legs.as_slice(), amount_in, gas_price, ratio) {
                        Err(_) => {},
                        Ok(net) => {
                            let ghost before = priced@;
                            let item = PricedCycle {
                                pools: pools_of(cycle),
                                tokens: tokens_of(cycle),
                                gross_out: net.gross_out,
                                net_profit: net.net_profit,
                            };
                            priced.push(item);
                            assert(priced_views(priced@) =~= priced_views(before).push(
                                item.model(),
                            ));
                        },
                    }
                } else {
                    assert(loaded_legs(pools@, cycle@).len() == 0);
                }
            },
        }
        i = i + 1;
    }
    priced
}

/// Keys that sort by output, the largest first.
pub open spec fn output_keys(v: Seq<PricedView>) -> Seq<int> {
    v.map_values(|p: PricedView| two256() - 1 - p.gross_out)
}

/// The best `top` cycles by output, the best first; equal ones in their first order.
pub open spec fn best_priced(v: Seq<PricedView>, top: int) -> Seq<PricedView> {
    let sorted = sort_by_keys(v, output_keys(v));
    if top < sorted.len() {
        sorted.take(top)
    } else {
        sorted
    }
}

/// A copy of addresses.
fn copy_addresses(v: &Vec<Address>) -> (r: Vec<Address>)
    ensures
        r@ == v@,
{
    let mut out: Vec<Address> = Vec::new();
    let mut i: usize = 0;
    while i < v.len()
        invariant
            i <= v.len(),
            out@ == v@.take(i as int),
        decreases v.len() - i,
    {
        assert(v@.take(i + 1) =~= v@.take(i as int).push(v@[i as int]));
        out.push(v[i]);
        i = i + 1;
    }
    assert(v@.take(i as int) =~= v@);
    out
}

/// Rank by gross output (best edge first) and keep the first `top`.
pub fn rank_priced(priced: &Vec<PricedCycle>, top: usize) -> (r: Vec<PricedCycle>)
    ensures
        priced_views(r@) == best_priced(priced_views(priced@), top as int),
        is_stable_order(
            output_keys(priced_views(priced@)),
            stable_order(output_keys(priced_views(priced@))),
        ),
{
    broadcast use lemma_u256_range;

    let ghost views = priced_views(priced@);
    let mut keys: Vec<U256> = Vec::new();
    let mut i: usize = 0;
    while i < priced.len()
        invariant
            i <= priced.len(),
            keys.len() == i,
            forall|j: int|
                0 <= j < i ==> (#[trigger] keys@[j])@ == two256() - 1 - priced@[j].gross_out@,
        decreases priced.len() - i,
    {
        broadcast use lemma_u256_range;

        let out: U256 = priced[i].gross_out;
        proof {
            vstd::arithmetic::div_mod::lemma_small_mod(
                (two256() - 1 - out@) as nat,
                two256() as nat,
            );
        }
        keys.push(U256::max_value().wrapping_sub(out));
        i = i + 1;
    }
    assert(key_values(keys@) =~= output_keys(views));
    let order = stable_order_of(keys.as_slice());
    let ghost ints = as_ints(order@);
    let ghost sorted = sort_by_keys(views, output_keys(views));
    let count: usize = if top < order.len() {
        top
    } else {
        order.len()
    };
    let mut out: Vec<PricedCycle> = Vec::new();
    let mut i: usize = 0;
    assert(priced_views(out@) =~= sorted.take(0));
    while i < count
        invariant
            i <= count <= order.len(),
            ints == as_ints(order@),
            ints.len() == priced@.len(),
            views == priced_views(priced@),
            sorted == permute(views, ints),
            forall|j: int| 0 <= j < ints.len() ==> 0 <= #[trigger] ints[j] < priced@.len(),
            priced_views(out@) == sorted.take(i as int),
        decreases count - i,
    {
        assert(ints[i as int] == order@[i as int]);
        let p = &priced[order[i]];
        let item = PricedCycle {
            pools: copy_addresses(&p.pools),
            tokens: copy_addresses(&p.tokens),
            gross_out: p.gross_out,
            net_profit: p.net_profit,
        };
        let ghost before = out@;
        out.push(item);
        proof {
            assert(item.model() == sorted[i as int]);
            assert(priced_views(out@) =~= priced_views(before).push(item.model()));
            assert(sorted.take(i + 1) =~= sorted.take(i as int).push(sorted[i as int]));
        }
        i = i + 1;
    }
    assert(priced_views(out@) =~= best_priced(views, top as int));
    out
}

/// The best cycle that is kept has the largest output.
pub proof fn the_first_pays_most(v: Seq<PricedView>, top: int, i: int)
    requires
        0 <= top,
        0 <= i < best_priced(v, top).len(),
    ensures
        best_priced(v, top)[0].gross_out >= best_priced(v, top)[i].gross_out,
{
    let keys = output_keys(v);
    let order = stable_order(keys);
    a_stable_order_exists(keys);
    assert(sort_by_keys(v, keys).len() == order.len());
    assert(0 <= order[0] < v.len() && 0 <= order[i] < v.len());
    if i > 0 {
        assert(crate::order::comes_before(keys, order[0], order[i]));
    }
}

/// What a pool pays in `usdc` for 10^18 units of `weth`, if it trades both and pays anything.
pub open spec fn rate_of<P: Pool>(pool: P, usdc: Address, weth: Address) -> Option<int> {
    if pool.spec_tokens().contains(weth) && pool.spec_tokens().contains(usdc) {
        match pool.spec_quote(weth, usdc, 1_000_000_000_000_000_000) {
            Ok(out) => if out != 0 {
                Some(out)
            } else {
                None
            },
            Err(_) => None,
        }
    } else {
        None
    }
}

/// The rate of the first of `n` pools that has one.
pub open spec fn first_rate<P: Pool>(
    order: Seq<Address>,
    pools: Map<Address, P>,
    usdc: Address,
    weth: Address,
    n: int,
) -> Option<int>
    decreases n,
{
    if n <= 0 {
        None
    } else {
        match first_rate(order, pools, usdc, weth, n - 1) {
            Some(rate) => Some(rate),
            None => rate_of(pools[order[n - 1]], usdc, weth),
        }
    }
}

proof fn lemma_first_rate<P: Pool>(
    order: Seq<Address>,
    pools: Map<Address, P>,
    usdc: Address,
    weth: Address,
    n: int,
    m: int,
)
    requires
        0 <= n <= m,
        first_rate(order, pools, usdc, weth, n) is Some,
    ensures
        first_rate(order, pools, usdc, weth, m) == first_rate(order, pools, usdc, weth, n),
    decreases m,
{
    if n < m {
        lemma_first_rate(order, pools, usdc, weth, n, m - 1);
    }
}

/// USDC units per 1 ETH (10^18 wei), by quoting 1 WETH on the first loaded WETH/USDC pool, in
/// address order, that pays for it. This is the `token_units_per_native_1e18` of gas accounting.
pub fn eth_usdc_ratio<P: Pool>(
    pools: &AddressMap<P>,
    usdc: Address,
    weth: Option<Address>,
) -> (r: Option<U256>)
    requires
        forall|a: Address| #[trigger] pools@.dom().contains(a) ==> pools@[a].wf(),
    ensures
        (match r {
            Some(rate) => Some(rate@),
            None => None,
        }) == (match weth {
            Some(weth) => first_rate(
                pools.key_seq(),
                pools@,
                usdc,
                weth,
                pools.key_seq().len() as int,
            ),
            None => None,
        }),
        ascending(pools.key_seq()),
{
    let count: usize = pools.len();
    let native: Address = match weth {
        Some(weth) => weth,
        None => return None,
    };
    let ghost order = pools.key_seq();
    let one_eth = U256::from_u64(1_000_000_000_000_000_000);
    let mut i: usize = 0;
    while i < count
        invariant
            i <= count,
            count == order.len(),
            order == pools.key_seq(),
            ascending(order),
            weth == Some(native),
            one_eth@ == 1_000_000_000_000_000_000,
            forall|a: Address| #[trigger] pools@.dom().contains(a) ==> pools@[a].wf(),
            first_rate(order, pools@, usdc, native, i as int) is None,
        decreases count - i,
    {
        let key = pools.key_at(i);
        let pool = pools.value_at(i);
        assert(pools@.dom().contains(key));
        if pool.has_token(native) && pool.has_token(usdc) {
            match pool.quote(native, usdc, one_eth) {
                Ok(out) => {
                    if !out.is_zero() {
                        proof {
                            lemma_first_rate(order, pools@, usdc, native, i + 1, count as int);
                        }
                        return Some(out);
                    }
                },
                Err(_) => {},
            }
        }
        i = i + 1;
    }
    None
}

/// A leg through a loaded simulator quotes and costs what the simulator does.
proof fn lemma_loaded_leg(pool: AnyPool, e: Edge)
    ensures
        leg_of(pool, e).pool.wf() == pool.wf(),
        leg_of(pool, e).pool.spec_gas() == pool.spec_gas(),
{
    let leg = Leg { pool: &pool, token_in: e.from, token_out: e.to };
    assert(leg.pool.wf() == pool.wf());
}

proof fn lemma_loaded_gas(pools: Map<Address, AnyPool>, cycle: Seq<Edge>, k: int)
    requires
        is_loaded(pools, cycle),
        0 <= k <= cycle.len(),
    ensures
        0 <= gas_of(loaded_legs(pools, cycle), k) <= k * 160_000,
    decreases k,
{
    if k > 0 {
        lemma_loaded_gas(pools, cycle, k - 1);
        lemma_loaded_leg(pools[cycle[k - 1].pool], cycle[k - 1]);
    }
}

/// A cycle through loaded simulators can be priced, unless it is too long for its gas to be
/// counted.
pub proof fn loaded_cycles_are_priceable(pools: Map<Address, AnyPool>, cycle: Seq<Edge>)
    requires
        forall|a: Address| #[trigger] pools.dom().contains(a) ==> pools[a].wf(),
        cycle.len() * 160_000 <= u64::MAX,
    ensures
        is_priceable(pools, cycle),
{
    if is_loaded(pools, cycle) {
        let legs = loaded_legs(pools, cycle);
        assert forall|i: int| 0 <= i < legs.len() implies (#[trigger] legs[i]).pool.wf()
            && legs[i].pool.spec_gas() >= 0 by {
            assert(pools.dom().contains(cycle[i].pool));
            lemma_loaded_leg(pools[cycle[i].pool], cycle[i]);
        }
        lemma_loaded_gas(pools, cycle, cycle.len() as int);
    }
}

/// Price the cycles against loaded simulators and rank them by output. `amount_in` is in the
/// base token's native units; gas is valued by the pools' own WETH price, or not at all.
pub fn rank_cycles(
    sims: &AddressMap<AnyPool>,
    cycles: &[Vec<Edge>],
    base_token: Address,
    weth: Option<Address>,
    amount_in: U256,
    gas_price: U256,
    top: usize,
) -> (r: Vec<PricedCycle>)
    requires
        forall|a: Address| #[trigger] sims@.dom().contains(a) ==> sims@[a].wf(),
        forall|i: int|
            0 <= i < cycles@.len() ==> (#[trigger] cycles@[i])@.len() * 160_000 <= u64::MAX,
    ensures
        priced_views(r@) == ({
            let rate = match weth {
                Some(weth) => first_rate(
                    sims.key_seq(),
                    sims@,
                    base_token,
                    weth,
                    sims.key_seq().len() as int,
                ),
                None => None,
            };
            best_priced(
                prices(
                    sims@,
                    cycles@,
                    amount_in@,
                    gas_price@,
                    match rate {
                        Some(ratio) => ratio,
                        None => 0,
                    },
                    cycles@.len() as int,
                ),
                top as int,
            )
        }),
{
    let ratio = match eth_usdc_ratio(sims, base_token, weth) {
        Some(ratio) => ratio,
        None => U256::zero(),
    };
    proof {
        assert forall|i: int| 0 <= i < cycles@.len() implies is_priceable(
            sims@,
            (#[trigger] cycles@[i])@,
        ) by {
            loaded_cycles_are_priceable(sims@, cycles@[i]@);
        }
    }
    let priced = price_cycles(sims, cycles, amount_in, gas_price, ratio);
    rank_priced(&priced, top)
}

/// The block that every pool is read at: two behind the head.
pub fn pinned_block(head: u64) -> (r: u64)
    ensures
        r == (if head >= 2 {
            (head - 2) as u64
        } else {
            0
        }),
{
    if head >= 2 {
        head - 2
    } else {
        0
    }
}

} // verus!
