//! Laws of the graph of pools: which edges it has, and which cycles are found in it.
use crate::book::PoolInfo;
use crate::graph::{
    edges_from, edges_start_right, exactly_the_cycles_are_found, found_cycles, traded, Edge, Graph,
};
use crate::types::Address;
use vstd::prelude::*;

verus! {

/// A pool can be traded through from one of its tokens to the other.
pub open spec fn goes_through(e: Edge, p: PoolInfo) -> bool {
    &&& e.pool == p.address
    &&& e.kind == p.kind
    &&& e.fee_bps == p.fee_bps
    &&& (e.from == p.token0 && e.to == p.token1) || (e.from == p.token1 && e.to == p.token0)
}

/// Every pool gives an edge each way, and there are no others.
pub proof fn pools_go_both_ways(pools: Seq<PoolInfo>, token: Address, e: Edge)
    ensures
        edges_from(pools, token).contains(e) <==> e.from == token && exists|i: int|
            0 <= i < pools.len() && goes_through(e, #[trigger] pools[i]),
    decreases pools.len(),
{
    if pools.len() > 0 {
        let rest = pools.drop_last();
        pools_go_both_ways(rest, token, e);
        let before = edges_from(rest, token);
        let after = edges_from(pools, token);
        let p = pools.last();
        assert(forall|i: int| 0 <= i < rest.len() ==> rest[i] == #[trigger] pools[i]);
        if before.contains(e) {
            let k = choose|k: int| 0 <= k < before.len() && before[k] == e;
            assert(after[k] == e);
            let i = choose|i: int| 0 <= i < rest.len() && goes_through(e, #[trigger] rest[i]);
            assert(goes_through(e, pools[i]));
        }
        if after.contains(e) {
            let k = choose|k: int| 0 <= k < after.len() && after[k] == e;
            if k < before.len() {
                assert(before[k] == e);
                assert(before.contains(e));
            } else {
                assert(goes_through(e, pools[pools.len() - 1]));
            }
        }
        if e.from == token && (exists|i: int|
            0 <= i < pools.len() && goes_through(e, #[trigger] pools[i])) {
            let i = choose|i: int| 0 <= i < pools.len() && goes_through(e, #[trigger] pools[i]);
            if i < rest.len() {
                assert(goes_through(e, rest[i]));
                assert(before.contains(e));
            } else {
                let n = before.len() as int;
                assert(after[n] == e || after[n + 1] == e);
            }
        }
    } else {
        assert(!edges_from(pools, token).contains(e));
    }
}

/// The tokens of the graph are those of its pools.
pub proof fn tokens_are_those_of_the_pools(pools: Seq<PoolInfo>, token: Address)
    ensures
        traded(pools).contains(token) <==> exists|i: int|
            0 <= i < pools.len() && ((#[trigger] pools[i]).token0 == token || pools[i].token1
                == token),
    decreases pools.len(),
{
    if pools.len() > 0 {
        let rest = pools.drop_last();
        tokens_are_those_of_the_pools(rest, token);
        assert(forall|i: int| 0 <= i < rest.len() ==> rest[i] == #[trigger] pools[i]);
        if traded(rest).contains(token) {
            let i = choose|i: int|
                0 <= i < rest.len() && ((#[trigger] rest[i]).token0 == token || rest[i].token1
                    == token);
            assert(pools[i].token0 == token || pools[i].token1 == token);
        }
        if traded(pools).contains(token) && !traded(rest).contains(token) {
            let i = pools.len() - 1;
            assert(pools[i].token0 == token || pools[i].token1 == token);
        }
    }
}

/// A loop of two to `max_hops` trades out of `base` and back into it, each along an edge of the
/// graph and from where the one before ended, that takes no pool twice and comes to no token
/// twice.
pub open spec fn is_simple_loop(g: Graph, base: Address, max_hops: int, c: Seq<Edge>) -> bool {
    &&& 2 <= c.len()
    &&& c.len() <= max_hops
    &&& c[0].from == base
    &&& c[c.len() - 1].to == base
    &&& forall|i: int| 0 <= i < c.len() ==> g.edges((#[trigger] c[i]).from).contains(c[i])
    &&& forall|i: int| 0 < i < c.len() ==> (#[trigger] c[i]).from == c[i - 1].to
    &&& forall|i: int, j: int|
        0 <= i < j < c.len() ==> (#[trigger] c[i]).pool != (#[trigger] c[j]).pool
    &&& forall|i: int, j: int|
        0 <= i < j < c.len() ==> (#[trigger] c[i]).to != (#[trigger] c[j]).to
}

/// The cycles that are found are the simple loops.
pub proof fn the_simple_loops_are_found(g: Graph, base: Address, max_hops: int, c: Seq<Edge>)
    requires
        edges_start_right(g),
    ensures
        found_cycles(g, base, max_hops).contains(c) <==> is_simple_loop(g, base, max_hops, c),
{
    exactly_the_cycles_are_found(g, base, max_hops, c);
    if is_simple_loop(g, base, max_hops, c) {
        assert forall|i: int, j: int|
            0 <= i < c.len() && j == i + 1 && j < c.len() implies (#[trigger] c[i]).to == (
        #[trigger] c[j]).from by {
            assert(c[j].from == c[j - 1].to);
        }
    }
    if found_cycles(g, base, max_hops).contains(c) {
        assert forall|i: int| 0 < i < c.len() implies (#[trigger] c[i]).from == c[i - 1].to by {
            assert(c[i - 1].to == c[i].from);
        }
    }
}

} // verus!
