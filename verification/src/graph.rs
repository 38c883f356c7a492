//! The pool graph: tokens are nodes, pools are (bidirectional) edges. Arb paths are cycles
//! `base → … → base` (USDC → … → USDC). This module builds the graph from a [`PoolBook`] and
//! enumerates candidate cycles to feed the simulator and the scanner.
use crate::rank_map::AddressMap;
use crate::book::{PoolBook, PoolInfo};
use crate::types::Address;
use vstd::prelude::*;

verus! {

/// One directed traversal of a pool: swap `from` → `to` through `pool`.
#[derive(Debug, PartialEq, Eq)]
pub struct Edge {
    pub pool: Address,
    pub kind: String,
    pub from: Address,
    pub to: Address,
    pub fee_bps: Option<u32>,
}

impl Clone for Edge {
    fn clone(&self) -> (r: Edge)
        ensures
            r == *self,
    {
        Edge {
            pool: self.pool,
            kind: self.kind.clone(),
            from: self.from,
            to: self.to,
            fee_bps: self.fee_bps,
        }
    }
}

/// The traversal of a pool from one of its tokens to the other.
pub open spec fn traversal(p: PoolInfo, from: Address, to: Address) -> Edge {
    Edge { pool: p.address, kind: p.kind, from, to, fee_bps: p.fee_bps }
}

/// The edges out of `token`: each pool in order, from its first token and from its second.
pub open spec fn edges_from(pools: Seq<PoolInfo>, token: Address) -> Seq<Edge>
    decreases pools.len(),
{
    if pools.len() == 0 {
        Seq::empty()
    } else {
        let p = pools.last();
        let before = edges_from(pools.drop_last(), token);
        let there = if p.token0 == token {
            before.push(traversal(p, p.token0, p.token1))
        } else {
            before
        };
        if p.token1 == token {
            there.push(traversal(p, p.token1, p.token0))
        } else {
            there
        }
    }
}

/// The tokens that the pools trade.
pub open spec fn traded(pools: Seq<PoolInfo>) -> Set<Address>
    decreases pools.len(),
{
    if pools.len() == 0 {
        Set::empty()
    } else {
        traded(pools.drop_last()).insert(pools.last().token0).insert(pools.last().token1)
    }
}

/// Tokens and the edges out of each.
pub struct Graph {
    pub adj: AddressMap<Vec<Edge>>,
}

/// The traversal of `p` from `from` to `to`.
fn traverse(p: &PoolInfo, from: Address, to: Address) -> (r: Edge)
    ensures
        r == traversal(*p, from, to),
{
    Edge { pool: p.address, kind: p.kind.clone(), from, to, fee_bps: p.fee_bps }
}

impl Graph {
    /// The edges out of `token`.
    pub open spec fn edges(&self, token: Address) -> Seq<Edge> {
        if self.adj@.dom().contains(token) {
            self.adj@[token]@
        } else {
            Seq::empty()
        }
    }

    /// One more edge out of `token`.
    fn add_edge(&mut self, token: Address, edge: Edge)
        ensures
            forall|t: Address| #[trigger]
                final(self).edges(t) == (if t == token {
                    old(self).edges(t).push(edge)
                } else {
                    old(self).edges(t)
                }),
            final(self).adj@.dom() == old(self).adj@.dom().insert(token),
    {
        let mut edges: Vec<Edge> = match self.adj.remove(token) {
            Some(edges) => edges,
            None => Vec::new(),
        };
        edges.push(edge);
        self.adj.insert(token, edges);
        assert(self.adj@.dom() =~= old(self).adj@.dom().insert(token));
    }

    /// Build adjacency from a pool book (each pool yields both directions).
    pub fn from_book(book: &PoolBook) -> (r: Graph)
        ensures
            forall|t: Address| #[trigger] r.edges(t) == edges_from(book.pools@, t),
            r.adj@.dom() == traded(book.pools@),
            edges_start_right(r),
    {
        let mut g = Graph { adj: AddressMap::new() };
        let mut i: usize = 0;
        proof {
            assert(book.pools@.take(0) =~= Seq::<PoolInfo>::empty());
            assert(g.adj@.dom() =~= Set::<Address>::empty());
        }
        while i < book.pools.len()
            invariant
                i <= book.pools.len(),
                forall|t: Address| #[trigger]
                    g.edges(t) == edges_from(book.pools@.take(i as int), t),
                g.adj@.dom() == traded(book.pools@.take(i as int)),
            decreases book.pools.len() - i,
        {
            let p = &book.pools[i];
            g.add_edge(p.token0, traverse(p, p.token0, p.token1));
            g.add_edge(p.token1, traverse(p, p.token1, p.token0));
            proof {
                assert(book.pools@.take(i + 1).drop_last() =~= book.pools@.take(i as int));
            }
            i = i + 1;
        }
        assert(book.pools@.take(i as int) =~= book.pools@);
        proof {
            assert forall|t: Address, k: int| 0 <= k < g.edges(t).len() implies (
            #[trigger] g.edges(t)[k]).from == t by {
                book_edges_start_right(book.pools@, t, k);
            }
        }
        g
    }

    /// The number of tokens.
    pub fn token_count(&self) -> (r: usize)
        ensures
            r == self.adj@.dom().len(),
    {
        self.adj.len()
    }

    /// The edges out of `token`.
    pub fn neighbors(&self, token: Address) -> (r: &[Edge])
        ensures
            r@ == self.edges(token),
    {
        match self.adj.get(token) {
            Some(edges) => edges.as_slice(),
            None => &[],
        }
    }
}

/// A pool is on the path.
pub open spec fn uses_pool(path: Seq<Edge>, pool: Address) -> bool {
    exists|i: int| 0 <= i < path.len() && (#[trigger] path[i]).pool == pool
}

/// The path passes through a token.
pub open spec fn passes(path: Seq<Edge>, token: Address) -> bool {
    exists|i: int| 0 <= i < path.len() && (#[trigger] path[i]).to == token
}

/// The cycles that a search finds through the first `n` edges out of `cur`, having come there
/// along `path`.
pub open spec fn found(
    g: Graph,
    base: Address,
    cur: Address,
    max_hops: int,
    path: Seq<Edge>,
    n: int,
) -> Seq<Seq<Edge>>
    decreases max_hops - path.len(), n,
{
    if n <= 0 {
        Seq::empty()
    } else {
        let e = g.edges(cur)[n - 1];
        let before = found(g, base, cur, max_hops, path, n - 1);
        if uses_pool(path, e.pool) {
            before
        } else if e.to == base {
            if path.len() + 1 >= 2 && path.len() + 1 <= max_hops {
                before.push(path.push(e))
            } else {
                before
            }
        } else if path.len() + 2 > max_hops || passes(path, e.to) {
            before
        } else {
            before + found(
                g,
                base,
                e.to,
                max_hops,
                path.push(e),
                g.edges(e.to).len() as int,
            )
        }
    }
}

/// The cycles from `base` that a search finds.
pub open spec fn found_cycles(g: Graph, base: Address, max_hops: int) -> Seq<Seq<Edge>> {
    found(g, base, base, max_hops, Seq::empty(), g.edges(base).len() as int)
}

/// The edges of each cycle.
pub open spec fn edge_seqs(cycles: Seq<Vec<Edge>>) -> Seq<Seq<Edge>> {
    cycles.map_values(|c: Vec<Edge>| c@)
}

/// A copy of a path.
fn copy_path(path: &Vec<Edge>) -> (r: Vec<Edge>)
    ensures
        r@ == path@,
{
    let mut out: Vec<Edge> = Vec::new();
    let mut i: usize = 0;
    while i < path.len()
        invariant
            i <= path.len(),
            out@ == path@.take(i as int),
        decreases path.len() - i,
    {
        proof {
            assert(path@.take(i + 1) =~= path@.take(i as int).push(path@[i as int]));
        }
        out.push(path[i].clone());
        i = i + 1;
    }
    assert(path@.take(i as int) =~= path@);
    out
}

/// Whether a pool is on the path.
fn on_path(path: &Vec<Edge>, pool: Address) -> (r: bool)
    ensures
        r == uses_pool(path@, pool),
{
    let mut i: usize = 0;
    while i < path.len()
        invariant
            i <= path.len(),
            forall|j: int| 0 <= j < i ==> (#[trigger] path@[j]).pool != pool,
        decreases path.len() - i,
    {
        if path[i].pool == pool {
            assert(path@[i as int].pool == pool);
            return true;
        }
        i = i + 1;
    }
    false
}

/// Whether the path passes through a token.
fn passes_through(path: &Vec<Edge>, token: Address) -> (r: bool)
    ensures
        r == passes(path@, token),
{
    let mut i: usize = 0;
    while i < path.len()
        invariant
            i <= path.len(),
            forall|j: int| 0 <= j < i ==> (#[trigger] path@[j]).to != token,
        decreases path.len() - i,
    {
        if path[i].to == token {
            assert(path@[i as int].to == token);
            return true;
        }
        i = i + 1;
    }
    false
}

impl Graph {
    /// Enumerate closed cycles `base → … → base` with 2..=`max_hops` edges, distinct
    /// intermediate tokens, and no pool reused within a cycle.
    pub fn cycles(&self, base: Address, max_hops: usize) -> (r: Vec<Vec<Edge>>)
        ensures
            edge_seqs(r@) == found_cycles(*self, base, max_hops as int),
    {
        let mut out: Vec<Vec<Edge>> = Vec::new();
        let mut path: Vec<Edge> = Vec::new();
        self.dfs(base, base, max_hops, &mut path, &mut out);
        assert(edge_seqs(out@) =~= found_cycles(*self, base, max_hops as int));
        out
    }

    /// Append the cycles that go on from `cur`, having come there along `path`.
    fn dfs(
        &self,
        base: Address,
        cur: Address,
        max_hops: usize,
        path: &mut Vec<Edge>,
        out: &mut Vec<Vec<Edge>>,
    )
        requires
            old(path)@.len() == 0 || old(path)@.len() < max_hops,
        ensures
            final(path)@ == old(path)@,
            edge_seqs(final(out)@) == edge_seqs(old(out)@) + found(
                *self,
                base,
                cur,
                max_hops as int,
                old(path)@,
                self.edges(cur).len() as int,
            ),
        decreases max_hops - old(path)@.len(),
    {
        let ghost start = edge_seqs(out@);
        let ghost way = path@;
        let len: usize = path.len();
        let edges = self.neighbors(cur);
        let mut i: usize = 0;
        assert(start + found(*self, base, cur, max_hops as int, way, 0) =~= start);
        while i < edges.len()
            invariant
                i <= edges@.len(),
                edges@ == self.edges(cur),
                len == way.len(),
                len == 0 || len < max_hops,
                path@ == way,
                way == old(path)@,
                edge_seqs(out@) == start + found(
                    *self,
                    base,
                    cur,
                    max_hops as int,
                    way,
                    i as int,
                ),
            decreases edges@.len() - i,
        {
            let e = &edges[i];
            let ghost before = edge_seqs(out@);
            let ghost known = out@;
            if !on_path(path, e.pool) {
                if e.to == base {
                    if len >= 1 {
                        let mut c = copy_path(path);
                        c.push(e.clone());
                        out.push(c);
                        assert(edge_seqs(out@) =~= edge_seqs(known).push(way.push(*e)));
                    }
                } else if max_hops >= 2 && len <= max_hops - 2 && !passes_through(path, e.to) {
                    path.push(e.clone());
                    self.dfs(base, e.to, max_hops, path, out);
                    path.pop();
                    assert(path@ =~= way);
                }
            }
            proof {
                assert(edge_seqs(out@) =~= start + found(
                    *self,
                    base,
                    cur,
                    max_hops as int,
                    way,
                    i + 1,
                ));
            }
            i = i + 1;
        }
    }
}

/// A walk along edges of the graph: each starts where the one before ends, no pool is used
/// twice, and no token is come to twice.
pub open spec fn is_walk(g: Graph, from: Address, walk: Seq<Edge>) -> bool {
    &&& forall|i: int|
        0 <= i < walk.len() ==> g.edges((#[trigger] walk[i]).from).contains(walk[i])
    &&& walk.len() > 0 ==> walk[0].from == from
    &&& forall|i: int, j: int|
        0 <= i < walk.len() && j == i + 1 && j < walk.len() ==> (#[trigger] walk[i]).to == (
        #[trigger] walk[j]).from
    &&& forall|i: int, j: int|
        0 <= i < j < walk.len() ==> (#[trigger] walk[i]).pool != (#[trigger] walk[j]).pool
            && walk[i].to != walk[j].to
}

/// A closed walk that comes back to `base` at its end and not before.
pub open spec fn is_cycle(g: Graph, base: Address, max_hops: int, c: Seq<Edge>) -> bool {
    &&& 2 <= c.len() <= max_hops
    &&& is_walk(g, base, c)
    &&& c.last().to == base
}

/// Each edge out of a token starts at it.
pub open spec fn edges_start_right(g: Graph) -> bool {
    forall|t: Address, i: int|
        0 <= i < g.edges(t).len() ==> (#[trigger] g.edges(t)[i]).from == t
}

/// Where a walk ends.
pub open spec fn walk_end(base: Address, walk: Seq<Edge>) -> Address {
    if walk.len() == 0 {
        base
    } else {
        walk.last().to
    }
}

/// A walk that has not come back to `base`.
spec fn is_open(g: Graph, base: Address, path: Seq<Edge>) -> bool {
    is_walk(g, base, path) && !passes(path, base)
}

/// A walk goes on along an edge with a fresh pool and a fresh end.
proof fn lemma_extend(g: Graph, base: Address, path: Seq<Edge>, k: int)
    requires
        edges_start_right(g),
        is_open(g, base, path),
        0 <= k < g.edges(walk_end(base, path)).len(),
        !uses_pool(path, g.edges(walk_end(base, path))[k].pool),
        !passes(path, g.edges(walk_end(base, path))[k].to),
    ensures
        is_walk(g, base, path.push(g.edges(walk_end(base, path))[k])),
{
    let e = g.edges(walk_end(base, path))[k];
    let next = path.push(e);
    assert(e.from == walk_end(base, path));
    assert forall|i: int| 0 <= i < next.len() implies g.edges((#[trigger] next[i]).from).contains(
        next[i],
    ) by {
        if i < path.len() {
            assert(g.edges(path[i].from).contains(path[i]));
        }
    }
    assert forall|i: int, j: int| 0 <= i < j < next.len() implies (#[trigger] next[i]).pool != (
    #[trigger] next[j]).pool && next[i].to != next[j].to by {
        if j == path.len() {
            assert(path[i].pool != e.pool);
            assert(path[i].to != e.to);
        }
    }
    assert forall|i: int, j: int| 0 <= i < next.len() && j == i + 1 && j < next.len() implies (
    #[trigger] next[i]).to == (#[trigger] next[j]).from by {
        if j < path.len() {
            assert(path[i].to == path[j].from);
        }
    }
}

/// What a search finds are cycles.
proof fn lemma_found_are_cycles(
    g: Graph,
    base: Address,
    max_hops: int,
    path: Seq<Edge>,
    n: int,
    c: Seq<Edge>,
)
    requires
        edges_start_right(g),
        is_open(g, base, path),
        0 <= n <= g.edges(walk_end(base, path)).len(),
        found(g, base, walk_end(base, path), max_hops, path, n).contains(c),
    ensures
        is_cycle(g, base, max_hops, c),
    decreases max_hops - path.len(), n,
{
    let cur = walk_end(base, path);
    if n > 0 {
        let e = g.edges(cur)[n - 1];
        let before = found(g, base, cur, max_hops, path, n - 1);
        let all = found(g, base, cur, max_hops, path, n);
        let at = choose|at: int| 0 <= at < all.len() && all[at] == c;
        if before.contains(c) {
            lemma_found_are_cycles(g, base, max_hops, path, n - 1, c);
        } else if !uses_pool(path, e.pool) {
            if e.to == base {
                assert(all[at] == c);
                if path.len() + 1 >= 2 && path.len() + 1 <= max_hops {
                    if at < before.len() {
                        assert(before[at] == c);
                    }
                    lemma_extend(g, base, path, n - 1);
                }
            } else if !(path.len() + 2 > max_hops || passes(path, e.to)) {
                let next = path.push(e);
                let more = found(g, base, e.to, max_hops, next, g.edges(e.to).len() as int);
                lemma_extend(g, base, path, n - 1);
                lemma_still_open(path, e, base);
                assert(more.contains(c)) by {
                    if at < before.len() {
                        assert(before[at] == c);
                    } else {
                        assert(more[at - before.len()] == c);
                    }
                }
                lemma_found_are_cycles(
                    g,
                    base,
                    max_hops,
                    next,
                    g.edges(e.to).len() as int,
                    c,
                );
            }
        }
    } else {
        assert(found(g, base, cur, max_hops, path, n) =~= Seq::<Seq<Edge>>::empty());
    }
}

/// A cycle is found by a search along its own beginning.
proof fn lemma_cycles_are_found(
    g: Graph,
    base: Address,
    max_hops: int,
    path: Seq<Edge>,
    n: int,
    k: int,
    c: Seq<Edge>,
)
    requires
        is_cycle(g, base, max_hops, c),
        path.len() < c.len(),
        c.take(path.len() as int) == path,
        0 <= k < n <= g.edges(walk_end(base, path)).len(),
        c[path.len() as int] == g.edges(walk_end(base, path))[k],
    ensures
        found(g, base, walk_end(base, path), max_hops, path, n).contains(c),
    decreases max_hops - path.len(), n,
{
    let cur = walk_end(base, path);
    let e = g.edges(cur)[n - 1];
    let before = found(g, base, cur, max_hops, path, n - 1);
    let all = found(g, base, cur, max_hops, path, n);
    let len = path.len() as int;
    if k < n - 1 {
        lemma_cycles_are_found(g, base, max_hops, path, n - 1, k, c);
        let at = choose|at: int| 0 <= at < before.len() && before[at] == c;
        assert(all[at] == c);
    } else {
        assert forall|i: int| 0 <= i < len implies (#[trigger] path[i]) == c[i] by {
            assert(c.take(len)[i] == c[i]);
        }
        assert(!uses_pool(path, e.pool)) by {
            if uses_pool(path, e.pool) {
                let i = choose|i: int| 0 <= i < path.len() && (#[trigger] path[i]).pool == e.pool;
                assert(c[i].pool != c[len].pool);
            }
        }
        if e.to == base {
            assert(len == c.len() - 1) by {
                if len < c.len() - 1 {
                    assert(c[len].to != c[c.len() - 1].to);
                }
            }
            assert(path.push(e) =~= c);
            assert(all[before.len() as int] == c);
        } else {
            assert(len < c.len() - 1);
            assert(!passes(path, e.to)) by {
                if passes(path, e.to) {
                    let i = choose|i: int| 0 <= i < path.len() && (#[trigger] path[i]).to == e.to;
                    assert(c[i].to != c[len].to);
                }
            }
            let next = path.push(e);
            assert(c.take(len + 1) =~= next);
            assert(c[len].to == c[len + 1].from);
            assert(g.edges(c[len + 1].from).contains(c[len + 1]));
            let j = choose|j: int| 0 <= j < g.edges(e.to).len() && g.edges(e.to)[j] == c[len + 1];
            let more = found(g, base, e.to, max_hops, next, g.edges(e.to).len() as int);
            lemma_cycles_are_found(
                g,
                base,
                max_hops,
                next,
                g.edges(e.to).len() as int,
                j,
                c,
            );
            let at = choose|at: int| 0 <= at < more.len() && more[at] == c;
            assert(all[before.len() + at] == c);
        }
    }
}

/// The search finds exactly the cycles: closed walks of 2 to `max_hops` edges with distinct
/// intermediate tokens and distinct pools.
pub proof fn exactly_the_cycles_are_found(
    g: Graph,
    base: Address,
    max_hops: int,
    c: Seq<Edge>,
)
    requires
        edges_start_right(g),
    ensures
        found_cycles(g, base, max_hops).contains(c) <==> is_cycle(g, base, max_hops, c),
{
    let start = Seq::<Edge>::empty();
    let n = g.edges(base).len() as int;
    if found_cycles(g, base, max_hops).contains(c) {
        lemma_found_are_cycles(g, base, max_hops, start, n, c);
    }
    if is_cycle(g, base, max_hops, c) {
        assert(c.take(0) =~= start);
        assert(g.edges(c[0].from).contains(c[0]));
        let k = choose|k: int| 0 <= k < n && g.edges(base)[k] == c[0];
        lemma_cycles_are_found(g, base, max_hops, start, n, k, c);
    }
}

/// No two edges out of a token go through one pool, except from the token to itself.
pub open spec fn pools_apart(g: Graph) -> bool {
    forall|t: Address, i: int, j: int|
        0 <= i < j < g.edges(t).len() && (#[trigger] g.edges(t)[i]).pool == (
        #[trigger] g.edges(t)[j]).pool ==> g.edges(t)[i].to == t
}

/// What a search finds goes on from its path along one of the edges searched, away from where the
/// path ends.
proof fn lemma_found_goes_on(
    g: Graph,
    base: Address,
    max_hops: int,
    path: Seq<Edge>,
    n: int,
    c: Seq<Edge>,
)
    requires
        edges_start_right(g),
        is_open(g, base, path),
        0 <= n <= g.edges(walk_end(base, path)).len(),
        found(g, base, walk_end(base, path), max_hops, path, n).contains(c),
    ensures
        c.len() > path.len(),
        c.take(path.len() as int) == path,
        exists|k: int|
            0 <= k < n && #[trigger] g.edges(walk_end(base, path))[k] == c[path.len() as int]
                && c[path.len() as int].to != walk_end(base, path),
    decreases max_hops - path.len(), n,
{
    let cur = walk_end(base, path);
    if n <= 0 {
        assert(found(g, base, cur, max_hops, path, n) =~= Seq::<Seq<Edge>>::empty());
    } else {
        let e = g.edges(cur)[n - 1];
        let before = found(g, base, cur, max_hops, path, n - 1);
        let all = found(g, base, cur, max_hops, path, n);
        let at = choose|at: int| 0 <= at < all.len() && all[at] == c;
        if at < before.len() {
            assert(before[at] == c);
            lemma_found_goes_on(g, base, max_hops, path, n - 1, c);
        } else {
            let next = path.push(e);
            if path.len() > 0 {
                assert(path[path.len() - 1].to == cur);
            }
            assert(e.to != cur);
            if e.to == base {
                assert(c == next);
            } else {
                let more = found(g, base, e.to, max_hops, next, g.edges(e.to).len() as int);
                lemma_extend(g, base, path, n - 1);
                lemma_still_open(path, e, base);
                assert(more[at - before.len()] == c);
                lemma_found_goes_on(
                    g,
                    base,
                    max_hops,
                    next,
                    g.edges(e.to).len() as int,
                    c,
                );
                assert(c.take(next.len() as int)[path.len() as int] == e);
                assert(c.take(path.len() as int) =~= next.take(path.len() as int)) by {
                    assert(c.take(next.len() as int) == next);
                    assert(c.take(path.len() as int) =~= c.take(next.len() as int).take(
                        path.len() as int,
                    ));
                }
            }
            assert(next.take(path.len() as int) =~= path);
            assert(g.edges(cur)[n - 1] == c[path.len() as int]);
        }
    }
}

/// A walk that goes on elsewhere has still not come back.
proof fn lemma_still_open(path: Seq<Edge>, e: Edge, base: Address)
    requires
        !passes(path, base),
        e.to != base,
    ensures
        !passes(path.push(e), base),
{
    let next = path.push(e);
    if passes(next, base) {
        let i = choose|i: int| 0 <= i < next.len() && (#[trigger] next[i]).to == base;
        if i < path.len() {
            assert(path[i].to == base);
        }
    }
}

/// A search finds nothing twice.
proof fn lemma_found_once(g: Graph, base: Address, max_hops: int, path: Seq<Edge>, n: int)
    requires
        edges_start_right(g),
        pools_apart(g),
        is_open(g, base, path),
        0 <= n <= g.edges(walk_end(base, path)).len(),
    ensures
        found(g, base, walk_end(base, path), max_hops, path, n).no_duplicates(),
    decreases max_hops - path.len(), n,
{
    let cur = walk_end(base, path);
    if n > 0 {
        let e = g.edges(cur)[n - 1];
        let before = found(g, base, cur, max_hops, path, n - 1);
        let all = found(g, base, cur, max_hops, path, n);
        let next = path.push(e);
        let len = path.len() as int;
        lemma_found_once(g, base, max_hops, path, n - 1);
        if !uses_pool(path, e.pool) && e.to != base && !(path.len() + 2 > max_hops || passes(
            path,
            e.to,
        )) {
            lemma_extend(g, base, path, n - 1);
            lemma_still_open(path, e, base);
            lemma_found_once(g, base, max_hops, next, g.edges(e.to).len() as int);
        }
        assert forall|i: int, j: int| 0 <= i < j < all.len() implies #[trigger] all[i]
            != #[trigger] all[j] by {
            if j < before.len() {
                assert(before[i] != before[j]);
            } else if i >= before.len() {
                let more = found(g, base, e.to, max_hops, next, g.edges(e.to).len() as int);
                assert(more[i - before.len()] != more[j - before.len()]);
            } else {
                assert(before.contains(before[i]));
                lemma_found_goes_on(g, base, max_hops, path, n - 1, before[i]);
                let k = choose|k: int|
                    0 <= k < n - 1 && #[trigger] g.edges(cur)[k] == before[i][len]
                        && before[i][len].to != cur;
                assert(g.edges(cur)[k].pool != g.edges(cur)[n - 1].pool);
                assert(all[j][len] == e) by {
                    if e.to == base {
                        assert(all[j] == next);
                    } else {
                        let more = found(
                            g,
                            base,
                            e.to,
                            max_hops,
                            next,
                            g.edges(e.to).len() as int,
                        );
                        assert(more[j - before.len()] == all[j]);
                        assert(more.contains(all[j]));
                        lemma_found_goes_on(
                            g,
                            base,
                            max_hops,
                            next,
                            g.edges(e.to).len() as int,
                            all[j],
                        );
                        assert(all[j].take(next.len() as int)[len] == e);
                    }
                }
            }
        }
    }
}

/// Where no two edges out of a token share a pool, the search lists each cycle once.
pub proof fn each_cycle_is_found_once(g: Graph, base: Address, max_hops: int)
    requires
        edges_start_right(g),
        pools_apart(g),
    ensures
        found_cycles(g, base, max_hops).no_duplicates(),
{
    lemma_found_once(g, base, max_hops, Seq::empty(), g.edges(base).len() as int);
}

/// The pools have distinct addresses.
pub open spec fn distinct_pools(pools: Seq<PoolInfo>) -> bool {
    forall|i: int, j: int|
        0 <= i < j < pools.len() ==> (#[trigger] pools[i]).address != (#[trigger] pools[j]).address
}

/// An edge out of a token goes through one of the pools.
proof fn lemma_edge_of_pool(pools: Seq<PoolInfo>, token: Address, i: int)
    requires
        0 <= i < edges_from(pools, token).len(),
    ensures
        exists|k: int|
            0 <= k < pools.len() && (#[trigger] pools[k]).address == edges_from(
                pools,
                token,
            )[i].pool,
    decreases pools.len(),
{
    if pools.len() > 0 {
        let front = pools.drop_last();
        let before = edges_from(front, token);
        if i < before.len() {
            lemma_edge_of_pool(front, token, i);
            let k = choose|k: int|
                0 <= k < front.len() && (#[trigger] front[k]).address == before[i].pool;
            assert(pools[k].address == before[i].pool);
        } else {
            assert(pools[pools.len() - 1].address == edges_from(pools, token)[i].pool);
        }
    }
}

/// In a graph built from a book whose pools have distinct addresses, no two edges out of a token
/// share a pool, except from the token to itself.
pub proof fn distinct_pools_are_apart(pools: Seq<PoolInfo>, token: Address, i: int, j: int)
    requires
        distinct_pools(pools),
        0 <= i < j < edges_from(pools, token).len(),
        edges_from(pools, token)[i].pool == edges_from(pools, token)[j].pool,
    ensures
        edges_from(pools, token)[i].to == token,
    decreases pools.len(),
{
    if pools.len() > 0 {
        let front = pools.drop_last();
        let before = edges_from(front, token);
        if j < before.len() {
            assert forall|a: int, b: int| 0 <= a < b < front.len() implies (
            #[trigger] front[a]).address != (#[trigger] front[b]).address by {
                assert(pools[a].address != pools[b].address);
            }
            distinct_pools_are_apart(front, token, i, j);
        } else if i < before.len() {
            lemma_edge_of_pool(front, token, i);
            let k = choose|k: int|
                0 <= k < front.len() && (#[trigger] front[k]).address == before[i].pool;
            assert(pools[k].address != pools[pools.len() - 1].address);
        }
    }
}

/// The cycles of a book whose pools have distinct addresses are listed once each.
pub proof fn book_cycles_are_found_once(
    pools: Seq<PoolInfo>,
    g: Graph,
    base: Address,
    max_hops: int,
)
    requires
        distinct_pools(pools),
        forall|t: Address| #[trigger] g.edges(t) == edges_from(pools, t),
    ensures
        found_cycles(g, base, max_hops).no_duplicates(),
{
    assert forall|t: Address, i: int| 0 <= i < g.edges(t).len() implies (
    #[trigger] g.edges(t)[i]).from == t by {
        book_edges_start_right(pools, t, i);
    }
    assert forall|t: Address, i: int, j: int|
        0 <= i < j < g.edges(t).len() && (#[trigger] g.edges(t)[i]).pool == (
        #[trigger] g.edges(t)[j]).pool implies g.edges(t)[i].to == t by {
        distinct_pools_are_apart(pools, t, i, j);
    }
    each_cycle_is_found_once(g, base, max_hops);
}

/// In a graph built from a book, each edge starts at the token that it is listed under.
pub proof fn book_edges_start_right(pools: Seq<PoolInfo>, token: Address, i: int)
    requires
        0 <= i < edges_from(pools, token).len(),
    ensures
        edges_from(pools, token)[i].from == token,
    decreases pools.len(),
{
    if pools.len() > 0 {
        let before = edges_from(pools.drop_last(), token);
        if i < before.len() {
            book_edges_start_right(pools.drop_last(), token, i);
        }
    }
}

} // verus!
