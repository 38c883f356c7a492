use arb::book::{PoolBook, PoolInfo, TokenInfo, TokenMap};
use arb::graph::Graph;
use arb::types::Address;


fn addr(n: u8) -> Address {
    Address::repeat_byte(n)
}

fn book(pools: Vec<PoolInfo>) -> PoolBook {
    let mut tokens = TokenMap::new();
    tokens.insert("USDC".into(), TokenInfo { address: addr(1), decimals: 6 });
    tokens.insert("WETH".into(), TokenInfo { address: addr(2), decimals: 18 });
    tokens.insert("DAI".into(), TokenInfo { address: addr(3), decimals: 18 });
    PoolBook { chain: "base".into(), tokens, pools }
}

fn pool(a: u8, t0: u8, t1: u8) -> PoolInfo {
    PoolInfo {
        address: addr(a),
        exchange: "x".into(),
        kind: "uniswap_v2".into(),
        token0: addr(t0),
        token1: addr(t1),
        fee_bps: Some(30),
        discovered_block: None,
    }
}

#[test]
fn finds_two_hop_cycle_between_parallel_pools() {
    // Two USDC/WETH pools => USDC -> WETH (A) -> USDC (B), and the reverse.
    let g = Graph::from_book(&book(vec![pool(10, 1, 2), pool(11, 1, 2)]));
    let cycles = g.cycles(addr(1), 2);
    assert_eq!(cycles.len(), 2, "expected 2 directed 2-hop cycles");
    for c in &cycles {
        assert_eq!(c.len(), 2);
        assert_eq!(c[0].from, addr(1));
        assert_eq!(c.last().unwrap().to, addr(1));
        assert_ne!(c[0].pool, c[1].pool); // distinct pools
    }
}

#[test]
fn finds_triangular_cycle() {
    // USDC-WETH, WETH-DAI, DAI-USDC => a 3-hop triangle (both directions).
    let g = Graph::from_book(&book(vec![pool(10, 1, 2), pool(11, 2, 3), pool(12, 3, 1)]));
    let tri: Vec<_> = g.cycles(addr(1), 3).into_iter().filter(|c| c.len() == 3).collect();
    assert_eq!(tri.len(), 2);
}

#[test]
fn no_cycle_without_return_path() {
    // Single USDC/WETH pool can't form a cycle (would reuse the pool).
    let g = Graph::from_book(&book(vec![pool(10, 1, 2)]));
    assert!(g.cycles(addr(1), 3).is_empty());
}

#[test]
fn respects_max_hops() {
    let g = Graph::from_book(&book(vec![pool(10, 1, 2), pool(11, 2, 3), pool(12, 3, 1)]));
    // max_hops 2 can't fit the triangle (needs 3 edges).
    assert!(g.cycles(addr(1), 2).is_empty());
}

#[test]
fn each_cycle_is_listed_once() {
    // A pool of one token with itself leads nowhere.
    let pools = vec![pool(10, 1, 2), pool(11, 2, 3), pool(12, 3, 1), pool(13, 1, 2), pool(14, 2, 2)];
    let cycles = Graph::from_book(&book(pools)).cycles(addr(1), 4);
    let keys: Vec<Vec<Address>> =
        cycles.iter().map(|c| c.iter().map(|e| e.pool).collect()).collect();
    for i in 0..keys.len() {
        for j in 0..i {
            assert_ne!(keys[i], keys[j]);
        }
    }
    // Two of two hops, and the triangle over either of the parallel pools, both ways round.
    assert_eq!(cycles.len(), 6);
}
