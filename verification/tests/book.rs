use arb::book::{ExchangeInfo, PoolBook, PoolInfo, Sources, TokenInfo, TokenMap};
use arb::types::{Address, B256};

fn addr(n: u8) -> Address {
    Address::repeat_byte(n)
}

fn sample() -> PoolBook {
    let mut tokens = TokenMap::new();
    tokens.insert("WETH".into(), TokenInfo { address: addr(1), decimals: 18 });
    tokens.insert("USDC".into(), TokenInfo { address: addr(2), decimals: 6 });
    PoolBook {
        chain: "base".into(),
        tokens,
        pools: vec![PoolInfo {
            address: addr(10),
            exchange: "aerodrome".into(),
            kind: "uniswap_v2".into(),
            token0: addr(1),
            token1: addr(2),
            fee_bps: Some(30),
            discovered_block: Some(123),
        }],
    }
}

#[test]
fn upsert_merges_by_address() {
    let mut book = sample();
    assert!(book.upsert_pool(PoolInfo {
        address: addr(11),
        exchange: "uniswap-v3".into(),
        kind: "uniswap_v3".into(),
        token0: addr(1),
        token1: addr(2),
        fee_bps: Some(5),
        discovered_block: None,
    }));
    assert_eq!(book.pools.len(), 2);
    assert!(!book.upsert_pool(PoolInfo {
        address: addr(10),
        exchange: "aerodrome".into(),
        kind: "uniswap_v2".into(),
        token0: addr(1),
        token1: addr(2),
        fee_bps: Some(5),
        discovered_block: Some(456),
    }));
    assert_eq!(book.pools.len(), 2);
}

#[test]
fn merge_dedups_and_official_wins() {
    let mut official = sample(); // tokens WETH,USDC; pool addr(10)
    let mut secondary = PoolBook::empty("base");
    // A NEW token + a NEW pool, plus a colliding token (different decimals) and
    // a colliding pool address (different exchange) that must NOT overwrite.
    secondary.tokens.insert("DAI".into(), TokenInfo { address: addr(3), decimals: 18 });
    secondary.tokens.insert("USDC".into(), TokenInfo { address: addr(2), decimals: 99 });
    secondary.pools.push(PoolInfo {
        address: addr(20),
        exchange: "pancakeswap-v3".into(),
        kind: "uniswap_v3".into(),
        token0: addr(1),
        token1: addr(3),
        fee_bps: Some(25),
        discovered_block: None,
    });
    secondary.pools.push(PoolInfo {
        address: addr(10), // collides with official's pool
        exchange: "SHOULD_NOT_WIN".into(),
        kind: "uniswap_v2".into(),
        token0: addr(1),
        token1: addr(2),
        fee_bps: Some(1),
        discovered_block: None,
    });

    let (toks, pools) = official.merge(&secondary);
    assert_eq!((toks, pools), (1, 1), "only DAI + pool addr(20) are new");
    assert_eq!(official.pools.len(), 2);
    // Official's USDC (6 decimals) and pool addr(10) (aerodrome) are preserved.
    assert_eq!(official.tokens.get("USDC").unwrap().decimals, 6);
    assert_eq!(official.pools.iter().find(|p| p.address == addr(10)).unwrap().exchange, "aerodrome");
    assert!(official.tokens.contains_key("DAI"));
    assert!(official.has_pool(addr(20)));
}

#[test]
fn sources_codehash_classification() {
    let mut s = Sources {
        chain: "base".into(),
        exchanges: vec![ExchangeInfo {
            name: "aerodrome".into(),
            kind: "solidly".into(),
            factory: Some(addr(9)),
            router: None,
            pool_codehashes: vec![],
        }],
    };
    let ch = B256::repeat_byte(7);
    s.add_codehash("aerodrome", ch);
    s.add_codehash("aerodrome", ch); // idempotent
    assert_eq!(s.exchanges[0].pool_codehashes.len(), 1);
    assert_eq!(s.exchange_for_codehash(ch).unwrap().name, "aerodrome");
    assert!(s.exchange_for_codehash(B256::repeat_byte(8)).is_none());
}

#[test]
fn recording_a_codehash_again_changes_nothing() {
    let exchange = |name: &str| ExchangeInfo {
        name: name.into(),
        kind: "uniswap_v2".into(),
        factory: None,
        router: None,
        pool_codehashes: vec![],
    };
    let mut sources =
        Sources { chain: "base".into(), exchanges: vec![exchange("aerodrome"), exchange("sushi")] };
    let hash = B256::repeat_byte(7);
    assert!(sources.exchange_for_codehash(hash).is_none());
    assert!(sources.add_codehash("sushi", hash));
    assert_eq!(sources.exchange_for_codehash(hash).unwrap().name, "sushi");
    assert!(!sources.add_codehash("sushi", hash));
    assert_eq!(sources.exchanges[1].pool_codehashes, vec![hash]);
    assert!(!sources.add_codehash("nobody", hash));
    assert!(sources.exchanges[0].pool_codehashes.is_empty());
}

#[test]
fn a_found_book_is_kept() {
    assert_eq!(PoolBook::load_or_new("base", Some(sample())).pools.len(), 1);
    let fresh = PoolBook::load_or_new("base", None);
    assert_eq!(fresh.chain, "base");
    assert!(fresh.pools.is_empty());
}
