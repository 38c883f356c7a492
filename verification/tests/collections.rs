//! Maps, texts and the registry.
use arb::live::event::PoolState;
use arb::live::registry::{Entry, PoolRegistry};
use arb::live::source::{MockChain, SourceError};
use arb::rank_map::{AddressMap, RankMap};
use arb::symbols::SymbolMap;
use arb::text::{
    decimal, decimal_signed, decimal_u256, is_before, same_text, split_on, strip_dashes, to_lower,
    trim,
};
use arb::types::{Address, U256};

fn at(b: u8) -> Address {
    Address::repeat_byte(b)
}

#[test]
fn ranked_maps_iterate_in_key_order() {
    let mut m: RankMap<i32, char> = RankMap::new();
    assert!(m.is_empty());
    for (k, v) in [(5, 'e'), (-3, 'a'), (0, 'c'), (5, 'E')] {
        m.insert(k, v);
    }
    assert_eq!(m.len(), 3);
    let seen: Vec<(i32, char)> = (0..m.len()).map(|i| (m.key_at(i), *m.value_at(i))).collect();
    assert_eq!(seen, vec![(-3, 'a'), (0, 'c'), (5, 'E')]);
    assert_eq!(m.get(0), Some(&'c'));
    assert_eq!(m.get(1), None);
    assert_eq!(m.remove(0), Some('c'));
    assert_eq!(m.remove(0), None);
    assert!(!m.contains_key(0));
    let copy = m.duplicate();
    m.insert(9, 'z');
    assert_eq!((copy.len(), m.len()), (2, 3));
}

#[test]
fn addresses_order_by_their_bytes() {
    let mut m: AddressMap<u8> = RankMap::new();
    for b in [0xF0u8, 0x01, 0x80] {
        m.insert(at(b), b);
    }
    assert_eq!(m.key_at(0), at(0x01));
    assert_eq!(m.key_at(2), at(0xF0));
    assert!(at(0x7F) < at(0x80));
}

#[test]
fn symbols_iterate_in_text_order() {
    let mut m: SymbolMap<u8> = SymbolMap::new();
    for (s, v) in [("WETH", 1u8), ("USDC", 2), ("USD", 3), ("aero", 4), ("USDC", 5)] {
        m.insert(s.to_string(), v);
    }
    let seen: Vec<&str> = (0..m.len()).map(|i| m.symbol_at(i).as_str()).collect();
    assert_eq!(seen, vec!["USD", "USDC", "WETH", "aero"]);
    assert_eq!(m.get("USDC"), Some(5));
    assert_eq!(m.get("DAI"), None);
    assert!(m.contains_key("aero"));
}

#[test]
fn texts() {
    assert_eq!(trim("  a b\t\n"), "a b");
    assert_eq!(split_on("a,,b", ','), vec!["a", "", "b"]);
    assert_eq!(to_lower("UniSwap-V3"), "uniswap-v3");
    assert_eq!(strip_dashes("uni-swap-v3"), "uniswapv3");
    assert!(is_before("USD", "USDC"));
    assert!(!is_before("b", "a"));
    assert!(!is_before("a", "a"));
    assert!(same_text("x", "x"));
    assert!(!same_text("x", "xx"));
    assert_eq!(decimal(0), "0");
    assert_eq!(decimal(u64::MAX), "18446744073709551615");
    assert_eq!(decimal_signed(-887272), "-887272");
    assert_eq!(decimal_signed(i32::MIN), "-2147483648");
    assert_eq!(
        decimal_u256(U256::max_value()),
        "115792089237316195423570985008687907853269984665640564039457584007913129639935"
    );
}

fn entry(r: u64, block: u64) -> Entry {
    Entry {
        state: PoolState::UniV2 { reserve0: U256::from_u64(r), reserve1: U256::from_u64(r) },
        block,
        log_index: 0,
    }
}

#[test]
fn a_registry_read_gives_back_the_write() {
    let mut reg = PoolRegistry::new();
    assert!(reg.is_empty());
    assert_eq!(reg.load(at(1)), None);
    reg.store(at(1), entry(10, 1));
    reg.store(at(2), entry(20, 1));
    reg.store(at(1), entry(11, 2));
    assert_eq!(reg.load(at(1)), Some(entry(11, 2)));
    assert_eq!(reg.load(at(2)), Some(entry(20, 1)));
    assert_eq!(reg.len(), 2);
    assert!(reg.contains(at(2)) && !reg.contains(at(3)));
    assert!(!reg.is_empty());
}

#[test]
fn a_mock_chain_refuses_unknown_snapshots() {
    let state = entry(5, 0).state;
    let chain = MockChain::new(Vec::new(), 9).with_snapshot(at(1), 7, state);
    assert_eq!(chain.snapshot_pool(at(1), 7).unwrap(), state);
    assert_eq!(chain.head, 9);
    match chain.snapshot_pool(at(1), 8) {
        Err(e @ SourceError::NoSnapshot(..)) => assert_eq!(
            e.message(),
            "pool 0x0101010101010101010101010101010101010101 has no snapshot at block 8"
        ),
        other => panic!("{other:?}"),
    }
    assert_eq!(SourceError::Rpc("x".to_string()).message(), "rpc error: x");
}
