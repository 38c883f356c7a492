//! Discovery: what is asked of the chain and what is made of the answers.
use alloy_primitives::keccak256;
use arb::book::{ExchangeInfo, PoolBook, PoolInfo, Sources, TokenInfo};
use arb::live::abi::{enc_addr, enc_u24, selector, topic, word_bytes, Log};
use arb::live::base::scan::active::{
    discover_active_pools, exchange_for_factory, fresh_addresses, new_tokens, question,
    swap_topics, Probe, Question,
};
use arb::live::base::scan::forks::{fork_range, fork_topics, ForkScan, ScanReport};
use arb::live::base::scan::logs::{block_chunks, creation_topic, decode_creation};
use arb::live::base::scan::pairs::discover_pairs;
use arb::live::base::scan::reply::{
    address_reply, decimals_reply, symbol_reply, token_reply, word_reply,
};
use arb::rank_map::{AddressMap, RankMap};
use arb::types::{Address, B256, U256};

fn at(b: u8) -> Address {
    Address::repeat_byte(b)
}

fn exchange(name: &str, kind: &str, factory: Option<Address>) -> ExchangeInfo {
    ExchangeInfo {
        name: name.to_string(),
        kind: kind.to_string(),
        factory,
        router: None,
        pool_codehashes: Vec::new(),
    }
}

fn sources() -> Sources {
    Sources {
        chain: "base".to_string(),
        exchanges: vec![
            exchange("uniswap-v3", "uniswap_v3", Some(at(0xF1))),
            exchange("aerodrome", "solidly", Some(at(0xF2))),
            exchange("uniswap-v2", "uniswap_v2", Some(at(0xF3))),
            exchange("balancer-v2", "balancer_v2", Some(at(0xF4))),
            exchange("vaultless", "uniswap_v2", None),
        ],
    }
}

fn probe(pool: u8, factory: Option<u8>, answer: Option<u64>) -> Probe {
    Probe {
        pool: at(pool),
        factory: factory.map(at),
        answer: answer.map(U256::from_u64),
        token0: Some(at(1)),
        token1: Some(at(2)),
    }
}

fn hash_of(code: &[u8]) -> B256 {
    let [l0, l1, l2, l3] = alloy_primitives::U256::from_be_bytes(keccak256(code).0).into_limbs();
    B256 { word: U256::from_limbs(l0, l1, l2, l3) }
}

#[test]
fn replies_of_calls() {
    assert_eq!(address_reply(&enc_addr(at(7))), Some(at(7)));
    assert_eq!(address_reply(&enc_addr(Address::zero())), None);
    assert_eq!(address_reply(&[0u8; 31]), None);
    assert_eq!(word_reply(&word_bytes(U256::from_u64(9))), Some(U256::from_u64(9)));
    assert_eq!(word_reply(&[]), None);
    assert_eq!(decimals_reply(&word_bytes(U256::from_u64(0x112))), Some(0x12));
    assert_eq!(decimals_reply(&[1u8; 5]), None);
}

#[test]
fn symbols_are_strings_or_legacy_words() {
    let token = Address { hi: 0x0a0b0c0d, lo: 5 };
    let mut string = word_bytes(U256::from_u64(32));
    string.extend(word_bytes(U256::from_u64(4)));
    string.extend(b"US C");
    assert_eq!(symbol_reply(token, Some(&string)), "USC");

    let mut legacy = b"MKR".to_vec();
    legacy.resize(32, 0);
    assert_eq!(symbol_reply(token, Some(&legacy)), "MKR");

    // Nothing, an empty word, a length beyond the data: the short address.
    assert_eq!(symbol_reply(token, None), "0x0a0b0c0d");
    assert_eq!(symbol_reply(token, Some(&[0u8; 32])), "0x0a0b0c0d");
    let mut long = word_bytes(U256::from_u64(32));
    long.extend(word_bytes(U256::from_u64(5)));
    long.extend(b"USDC");
    assert_eq!(symbol_reply(token, Some(&long)), "0x0a0b0c0d");
    assert_eq!(symbol_reply(token, Some(&[1u8; 3])), "0x0a0b0c0d");

    let six = word_bytes(U256::from_u64(6));
    assert_eq!(
        token_reply(token, Some(&six), Some(&string)),
        Some((token, "USC".to_string(), 6))
    );
    assert_eq!(token_reply(token, None, Some(&string)), None);
}

#[test]
fn fresh_addresses_are_sorted_and_unknown() {
    let mut known: AddressMap<bool> = RankMap::new();
    known.insert(at(3), true);
    assert_eq!(fresh_addresses(&[at(9), at(3), at(1), at(9)], &known), vec![at(1), at(9)]);
}

#[test]
fn the_last_exchange_of_a_factory_counts() {
    let mut s = sources();
    assert_eq!(exchange_for_factory(&s, at(0xF2)).unwrap().name, "aerodrome");
    assert!(exchange_for_factory(&s, at(0xEE)).is_none());
    s.exchanges.push(exchange("twin", "solidly", Some(at(0xF2))));
    assert_eq!(exchange_for_factory(&s, at(0xF2)).unwrap().name, "twin");
}

#[test]
fn what_a_pool_is_asked() {
    assert_eq!(question("uniswap-v3"), Question::Fee);
    assert_eq!(question("pancakeswap-v3"), Question::Fee);
    assert_eq!(question("aerodrome"), Question::Stable);
    assert_eq!(question("uniswap-v2"), Question::Nothing);
}

#[test]
fn active_pools_are_indexed_or_counted_as_skipped() {
    let mut tokenless = probe(0x18, Some(0xF3), None);
    tokenless.token1 = None;
    let probes = [
        probe(0x10, Some(0xF1), Some(500)),
        probe(0x11, Some(0xF2), Some(1)),
        probe(0x12, Some(0xF2), Some(0)),
        probe(0x13, Some(0xF2), None),
        probe(0x14, Some(0xF3), None),
        probe(0x15, Some(0xF4), None),
        probe(0x16, Some(0xEE), None),
        probe(0x17, None, None),
        tokenless,
        probe(0x19, Some(0xF1), None),
    ];
    let (pools, hist) = discover_active_pools(&sources(), &probes);
    let seen: Vec<(Address, &str, &str, Option<u32>)> = pools
        .iter()
        .map(|p| (p.address, p.exchange.as_str(), p.kind.as_str(), p.fee_bps))
        .collect();
    assert_eq!(
        seen,
        vec![
            (at(0x10), "uniswap-v3", "uniswap_v3", Some(500)),
            (at(0x11), "aerodrome", "solidly", None),
            (at(0x12), "aerodrome", "uniswap_v2", None),
            (at(0x14), "uniswap-v2", "uniswap_v2", Some(30)),
            (at(0x19), "uniswap-v3", "uniswap_v3", None),
        ]
    );
    assert_eq!(hist.get("uniswap-v3"), Some(2));
    assert_eq!(hist.get("aerodrome"), Some(2));
    assert_eq!(hist.get("uniswap-v2"), Some(1));
    assert_eq!(hist.get("skip:aero_no_stable()"), Some(1));
    assert_eq!(hist.get("skip:balancer-v2"), Some(1));
    assert_eq!(hist.get("skip:unknown_factory"), Some(1));
    assert_eq!(hist.get("skip:no_factory()"), Some(1));
    assert_eq!(hist.get("skip:no_tokens"), Some(1));
    // No pool is dropped.
    let counted: usize = (0..hist.len()).map(|i| hist.value_at(i)).sum();
    assert_eq!(counted, probes.len());

    let mut known: AddressMap<bool> = RankMap::new();
    known.insert(at(1), true);
    assert_eq!(new_tokens(&pools, &known), vec![at(2)]);
}

#[test]
fn swap_topics_of_the_three_families() {
    let t = swap_topics();
    assert_eq!(t.len(), 3);
    assert_eq!(t[0], topic("Swap(address,uint256,uint256,uint256,uint256,address)"));
    assert_eq!(t[1], topic("Swap(address,address,int256,int256,uint160,uint128,int24)"));
    assert_eq!(t[2], topic("Swap(address,address,uint256,uint256,uint256,uint256)"));
    let f = fork_topics();
    assert_eq!(f.len(), 2);
    assert_eq!(f[0], topic("Sync(uint112,uint112)"));
    assert_eq!(f[1], t[1]);
}

#[test]
fn chunks_follow_each_other() {
    assert_eq!(block_chunks(5, 9, 2), vec![(5, 6), (7, 8), (9, 9)]);
    assert_eq!(block_chunks(5, 9, 5), vec![(5, 9)]);
    assert_eq!(block_chunks(5, 9, 100), vec![(5, 9)]);
    assert_eq!(block_chunks(5, 6, 0), vec![(5, 5), (6, 6)]);
    assert_eq!(block_chunks(6, 5, 2), vec![]);
    assert_eq!(
        block_chunks(u64::MAX - 2, u64::MAX, 2),
        vec![(u64::MAX - 2, u64::MAX - 1), (u64::MAX, u64::MAX)]
    );
}

fn creation(topics: usize, words: &[U256]) -> Log {
    let mut t = vec![topic("x()")];
    for i in 1..topics {
        t.push(B256 { word: at(i as u8).to_word() });
    }
    let mut data = Vec::new();
    for w in words {
        data.extend(word_bytes(*w));
    }
    Log { address: at(0xF0), topics: t, data, block_number: Some(1), log_index: Some(0) }
}

#[test]
fn creation_events_are_decoded_by_family() {
    let v2 = creation(3, &[at(0x50).to_word(), U256::from_u64(9)]);
    let c = decode_creation("uniswap_v2", &v2).unwrap();
    assert_eq!((c.token0, c.token1, c.pool, c.fee_bps), (at(1), at(2), at(0x50), Some(30)));
    let c = decode_creation("solidly", &v2).unwrap();
    assert_eq!((c.pool, c.fee_bps), (at(0x50), None));

    let mut v3 = creation(4, &[U256::from_u64(60), at(0x51).to_word()]);
    v3.topics[3] = B256 { word: U256::from_u64(3000) };
    let c = decode_creation("uniswap_v3", &v3).unwrap();
    assert_eq!((c.token0, c.token1, c.pool, c.fee_bps), (at(1), at(2), at(0x51), Some(3000)));

    // Too few topics, too little data, another family.
    assert!(decode_creation("uniswap_v3", &creation(3, &[U256::zero(), U256::zero()])).is_none());
    assert!(decode_creation("uniswap_v3", &creation(4, &[U256::zero()])).is_none());
    assert!(decode_creation("uniswap_v2", &creation(2, &[U256::zero()])).is_none());
    assert!(decode_creation("solidly", &creation(3, &[])).is_none());
    assert!(decode_creation("balancer_v2", &v2).is_none());

    assert_eq!(
        creation_topic("uniswap_v2"),
        Some(topic("PairCreated(address,address,address,uint256)"))
    );
    assert_eq!(
        creation_topic("uniswap_v3"),
        Some(topic("PoolCreated(address,address,uint24,int24,address)"))
    );
    assert_eq!(
        creation_topic("solidly"),
        Some(topic("PoolCreated(address,address,bool,address,uint256)"))
    );
    assert_eq!(creation_topic("balancer_v2"), None);
}

fn token_book() -> PoolBook {
    let mut book = PoolBook::empty("base");
    // In symbol order: AERO, USDC, WETH.
    for (symbol, b) in [("WETH", 1u8), ("USDC", 9), ("AERO", 5)] {
        book.tokens
            .insert(symbol.to_string(), TokenInfo { address: at(b), decimals: 18 });
    }
    book
}

#[test]
fn every_pair_is_asked_of_every_factory() {
    let book = token_book();
    let scan = discover_pairs(&sources(), &book);
    // Three pairs: four fees of V3, two stabilities of Solidly, one V2 pair.
    assert_eq!(scan.lookups.len(), 3 * (4 + 2 + 1));
    let first = &scan.lookups[0];
    let mut data = selector("getPool(address,address,uint24)");
    data.extend(enc_addr(at(5)));
    data.extend(enc_addr(at(9)));
    data.extend(enc_u24(100));
    assert_eq!(first.calldata, data);
    assert_eq!((first.place, first.factory, first.fee_bps), (0, at(0xF1), Some(100)));
    assert_eq!((first.token0, first.token1), (at(5), at(9)));
    // The tokens of a pool are in address order, whatever the order of the symbols.
    let second = &scan.lookups[4];
    assert_eq!((second.token0, second.token1), (at(1), at(5)));
    let fees: Vec<Option<u32>> = scan.lookups[..4].iter().map(|l| l.fee_bps).collect();
    assert_eq!(fees, vec![Some(100), Some(500), Some(3000), Some(10000)]);
    let solid = &scan.lookups[12..14];
    assert_eq!((solid[0].kind.as_str(), solid[1].kind.as_str()), ("uniswap_v2", "solidly"));
    assert_eq!((solid[0].place, solid[0].fee_bps), (1, None));
    let pair = &scan.lookups[18];
    assert_eq!((pair.kind.as_str(), pair.fee_bps), ("uniswap_v2", Some(30)));
    assert_eq!(&pair.calldata[..4], &[0xe6, 0xa4, 0x39, 0x05]);
    for w in scan.lookups.windows(2) {
        assert!(w[0].place <= w[1].place);
    }
}

#[test]
fn one_codehash_is_learnt_per_exchange() {
    let mut s = sources();
    let mut book = token_book();
    let mut scan = discover_pairs(&s, &book);
    let code = [0x60u8, 0x80];
    let mut asked = Vec::new();
    let mut n = 0u8;
    while let Some(l) = scan.next_lookup() {
        // The first V3 lookup finds nothing; every other one finds a pool.
        let found = if n == 0 { None } else { Some(at(0x20 + n)) };
        let place = l.place;
        n += 1;
        if let Some(p) = scan.record(&s, &mut book, found) {
            assert_eq!(p, place);
            asked.push(p);
            // The code of the first pool asked for cannot be read.
            let read: Option<&[u8]> = if asked.len() == 1 { None } else { Some(&code) };
            scan.learn(&mut s, p, read);
        }
    }
    assert_eq!(asked, vec![0, 0, 1, 2]);
    assert_eq!(scan.added, 20);
    assert_eq!(book.pools.len(), 20);
    assert_eq!(scan.codehashes, 3);
    assert_eq!(s.exchanges[0].pool_codehashes, vec![hash_of(&code)]);
    assert_eq!(s.exchanges[2].pool_codehashes, vec![hash_of(&code)]);
    assert_eq!(s.exchanges[3].pool_codehashes, vec![]);
    assert_eq!(book.pools[0].exchange, "uniswap-v3");
    assert_eq!(book.pools[0].fee_bps, Some(500));

    // A second scan that finds the same pools adds none.
    let mut again = discover_pairs(&s, &book);
    let mut n = 0u8;
    while again.next_lookup().is_some() {
        let found = if n == 0 { None } else { Some(at(0x20 + n)) };
        n += 1;
        if let Some(p) = again.record(&s, &mut book, found) {
            assert!(!again.learn(&mut s, p, Some(&code)));
        }
    }
    assert_eq!((again.added, again.codehashes, book.pools.len()), (0, 0, 20));
}

#[test]
fn forks_share_the_code_of_a_known_exchange() {
    let known_code = [1u8, 2, 3];
    let mut s = sources();
    assert!(s.add_codehash("uniswap-v2", hash_of(&known_code)));
    let mut official = PoolBook::empty("base");
    official.upsert_pool(PoolInfo {
        address: at(0x40),
        exchange: "uniswap-v2".to_string(),
        kind: "uniswap_v2".to_string(),
        token0: at(1),
        token1: at(2),
        fee_bps: Some(30),
        discovered_block: None,
    });
    let mut secondary = PoolBook::empty("base");
    let mut scan = ForkScan::start(&official, &secondary);
    assert!(!scan.wants_code(at(0x40)));

    assert!(scan.wants_code(at(0x41)));
    assert!(!scan.wants_code(at(0x41)));
    scan.look_at(&s, &mut secondary, at(0x41), Some(77), &known_code);
    assert_eq!(secondary.pools.len(), 1);
    let fork = &secondary.pools[0];
    assert_eq!((fork.exchange.as_str(), fork.kind.as_str()), ("uniswap-v2-fork", "uniswap_v2"));
    assert_eq!((fork.token0, fork.token1), (Address::zero(), Address::zero()));
    assert_eq!((fork.fee_bps, fork.discovered_block), (None, Some(77)));

    // Three addresses share one unknown code, two another, one has its own.
    for (b, code) in [(1u8, 9u8), (2, 8), (3, 9), (4, 8), (5, 9), (6, 7)] {
        assert!(scan.wants_code(at(0x50 + b)));
        scan.look_at(&s, &mut secondary, at(0x50 + b), None, &[code]);
    }
    let report = scan.report(10, 20, 4);
    assert_eq!((report.from_block, report.to_block), (10, 20));
    assert_eq!((report.official_added, report.fork_added), (4, 1));
    assert_eq!(report.unknown_clusters, vec![(hash_of(&[9]), 3), (hash_of(&[8]), 2)]);
    assert_eq!(secondary.pools.len(), 1);
}

#[test]
fn an_empty_report() {
    let r = ScanReport::default();
    assert_eq!((r.from_block, r.to_block, r.official_added, r.fork_added), (0, 0, 0, 0));
    assert!(r.unknown_clusters.is_empty());
}

#[test]
fn the_blocks_of_a_fork_scan() {
    assert_eq!(fork_range(100, 0), None);
    assert_eq!(fork_range(100, 30), Some((70, 100)));
    assert_eq!(fork_range(10, 30), Some((0, 10)));
}
