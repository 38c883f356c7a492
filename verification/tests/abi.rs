//! Words, topics and selectors.
use alloy_primitives::U256 as Big;
use arb::live::abi::{
    addr_from_word, enc_addr, enc_bool, enc_u24, int24_of, selector, topic, word, word_bytes, Log,
};
use arb::live::event::{EventKind, PoolState};
use arb::live::source::SourceError;
use arb::live::ws::{
    decode_reserves, decode_sync, get_reserves_selector, sync_topic, WsChainSource,
};
use arb::types::{Address, B256, U256};

fn u(s: &str) -> U256 {
    let [l0, l1, l2, l3] = Big::from_str_radix(s.trim_start_matches("0x"), 16).unwrap().into_limbs();
    U256::from_limbs(l0, l1, l2, l3)
}

fn sync_log(r0: u64, r1: u64) -> Log {
    let mut data = word_bytes(U256::from_u64(r0));
    data.extend(word_bytes(U256::from_u64(r1)));
    Log {
        address: Address::repeat_byte(0xAB),
        topics: vec![sync_topic()],
        data,
        block_number: Some(7),
        log_index: Some(3),
    }
}

#[test]
fn topics_are_keccak_hashes() {
    assert_eq!(
        topic("Sync(uint112,uint112)").word,
        u("0x1c411e9a96e071241c2f21f7726b17ae89e3cab4c78be50e062b03a9fffbbad1")
    );
    assert_eq!(
        topic("Swap(address,address,int256,int256,uint160,uint128,int24)").word,
        u("0xc42079f94a6350d7e6235f29174924f928cc2ac818eb64fed8004e115fbcca67")
    );
    assert_eq!(sync_topic(), topic("Sync(uint112,uint112)"));
}

#[test]
fn selectors_are_the_first_four_bytes() {
    assert_eq!(selector("getPair(address,address)"), vec![0xe6, 0xa4, 0x39, 0x05]);
    assert_eq!(selector("getPool(address,address,uint24)"), vec![0x16, 0x98, 0xee, 0x82]);
    assert_eq!(selector("decimals()"), vec![0x31, 0x3c, 0xe5, 0x67]);
    assert_eq!(get_reserves_selector(), vec![0x09, 0x02, 0xf1, 0xac]);
}

#[test]
fn words_read_back_as_they_were_encoded() {
    let x = u("0x0102030405060708090a0b0c0d0e0f101112131415161718191a1b1c1d1e1f20");
    let bytes = word_bytes(x);
    assert_eq!(bytes, (1u8..=32).collect::<Vec<u8>>());
    assert_eq!(word(&bytes, 0), x);

    let mut two = enc_u24(0x0a0b0c);
    two.extend(enc_bool(true));
    assert_eq!(word(&two, 0), U256::from_u64(0x0a0b0c));
    assert_eq!(word(&two, 1), U256::one());
    assert_eq!(word(&enc_bool(false), 0), U256::zero());
    // Only 24 bits are kept.
    assert_eq!(word(&enc_u24(0x0100_0001), 0), U256::one());
}

#[test]
fn addresses_read_back_from_their_words() {
    let a = Address::repeat_byte(0x5C);
    let bytes = enc_addr(a);
    assert_eq!(&bytes[..12], &[0u8; 12]);
    assert_eq!(&bytes[12..], &[0x5Cu8; 20]);
    assert_eq!(addr_from_word(&B256 { word: word(&bytes, 0) }), a);
    // The upper twelve bytes of a topic do not matter.
    assert_eq!(addr_from_word(&B256::repeat_byte(0x5C)), a);
}

#[test]
fn int24_is_two_s_complement() {
    assert_eq!(int24_of(U256::from_u64(5)), 5);
    assert_eq!(int24_of(U256::from_u64(0xff_ffff)), -1);
    assert_eq!(int24_of(U256::max_value()), -1);
    assert_eq!(int24_of(U256::from_u64(0x80_0000)), -0x80_0000);
    assert_eq!(int24_of(U256::from_u64(0x7f_ffff)), 0x7f_ffff);
}

#[test]
fn a_sync_log_carries_both_reserves() {
    let ev = decode_sync(&sync_log(1_000, 2_000)).unwrap();
    assert_eq!(ev.pool, Address::repeat_byte(0xAB));
    assert_eq!(ev.key(), (7, 3));
    assert_eq!(
        ev.kind,
        EventKind::SyncV2 { reserve0: U256::from_u64(1_000), reserve1: U256::from_u64(2_000) }
    );
}

#[test]
fn other_logs_and_short_data_are_no_sync() {
    let mut other = sync_log(1, 2);
    other.topics[0] = topic("Transfer(address,address,uint256)");
    assert!(decode_sync(&other).is_none());

    let mut short = sync_log(1, 2);
    short.data.truncate(63);
    assert!(decode_sync(&short).is_none());

    let mut bare = sync_log(1, 2);
    bare.topics.clear();
    assert!(decode_sync(&bare).is_none());

    let mut pending = sync_log(1, 2);
    pending.block_number = None;
    assert!(decode_sync(&pending).is_none());
}

#[test]
fn reserves_come_from_the_first_two_words() {
    let mut raw = word_bytes(U256::from_u64(11));
    raw.extend(word_bytes(U256::from_u64(22)));
    raw.extend(word_bytes(U256::from_u64(33)));
    assert_eq!(
        decode_reserves(&raw).unwrap(),
        PoolState::UniV2 { reserve0: U256::from_u64(11), reserve1: U256::from_u64(22) }
    );
    assert!(matches!(decode_reserves(&raw[..63]), Err(SourceError::Rpc(_))));
}

#[test]
fn a_source_keeps_its_endpoint_and_pools() {
    let pools = vec![Address::repeat_byte(1), Address::repeat_byte(2)];
    let source = WsChainSource::new("ws://localhost:8546".into(), pools);
    assert_eq!(source.url, "ws://localhost:8546");
    assert_eq!(source.pools, vec![Address::repeat_byte(1), Address::repeat_byte(2)]);
}
