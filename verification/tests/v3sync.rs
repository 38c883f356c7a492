//! V3 state kept from logs.
use arb::amm::univ3::{q96, UniV3Pool};
use arb::live::abi::{word_bytes, Log};
use arb::live::base::v3state::V3Snapshot;
use arb::live::base::v3sync::{decode_v3, v3_event_topics, V3Event, V3PoolState};
use arb::pool::{Pool, SimError};
use arb::types::{Address, B256, U256};

fn at(b: u8) -> Address {
    Address::repeat_byte(b)
}

fn word24(t: i32) -> U256 {
    if t >= 0 {
        U256::from_u64(t as u64)
    } else {
        // Sign-extended to 256 bits.
        U256::from_limbs(t as i64 as u64, u64::MAX, u64::MAX, u64::MAX)
    }
}

fn log(topics: Vec<B256>, words: &[U256], block: u64, index: u64) -> Log {
    let mut data = Vec::new();
    for w in words {
        data.extend(word_bytes(*w));
    }
    Log { address: at(9), topics, data, block_number: Some(block), log_index: Some(index) }
}

fn swap(sqrt: U256, liquidity: u128, tick: i32, block: u64, index: u64) -> Log {
    let z = B256 { word: U256::zero() };
    log(
        vec![v3_event_topics()[0], z, z],
        &[U256::zero(), U256::zero(), sqrt, U256::from_u128(liquidity), word24(tick)],
        block,
        index,
    )
}

fn mint(lower: i32, upper: i32, amount: u128, block: u64, index: u64) -> Log {
    let z = B256 { word: U256::zero() };
    log(
        vec![v3_event_topics()[1], z, B256 { word: word24(lower) }, B256 { word: word24(upper) }],
        &[U256::zero(), U256::from_u128(amount), U256::zero(), U256::zero()],
        block,
        index,
    )
}

fn burn(lower: i32, upper: i32, amount: u128, block: u64, index: u64) -> Log {
    let z = B256 { word: U256::zero() };
    log(
        vec![v3_event_topics()[2], z, B256 { word: word24(lower) }, B256 { word: word24(upper) }],
        &[U256::from_u128(amount), U256::zero(), U256::zero()],
        block,
        index,
    )
}

fn state(window: Option<(i32, i32)>) -> V3PoolState {
    let snap = V3Snapshot { sqrt_price_x96: q96(), liquidity: 1_000_000, tick: 0, tick_spacing: 60 };
    let ticks = [(-600, 1_000_000u128, 1_000_000i128), (600, 1_000_000, -1_000_000)];
    V3PoolState::from_snapshot(at(9), at(1), at(2), 3000, 100, snap, &ticks, window)
}

#[test]
fn topics_of_the_events_that_change_quotes() {
    let t = v3_event_topics();
    assert_eq!(t.len(), 3);
    let first: Vec<u64> = t.iter().map(|x| x.word.l3).collect();
    assert_eq!(first, vec![0xc42079f94a6350d7, 0x7a53080ba414158b, 0x0c396cd989a39f44]);
}

#[test]
fn events_are_decoded() {
    assert_eq!(
        decode_v3(&swap(q96(), 77, -5, 1, 0)),
        Some(V3Event::Swap { sqrt_price_x96: q96(), liquidity: 77, tick: -5 })
    );
    assert_eq!(
        decode_v3(&mint(-60, 120, 5, 1, 0)),
        Some(V3Event::Mint { lower: -60, upper: 120, amount: 5 })
    );
    assert_eq!(
        decode_v3(&burn(-60, 120, 5, 1, 0)),
        Some(V3Event::Burn { lower: -60, upper: 120, amount: 5 })
    );
    let mut other = swap(q96(), 77, -5, 1, 0);
    other.topics[0] = B256::repeat_byte(1);
    assert_eq!(decode_v3(&other), None);
    let mut short = mint(-60, 120, 5, 1, 0);
    short.data.truncate(100);
    assert_eq!(decode_v3(&short), None);
    let mut few = burn(-60, 120, 5, 1, 0);
    few.topics.pop();
    assert_eq!(decode_v3(&few), None);
}

#[test]
fn a_swap_sets_price_liquidity_and_tick() {
    let mut s = state(None);
    let price = UniV3Pool::get_sqrt_ratio_at_tick(30).unwrap();
    let l = swap(price, 5, 30, 101, 2);
    assert!(s.accepts_log(&l));
    assert!(s.apply_log(&l));
    assert_eq!((s.sqrt_price_x96, s.liquidity, s.tick), (price, 5, 30));
    assert_eq!(s.last_key, (101, 2));
    // The snapshot's ticks stay.
    assert_eq!(s.ticks.len(), 2);
}

#[test]
fn the_snapshot_holds_its_block_and_logs_apply_once() {
    let mut s = state(None);
    assert!(!s.apply_log(&mint(-60, 60, 10, 100, 7)));
    assert_eq!(s.liquidity, 1_000_000);
    assert!(s.apply_log(&mint(-60, 60, 10, 101, 1)));
    assert_eq!(s.liquidity, 1_000_010);
    assert!(!s.apply_log(&mint(-60, 60, 10, 101, 1)));
    assert!(!s.apply_log(&mint(-60, 60, 10, 101, 0)));
    assert_eq!(s.liquidity, 1_000_010);
    let mut pending = mint(-60, 60, 10, 102, 0);
    pending.log_index = None;
    assert!(!s.apply_log(&pending));
}

#[test]
fn a_position_outside_the_current_tick_leaves_active_liquidity() {
    let mut s = state(None);
    assert!(s.apply_log(&mint(60, 120, 10, 101, 0)));
    assert_eq!(s.liquidity, 1_000_000);
    assert_eq!(s.ticks.get(60), Some(&(10, 10)));
    assert_eq!(s.ticks.get(120), Some(&(10, -10)));
    // The upper tick is excluded, the lower one included.
    assert!(s.apply_log(&mint(-60, 0, 10, 101, 1)));
    assert_eq!(s.liquidity, 1_000_000);
    assert!(s.apply_log(&mint(0, 60, 10, 101, 2)));
    assert_eq!(s.liquidity, 1_000_010);
    assert_eq!(s.ticks.get(60), Some(&(20, 0)));
}

#[test]
fn a_burn_undoes_a_mint() {
    let mut s = state(None);
    assert!(s.apply_log(&mint(-120, 120, 50, 101, 0)));
    assert_eq!(s.ticks.len(), 4);
    assert!(s.apply_log(&burn(-120, 120, 50, 102, 0)));
    assert_eq!(s.ticks.len(), 2);
    assert_eq!(s.liquidity, 1_000_000);
    assert_eq!(s.ticks.get(-120), None);
    assert_eq!(s.ticks.get(600), Some(&(1_000_000, -1_000_000)));
}

#[test]
fn logs_apply_in_chain_order() {
    let mut s = state(None);
    let price = UniV3Pool::get_sqrt_ratio_at_tick(61).unwrap();
    // The burn comes before the mint of the same position in the list, but after it on chain.
    s.apply_logs(&[
        burn(-120, 120, 50, 103, 0),
        swap(price, 9, 61, 102, 5),
        mint(-120, 120, 50, 101, 0),
        mint(-120, 120, 50, 101, 0),
    ]);
    assert_eq!(s.ticks.len(), 2);
    assert_eq!((s.liquidity, s.tick), (0, 61));
    assert_eq!(s.last_key, (103, 0));
}

#[test]
fn quotes_come_from_the_pool_math() {
    let s = state(None);
    let out = s.quote(at(1), at(2), U256::from_u64(1_000)).unwrap();
    let mut ticks = Vec::new();
    for (tick, net) in [(-600, 1_000_000i128), (600, -1_000_000)] {
        ticks.push(arb::amm::univ3::TickData { tick, liquidity_net: net });
    }
    let pool = UniV3Pool::new(at(9), at(1), at(2), 3000, q96(), 1_000_000, 0, 60, ticks);
    assert_eq!(out, pool.quote(at(1), at(2), U256::from_u64(1_000)).unwrap());
    assert_eq!(out, U256::from_u64(996));
    assert_eq!(s.as_pool().quote(at(1), at(2), U256::from_u64(1_000)).unwrap(), out);
}

#[test]
fn a_windowed_state_refuses_beyond_its_window() {
    let s = state(Some((-120, 120)));
    assert_eq!(s.quote(at(1), at(2), U256::from_u64(1_000)), state(None).quote(at(1), at(2), U256::from_u64(1_000)));
    assert_eq!(
        s.quote(at(1), at(2), U256::from_u64(100_000_000)),
        Err(SimError::IncompleteState)
    );
}

#[test]
fn a_change_that_cannot_be_held_is_refused() {
    let mut s = state(None);
    let huge = mint(-120, 120, 1 << 127, 101, 0);
    assert!(!s.accepts_log(&huge));
    assert_eq!(s.try_apply_log(&huge), None);
    assert_eq!((s.liquidity, s.ticks.len(), s.last_key), (1_000_000, 2, (100, u64::MAX)));
    // A batch stops before it, in chain order.
    let batch = [mint(-60, 60, 7, 103, 0), huge, mint(-60, 60, 5, 100, 9), mint(-60, 60, 3, 101, 0)];
    let batch: Vec<Log> = batch
        .into_iter()
        .enumerate()
        .map(|(i, mut l)| {
            if i == 1 {
                l.block_number = Some(102);
            }
            l
        })
        .collect();
    assert_eq!(s.try_apply_logs(&batch), 2);
    assert_eq!((s.liquidity, s.last_key), (1_000_003, (101, 0)));
    assert_eq!(s.try_apply_log(&mint(-60, 60, 1, 104, 0)), Some(true));
    assert_eq!(s.try_apply_log(&mint(-60, 60, 1, 104, 0)), Some(false));
}
