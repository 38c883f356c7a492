use arb::live::bench::bench_scripted;
use arb::live::event::{ChainItem, EventKind, PoolEvent, PoolState};
use arb::live::source::MockChain;
use arb::types::{Address, U256};

fn addr(n: u8) -> Address {
    Address::repeat_byte(n)
}
fn v2(r0: u64, r1: u64) -> PoolState {
    PoolState::UniV2 {
        reserve0: U256::from_u64(r0),
        reserve1: U256::from_u64(r1),
    }
}
fn sync(pool: u8, block: u64, li: u64, r0: u64, r1: u64) -> ChainItem {
    ChainItem::Event(PoolEvent {
        pool: addr(pool),
        block,
        log_index: li,
        kind: EventKind::SyncV2 {
            reserve0: U256::from_u64(r0),
            reserve1: U256::from_u64(r1),
        },
    })
}

#[test]
fn bench_passes_when_replay_matches_chain() {
    // Replay applies block-11 event -> 800/1200. The on-chain snapshot at the
    // cut block (11) reports the same -> no mismatch.
    let items = vec![sync(1, 11, 0, 800, 1200)];
    let src = MockChain::new(items, 10)
        .with_snapshot(addr(1), 10, v2(1000, 1000)) // init snapshot at B=10
        .with_snapshot(addr(1), 11, v2(800, 1200)); // verification at cut=11
    let report = bench_scripted(&src, &[addr(1)], 11).unwrap();
    assert!(report.passed(), "mismatches: {:?}", report.mismatches);
    assert_eq!(report.pools_checked, 1);
}

#[test]
fn bench_detects_a_missed_event() {
    // The stream OMITS the block-11 event, but the chain's state at cut=11
    // reflects it -> the bench must catch the divergence.
    let items: Vec<ChainItem> = vec![]; // missed the update entirely
    let src = MockChain::new(items, 10)
        .with_snapshot(addr(1), 10, v2(1000, 1000))
        .with_snapshot(addr(1), 11, v2(800, 1200)); // chain moved; we didn't
    let report = bench_scripted(&src, &[addr(1)], 11).unwrap();
    assert!(!report.passed());
    assert_eq!(report.mismatches.len(), 1);
    assert_eq!(report.mismatches[0].replayed, v2(1000, 1000));
    assert_eq!(report.mismatches[0].onchain, v2(800, 1200));
}
