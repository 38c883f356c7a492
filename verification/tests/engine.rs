use arb::live::bench::bench_scripted;
use arb::live::engine::{run_scripted, run_scripted_until};
use arb::live::event::{ChainItem, EventKind, PoolEvent, PoolState};
use arb::live::source::{MockChain, SourceError};
use arb::types::{Address, B256, U256};

fn addr(n: u8) -> Address {
    Address::repeat_byte(n)
}
fn v2(r0: u64, r1: u64) -> PoolState {
    PoolState::UniV2 {
        reserve0: U256::from_u64(r0),
        reserve1: U256::from_u64(r1),
    }
}
fn sync(pool: u8, block: u64, log_index: u64, r0: u64, r1: u64) -> ChainItem {
    ChainItem::Event(PoolEvent {
        pool: addr(pool),
        block,
        log_index,
        kind: EventKind::SyncV2 {
            reserve0: U256::from_u64(r0),
            reserve1: U256::from_u64(r1),
        },
    })
}
fn head(n: u64) -> ChainItem {
    ChainItem::NewHead {
        number: n,
        hash: B256::repeat_byte(n as u8),
        parent_hash: B256::repeat_byte((n - 1) as u8),
    }
}

#[test]
fn snapshot_then_apply_newer_events() {
    // Snapshot at B=10 (reserves 1000/1000); a block-10 event must be
    // discarded, block-11 and 12 events applied in order.
    let items = vec![
        head(11),
        sync(1, 10, 3, 1, 1), // <= B -> discard
        sync(1, 11, 0, 800, 1200),
        sync(1, 12, 0, 700, 1300),
    ];
    let src = MockChain::new(items, 10).with_snapshot(addr(1), 10, v2(1000, 1000));
    let out = run_scripted(&src, &[addr(1)]).unwrap();
    assert_eq!(out.snapshot_block, 10);
    assert_eq!(out.registry.load(addr(1)).unwrap().state, v2(700, 1300));
    assert_eq!(out.last_head, 11);
}

#[test]
fn no_missed_block_event_before_snapshot() {
    // The subscribe-first guarantee: even though the block-11 event is first
    // in the stream (arrived while we were snapshotting), it is applied.
    let items = vec![sync(1, 11, 0, 500, 1500), head(11)];
    let src = MockChain::new(items, 10).with_snapshot(addr(1), 10, v2(1000, 1000));
    let out = run_scripted(&src, &[addr(1)]).unwrap();
    assert_eq!(out.registry.load(addr(1)).unwrap().state, v2(500, 1500));
}

#[test]
fn dedup_redelivery() {
    let items = vec![
        sync(1, 11, 0, 900, 1100),
        sync(1, 12, 0, 800, 1200),
        sync(1, 11, 0, 900, 1100), // stale redelivery -> ignored
    ];
    let src = MockChain::new(items, 10).with_snapshot(addr(1), 10, v2(1000, 1000));
    let out = run_scripted(&src, &[addr(1)]).unwrap();
    assert_eq!(out.registry.load(addr(1)).unwrap().state, v2(800, 1200));
}

#[test]
fn deadline_stops_the_run() {
    // Finite stream; deadline path returns and preserves applied state.
    let items = vec![head(11), sync(1, 11, 0, 800, 1200)];
    let src = MockChain::new(items, 10).with_snapshot(addr(1), 10, v2(1000, 1000));
    let out = run_scripted_until(&src, &[addr(1)], usize::MAX).unwrap();
    assert_eq!(out.registry.load(addr(1)).unwrap().state, v2(800, 1200));
}

#[test]
fn a_deadline_keeps_what_was_applied() {
    let items = vec![head(11), sync(1, 11, 0, 800, 1200), head(12), sync(1, 12, 0, 700, 1300)];
    let src = MockChain::new(items, 10).with_snapshot(addr(1), 10, v2(1000, 1000));
    let out = run_scripted_until(&src, &[addr(1)], 2).unwrap();
    assert_eq!(out.last_head, 11);
    assert_eq!(out.registry.load(addr(1)).unwrap().state, v2(800, 1200));
    let none = run_scripted_until(&src, &[addr(1)], 0).unwrap();
    assert_eq!(none.registry.load(addr(1)).unwrap().state, v2(1000, 1000));
}

#[test]
fn the_first_pool_without_a_snapshot_fails_the_run() {
    let src = MockChain::new(vec![], 10)
        .with_snapshot(addr(1), 10, v2(1, 1))
        .with_snapshot(addr(2), 10, v2(2, 2));
    match run_scripted(&src, &[addr(1), addr(3), addr(4)]) {
        Err(SourceError::NoSnapshot(pool, block)) => assert_eq!((pool, block), (addr(3), 10)),
        _ => panic!("no snapshot of the second pool"),
    }
    // All pools stand at the head, none at the cut.
    match bench_scripted(&src, &[addr(2), addr(1)], 12) {
        Err(SourceError::NoSnapshot(pool, block)) => assert_eq!((pool, block), (addr(2), 12)),
        _ => panic!("no snapshot at the cut"),
    }
    // The head counts before the cut.
    match bench_scripted(&src, &[addr(1), addr(3)], 12) {
        Err(SourceError::NoSnapshot(pool, block)) => assert_eq!((pool, block), (addr(3), 10)),
        _ => panic!("no snapshot at the head"),
    }
}
