use arb::rank_map::AddressMap;
use arb::live::event::{EventKind, PoolEvent, PoolState};
use arb::live::reconcile::{drain_decision, replay, Decision};
use arb::types::{Address, U256};


fn addr(n: u8) -> Address {
    Address::repeat_byte(n)
}
fn sync(pool: u8, block: u64, log_index: u64, r0: u64, r1: u64) -> PoolEvent {
    PoolEvent {
        pool: addr(pool),
        block,
        log_index,
        kind: EventKind::SyncV2 {
            reserve0: U256::from_u64(r0),
            reserve1: U256::from_u64(r1),
        },
    }
}
fn v2(r0: u64, r1: u64) -> PoolState {
    PoolState::UniV2 {
        reserve0: U256::from_u64(r0),
        reserve1: U256::from_u64(r1),
    }
}

#[test]
fn decision_boundary_includes_block_b() {
    assert_eq!(drain_decision(5, 10), Decision::Discard);
    assert_eq!(drain_decision(10, 10), Decision::Discard); // block B fully in snapshot
    assert_eq!(drain_decision(11, 10), Decision::Apply);
}

#[test]
fn no_double_apply_at_snapshot_block() {
    // Snapshot at B=10 already reflects block-10 events.
    let mut states = AddressMap::new();
    states.insert(addr(1), v2(1000, 1000)); // snapshot value (post-block-10)
    let tail = vec![
        sync(1, 10, 7, 999, 999), // block 10 -> must be discarded
        sync(1, 11, 0, 800, 1200), // block 11 -> applied
    ];
    replay(&mut states, 10, &tail);
    assert_eq!(*states.get(addr(1)).unwrap(), v2(800, 1200));
}

#[test]
fn applies_event_that_arrived_before_snapshot_completed() {
    // The subscribe-first guarantee: a block-(B+1) event buffered before the
    // snapshot finished is still applied -> no gap.
    let mut states = AddressMap::new();
    states.insert(addr(1), v2(1000, 1000));
    let tail = vec![sync(1, 11, 0, 500, 1500)];
    replay(&mut states, 10, &tail);
    assert_eq!(*states.get(addr(1)).unwrap(), v2(500, 1500));
}

#[test]
fn dedup_on_redelivery_is_idempotent() {
    // Replaying the same tail twice (e.g. reconnect) yields the same state.
    let mut states = AddressMap::new();
    states.insert(addr(1), v2(1000, 1000));
    let tail = vec![
        sync(1, 11, 0, 900, 1100),
        sync(1, 12, 0, 800, 1200),
        sync(1, 11, 0, 900, 1100), // duplicate of an earlier key -> dropped
    ];
    replay(&mut states, 10, &tail);
    assert_eq!(*states.get(addr(1)).unwrap(), v2(800, 1200));
}

#[test]
fn ordering_within_block_last_write_wins_for_absolute() {
    let mut states = AddressMap::new();
    states.insert(addr(1), v2(1, 1));
    let tail = vec![
        sync(1, 11, 0, 10, 10),
        sync(1, 11, 1, 20, 20),
        sync(1, 11, 2, 30, 30), // highest log_index wins
    ];
    replay(&mut states, 10, &tail);
    assert_eq!(*states.get(addr(1)).unwrap(), v2(30, 30));
}
