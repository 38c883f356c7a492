use arb::rank_map::AddressMap;
use arb::live::base::dual::{Divergence, DualFeed, DualState, FlashOutcome};
use arb::live::base::flashblocks::Flashblock;
use arb::live::event::{EventKind, PoolEvent, PoolState};
use arb::live::registry::Entry;
use arb::types::{Address, U256};


fn addr(n: u8) -> Address {
    Address::repeat_byte(n)
}
fn v2(r0: u64, r1: u64) -> PoolState {
    PoolState::UniV2 {
        reserve0: U256::from_u64(r0),
        reserve1: U256::from_u64(r1),
    }
}
fn ev(pool: u8, block: u64, log_index: u64, r0: u64, r1: u64) -> PoolEvent {
    PoolEvent {
        pool: addr(pool),
        block,
        log_index,
        kind: EventKind::SyncV2 {
            reserve0: U256::from_u64(r0),
            reserve1: U256::from_u64(r1),
        },
    }
}
fn snapshot(block: u64, pools: &[(u8, u64, u64)]) -> DualState {
    let mut m = AddressMap::new();
    for &(p, r0, r1) in pools {
        m.insert(
            addr(p),
            Entry {
                state: v2(r0, r1),
                block,
                log_index: u64::MAX,
            },
        );
    }
    DualState::new(m, block)
}

#[test]
fn flashblock_updates_optimistic_not_confirmed() {
    let mut s = snapshot(10, &[(1, 1000, 1000)]);
    let fb = Flashblock {
        block: 11,
        index: 0,
        events: vec![ev(1, 11, 0, 800, 1200)],
    };
    assert_eq!(s.apply_flashblock(&fb), FlashOutcome::Applied);
    // optimistic sees the preconf immediately; confirmed still at snapshot.
    assert_eq!(s.optimistic(addr(1)), Some(v2(800, 1200)));
    assert_eq!(s.confirmed(addr(1)), Some(v2(1000, 1000)));
}

#[test]
fn sealing_promotes_and_matches_when_preconf_correct() {
    let mut s = snapshot(10, &[(1, 1000, 1000)]);
    s.apply_flashblock(&Flashblock {
        block: 11,
        index: 0,
        events: vec![ev(1, 11, 0, 800, 1200)],
    });
    // Sealed block 11 confirms exactly what the flashblock predicted.
    let div = s.apply_sealed_block(11, &[ev(1, 11, 0, 800, 1200)]);
    assert!(div.is_empty(), "no divergence expected");
    assert_eq!(s.confirmed(addr(1)), Some(v2(800, 1200)));
    assert_eq!(s.optimistic(addr(1)), Some(v2(800, 1200)));
    assert_eq!(s.confirmed_block(), 11);
}

#[test]
fn divergence_detected_when_preconf_wrong() {
    let mut s = snapshot(10, &[(1, 1000, 1000)]);
    // Flashblock predicts 800/1200...
    s.apply_flashblock(&Flashblock {
        block: 11,
        index: 0,
        events: vec![ev(1, 11, 0, 800, 1200)],
    });
    // ...but the sealed block actually had 850/1150.
    let div = s.apply_sealed_block(11, &[ev(1, 11, 0, 850, 1150)]);
    assert_eq!(div.len(), 1);
    assert_eq!(div[0].predicted, v2(800, 1200));
    assert_eq!(div[0].sealed, v2(850, 1150));
    assert_eq!(s.confirmed(addr(1)), Some(v2(850, 1150)));
    // optimistic rebased onto sealed truth (no later preconfs pending).
    assert_eq!(s.optimistic(addr(1)), Some(v2(850, 1150)));
    assert_eq!(s.divergences, 1);
}

#[test]
fn stale_flashblock_for_sealed_block_ignored() {
    let mut s = snapshot(10, &[(1, 1000, 1000)]);
    s.apply_sealed_block(11, &[ev(1, 11, 0, 800, 1200)]);
    let out = s.apply_flashblock(&Flashblock {
        block: 11,
        index: 5,
        events: vec![ev(1, 11, 5, 1, 1)],
    });
    assert_eq!(out, FlashOutcome::Stale);
    assert_eq!(s.optimistic(addr(1)), Some(v2(800, 1200)));
}

#[test]
fn gap_in_flashblock_index_is_flagged() {
    let mut s = snapshot(10, &[(1, 1000, 1000)]);
    s.apply_flashblock(&Flashblock { block: 11, index: 0, events: vec![] });
    // index jumps 0 -> 2 (missed index 1)
    let out = s.apply_flashblock(&Flashblock {
        block: 11,
        index: 2,
        events: vec![ev(1, 11, 3, 700, 1300)],
    });
    assert_eq!(out, FlashOutcome::Gap);
    assert_eq!(s.gaps, 1);
    // still applied despite the gap
    assert_eq!(s.optimistic(addr(1)), Some(v2(700, 1300)));
}

#[test]
fn later_preconf_survives_earlier_block_sealing() {
    // Preconf for block 12 should remain on the optimistic view after block
    // 11 seals (rebase keeps pending > confirmed_block).
    let mut s = snapshot(10, &[(1, 1000, 1000), (2, 5000, 5000)]);
    s.apply_flashblock(&Flashblock {
        block: 11,
        index: 0,
        events: vec![ev(1, 11, 0, 900, 1100)],
    });
    s.apply_flashblock(&Flashblock {
        block: 12,
        index: 0,
        events: vec![ev(2, 12, 0, 4000, 6000)],
    });
    s.apply_sealed_block(11, &[ev(1, 11, 0, 900, 1100)]);
    // pool 1 sealed; pool 2's block-12 preconf still optimistically applied.
    assert_eq!(s.confirmed(addr(1)), Some(v2(900, 1100)));
    assert_eq!(s.confirmed(addr(2)), Some(v2(5000, 5000)));
    assert_eq!(s.optimistic(addr(2)), Some(v2(4000, 6000)));
}

fn flash(block: u64, index: u64, events: Vec<PoolEvent>) -> Flashblock {
    Flashblock { block, index, events }
}

#[test]
fn a_preconfirmed_change_that_the_block_lacks_diverges() {
    let mut s = snapshot(10, &[(1, 1000, 1000)]);
    assert_eq!(
        s.apply_flashblock(&flash(11, 0, vec![ev(1, 11, 0, 800, 1200)])),
        FlashOutcome::Applied
    );
    let wrong = Divergence { pool: addr(1), predicted: v2(800, 1200), sealed: v2(1000, 1000) };
    assert_eq!(s.apply_sealed_block(11, &[]), vec![wrong]);
    assert_eq!(s.optimistic(addr(1)), Some(v2(1000, 1000)));
    assert_eq!(s.divergences, 1);
    assert!(s.pending.is_empty());
    // Sealed already: nothing more is said of it.
    assert!(s.apply_sealed_block(11, &[ev(1, 11, 0, 1, 1)]).is_empty());
}

#[test]
fn later_preconfirmations_do_not_refute_a_block() {
    let mut s = snapshot(10, &[(1, 1000, 1000)]);
    s.apply_flashblock(&flash(11, 0, vec![ev(1, 11, 0, 900, 1100)]));
    s.apply_flashblock(&flash(12, 0, vec![ev(1, 12, 0, 800, 1200)]));
    assert!(s.apply_sealed_block(11, &[ev(1, 11, 0, 900, 1100)]).is_empty());
    assert_eq!(s.confirmed(addr(1)), Some(v2(900, 1100)));
    assert_eq!(s.optimistic(addr(1)), Some(v2(800, 1200)));
}

#[test]
fn the_largest_log_index_is_kept() {
    let mut s = snapshot(10, &[(1, 1000, 1000), (2, 5000, 5000)]);
    s.apply_flashblock(&flash(12, 0, vec![ev(2, 12, 4, 6, 7), ev(2, 12, 1, 8, 9)]));
    let report =
        s.apply_sealed_block(11, &[ev(1, 11, 7, 700, 1300), ev(1, 11, 2, 1, 1), ev(9, 11, 0, 3, 3)]);
    assert_eq!(report.len(), 1);
    assert_eq!(report[0].predicted, v2(1000, 1000));
    assert_eq!(s.confirmed(addr(1)), Some(v2(700, 1300)));
    assert_eq!(s.confirmed(addr(2)), Some(v2(5000, 5000)));
    assert_eq!(s.optimistic(addr(2)), Some(v2(6, 7)));
    assert_eq!(s.confirmed(addr(9)), None);
}

#[test]
fn a_head_seals_the_buffered_blocks_below_it() {
    let mut feed = DualFeed::new(snapshot(10, &[(1, 1000, 1000)]));
    feed.on_flashblock(&flash(11, 0, vec![ev(1, 11, 0, 800, 1200)]));
    // Nothing is buffered: no block is sealed and the preconfirmation stays.
    feed.on_head(20);
    assert_eq!(feed.state.confirmed_block(), 10);
    assert_eq!(feed.state.pending.len(), 1);
    assert_eq!(feed.state.optimistic(addr(1)), Some(v2(800, 1200)));
    assert_eq!(feed.state.divergences, 0);

    feed.on_event(ev(1, 21, 0, 850, 1150));
    feed.on_event(ev(1, 19, 0, 900, 1100));
    feed.on_event(ev(1, 13, 0, 950, 1050));
    feed.on_head(21);
    assert_eq!(feed.state.confirmed_block(), 19);
    assert_eq!(feed.state.confirmed(addr(1)), Some(v2(900, 1100)));
    assert!(feed.state.pending.is_empty());
    assert_eq!(feed.buffer, vec![ev(1, 21, 0, 850, 1150)]);
    feed.on_head(21);
    assert_eq!(feed.state.confirmed_block(), 19);
}

#[test]
fn a_late_event_of_an_open_block_counts() {
    let mut feed = DualFeed::new(snapshot(10, &[(1, 1000, 1000)]));
    feed.on_head(11);
    feed.on_head(12);
    feed.on_event(ev(1, 11, 0, 900, 1100));
    assert_eq!(feed.buffer.len(), 1);
    feed.on_head(13);
    assert_eq!(feed.state.confirmed_block(), 11);
    assert_eq!(feed.state.confirmed(addr(1)), Some(v2(900, 1100)));
    // Sealed now: a later event of it is dropped.
    feed.on_event(ev(1, 11, 1, 1, 1));
    assert!(feed.buffer.is_empty());
}

#[test]
fn flashblocks_are_told_apart() {
    let mut s = snapshot(10, &[(1, 1000, 1000)]);
    assert_eq!(s.apply_flashblock(&flash(12, 3, vec![])), FlashOutcome::Applied);
    assert_eq!(s.apply_flashblock(&flash(11, 4, vec![ev(1, 11, 0, 1, 1)])), FlashOutcome::Stale);
    assert_eq!(s.optimistic(addr(1)), Some(v2(1000, 1000)));
    assert_eq!(s.apply_flashblock(&flash(12, 4, vec![])), FlashOutcome::Applied);
    assert_eq!(s.apply_flashblock(&flash(12, 4, vec![])), FlashOutcome::Gap);
    assert_eq!(s.apply_flashblock(&flash(13, 0, vec![])), FlashOutcome::Applied);
    assert_eq!(s.apply_flashblock(&flash(14, 1, vec![])), FlashOutcome::Gap);
    assert_eq!(s.apply_flashblock(&flash(10, 2, vec![])), FlashOutcome::Stale);
    assert_eq!((s.gaps, s.divergences, s.confirmed_block()), (2, 0, 10));
}
