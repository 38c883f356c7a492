use arb::sim::engine::{
    simulate, ChainEventStream, Cycle, Hop, PoolEvent, PoolMeta, PoolStateSnapshot, PoolUniverse,
    SimConfig,
};
use arb::sim::pdf::LatencyPdf;
use arb::types::{Address, U256};

fn usdc() -> Address {
    Address::repeat_byte(1)
}
fn weth() -> Address {
    Address::repeat_byte(2)
}

/// Build a 2-pool USDC↔WETH↔USDC universe + cycle. Pool B (id 1) is fixed
/// and favorable; pool A (id 0) state is driven by the event stream.
fn universe() -> (PoolUniverse, Vec<Cycle>) {
    let metas = vec![
        PoolMeta::UniV2 {
            address: Address::repeat_byte(10),
            token0: usdc(),
            token1: weth(),
            fee_bps: 30,
        },
        PoolMeta::UniV2 {
            address: Address::repeat_byte(11),
            token0: usdc(),
            token1: weth(),
            fee_bps: 30,
        },
    ];
    // initial pool A at parity (no opportunity); pool B sells WETH high.
    let initial = vec![
        PoolStateSnapshot::UniV2 {
            reserve0: U256::from_u64(1_000_000),
            reserve1: U256::from_u64(1_000_000),
        },
        PoolStateSnapshot::UniV2 {
            reserve0: U256::from_u64(1_100_000),
            reserve1: U256::from_u64(1_000_000),
        },
    ];
    let cycles = vec![Cycle {
        hops: vec![
            Hop { pool: 0, token_in: usdc(), token_out: weth() },
            Hop { pool: 1, token_in: weth(), token_out: usdc() },
        ],
    }];
    (PoolUniverse { metas, initial }, cycles)
}

/// Stream of 3 events on pool A with monotonically DECREASING profit:
/// more WETH reserve == cheaper WETH == bigger arb edge.
fn decaying_stream() -> ChainEventStream {
    ChainEventStream {
        events: vec![
            PoolEvent {
                pool: 0,
                state: PoolStateSnapshot::UniV2 {
                    reserve0: U256::from_u64(1_000_000),
                    reserve1: U256::from_u64(1_300_000),
                },
            },
            PoolEvent {
                pool: 0,
                state: PoolStateSnapshot::UniV2 {
                    reserve0: U256::from_u64(1_000_000),
                    reserve1: U256::from_u64(1_150_000),
                },
            },
            PoolEvent {
                pool: 0,
                state: PoolStateSnapshot::UniV2 {
                    reserve0: U256::from_u64(1_000_000),
                    reserve1: U256::from_u64(1_010_000),
                },
            },
        ],
    }
}

fn cfg(pdf: &str) -> SimConfig {
    SimConfig {
        pdf: LatencyPdf::parse(pdf).unwrap(),
        seed: 0,
        amount_in: U256::from_u64(1000),
        gas_price_wei: U256::zero(), // pure edge; gas isolated out for the math tests
        token_units_per_native_1e18: U256::from_u64(1),
    }
}

#[test]
fn degenerate_pdfs_are_monotone() {
    let (uni, cycles) = universe();
    let stream = decaying_stream();

    let r0 = simulate(&uni, &cycles, &stream, &cfg("1")); // always on time
    let r1 = simulate(&uni, &cycles, &stream, &cfg("0,1")); // always 1 late
    let r2 = simulate(&uni, &cycles, &stream, &cfg("0,0,1")); // always 2 late

    // Each fires exactly once (episode dedup over a standing opportunity).
    assert_eq!(r0.detected, 1);
    assert_eq!(r1.detected, 1);
    assert_eq!(r2.detected, 1);

    // Realized profit is non-increasing as latency mass moves to higher K.
    assert!(r0.realized_profit >= r1.realized_profit, "R0 {:?} R1 {:?}", r0.realized_profit, r1.realized_profit);
    assert!(r1.realized_profit >= r2.realized_profit, "R1 {:?} R2 {:?}", r1.realized_profit, r2.realized_profit);
    // And the opportunity is real at the top of the episode.
    assert!(r0.realized_profit > U256::zero());
}

#[test]
fn always_on_time_lands_everything() {
    let (uni, cycles) = universe();
    let stream = decaying_stream();
    let r = simulate(&uni, &cycles, &stream, &cfg("1"));
    assert_eq!(r.missed_latency, 0);
    assert_eq!(r.landed_profitable, 1);
    assert_eq!(r.delay_histogram, vec![1]);
}

#[test]
fn reproducible_across_runs() {
    let (uni, cycles) = universe();
    let stream = decaying_stream();
    let a = simulate(&uni, &cycles, &stream, &cfg("0.5,0.25,0.25"));
    let b = simulate(&uni, &cycles, &stream, &cfg("0.5,0.25,0.25"));
    assert_eq!(a, b);
}

#[test]
fn mixed_pdf_bounded_by_degenerates() {
    let (uni, cycles) = universe();
    let stream = decaying_stream();
    let r0 = simulate(&uni, &cycles, &stream, &cfg("1")).realized_profit;
    let r2 = simulate(&uni, &cycles, &stream, &cfg("0,0,1")).realized_profit;
    let mixed = simulate(&uni, &cycles, &stream, &cfg("0.5,0.25,0.25")).realized_profit;
    assert!(mixed <= r0 && mixed >= r2, "mixed={mixed:?} R0={r0:?} R2={r2:?}");
}

#[test]
fn episode_dedup_fires_once() {
    // A standing opportunity across many events must be detected once.
    let (uni, cycles) = universe();
    let stream = decaying_stream();
    let r = simulate(&uni, &cycles, &stream, &cfg("1"));
    assert_eq!(r.detected, 1);
}

#[test]
fn k_beyond_end_clamps_without_panic() {
    // PDF that can draw K=5 although only 3 events exist; must clamp.
    let (uni, cycles) = universe();
    let stream = decaying_stream();
    let r = simulate(&uni, &cycles, &stream, &cfg("0,0,0,0,0,1"));
    assert_eq!(r.detected, 1);
    // Landed against the clamped (final) state, which is still profitable here.
    assert_eq!(r.landed_profitable + r.missed_latency, 1);
}

#[test]
fn skewed_pdf_first_order_dominance() {
    // Shifting probability mass to higher K cannot raise expected profit.
    let (uni, cycles) = universe();
    let stream = decaying_stream();
    let good = simulate(&uni, &cycles, &stream, &cfg("0.8,0.2")).realized_profit;
    let bad = simulate(&uni, &cycles, &stream, &cfg("0.2,0.8")).realized_profit;
    assert!(good >= bad, "good={good:?} bad={bad:?}");
}

#[test]
fn delays_of_weight_zero_are_not_counted() {
    let (uni, cycles) = universe();
    let r = simulate(&uni, &cycles, &decaying_stream(), &cfg("0.5,0,0.5"));
    assert_eq!(r.delay_histogram.len(), 3);
    assert_eq!(r.delay_histogram[1], 0);
    assert_eq!(r.detected, r.landed_profitable + r.missed_latency);
    assert_eq!(r.detected, r.delay_histogram.iter().sum::<u64>());
}

#[test]
fn nothing_landed_earns_nothing() {
    let (uni, cycles) = universe();
    // The edge is open for one event and gone at the next.
    let mut stream = decaying_stream();
    stream.events.truncate(1);
    stream.events.push(PoolEvent {
        pool: 0,
        state: PoolStateSnapshot::UniV2 {
            reserve0: U256::from_u64(1_000_000),
            reserve1: U256::from_u64(500_000),
        },
    });
    let r = simulate(&uni, &cycles, &stream, &cfg("0,1"));
    assert_eq!((r.detected, r.landed_profitable, r.missed_latency), (1, 0, 1));
    assert_eq!(r.realized_profit, U256::zero());
}
