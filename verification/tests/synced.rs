//! The live registry: screening, confirmation and the watch.
use arb::amm::univ3::q96;
use arb::book::PoolInfo;
use arb::graph::Edge;
use arb::live::abi::{topic, word_bytes, Log};
use arb::live::base::groundtruth::{
    last_amount, outcome, pancake_quoter_v2, pancake_v2_router, route, uni_v2_router,
    uniswap_quoter_v2, v2_router, v3_quoter, GtOutcome, QuoteReply, Route,
};
use arb::live::base::loader::{
    aero_factory, aero_sim, factory_fee, family, load_sim, next_read, v2_sim, v3_is_live, v3_sim,
    AnyPool, Family, Read, Readings,
};
use arb::live::base::price::{
    eth_usdc_ratio, legs_through, needed_pools, pinned_block, pools_of, price_cycles, rank_cycles,
    rank_priced, tokens_of,
};
use arb::live::base::synced::{
    build_live_pool, confirms, judge, live_aero, live_v2, live_v3, rank_confirmed, registry_topics, route_log,
    screen, shortlist, try_route_log, BlockTag, Candidate, CycleCheck, LiveKind, LivePool, ScreenTerms, Verdict,
    WatchTotals, Watcher, PENDING_PAUSE_MS,
};
use arb::live::base::v3state::V3Snapshot;
use arb::live::base::v3sync::V3PoolState;
use arb::live::base::verify::{
    block_to_check, check_scalars, reconcile, replay_range, sweep, v3_pools_to_check, Quota,
    VerifyReport,
};
use arb::live::source::SourceError;
use arb::pool::{Pool, Protocol, SimError};
use arb::rank_map::{AddressMap, RankMap};
use arb::types::{Address, U256};

fn at(b: u8) -> Address {
    Address::repeat_byte(b)
}

fn n(x: u64) -> U256 {
    U256::from_u64(x)
}

const USDC: u8 = 1;
const WETH: u8 = 2;

fn info(address: u8, exchange: &str, kind: &str, fee: Option<u32>) -> PoolInfo {
    PoolInfo {
        address: at(address),
        exchange: exchange.to_string(),
        kind: kind.to_string(),
        token0: at(USDC),
        token1: at(WETH),
        fee_bps: fee,
        discovered_block: None,
    }
}

fn edge(pool: u8, from: u8, to: u8) -> Edge {
    Edge {
        pool: at(pool),
        kind: "uniswap_v2".to_string(),
        from: at(from),
        to: at(to),
        fee_bps: Some(30),
    }
}

/// Two V2 pools that are priced apart.
fn apart() -> AddressMap<LivePool> {
    let mut reg: AddressMap<LivePool> = RankMap::new();
    let p = info(10, "uniswap-v2", "uniswap_v2", Some(30));
    reg.insert(at(10), live_v2(&p, n(1_000_000_000), n(1_100_000_000), 30, 5).unwrap());
    let q = info(11, "uniswap-v2", "uniswap_v2", Some(30));
    reg.insert(at(11), live_v2(&q, n(1_000_000_000), n(900_000_000), 30, 5).unwrap());
    reg
}

fn cycles() -> Vec<Vec<Edge>> {
    vec![
        vec![edge(10, USDC, WETH), edge(11, WETH, USDC)],
        vec![edge(11, USDC, WETH), edge(10, WETH, USDC)],
        vec![edge(10, USDC, WETH), edge(12, WETH, USDC)],
    ]
}

fn terms(min_profit: u64) -> ScreenTerms {
    ScreenTerms {
        scale: n(1_000),
        amount_in: n(100_000_000),
        gas_price: U256::zero(),
        ratio: U256::one(),
        min_profit: n(min_profit),
    }
}

fn sync(pool: u8, sig: &str, r0: u64, r1: u64, block: u64, index: u64) -> Log {
    let mut data = word_bytes(n(r0));
    data.extend(word_bytes(n(r1)));
    Log {
        address: at(pool),
        topics: vec![topic(sig)],
        data,
        block_number: Some(block),
        log_index: Some(index),
    }
}

#[test]
fn screening_finds_the_profitable_direction() {
    let s = screen(&apart(), &cycles(), terms(0));
    assert_eq!((s.missing, s.latent), (1, 1));
    assert_eq!(s.candidates.len(), 1);
    assert_eq!(s.candidates[0].cycle, 0);
    assert_eq!(s.candidates[0].net, s.best_net);
    assert!(s.best_net > U256::zero());
    // A higher bar leaves no candidate; what the best would net is still known.
    let high = screen(&apart(), &cycles(), terms(u64::MAX));
    assert!(high.candidates.is_empty());
    assert_eq!(high.best_net, s.best_net);
}

fn candidate(net: u64, amount: u64, cycle: usize) -> Candidate {
    Candidate { net: n(net), gas_cost: n(5), amount: n(amount), cycle }
}

#[test]
fn the_shortlist_holds_the_best() {
    let found = vec![candidate(3, 1, 0), candidate(9, 1, 1), candidate(5, 1, 2), candidate(9, 1, 3)];
    let best: Vec<usize> = shortlist(&found, 3).iter().map(|c| c.cycle).collect();
    assert_eq!(best, vec![1, 3, 2]);
    let all: Vec<usize> = rank_confirmed(&found).iter().map(|c| c.cycle).collect();
    assert_eq!(all, vec![1, 3, 2, 0]);
}

#[test]
fn a_check_threads_the_answers() {
    let cycle = vec![edge(10, USDC, WETH), edge(11, WETH, USDC)];
    let mut check = CycleCheck::new(n(100));
    assert_eq!(check.next_hop(&cycle).unwrap().pool, at(10));
    check.answer(Some(GtOutcome::Out(n(90))));
    assert_eq!(check.amount, n(90));
    assert_eq!(check.next_hop(&cycle).unwrap().pool, at(11));
    check.answer(Some(GtOutcome::Out(n(120))));
    assert!(check.next_hop(&cycle).is_none());
    assert_eq!(check.output(), Some(n(120)));

    // A revert, no answer and a zero output each end the check.
    for bad in [Some(GtOutcome::Revert), None, Some(GtOutcome::Out(U256::zero()))] {
        let mut check = CycleCheck::new(n(100));
        check.answer(bad);
        assert!(check.next_hop(&cycle).is_none());
        assert_eq!(check.output(), None);
    }
}

#[test]
fn verdicts_weigh_the_output_against_the_cost() {
    let c = candidate(0, 100, 0);
    assert_eq!(judge(c, Some(n(111))), Verdict::Profit(n(6)));
    assert_eq!(judge(c, Some(n(103))), Verdict::Loss(n(2)));
    assert_eq!(judge(c, Some(n(105))), Verdict::Loss(n(0)));
    assert_eq!(judge(c, None), Verdict::NotACycle);
    assert!(confirms(Verdict::Profit(n(6)), n(6)));
    assert!(!confirms(Verdict::Profit(n(6)), n(7)));
    assert!(!confirms(Verdict::Loss(n(0)), n(0)));
    assert!(!confirms(Verdict::NotACycle, n(0)));
}

#[test]
fn each_evaluation_adds_its_best() {
    let mut t = WatchTotals::new();
    t.record(&vec![]);
    assert_eq!((t.total_potential, t.profitable_blocks), (U256::zero(), 0));
    t.record(&rank_confirmed(&vec![candidate(3, 1, 0), candidate(9, 1, 1)]));
    t.record(&vec![candidate(2, 1, 0)]);
    assert_eq!((t.total_potential, t.profitable_blocks), (n(11), 2));
}

#[test]
fn sealed_blocks_or_preconfirmations_drive_the_watch() {
    let mut w = Watcher::new(false, 5, n(7));
    let e = w.on_head(100).unwrap();
    assert_eq!((e.max_confirm, e.at), (10, BlockTag::Sealed(100)));
    assert_eq!(w.blocks, 1);
    w.on_gas_price(None);
    assert_eq!(w.gas_price, n(7));
    w.on_gas_price(Some(n(8)));
    assert_eq!(w.gas_price, n(8));

    let mut p = Watcher::new(true, 9, n(7));
    assert!(p.on_head(100).is_none());
    assert_eq!(p.blocks, 1);
    let e = p.on_flashblock(1_000).unwrap();
    assert_eq!((e.max_confirm, e.at), (4, BlockTag::Pending));
    assert!(p.on_flashblock(1_000 + PENDING_PAUSE_MS - 1).is_none());
    assert!(p.on_flashblock(1_000 + PENDING_PAUSE_MS).is_some());
    let mut one = Watcher::new(true, 0, n(7));
    assert_eq!(one.on_flashblock(0).unwrap().max_confirm, 1);
}

#[test]
fn logs_go_to_their_pool_once() {
    let mut reg = apart();
    let sig = "Sync(uint112,uint112)";
    assert!(route_log(&mut reg, &sync(10, sig, 7, 8, 6, 0)));
    // The same log again, an older one, one of the snapshot's block, one of another pool.
    assert!(!route_log(&mut reg, &sync(10, sig, 9, 9, 6, 0)));
    assert!(!route_log(&mut reg, &sync(11, sig, 9, 9, 5, 3)));
    assert!(!route_log(&mut reg, &sync(99, sig, 9, 9, 7, 0)));
    assert!(!route_log(&mut reg, &sync(10, "Burn()", 9, 9, 7, 0)));
    assert_eq!(try_route_log(&mut reg, &sync(99, sig, 9, 9, 7, 0)), Some(false));
    assert_eq!(try_route_log(&mut reg, &sync(11, sig, 5, 6, 7, 0)), Some(true));
    let pool = reg.get(at(10)).unwrap();
    assert_eq!(pool.address(), at(10));
    assert_eq!(pool.protocol(), Protocol::UniswapV2);
    let fresh = live_v2(&info(10, "uniswap-v2", "uniswap_v2", Some(30)), n(7), n(8), 30, 6).unwrap();
    assert_eq!(
        pool.quote(at(USDC), at(WETH), n(1_000)),
        fresh.quote(at(USDC), at(WETH), n(1_000))
    );
    // An Aerodrome pool's own form of the event.
    let a = info(20, "aerodrome", "uniswap_v2", None);
    let mut aero = live_aero(&a, false, n(1_000), n(1_000), 30, 6, 18, 5).unwrap();
    assert!(aero.apply_log(&sync(20, "Sync(uint256,uint256)", 4_000, 1_000, 6, 0)));
    assert_ne!(
        aero.quote(at(USDC), at(WETH), n(100)),
        live_aero(&a, false, n(1_000), n(1_000), 30, 6, 18, 5)
            .unwrap()
            .quote(at(USDC), at(WETH), n(100))
    );
    assert_eq!(registry_topics().len(), 5);
    assert_eq!(registry_topics()[4], topic("Sync(uint256,uint256)"));
}

fn v3_state(liquidity: u128) -> V3PoolState {
    let snap = V3Snapshot { sqrt_price_x96: q96(), liquidity, tick: 0, tick_spacing: 60 };
    V3PoolState::from_snapshot(at(30), at(USDC), at(WETH), 500, 5, snap, &[], None)
}

#[test]
fn a_live_v3_pool_quotes_its_state() {
    let p = info(30, "uniswap-v3", "uniswap_v3", Some(500));
    let live = live_v3(&p, v3_state(1_000_000_000));
    assert_eq!(live.protocol(), Protocol::UniswapV3);
    assert_eq!(live.tokens(), &[at(USDC), at(WETH)]);
    assert_eq!(
        live.quote(at(USDC), at(WETH), n(1_000)),
        v3_state(1_000_000_000).quote(at(USDC), at(WETH), n(1_000))
    );
}

#[test]
fn routes_of_the_quoters() {
    assert_eq!(v3_quoter("uniswap-v3"), Some(uniswap_quoter_v2()));
    assert_eq!(v3_quoter("pancakeswap-v3"), Some(pancake_quoter_v2()));
    assert_eq!(v3_quoter("aerodrome-slipstream"), None);
    assert_eq!(v2_router("uniswap-v2"), Some(uni_v2_router()));
    assert_eq!(v2_router("pancakeswap-v2"), Some(pancake_v2_router()));
    assert_eq!(v2_router("sushi"), None);
    assert_eq!(
        route(&info(1, "uniswap-v3", "uniswap_v3", Some(500))),
        Some(Route::V3 { quoter: uniswap_quoter_v2(), fee: 500 })
    );
    assert_eq!(route(&info(1, "aerodrome", "solidly", None)), Some(Route::Aerodrome));
    assert_eq!(
        route(&info(1, "uniswap-v2", "uniswap_v2", Some(30))),
        Some(Route::V2 { router: uni_v2_router() })
    );
    assert_eq!(route(&info(1, "slipstream", "uniswap_v3", Some(1))), None);
    assert_eq!(last_amount(&[n(1), n(2)]), GtOutcome::Out(n(2)));
    assert_eq!(last_amount(&[]), GtOutcome::Revert);
}

#[test]
fn pools_are_built_by_family() {
    assert_eq!(family(&info(1, "x", "uniswap_v3", None)), Some(Family::V3));
    assert_eq!(family(&info(1, "aerodrome", "solidly", None)), Some(Family::Aerodrome));
    assert_eq!(
        family(&info(1, "pancakeswap-v2", "uniswap_v2", None)),
        Some(Family::V2 { fee_bps: 25 })
    );
    assert_eq!(
        family(&info(1, "uniswap-v2", "uniswap_v2", None)),
        Some(Family::V2 { fee_bps: 30 })
    );
    assert_eq!(family(&info(1, "curve", "curve", None)), None);

    let p = info(10, "aerodrome", "solidly", None);
    let stable = aero_sim(&p, true, n(1_000_000), n(1_000_000), 5, 6, 6).unwrap();
    assert!(matches!(stable, AnyPool::AeroStable(_)));
    assert_eq!(stable.protocol(), Protocol::SolidlyStable);
    let volatile = aero_sim(&p, false, n(1_000_000), n(1_000_000), 30, 6, 6).unwrap();
    assert!(matches!(volatile, AnyPool::AeroVolatile(_)));
    assert!(matches!(v2_sim(&p, n(5), n(5), 30), Some(AnyPool::V2(_))));
    // Empty pools cannot be quoted.
    assert!(v2_sim(&p, U256::zero(), n(5), 30).is_none());
    assert!(aero_sim(&p, false, n(5), U256::zero(), 30, 6, 6).is_none());

    let snap = V3Snapshot { sqrt_price_x96: q96(), liquidity: 5, tick: 0, tick_spacing: 60 };
    assert!(v3_is_live(&snap));
    assert!(matches!(v3_sim(&p, snap, Vec::new()), Some(AnyPool::V3(_))));
    let dead = V3Snapshot { sqrt_price_x96: U256::zero(), ..snap };
    assert!(!v3_is_live(&dead));
    assert!(v3_sim(&p, dead, Vec::new()).is_none());
    assert_eq!(factory_fee(n(30)), 30);
    assert_eq!((aero_factory().hi, aero_factory().lo >> 96), (0x420DD381, 0xb31aEf66));
}

fn sims() -> AddressMap<AnyPool> {
    let mut pools: AddressMap<AnyPool> = RankMap::new();
    let p = info(10, "uniswap-v2", "uniswap_v2", Some(30));
    pools.insert(at(10), v2_sim(&p, n(1_000_000), n(1_100_000), 30).unwrap());
    let q = info(11, "uniswap-v2", "uniswap_v2", Some(30));
    pools.insert(at(11), v2_sim(&q, n(1_000_000), n(900_000), 30).unwrap());
    pools
}

#[test]
fn cycles_are_priced_and_ranked_by_output() {
    let c = cycles();
    assert_eq!(needed_pools(&c), vec![at(10), at(11), at(12)]);
    assert_eq!(pools_of(&c[0]), vec![at(10), at(11)]);
    assert_eq!(tokens_of(&c[0]), vec![at(USDC), at(WETH), at(USDC)]);
    let pools = sims();
    assert!(legs_through(&pools, &c[2]).is_none());
    assert_eq!(legs_through(&pools, &c[0]).unwrap().len(), 2);

    // The cycle that lacks a pool is left out.
    let priced = price_cycles(&pools, &c, n(1_000), U256::zero(), U256::one());
    assert_eq!(priced.len(), 2);
    assert!(priced[0].net_profit.is_some());
    assert!(priced[1].net_profit.is_none());
    let ranked = rank_priced(&priced, 1);
    assert_eq!(ranked.len(), 1);
    assert_eq!(ranked[0].gross_out, priced[0].gross_out);

    let all = rank_cycles(&pools, &c, at(USDC), None, n(1_000), U256::zero(), 10);
    assert_eq!(all.len(), 2);
    assert!(all[0].gross_out >= all[1].gross_out);
}

#[test]
fn the_eth_price_comes_from_a_pool_of_both() {
    assert_eq!(eth_usdc_ratio(&sims(), at(USDC), None), None);
    assert_eq!(eth_usdc_ratio(&sims(), at(USDC), Some(at(77))), None);
    assert!(eth_usdc_ratio(&sims(), at(USDC), Some(at(WETH))).is_some());
}

#[test]
fn quotes_reconcile_to_the_wei() {
    let p = info(10, "uniswap-v2", "uniswap_v2", Some(30));
    let mut r = VerifyReport::default();
    reconcile(&Ok(n(5)), &GtOutcome::Out(n(5)), &p, at(USDC), n(1), &mut r);
    assert!(r.ok());
    assert_eq!((r.quotes_checked, r.passed), (1, 1));
    // A pool that cannot fill agrees with a revert, and with nothing paid out.
    reconcile(&Err(SimError::InsufficientLiquidity), &GtOutcome::Revert, &p, at(USDC), n(1), &mut r);
    assert_eq!(r.passed, 2);
    reconcile(&Ok(n(5)), &GtOutcome::Out(n(6)), &p, at(USDC), n(7), &mut r);
    reconcile(&Ok(n(5)), &GtOutcome::Revert, &p, at(USDC), n(8), &mut r);
    assert!(!r.ok());
    assert_eq!((r.quotes_checked, r.passed, r.mismatches.len()), (4, 2, 2));
    let m = &r.mismatches[0];
    assert_eq!((m.pool, m.token_in, m.amount_in), (at(10), at(USDC), n(7)));
    assert_eq!((m.mine.as_str(), m.chain.as_str()), ("5", "6"));
    assert!(r.skips(&Err(SimError::IncompleteState)));
    assert!(!r.skips(&Ok(n(1))));
    assert_eq!(r.window_skips, 1);
}

#[test]
fn scalars_are_compared_with_a_fresh_read() {
    let p = info(30, "uniswap-v3", "uniswap_v3", Some(500));
    let state = v3_state(9);
    let same = V3Snapshot { sqrt_price_x96: q96(), liquidity: 9, tick: 0, tick_spacing: 60 };
    let mut r = VerifyReport::default();
    check_scalars(&state, &same, &p, &mut r);
    assert_eq!((r.quotes_checked, r.passed), (1, 1));
    check_scalars(&state, &V3Snapshot { liquidity: 8, ..same }, &p, &mut r);
    assert_eq!((r.quotes_checked, r.passed, r.mismatches.len()), (2, 1, 1));
    assert_eq!(r.mismatches[0].exchange, "uniswap-v3/scalars");
}

#[test]
fn a_sweep_spans_the_sizes_of_a_token() {
    assert_eq!(sweep(6), vec![n(1), n(10_000), n(1_000_000), n(100_000_000), n(10_000_000_000)]);
    // A token without decimals has no hundredth: a size of zero is left out.
    assert_eq!(sweep(0), vec![n(1), n(1), n(100), n(10_000)]);
}

#[test]
fn a_quota_bounds_each_family() {
    let mut q = Quota::new(1);
    assert!(q.take_in(&info(1, "uniswap-v3", "uniswap_v3", Some(500))));
    assert!(!q.take_in(&info(2, "uniswap-v3", "uniswap_v3", Some(500))));
    assert!(q.take_in(&info(3, "aerodrome", "solidly", None)));
    assert!(q.take_in(&info(4, "uniswap-v2", "uniswap_v2", Some(30))));
    assert!(!q.take_in(&info(5, "pancakeswap-v2", "uniswap_v2", Some(25))));
    assert!(!Quota::new(9).take_in(&info(6, "curve", "curve", None)));
    let pools = vec![
        info(1, "uniswap-v2", "uniswap_v2", Some(30)),
        info(2, "uniswap-v3", "uniswap_v3", Some(500)),
        info(3, "slipstream", "uniswap_v3", Some(500)),
        info(4, "pancakeswap-v3", "uniswap_v3", Some(500)),
    ];
    assert_eq!(v3_pools_to_check(&pools, 9), vec![1, 3]);
    assert_eq!(v3_pools_to_check(&pools, 1), vec![1]);
}

fn read_all(p: &PoolInfo, prune: bool, mut answer: impl FnMut(&mut Readings, Read)) -> Readings {
    let mut r = Readings::new();
    loop {
        match next_read(p, &r, prune) {
            Read::Done => return r,
            read => answer(&mut r, read),
        }
    }
}

#[test]
fn the_readings_of_each_family() {
    let v3 = info(30, "uniswap-v3", "uniswap_v3", Some(500));
    let live = V3Snapshot { sqrt_price_x96: q96(), liquidity: 5, tick: 30, tick_spacing: 60 };
    let dead = V3Snapshot { liquidity: 0, ..live };
    let mut asked = Vec::new();
    let r = read_all(&v3, true, |r, read| {
        asked.push(read);
        match read {
            Read::Slot0 => r.slot0 = Some(Ok(live)),
            _ => r.ticks = Some(Ok(vec![(-60, 5, 5), (60, 5, -5)])),
        }
    });
    assert_eq!(asked, vec![Read::Slot0, Read::Ticks]);
    assert!(matches!(load_sim(&v3, r, 6, 18), Ok(Some(AnyPool::V3(_)))));

    // The ticks of a dead pool are not read for a simulator, but they are for a live pool.
    let r = read_all(&v3, true, |r, _| r.slot0 = Some(Ok(dead)));
    assert!(r.ticks.is_none());
    assert!(matches!(load_sim(&v3, r, 6, 18), Ok(None)));
    let r = read_all(&v3, false, |r, read| match read {
        Read::Slot0 => r.slot0 = Some(Ok(dead)),
        _ => r.ticks = Some(Ok(vec![(-60, 5, 5)])),
    });
    let pool = build_live_pool(&v3, r, 6, 18, 9, 100).unwrap().unwrap();
    match pool.kind {
        LiveKind::V3(s) => {
            assert_eq!((s.last_key, s.window), ((9, u64::MAX), Some((-70, 130))));
            assert_eq!(s.ticks.get(-60), Some(&(5, 5)));
        }
        _ => panic!("not a V3 pool"),
    }

    let aero = info(20, "aerodrome", "solidly", None);
    let mut asked = Vec::new();
    let r = read_all(&aero, true, |r, read| {
        asked.push(read);
        match read {
            Read::Stable => r.stable = Some(Ok(true)),
            Read::WideReserves => r.reserves = Some(Ok((n(1_000_000), n(1_000_000)))),
            _ => r.fee = Some(Ok(n(5))),
        }
    });
    assert_eq!(asked, vec![Read::Stable, Read::WideReserves, Read::Fee]);
    assert!(matches!(load_sim(&aero, r, 6, 6), Ok(Some(AnyPool::AeroStable(_)))));

    let v2 = info(10, "pancakeswap-v2", "uniswap_v2", None);
    let r = read_all(&v2, true, |r, _| r.reserves = Some(Ok((n(5), n(7)))));
    match load_sim(&v2, r, 6, 6) {
        Ok(Some(AnyPool::V2(sim))) => assert_eq!((sim.reserve1, sim.fee_bps), (n(7), 25)),
        _ => panic!("not a V2 pool"),
    }
    let other = info(1, "curve", "curve", None);
    assert!(matches!(load_sim(&other, Readings::new(), 6, 6), Ok(None)));
}

#[test]
fn which_failed_readings_fail_a_load() {
    let fault = || SourceError::Rpc("stalled".to_string());
    let v3 = info(30, "uniswap-v3", "uniswap_v3", Some(500));
    let snap = V3Snapshot { sqrt_price_x96: q96(), liquidity: 5, tick: 0, tick_spacing: 60 };
    // No answer to the first question: no simulator, but no live pool without an error.
    let silent = || Readings { slot0: Some(Err(fault())), ..Readings::new() };
    assert!(matches!(load_sim(&v3, silent(), 6, 6), Ok(None)));
    assert!(build_live_pool(&v3, silent(), 6, 6, 1, 0).is_err());
    let halfway = || Readings { slot0: Some(Ok(snap)), ticks: Some(Err(fault())), ..Readings::new() };
    assert!(load_sim(&v3, halfway(), 6, 6).is_err());
    assert!(build_live_pool(&v3, halfway(), 6, 6, 1, 0).is_err());

    let aero = info(20, "aerodrome", "solidly", None);
    let silent = Readings { stable: Some(Err(fault())), ..Readings::new() };
    assert!(matches!(load_sim(&aero, silent, 6, 6), Ok(None)));
    let no_reserves =
        Readings { stable: Some(Ok(false)), reserves: Some(Err(fault())), ..Readings::new() };
    assert!(load_sim(&aero, no_reserves, 6, 6).is_err());
    let no_fee = Readings {
        stable: Some(Ok(false)),
        reserves: Some(Ok((n(1), n(1)))),
        fee: Some(Err(fault())),
        ..Readings::new()
    };
    assert!(build_live_pool(&aero, no_fee, 6, 6, 1, 0).is_err());
    let empty = Readings {
        stable: Some(Ok(false)),
        reserves: Some(Ok((n(0), n(1)))),
        ..Readings::new()
    };
    assert_eq!(next_read(&aero, &empty, true), Read::Done);
    assert!(matches!(load_sim(&aero, empty, 6, 6), Ok(None)));

    let v2 = info(10, "uniswap-v2", "uniswap_v2", None);
    let silent = Readings { reserves: Some(Err(fault())), ..Readings::new() };
    assert!(matches!(build_live_pool(&v2, silent, 6, 6, 1, 0), Ok(None)));
}

#[test]
fn quote_replies() {
    assert_eq!(outcome(QuoteReply::Amount(n(4))).unwrap(), GtOutcome::Out(n(4)));
    assert_eq!(outcome(QuoteReply::Amounts(vec![n(4), n(5)])).unwrap(), GtOutcome::Out(n(5)));
    assert_eq!(outcome(QuoteReply::Amounts(vec![])).unwrap(), GtOutcome::Revert);
    assert_eq!(outcome(QuoteReply::Refused).unwrap(), GtOutcome::Revert);
    assert!(matches!(outcome(QuoteReply::Failed("x".to_string())), Err(SourceError::Rpc(w)) if w == "x"));
}

#[test]
fn blocks_behind_the_head() {
    assert_eq!((block_to_check(100), block_to_check(3)), (95, 0));
    assert_eq!(replay_range(100, 20), (75, 95));
    assert_eq!(replay_range(10, 20), (0, 5));
    assert_eq!((pinned_block(100), pinned_block(1)), (98, 0));
}
