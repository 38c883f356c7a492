use arb::amm::univ2::UniV2Pool;
use arb::path::{best_size, net_profit, simulate_path, Leg};
use arb::types::{Address, U256};


fn addr(n: u8) -> Address {
    Address::repeat_byte(n)
}

#[test]
fn two_hop_loop_profitable_when_priced_apart() {
    let usdc = addr(1);
    let weth = addr(2);
    // Pool A: cheap WETH (lots of WETH per USDC). Pool B: expensive WETH.
    let pool_a = UniV2Pool::new(addr(10), usdc, weth, U256::from_u64(1_000_000), U256::from_u64(1_100_000), 30);
    let pool_b = UniV2Pool::new(addr(11), usdc, weth, U256::from_u64(1_000_000), U256::from_u64(900_000), 30);
    let legs = vec![
        Leg { pool: &pool_a, token_in: usdc, token_out: weth },
        Leg { pool: &pool_b, token_in: weth, token_out: usdc },
    ];
    let out = simulate_path(&legs, U256::from_u64(1000)).unwrap();
    // buy weth cheap on A, sell dear on B => more usdc out than in.
    assert!(out > U256::from_u64(1000), "expected profit, got {out:?}");
}

#[test]
fn net_profit_subtracts_gas() {
    let usdc = addr(1);
    let weth = addr(2);
    let pool_a = UniV2Pool::new(addr(10), usdc, weth, U256::from_u64(1_000_000), U256::from_u64(1_100_000), 30);
    let pool_b = UniV2Pool::new(addr(11), usdc, weth, U256::from_u64(1_000_000), U256::from_u64(900_000), 30);
    let legs = vec![
        Leg { pool: &pool_a, token_in: usdc, token_out: weth },
        Leg { pool: &pool_b, token_in: weth, token_out: usdc },
    ];
    // Zero gas price => net == gross edge.
    let r = net_profit(&legs, U256::from_u64(1000), U256::zero(), U256::from_u64(1)).unwrap();
    assert!(r.net_profit.is_some());
    assert_eq!(r.gas_cost_in_token, U256::zero());
}

#[test]
fn best_size_finds_the_profit_peak() {
    let usdc = addr(1);
    let weth = addr(2);
    // Priced-apart pools => a real arb with a finite optimal size.
    let pool_a = UniV2Pool::new(addr(10), usdc, weth, U256::from_u64(1_000_000), U256::from_u64(1_100_000), 30);
    let pool_b = UniV2Pool::new(addr(11), usdc, weth, U256::from_u64(1_000_000), U256::from_u64(900_000), 30);
    let legs = vec![
        Leg { pool: &pool_a, token_in: usdc, token_out: weth },
        Leg { pool: &pool_b, token_in: weth, token_out: usdc },
    ];
    let sized = best_size(&legs, U256::from_u64(1), U256::from_u64(900_000), U256::zero(), U256::from_u64(1))
        .expect("an arb exists -> Some");
    let net = sized.result.net_profit.expect("optimal size is profitable");
    // The optimum is interior: better than a tiny probe and a near-max probe.
    let small = net_profit(&legs, U256::from_u64(10), U256::zero(), U256::from_u64(1)).unwrap();
    let huge = net_profit(&legs, U256::from_u64(800_000), U256::zero(), U256::from_u64(1)).unwrap();
    let prof = |o: Option<U256>| o.unwrap_or(U256::zero());
    assert!(net > prof(small.net_profit), "optimum beats a tiny size");
    assert!(net > prof(huge.net_profit), "optimum beats an oversized trade");
    assert!(sized.amount_in > U256::from_u64(10) && sized.amount_in < U256::from_u64(800_000));
}

#[test]
fn best_size_none_when_no_arb() {
    let usdc = addr(1);
    let weth = addr(2);
    // Identical pools => closed loop only ever loses fees: rate <= 1.
    let pool_a = UniV2Pool::new(addr(10), usdc, weth, U256::from_u64(1_000_000), U256::from_u64(1_000_000), 30);
    let pool_b = UniV2Pool::new(addr(11), usdc, weth, U256::from_u64(1_000_000), U256::from_u64(1_000_000), 30);
    let legs = vec![
        Leg { pool: &pool_a, token_in: usdc, token_out: weth },
        Leg { pool: &pool_b, token_in: weth, token_out: usdc },
    ];
    assert!(best_size(&legs, U256::from_u64(1), U256::from_u64(900_000), U256::zero(), U256::from_u64(1)).is_none());
}
