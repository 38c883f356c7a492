use alloy_primitives::U256 as Big;
use arb::amm::balancer::BalancerWeightedPool;
use arb::pool::{Pool, SimError};
use arb::types::{Address, U256};

/// The library's value of a number.
fn lib(x: Big) -> U256 {
    let limbs = x.into_limbs();
    U256::from_limbs(limbs[0], limbs[1], limbs[2], limbs[3])
}

fn addr(n: u8) -> Address {
    Address::repeat_byte(n)
}
fn e18() -> Big {
    Big::from(10u64).pow(Big::from(18u64))
}
fn half() -> U256 {
    U256::from_u64(500_000_000_000_000_000)
}

#[test]
fn fifty_fifty_18dec_matches_weighted_math() {
    // No fee, 18-decimal tokens, balances 100/100, in 10 => 9.0909e18 exactly
    // (the same value asserted in balancer_math's official-vector test).
    let pool = BalancerWeightedPool::new(
        addr(9),
        vec![addr(1), addr(2)],
        vec![lib(Big::from(100u64) * e18()), lib(Big::from(100u64) * e18())],
        vec![half(), half()],
        vec![18, 18],
        U256::zero(),
    );
    let out = pool
        .quote(addr(1), addr(2), lib(Big::from(10u64) * e18()))
        .unwrap();
    assert_eq!(
        out,
        lib(Big::from_str_radix("9090909090909090900", 10).unwrap())
    );
}

#[test]
fn applies_swap_fee() {
    // With a 1% fee the output must be strictly less than the zero-fee case.
    let mk = |fee_bps: u32| {
        BalancerWeightedPool::from_bps(
            addr(9),
            vec![addr(1), addr(2)],
            vec![lib(Big::from(100u64) * e18()), lib(Big::from(100u64) * e18())],
            vec![half(), half()],
            vec![18, 18],
            fee_bps,
        )
    };
    let no_fee = mk(0).quote(addr(1), addr(2), lib(Big::from(10u64) * e18())).unwrap();
    let with_fee = mk(100).quote(addr(1), addr(2), lib(Big::from(10u64) * e18())).unwrap();
    assert!(with_fee < no_fee, "fee should reduce output: {with_fee:?} vs {no_fee:?}");
}

#[test]
fn balancer_handles_mixed_decimals() {
    // token0 6-dec (USDC-like), token1 18-dec, 80/20 weights. Just sanity:
    // a positive output and no panic across the scaling boundary.
    let pool = BalancerWeightedPool::new(
        addr(9),
        vec![addr(1), addr(2)],
        vec![
            lib(Big::from(2_000_000u64) * Big::from(10u64).pow(Big::from(6u64))),
            lib(Big::from(8000u64) * e18()),
        ],
        vec![
            U256::from_u64(200_000_000_000_000_000), // 0.2e18
            U256::from_u64(800_000_000_000_000_000), // 0.8e18
        ],
        vec![6, 18],
        U256::zero(),
    );
    let amount_in = lib(Big::from(1000u64) * Big::from(10u64).pow(Big::from(6u64))); // 1000 USDC
    let out = pool.quote(addr(1), addr(2), amount_in).unwrap();
    assert!(out > U256::zero());
}

#[test]
fn rejects_oversized_input() {
    let pool = BalancerWeightedPool::new(
        addr(9),
        vec![addr(1), addr(2)],
        vec![lib(Big::from(100u64) * e18()), lib(Big::from(100u64) * e18())],
        vec![half(), half()],
        vec![18, 18],
        U256::zero(),
    );
    // > 30% of balance_in -> MAX_IN_RATIO -> InsufficientLiquidity
    let res = pool.quote(addr(1), addr(2), lib(Big::from(40u64) * e18()));
    assert_eq!(res, Err(SimError::InsufficientLiquidity));
}
