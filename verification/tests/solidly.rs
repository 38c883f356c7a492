use alloy_primitives::U256 as Big;
use arb::amm::solidly::SolidlyStablePool;
use arb::math::mul_div;
use arb::pool::Pool;
use arb::types::{Address, U256};

/// The library's value of a number.
fn lib(x: Big) -> U256 {
    let limbs = x.into_limbs();
    U256::from_limbs(limbs[0], limbs[1], limbs[2], limbs[3])
}

fn e18() -> Big {
    Big::from(1_000_000_000_000_000_000u64)
}

fn addr(n: u8) -> Address {
    Address::repeat_byte(n)
}

#[test]
fn stable_swap_near_peg() {
    // Two 18-decimal stables, deep balanced reserves. A small trade on the
    // stable curve should return very close to 1:1 (better than V2 would).
    let one_m = lib(Big::from(1_000_000u64) * e18());
    let pool = SolidlyStablePool::new(
        addr(9),
        addr(1),
        addr(2),
        one_m,
        one_m,
        18,
        18,
        5,
    );
    let amount_in = lib(Big::from(1000u64) * e18());
    let out = pool.quote(addr(1), addr(2), amount_in).unwrap();

    // Out should be slightly less than in (fee + slippage), but within ~0.1%.
    let lower = mul_div(amount_in, U256::from_u64(999), U256::from_u64(1000)).unwrap();
    assert!(out < amount_in, "out {out:?} should be < in {amount_in:?}");
    assert!(out > lower, "out {out:?} should be within 0.1% of in {amount_in:?}");
}

#[test]
fn solidly_handles_mixed_decimals() {
    // token0 6-dec (USDC-like), token1 18-dec (DAI-like), both ~1M.
    let pool = SolidlyStablePool::new(
        addr(9),
        addr(1),
        addr(2),
        U256::from_u64(1_000_000_000_000),      // 1M * 1e6
        lib(Big::from(1_000_000u64) * e18()),       // 1M * 1e18
        6,
        18,
        5,
    );
    let amount_in = U256::from_u64(1_000_000_000); // 1000 USDC (1e6)
    let out = pool.quote(addr(1), addr(2), amount_in).unwrap();
    // ~1000 DAI (1e18) expected, within ~0.2%.
    let expected = lib(Big::from(1000u64) * e18());
    let lo = mul_div(expected, U256::from_u64(998), U256::from_u64(1000)).unwrap();
    let hi = mul_div(expected, U256::from_u64(1002), U256::from_u64(1000)).unwrap();
    assert!(out > lo && out < hi, "out={out:?} expected≈{expected:?}");
}

#[test]
fn degenerate_weth_usdc_stable_reverts_like_chain() {
    // Real Base pool 0x3548… (WETH/USDC mis-paired as "stable") at block
    // 47978632: reserves 4.354 WETH / 20434 USDC. On-chain getAmountOut for
    // 0.01 WETH reverts (panic 0x11 overflow) — the Newton solve is
    // ill-conditioned. The sim MUST also fail (return Err), not a phantom value.
    let weth = addr(1);
    let usdc = addr(2);
    let r0 = lib(Big::from_str_radix("3c6f3bb56ce6567f", 16).unwrap()); // WETH (18)
    let r1 = lib(Big::from_str_radix("4c1e205bb", 16).unwrap()); // USDC (6)
    let pool = SolidlyStablePool::new(addr(9), weth, usdc, r0, r1, 18, 6, 5);
    let out = pool.quote(weth, usdc, U256::from_u64(10_000_000_000_000_000)); // 0.01 WETH
    assert!(out.is_err(), "expected revert-equivalent Err, got {out:?}");
}
