use alloy_primitives::U256 as Big;
use arb::amm::curve::CurveStablePool;
use arb::math::mul_div;
use arb::pool::Pool;
use arb::types::{Address, U256};

/// The library's value of a number.
fn lib(x: Big) -> U256 {
    let limbs = x.into_limbs();
    U256::from_limbs(limbs[0], limbs[1], limbs[2], limbs[3])
}

/// The number of the library's value.
fn big(x: U256) -> Big {
    Big::from_limbs([x.l0, x.l1, x.l2, x.l3])
}

fn addr(n: u8) -> Address {
    Address::repeat_byte(n)
}

fn e18() -> Big {
    Big::from(1_000_000_000_000_000_000u64)
}

#[test]
fn three_pool_stable_quote() {
    // 3 coins, all 18 decimals, balanced 1M each, A=100, 4bps fee.
    let one_m = lib(Big::from(1_000_000u64) * e18());
    let pool = CurveStablePool::new(
        addr(9),
        vec![addr(1), addr(2), addr(3)],
        vec![one_m, one_m, one_m],
        vec![lib(e18()), lib(e18()), lib(e18())],
        U256::from_u64(100),
        4,
    );
    let amount_in = lib(Big::from(10_000u64) * e18());
    let out = pool.quote(addr(1), addr(2), amount_in).unwrap();
    // Near 1:1 with tiny slippage+fee.
    let lo = mul_div(amount_in, U256::from_u64(995), U256::from_u64(1000)).unwrap();
    assert!(out < amount_in && out > lo, "out={out:?} in={amount_in:?}");
}

// The defining correctness property of StableSwap: a swap must conserve the
// invariant D. We compute D, perform the get_y step the quote uses, then
// recompute D on the post-swap balances and require it to match (the Newton
// solvers leave at most a couple of wei of rounding error). This validates
// get_d/get_y the same way Curve's own test suite asserts on D.
#[test]
fn swap_conserves_invariant_d() {
    let one_m = lib(Big::from(1_000_000u64) * e18());
    let xp = vec![one_m, one_m, one_m];
    let a = U256::from_u64(2000);
    let d0 = CurveStablePool::get_d(&xp, a).unwrap();

    // Push 50k of coin 0 in, solve for coin 1's new balance.
    let dx = lib(Big::from(50_000u64) * e18());
    let x = lib(big(xp[0]) + big(dx));
    let y = CurveStablePool::get_y(0, 1, x, &xp, a).unwrap();

    let xp_after = vec![x, y, xp[2]];
    let d1 = CurveStablePool::get_d(&xp_after, a).unwrap();

    let diff = if d1 > d0 { big(d1) - big(d0) } else { big(d0) - big(d1) };
    assert!(diff <= Big::from(2u64), "D drifted by {diff:?} (d0={d0:?}, d1={d1:?})");
}
