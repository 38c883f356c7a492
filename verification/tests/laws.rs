//! The laws of the pool mathematics on concrete values.
use alloy_primitives::U256 as Big;
use arb::amm::aerodrome::AerodromeVolatilePool;
use arb::amm::balancer::BalancerWeightedPool;
use arb::amm::balancer_math::{
    add, calc_out_given_in, complement, div_down, div_up, exp, ln, mul_down, mul_up, pow, pow_down,
    pow_up, sub, MathError,
};
use arb::amm::curve::CurveStablePool;
use arb::amm::solidly::SolidlyStablePool;
use arb::amm::univ2::UniV2Pool;
use arb::amm::univ3::{q96, TickData, UniV3Pool, MAX_TICK, MIN_TICK};
use arb::math::{mul_div, mul_div_rounding_up, sqrt};
use arb::order::{sorted_by_keys, stable_order_of};
use arb::path::{best_size, net_profit, path_gas, simulate_path, Leg};
use arb::pool::{Pool, SimError};
use arb::types::{Address, I256, U256};

fn at(b: u8) -> Address {
    Address::repeat_byte(b)
}

fn n(x: u64) -> U256 {
    U256::from_u64(x)
}

fn big(x: U256) -> Big {
    Big::from_limbs([x.l0, x.l1, x.l2, x.l3])
}

fn lib(x: Big) -> U256 {
    let [l0, l1, l2, l3] = x.into_limbs();
    U256::from_limbs(l0, l1, l2, l3)
}

fn e18(x: u64) -> U256 {
    lib(Big::from(x) * Big::from(1_000_000_000_000_000_000u64))
}

fn v2(r0: u64, r1: u64) -> UniV2Pool {
    UniV2Pool::new(at(9), at(1), at(2), n(r0), n(r1), 30)
}

#[test]
fn v2_keeps_the_product_and_is_monotone() {
    let p = v2(1_000_003, 777_777);
    let mut last = U256::zero();
    for a in [1u64, 2, 10, 999, 50_000, 10_000_000] {
        let out = p.quote(at(1), at(2), n(a)).unwrap();
        assert!(out < n(777_777));
        assert!(out >= last);
        let after = (Big::from(1_000_003u64) + Big::from(a)) * (Big::from(777_777u64) - big(out));
        assert!(after >= Big::from(1_000_003u64) * Big::from(777_777u64));
        last = out;
    }
    let even = v2(5_000, 5_000);
    assert_eq!(even.quote(at(1), at(2), n(77)), even.quote(at(2), at(1), n(77)));
}

#[test]
fn aerodrome_keeps_the_product_and_quotes_at_least_v2() {
    for a in [1u64, 3, 333, 4_999, 100_000] {
        let p = AerodromeVolatilePool::new(at(9), at(1), at(2), n(1_000_003), n(777_777), 30);
        let out = p.quote(at(1), at(2), n(a)).unwrap();
        assert!(out >= v2(1_000_003, 777_777).quote(at(1), at(2), n(a)).unwrap());
        let after = (Big::from(1_000_003u64) + Big::from(a)) * (Big::from(777_777u64) - big(out));
        assert!(after >= Big::from(1_000_003u64) * Big::from(777_777u64));
    }
}

#[test]
fn sqrt_ratios_rise_with_the_tick() {
    let mut last = U256::zero();
    for tick in [MIN_TICK, -500_000, -1, 0, 1, 60, 500_000, MAX_TICK] {
        let r = UniV3Pool::get_sqrt_ratio_at_tick(tick).unwrap();
        assert!(r > last);
        last = r;
    }
    assert!(UniV3Pool::get_sqrt_ratio_at_tick(MAX_TICK + 1).is_err());
    assert!(UniV3Pool::get_sqrt_ratio_at_tick(MIN_TICK - 1).is_err());
}

#[test]
fn steps_neither_overshoot_nor_overspend() {
    let target = UniV3Pool::get_sqrt_ratio_at_tick(-60).unwrap();
    for amount in [1u64, 1_000, 2_000_000_000, 4_000_000_000] {
        let (next, used, _, fee) =
            UniV3Pool::compute_swap_step(q96(), target, 1_000_000_000_000, n(amount), 3000).unwrap();
        assert!(next >= target);
        assert!(big(used) + big(fee) <= Big::from(amount));
    }
}

#[test]
fn fixed_point_roundings_bracket() {
    let (a, b) = (n(1_234_567_890_123_456_789), n(987_654_321_098_765_432));
    let (down, up) = (mul_down(a, b).unwrap(), mul_up(a, b).unwrap());
    assert_eq!(big(up), big(down) + Big::from(1u8));
    let (down, up) = (div_down(a, b).unwrap(), div_up(a, b).unwrap());
    assert_eq!(big(up), big(down) + Big::from(1u8));
    // An exact quotient rounds the same both ways.
    assert_eq!(div_down(e18(6), e18(3)).unwrap(), div_up(e18(6), e18(3)).unwrap());
}

#[test]
fn rounded_powers_bracket_the_raw_power() {
    let (x, y) = (e18(3), n(500_000_000_000_000_000));
    let raw = pow(x, y).unwrap();
    assert!(pow_down(x, y).unwrap() <= raw);
    assert!(raw < pow_up(x, y).unwrap());
}

#[test]
fn a_weighted_swap_is_covered() {
    let (w, b) = (n(500_000_000_000_000_000), e18(1_000));
    let out = calc_out_given_in(b, w, b, w, e18(300)).unwrap();
    assert!(out > U256::zero() && out <= b);
}

#[test]
fn a_stable_swap_keeps_the_invariant() {
    let p = SolidlyStablePool::new(at(9), at(1), at(2), e18(1_000), e18(1_000), 18, 18, 5);
    let (x, y) = (e18(1_000), e18(1_000));
    let xy = p.k_rescaled(x, y).unwrap();
    let x1 = e18(1_100);
    let y1 = p.get_y(x1, xy, y).unwrap();
    assert!(p.k_rescaled(x1, y1).unwrap() >= xy);
}

#[test]
fn a_curve_swap_keeps_the_invariant_and_is_covered() {
    let m = e18(1_000_000);
    let p = CurveStablePool::new(
        at(9),
        vec![at(1), at(2), at(3)],
        vec![m, m, m],
        vec![e18(1), e18(1), e18(1)],
        n(100),
        0,
    );
    for a in [1u64, 10_000, 5_000_000] {
        let out = p.quote(at(1), at(2), e18(a)).unwrap();
        assert!(out <= m);
        let before = CurveStablePool::get_d(&[m, m, m], n(100)).unwrap();
        let kept = lib(big(m) - big(out));
        let after =
            CurveStablePool::get_d(&[lib(big(m) + big(e18(a))), kept, m], n(100)).unwrap();
        assert!(big(after) + Big::from(2u8) >= big(before));
    }
}

#[test]
fn quotients_and_roots() {
    let (a, b, d) = (n(10), n(10), n(3));
    assert_eq!(mul_div(a, b, d), Some(n(33)));
    assert_eq!(mul_div_rounding_up(a, b, d), Some(n(34)));
    assert_eq!(mul_div(a, b, U256::zero()), None);
    assert_eq!(mul_div_rounding_up(a, b, U256::zero()), None);
    let top = sqrt(lib(Big::MAX - Big::from(1u8)));
    assert_eq!(top, U256::from_u128(u128::MAX));
    assert_eq!(sqrt(U256::max_value()), U256::from_u128(u128::MAX));
    for x in [1u64, 2, 3, 4, 8, 9, 10] {
        let r = big(sqrt(n(x)));
        assert!(r * r <= Big::from(x) && Big::from(x) < (r + Big::from(1u8)) * (r + Big::from(1u8)));
    }
}

#[test]
fn sorting_is_stable_and_keeps_the_items() {
    let keys = [n(5), n(1), n(5), n(0), n(1)];
    assert_eq!(stable_order_of(&keys), vec![3, 1, 4, 0, 2]);
    let items = ['a', 'b', 'c', 'd', 'e'];
    assert_eq!(sorted_by_keys(&items, &keys), vec!['d', 'b', 'e', 'a', 'c']);
    let sorted = [n(0), n(1), n(1)];
    assert_eq!(stable_order_of(&sorted), vec![0, 1, 2]);
}

#[test]
fn paths_compose_and_free_gas_nets_the_edge() {
    let (p, q) = (v2(1_000_000, 1_100_000), v2(1_000_000, 900_000));
    let there = Leg { pool: &p, token_in: at(1), token_out: at(2) };
    let back = Leg { pool: &q, token_in: at(2), token_out: at(1) };
    let middle = simulate_path(&[Leg { pool: &p, token_in: at(1), token_out: at(2) }], n(1_000)).unwrap();
    let end = simulate_path(&[Leg { pool: &q, token_in: at(2), token_out: at(1) }], middle).unwrap();
    let legs = [there, back];
    assert_eq!(simulate_path(&legs, n(1_000)).unwrap(), end);
    assert_eq!(simulate_path(&[], n(7)), Err(SimError::ZeroAmount));
    assert_eq!(path_gas(&legs), 200_000);
    let r = net_profit(&legs, n(1_000), U256::zero(), U256::one()).unwrap();
    assert_eq!(big(r.net_profit.unwrap()), big(end) - Big::from(1_000u64));

    // The size that the search finds nets what the path nets at that size, and no probe beats it.
    let s = best_size(&legs, n(100), n(200_000), U256::zero(), U256::one()).unwrap();
    let at_best = net_profit(&legs, s.amount_in, U256::zero(), U256::one()).unwrap();
    assert_eq!(s.result.net_profit, at_best.net_profit);
    for x in [100u64, 200_000] {
        let probe = net_profit(&legs, n(x), U256::zero(), U256::one()).unwrap();
        assert!(probe.net_profit <= s.result.net_profit);
    }
}

#[test]
fn an_even_trade_is_no_profit() {
    // What goes in comes out: the edge is exactly zero.
    let p = UniV2Pool::new(at(9), at(1), at(2), n(1_000), n(2_000), 0);
    let legs = [Leg { pool: &p, token_in: at(1), token_out: at(2) }];
    let r = net_profit(&legs, n(1_000), U256::zero(), U256::one()).unwrap();
    assert_eq!(r.gross_out, n(1_000));
    assert_eq!(r.net_profit, None);
}

#[test]
fn quotes_refuse_what_they_cannot_fill() {
    let p = v2(1_000, 1_000);
    assert_eq!(p.quote(at(1), at(1), n(1)), Err(SimError::SameToken));
    assert_eq!(p.quote(at(1), at(2), U256::zero()), Err(SimError::ZeroAmount));
    assert_eq!(p.quote(at(7), at(2), n(1)), Err(SimError::UnknownToken(at(7))));
    assert_eq!(v2(0, 1_000).quote(at(1), at(2), n(1)), Err(SimError::InsufficientLiquidity));
    assert_eq!(p.quote(at(1), at(2), U256::max_value()), Err(SimError::Overflow));
    let odd = CurveStablePool::new(at(9), vec![at(1), at(2)], vec![n(1)], vec![n(1)], n(1), 4);
    assert_eq!(
        odd.quote(at(1), at(2), n(1)),
        Err(SimError::BadConfig("coins/balances/rates length mismatch"))
    );
}

#[test]
fn messages_say_what_is_wrong() {
    let vitalik = Address { hi: 0xd8dA6BF2, lo: 0x6964aF9D7eEd9e03E53415D37aA96045 };
    assert_eq!(
        SimError::UnknownToken(vitalik).message(),
        "token 0xd8dA6BF26964aF9D7eEd9e03E53415D37aA96045 is not part of this pool"
    );
    assert_eq!(SimError::SameToken.message(), "token_in and token_out are the same");
    assert_eq!(SimError::ZeroAmount.message(), "amount in is zero");
    assert_eq!(
        SimError::InsufficientLiquidity.message(),
        "insufficient liquidity for the requested swap"
    );
    assert_eq!(SimError::Overflow.message(), "arithmetic overflow in pool math");
    assert_eq!(SimError::BadConfig("x").message(), "pool misconfigured: x");
    assert_eq!(
        SimError::IncompleteState.message(),
        "incomplete state: swap exceeds the cached tick window"
    );
}

#[test]
fn fixed_point_errors() {
    let max = U256::max_value();
    let top = lib(Big::from(1u8) << 255);
    let huge = lib(Big::from(10u8).pow(Big::from(30u8)));
    assert_eq!(pow(top, e18(3)), Err(MathError::XOutOfBounds));
    assert_eq!(pow(e18(3), max), Err(MathError::YOutOfBounds));
    assert_eq!(pow(huge, e18(10)), Err(MathError::ProductOutOfBounds));
    assert_eq!(
        exp(I256::from_u128(131_000_000_000_000_000_000)),
        Err(MathError::InvalidExponent)
    );
    assert_eq!(ln(I256::from_u128(0)), Err(MathError::OutOfBounds));
    assert_eq!(mul_down(max, max), Err(MathError::MulOverflow));
    assert_eq!(mul_up(max, max), Err(MathError::MulOverflow));
    assert_eq!(div_down(max, n(1)), Err(MathError::DivInternal));
    assert_eq!(div_up(max, n(1)), Err(MathError::DivInternal));
    assert_eq!(div_down(n(1), U256::zero()), Err(MathError::ZeroDivision));
    assert_eq!(add(max, n(1)), Err(MathError::AddOverflow));
    assert_eq!(sub(n(0), n(1)), Err(MathError::SubOverflow));
    let w = n(500_000_000_000_000_000);
    assert_eq!(
        calc_out_given_in(e18(10), w, e18(10), w, e18(4)),
        Err(MathError::MaxInRatio)
    );
    assert_eq!(complement(n(400_000_000_000_000_000)), n(600_000_000_000_000_000));
    assert_eq!(complement(e18(2)), U256::zero());
    // e^0 and ln(1).
    assert_eq!(exp(I256::from_u128(0)).unwrap(), I256::from_u128(1_000_000_000_000_000_000));
    assert_eq!(ln(I256::from_u128(1_000_000_000_000_000_000)).unwrap(), I256::from_u128(0));
}

#[test]
fn exact_powers_bracket_the_true_power() {
    let unit = Big::from(1_000_000_000_000_000_000u64);
    let x = n(1_234_567_890_123_456_789);
    assert_eq!(pow_down(x, e18(1)), Ok(x));
    assert_eq!(pow_up(x, e18(1)), Ok(x));
    let square = big(x) * big(x);
    let (down, up) = (big(pow_down(x, e18(2)).unwrap()), big(pow_up(x, e18(2)).unwrap()));
    assert!(down * unit <= square && square <= up * unit);
    assert_eq!(down + Big::from(1u8), up);
    let (down, up) = (big(pow_down(x, e18(4)).unwrap()), big(pow_up(x, e18(4)).unwrap()));
    assert!(down * unit * unit * unit <= square * square);
    assert!(square * square <= up * unit * unit * unit);
    assert!(down < up);
}

#[test]
fn rounded_powers_bracket_the_true_power() {
    let unit = Big::from(1_000_000_000_000_000_000u64);
    let half = n(500_000_000_000_000_000);
    let more = n(1_500_000_000_000_000_000);
    let bases = [
        10_000_000_000_007u128,
        640_000_000_000_000_000,
        950_000_000_000_000_000,
        1_050_000_000_000_000_000,
        1_234_567_890_123_456_789,
        2_250_000_000_000_000_000,
        9_000_000_000_000_000_000,
        40_000_000_000_000_000_000_000,
    ];
    for base in bases {
        let x = lib(Big::from(base));
        // A square root: the square of the power against the base.
        let (down, up) = (big(pow_down(x, half).unwrap()), big(pow_up(x, half).unwrap()));
        assert!(down * down <= big(x) * unit && big(x) * unit <= up * up);
        let cube = big(x) * big(x) * big(x);
        let (down, up) = (big(pow_down(x, more).unwrap()), big(pow_up(x, more).unwrap()));
        assert!(down * down * unit <= cube && cube <= up * up * unit);
        let (down, up) = (big(pow_down(x, e18(3)).unwrap()), big(pow_up(x, e18(3)).unwrap()));
        assert!(down * unit * unit <= cube && cube <= up * unit * unit);
    }
    // The square root of 2.25 is 1.5, within the margin.
    let root = pow_down(n(2_250_000_000_000_000_000), half).unwrap();
    assert!(root > n(1_499_999_999_999_900_000) && root <= n(1_500_000_000_000_000_000));
    assert_eq!(pow_down(e18(5), n(0)), Ok(n(999_999_999_999_989_999)));
    assert_eq!(pow_up(e18(5), n(0)), Ok(n(1_000_000_000_000_010_001)));
    assert_eq!(pow_down(n(0), half), Ok(n(0)));
    assert_eq!(pow_up(n(0), half), Ok(n(1)));
}

#[test]
fn weighted_swaps_keep_the_product() {
    // Weights of 80 and 20: the balances count to the fourth power and to the first.
    let (r0, r1) = (1_234_567_890u64, 9_876_543_210_987_654_321u64);
    for fee in [0u64, 3_000_000_000_000_000] {
        let pool = BalancerWeightedPool::new(
            at(9),
            vec![at(1), at(2)],
            vec![n(r0), n(r1)],
            vec![n(800_000_000_000_000_000), n(200_000_000_000_000_000)],
            vec![6, 18],
            n(fee),
        );
        let fourth = |x: Big| x * x * x * x;
        let before = fourth(Big::from(r0)) * Big::from(r1);
        for a in [1u64, 77, 1_000_000, 123_456_789, 370_000_000] {
            let out = big(pool.quote(at(1), at(2), n(a)).unwrap());
            assert!(fourth(Big::from(r0 + a)) * (Big::from(r1) - out) >= before);
        }
        for a in [1u64, 1_000_000_000, 1_000_000_000_000_000_000, 2_900_000_000_000_000_000] {
            let out = big(pool.quote(at(2), at(1), n(a)).unwrap());
            assert!(fourth(Big::from(r0) - out) * Big::from(r1 + a) >= before);
        }
    }
}

#[test]
fn the_best_size_is_the_peak() {
    // The first pool refuses what would leave its known ticks; the second pays three for one.
    // The profit rises by about two a unit until the loop reverts.
    let deep = |x: u8| lib(Big::from(x) * Big::from(10u8).pow(Big::from(30u8)));
    for liquidity in [40_000_000_000_000u128, 77_777_777_777_777, 250_000_000_000_000] {
        let ends = vec![
            TickData { tick: -60_000, liquidity_net: liquidity as i128 },
            TickData { tick: 60_000, liquidity_net: -(liquidity as i128) },
        ];
        let first = UniV3Pool::new(at(9), at(1), at(2), 500, q96(), liquidity, 0, 10, ends)
            .with_known_range(-10, 10);
        let second = UniV2Pool::new(at(8), at(1), at(2), deep(3), deep(1), 30);
        let legs = [
            Leg { pool: &first, token_in: at(1), token_out: at(2) },
            Leg { pool: &second, token_in: at(2), token_out: at(1) },
        ];
        // The largest size that does not revert.
        let (mut good, mut bad) = (1u64, 186_000_000_001u64);
        while bad - good > 1 {
            let mid = good + (bad - good) / 2;
            if simulate_path(&legs, n(mid)).is_ok() {
                good = mid;
            } else {
                bad = mid;
            }
        }
        assert!(good > 10_000_000_000);
        let best = best_size(&legs, n(1_000), n(186_000_000_001), U256::zero(), n(1)).unwrap();
        let most = best.result.net_profit.unwrap();
        assert!(most > n(good));
        for x in [1_000, good / 3, good - 1_000_000].into_iter().chain(good - 50..=good) {
            let net = net_profit(&legs, n(x), U256::zero(), n(1)).unwrap().net_profit;
            assert!(net.unwrap_or(U256::zero()) <= most);
        }
    }
}

#[test]
fn a_rounded_concave_curve_is_searched_to_the_top() {
    let (p, q) = (v2(1_000_000, 1_100_000), v2(1_000_000, 900_000));
    let legs = [
        Leg { pool: &p, token_in: at(1), token_out: at(2) },
        Leg { pool: &q, token_in: at(2), token_out: at(1) },
    ];
    let best = best_size(&legs, n(1), n(200_000), U256::zero(), n(1)).unwrap();
    let found = big(best.result.net_profit.unwrap());
    let mut most = Big::ZERO;
    for x in 10..=200_000u64 {
        if let Some(net) = net_profit(&legs, n(x), U256::zero(), n(1)).unwrap().net_profit {
            most = most.max(big(net));
        }
    }
    assert!(most > Big::ZERO && found <= most);
    // Each of the two legs rounds by less than one unit.
    assert!(most - found <= Big::from(2u8));
}
