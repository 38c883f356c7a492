use alloy_primitives::U256 as Big;
use arb::amm::univ3::{q96, TickData, UniV3Pool, MAX_TICK, MIN_TICK};
use arb::pool::{Pool, SimError};
use arb::types::{Address, U256};

/// The library's value of a number.
fn lib(x: Big) -> U256 {
    let limbs = x.into_limbs();
    U256::from_limbs(limbs[0], limbs[1], limbs[2], limbs[3])
}

fn dec(s: &str) -> U256 {
    let limbs = Big::from_str_radix(s, 10).unwrap().into_limbs();
    U256::from_limbs(limbs[0], limbs[1], limbs[2], limbs[3])
}

// encodePriceSqrt(1, 1) == 2^96
fn q96_val() -> U256 {
    dec("79228162514264337593543950336")
}
// encodePriceSqrt(121, 100) == floor(1.1 * 2^96), from v3-core tests.
fn sqrt_121_100() -> U256 {
    dec("87150978765690771352898345369")
}
fn e18() -> u128 {
    1_000_000_000_000_000_000u128
}

#[test]
fn sqrt_ratio_at_tick_zero() {
    // tick 0 => price 1 => sqrtPriceX96 == 2^96
    assert_eq!(UniV3Pool::get_sqrt_ratio_at_tick(0).unwrap(), q96());
}

// ---- TickMath.getSqrtRatioAtTick: exact vectors from Uniswap v3-core ----
// github.com/Uniswap/v3-core test/TickMath.spec.ts
#[test]
fn tick_math_official_vectors() {
    assert_eq!(
        UniV3Pool::get_sqrt_ratio_at_tick(MIN_TICK).unwrap(),
        dec("4295128739")
    );
    assert_eq!(
        UniV3Pool::get_sqrt_ratio_at_tick(MIN_TICK + 1).unwrap(),
        dec("4295343490")
    );
    assert_eq!(
        UniV3Pool::get_sqrt_ratio_at_tick(MAX_TICK - 1).unwrap(),
        dec("1461373636630004318706518188784493106690254656249")
    );
    assert_eq!(
        UniV3Pool::get_sqrt_ratio_at_tick(MAX_TICK).unwrap(),
        dec("1461446703485210103287273052203988822378723970342")
    );
}

// ---- SqrtPriceMath.getAmount0Delta / getAmount1Delta: v3-core vectors ----
// github.com/Uniswap/v3-core test/SqrtPriceMath.spec.ts
#[test]
fn amount_deltas_official_vectors() {
    // getAmount0Delta(1, 1.21, 1e18)
    assert_eq!(
        UniV3Pool::get_amount0_delta(q96_val(), sqrt_121_100(), e18(), true).unwrap(),
        dec("90909090909090910")
    );
    assert_eq!(
        UniV3Pool::get_amount0_delta(q96_val(), sqrt_121_100(), e18(), false).unwrap(),
        dec("90909090909090909")
    );
    // getAmount1Delta(1, 1.21, 1e18)
    assert_eq!(
        UniV3Pool::get_amount1_delta(q96_val(), sqrt_121_100(), e18(), true).unwrap(),
        dec("100000000000000000")
    );
    assert_eq!(
        UniV3Pool::get_amount1_delta(q96_val(), sqrt_121_100(), e18(), false).unwrap(),
        dec("99999999999999999")
    );
}

// ---- SqrtPriceMath.getNextSqrtPriceFromInput: v3-core vectors ----
#[test]
fn next_sqrt_price_from_input_official_vectors() {
    // (price 1, L=1e18, amountIn=1e17, oneForZero) => add to amount1
    assert_eq!(
        UniV3Pool::get_next_sqrt_price_from_input(
            q96_val(),
            e18(),
            dec("100000000000000000"),
            false,
        )
        .unwrap(),
        dec("87150978765690771352898345369")
    );
    // (price 1, L=1e18, amountIn=1e17, zeroForOne)
    assert_eq!(
        UniV3Pool::get_next_sqrt_price_from_input(
            q96_val(),
            e18(),
            dec("100000000000000000"),
            true,
        )
        .unwrap(),
        dec("72025602285694852357767227579")
    );
    // (price 1, L=1e19, amountIn=2^100, zeroForOne)
    assert_eq!(
        UniV3Pool::get_next_sqrt_price_from_input(
            q96_val(),
            10_000_000_000_000_000_000u128,
            dec("1267650600228229401496703205376"), // 2^100
            true,
        )
        .unwrap(),
        dec("624999999995069620")
    );
    // Overflow-path sanity: tiny liquidity, huge input rounds price to 1.
    assert_eq!(
        UniV3Pool::get_next_sqrt_price_from_input(
            U256::from_u64(1),
            1u128,
            lib(Big::MAX / Big::from(2u64)),
            true,
        )
        .unwrap(),
        U256::from_u64(1)
    );
}

// The "swap computation" vector from v3-core SqrtPriceMath.spec.ts.
#[test]
fn next_sqrt_price_swap_computation_vector() {
    let sqrt_p = dec("1025574284609383690408304870162715216695788925244");
    let liquidity = 50_015_962_439_936_049_619_261_659_728_067_971_248u128;
    let got =
        UniV3Pool::get_next_sqrt_price_from_input(sqrt_p, liquidity, U256::from_u64(406), true)
            .unwrap();
    assert_eq!(
        got,
        dec("1025574284609383582644711336373707553698163132913")
    );
}

// ---- End-to-end swap: single active range, no tick crossing ----
#[test]
fn windowed_state_matches_within_window_and_flags_beyond() {
    // Full pool: liquidity across [-60000, 60000].
    let t0 = Address::repeat_byte(1);
    let t1 = Address::repeat_byte(2);
    let ticks = vec![
        TickData { tick: -60_000, liquidity_net: 5_000_000_000_000_000_000i128 },
        TickData { tick: 60_000, liquidity_net: -5_000_000_000_000_000_000i128 },
    ];
    let full = UniV3Pool::new(
        Address::repeat_byte(9), t0, t1, 500, q96_val(),
        5_000_000_000_000_000_000u128, 0, 10, ticks.clone(),
    );
    // Windowed copy that only "knows" ticks within [-600, 600].
    let windowed = UniV3Pool::new(
        Address::repeat_byte(9), t0, t1, 500, q96_val(),
        5_000_000_000_000_000_000u128, 0, 10, ticks,
    )
    .with_known_range(-600, 600);

    // A small trade stays well within the window -> identical to full data.
    let small = dec("1000000000000000"); // 1e15
    assert_eq!(
        windowed.quote(t0, t1, small).unwrap(),
        full.quote(t0, t1, small).unwrap()
    );

    // A trade large enough to push price past the window -> flagged, not wrong.
    let big = dec("100000000000000000000"); // 100e18
    assert_eq!(windowed.quote(t0, t1, big), Err(SimError::IncompleteState));
    // ...while the full-data pool still quotes it fine.
    assert!(full.quote(t0, t1, big).is_ok());
}

#[test]
fn single_range_swap_consumes_input() {
    // A pool at price 1 with a single wide liquidity range. Swapping a small
    // amount in should return a positive, slightly-less-than-input amount.
    let t0 = Address::repeat_byte(1);
    let t1 = Address::repeat_byte(2);
    let ticks = vec![
        TickData { tick: -60_000, liquidity_net: 1_000_000_000_000_000_000i128 },
        TickData { tick: 60_000, liquidity_net: -1_000_000_000_000_000_000i128 },
    ];
    let pool = UniV3Pool::new(
        Address::repeat_byte(9),
        t0,
        t1,
        500, // 0.05%
        q96_val(),
        1_000_000_000_000_000_000u128,
        0,
        10, // tick_spacing
        ticks,
    );
    let amount_in = dec("1000000000000000"); // 1e15
    let out = pool.quote(t0, t1, amount_in).unwrap();
    assert!(out > U256::zero() && out < amount_in, "out={out:?}");
}
