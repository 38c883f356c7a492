use arb::math::{mul_div, mul_div_rounding_up, sqrt};
use arb::types::U256;

#[test]
fn mul_div_basic() {
    let r = mul_div(U256::from_u64(6), U256::from_u64(7), U256::from_u64(2)).unwrap();
    assert_eq!(r, U256::from_u64(21));
}

#[test]
fn mul_div_no_overflow() {
    // a*b overflows U256 (MAX*2) but the quotient (MAX) fits.
    let big = U256::max_value();
    let r = mul_div(big, U256::from_u64(2), U256::from_u64(2)).unwrap();
    assert_eq!(r, big);
    // And a result that genuinely exceeds 256 bits returns None.
    assert_eq!(mul_div(big, U256::from_u64(4), U256::from_u64(2)), None);
}

#[test]
fn mul_div_rounds_up() {
    let r = mul_div_rounding_up(U256::from_u64(7), U256::from_u64(1), U256::from_u64(2)).unwrap();
    assert_eq!(r, U256::from_u64(4));
}

#[test]
fn sqrt_floor() {
    assert_eq!(sqrt(U256::from_u64(0)), U256::from_u64(0));
    assert_eq!(sqrt(U256::from_u64(15)), U256::from_u64(3));
    assert_eq!(sqrt(U256::from_u64(16)), U256::from_u64(4));
    let big = 1_000_000_000_000u128;
    assert_eq!(sqrt(U256::from_u128(big * big)), U256::from_u128(big));
}
