use alloy_primitives::U256 as Big;
use arb::amm::balancer_math::{calc_out_given_in, one, pow, pow_down, pow_up, MathError};
use arb::types::U256;

fn u(s: &str) -> U256 {
    let limbs = Big::from_str_radix(s, 10).unwrap().into_limbs();
    U256::from_limbs(limbs[0], limbs[1], limbs[2], limbs[3])
}

// ---- LogExpMath::pow vectors ----
#[test]
fn pow_short_circuits() {
    assert_eq!(pow(u("1000000000000000000"), U256::zero()).unwrap(), one());
    assert_eq!(pow(u("2000000000000000000"), U256::zero()).unwrap(), one());
    assert_eq!(pow(U256::zero(), u("5000000000000000000")).unwrap(), U256::zero());
}

#[test]
fn pow_vectors() {
    // 2^1 -> known LogExpMath truncation (1999999999999999998)
    assert_eq!(
        pow(u("2000000000000000000"), u("1000000000000000000")).unwrap(),
        u("1999999999999999998")
    );
    // 2^0.5 (sqrt 2)
    assert_eq!(
        pow(u("2000000000000000000"), u("500000000000000000")).unwrap(),
        u("1414213562373095047")
    );
    // 2^2
    assert_eq!(
        pow(u("2000000000000000000"), u("2000000000000000000")).unwrap(),
        u("3999999999999999996")
    );
    // 0.5^2
    assert_eq!(
        pow(u("500000000000000000"), u("2000000000000000000")).unwrap(),
        u("250000000000000000")
    );
    // 1.5^0.8
    assert_eq!(
        pow(u("1500000000000000000"), u("800000000000000000")).unwrap(),
        u("1383161867222591646")
    );
    // 3^(1/3)
    assert_eq!(
        pow(u("3000000000000000000"), u("333333333333333333")).unwrap(),
        u("1442249570307408380")
    );
    // 1.05^3 (ln_36 high-precision path)
    assert_eq!(
        pow(u("1050000000000000000"), u("3000000000000000000")).unwrap(),
        u("1157624999999999999")
    );
}

#[test]
fn pow_up_down_bracket_raw() {
    let x = u("1500000000000000000");
    let y = u("800000000000000000");
    let raw = pow(x, y).unwrap();
    let down = pow_down(x, y).unwrap();
    let up = pow_up(x, y).unwrap();
    assert!(down <= raw && raw <= up, "down={down:?} raw={raw:?} up={up:?}");
    assert_eq!(down, u("1383161867222577813"));
    assert_eq!(up, u("1383161867222605479"));
}

// ---- WeightedMath::calcOutGivenIn official vectors ----
#[test]
fn calc_out_given_in_vectors() {
    // 50/50, exp=1.0 (powUp identity). out = 100*(1-100/110) = 9.0909e18.
    assert_eq!(
        calc_out_given_in(
            u("100000000000000000000"),
            u("500000000000000000"),
            u("100000000000000000000"),
            u("500000000000000000"),
            u("10000000000000000000"),
        )
        .unwrap(),
        u("9090909090909090900")
    );
    // 80/20, exp=4.0 (powUp FOUR shortcut)
    assert_eq!(
        calc_out_given_in(
            u("2000000000000000000000"),
            u("800000000000000000"),
            u("1000000000000000000000"),
            u("200000000000000000"),
            u("100000000000000000000"),
        )
        .unwrap(),
        u("177297525208118015000")
    );
    // 60/40, exp=1.5 (LogExpMath)
    assert_eq!(
        calc_out_given_in(
            u("1000000000000000000000"),
            u("600000000000000000"),
            u("1000000000000000000000"),
            u("400000000000000000"),
            u("50000000000000000000"),
        )
        .unwrap(),
        u("70571359096625771000")
    );
    // 20/80, exp=0.25 (LogExpMath)
    assert_eq!(
        calc_out_given_in(
            u("500000000000000000000"),
            u("200000000000000000"),
            u("500000000000000000000"),
            u("800000000000000000"),
            u("25000000000000000000"),
        )
        .unwrap(),
        u("6061726288458007500")
    );
}

#[test]
fn calc_out_given_in_rejects_max_in_ratio() {
    // amount_in > 30% of balance_in must revert.
    assert_eq!(
        calc_out_given_in(
            u("100000000000000000000"),
            u("500000000000000000"),
            u("100000000000000000000"),
            u("500000000000000000"),
            u("40000000000000000000"),
        ),
        Err(MathError::MaxInRatio)
    );
}
