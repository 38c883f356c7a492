use arb::amm::univ2::UniV2Pool;
use arb::pool::{Pool, SimError};
use arb::types::{Address, U256};

fn addr(n: u8) -> Address {
    Address::repeat_byte(n)
}

#[test]
fn official_get_amount_out_vectors() {
    // From Uniswap v2-periphery UniswapV2Library getAmountOut tests
    // (0.30% fee). getAmountOut(2, 100, 100) == 1.
    let pool = UniV2Pool::new(
        addr(9),
        addr(1),
        addr(2),
        U256::from_u64(100),
        U256::from_u64(100),
        30,
    );
    assert_eq!(
        pool.quote(addr(1), addr(2), U256::from_u64(2)).unwrap(),
        U256::from_u64(1)
    );

    // getAmountOut(10, 1000, 1000): 10*997*1000/(1000*1000+10*997) = 9.
    let pool = UniV2Pool::new(
        addr(9),
        addr(1),
        addr(2),
        U256::from_u64(1000),
        U256::from_u64(1000),
        30,
    );
    assert_eq!(
        pool.quote(addr(1), addr(2), U256::from_u64(10)).unwrap(),
        U256::from_u64(9)
    );
}

#[test]
fn matches_uniswap_v2_formula() {
    // reserves 1000 / 1000, 0.3% fee, 100 in.
    // out = 1000*997*100 / (1000*1000 + 997*100) = 99700000 / 1099700 = 90.66..
    let pool = UniV2Pool::new(
        addr(9),
        addr(1),
        addr(2),
        U256::from_u64(1000),
        U256::from_u64(1000),
        30,
    );
    let out = pool
        .quote(addr(1), addr(2), U256::from_u64(100))
        .unwrap();
    assert_eq!(out, U256::from_u64(90));
}

#[test]
fn symmetric_directions() {
    let pool = UniV2Pool::new(
        addr(9),
        addr(1),
        addr(2),
        U256::from_u64(5_000_000),
        U256::from_u64(5_000_000),
        30,
    );
    let a = pool.quote(addr(1), addr(2), U256::from_u64(10_000)).unwrap();
    let b = pool.quote(addr(2), addr(1), U256::from_u64(10_000)).unwrap();
    assert_eq!(a, b); // symmetric reserves => symmetric quote
}

#[test]
fn unknown_token_errors() {
    let pool = UniV2Pool::new(
        addr(9),
        addr(1),
        addr(2),
        U256::from_u64(1000),
        U256::from_u64(1000),
        30,
    );
    assert_eq!(
        pool.quote(addr(3), addr(2), U256::from_u64(1)),
        Err(SimError::UnknownToken(addr(3)))
    );
}
