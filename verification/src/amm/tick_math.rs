//! Tick prices: the Q64.96 square root of `1.0001^tick`.
use crate::math::ceil_div;
use crate::pool::SimError;
use crate::types::{lemma_u256_range, two128, two256, U256};
use vstd::arithmetic::div_mod::{lemma_div_is_ordered, lemma_small_mod};
use vstd::prelude::*;

verus! {

/// The lowest tick with a price.
pub const MIN_TICK: i32 = -887272;

/// The highest tick with a price.
pub const MAX_TICK: i32 = 887272;

/// The price of the lowest tick.
pub open spec fn min_sqrt() -> int {
    4295128739
}

/// The price of the highest tick.
pub open spec fn max_sqrt() -> int {
    1461446703485210103287273052203988822378723970342int
}

/// `sqrt(1.0001)^-(2^k)` as a Q128.128 fixed-point factor.
pub open spec fn tick_factor(k: int) -> int {
    if k == 0 {
        0xfffcb933bd6fad37aa2d162d1a594001
    } else if k == 1 {
        0xfff97272373d413259a46990580e213a
    } else if k == 2 {
        0xfff2e50f5f656932ef12357cf3c7fdcc
    } else if k == 3 {
        0xffe5caca7e10e4e61c3624eaa0941cd0
    } else if k == 4 {
        0xffcb9843d60f6159c9db58835c926644
    } else if k == 5 {
        0xff973b41fa98c081472e6896dfb254c0
    } else if k == 6 {
        0xff2ea16466c96a3843ec78b326b52861
    } else if k == 7 {
        0xfe5dee046a99a2a811c461f1969c3053
    } else if k == 8 {
        0xfcbe86c7900a88aedcffc83b479aa3a4
    } else if k == 9 {
        0xf987a7253ac413176f2b074cf7815e54
    } else if k == 10 {
        0xf3392b0822b70005940c7a398e4b70f3
    } else if k == 11 {
        0xe7159475a2c29b7443b29c7fa6e889d9
    } else if k == 12 {
        0xd097f3bdfd2022b8845ad8f792aa5825
    } else if k == 13 {
        0xa9f746462d870fdf8a65dc1f90e061e5
    } else if k == 14 {
        0x70d869a156d2a1b890bb3df62baf32f7
    } else if k == 15 {
        0x31be135f97d08fd981231505542fcfa6
    } else if k == 16 {
        0x9aa508b5b7a84e1c677de54f3e99bc9
    } else if k == 17 {
        0x5d6af8dedb81196699c329225ee604
    } else if k == 18 {
        0x2216e584f5fa1ea926041bedfe98
    } else {
        0x48a170391f7dc42444e8fa2
    }
}

/// [`tick_factor`] for a bit position below 20.
fn factor_of(k: u32) -> (r: u128)
    requires
        k < 20,
    ensures
        r == tick_factor(k as int),
{
    match k {
        0 => 0xfffcb933bd6fad37aa2d162d1a594001,
        1 => 0xfff97272373d413259a46990580e213a,
        2 => 0xfff2e50f5f656932ef12357cf3c7fdcc,
        3 => 0xffe5caca7e10e4e61c3624eaa0941cd0,
        4 => 0xffcb9843d60f6159c9db58835c926644,
        5 => 0xff973b41fa98c081472e6896dfb254c0,
        6 => 0xff2ea16466c96a3843ec78b326b52861,
        7 => 0xfe5dee046a99a2a811c461f1969c3053,
        8 => 0xfcbe86c7900a88aedcffc83b479aa3a4,
        9 => 0xf987a7253ac413176f2b074cf7815e54,
        10 => 0xf3392b0822b70005940c7a398e4b70f3,
        11 => 0xe7159475a2c29b7443b29c7fa6e889d9,
        12 => 0xd097f3bdfd2022b8845ad8f792aa5825,
        13 => 0xa9f746462d870fdf8a65dc1f90e061e5,
        14 => 0x70d869a156d2a1b890bb3df62baf32f7,
        15 => 0x31be135f97d08fd981231505542fcfa6,
        16 => 0x9aa508b5b7a84e1c677de54f3e99bc9,
        17 => 0x5d6af8dedb81196699c329225ee604,
        18 => 0x2216e584f5fa1ea926041bedfe98,
        _ => 0x48a170391f7dc42444e8fa2,
    }
}

/// `r` times the factor of bit `k`, in Q128.128, rounded down.
pub open spec fn ratio_step(r: int, k: int) -> int {
    (r * tick_factor(k)) / two128()
}

/// `r` times the factors of the bits of `t`, where the lowest bit of `t` has position `k`.
pub open spec fn ratio_chain(t: int, k: int, r: int) -> int
    decreases 20 - k,
{
    if k >= 20 {
        r
    } else {
        ratio_chain(t / 2, k + 1, if t % 2 == 1 {
            ratio_step(r, k)
        } else {
            r
        })
    }
}

/// `sqrt(1.0001)^-|tick|` in Q128.128.
pub open spec fn inverse_ratio(abs_tick: int) -> int {
    ratio_chain(abs_tick, 0, two128())
}

/// The Q64.96 square-root price of `tick`, rounded up.
pub open spec fn sqrt_ratio(tick: int) -> int {
    if tick > 0 {
        ceil_div((two256() - 1) / inverse_ratio(tick), 0x1_0000_0000)
    } else {
        ceil_div(inverse_ratio(-tick), 0x1_0000_0000)
    }
}

/// What the lowest `k` factors multiply to.
pub open spec fn low_ones(k: int) -> int
    decreases k,
{
    if k <= 0 {
        two128()
    } else {
        ratio_step(low_ones(k - 1), k - 1)
    }
}

/// Each factor is below one.
proof fn lemma_factor_range(k: int)
    ensures
        0 < tick_factor(k) < two128(),
{
}

/// The products of the lowest factors, and that each is at least the next factor.
proof fn lemma_low_ones()
    ensures
        forall|k: int| 0 <= k < 20 ==> #[trigger] low_ones(k) >= tick_factor(k),
        low_ones(20) == 5800441176149320,
{
    assert(low_ones(0) == two128());
    assert(low_ones(1) == 0xfffcb933bd6fad37aa2d162d1a594001int);
    assert(low_ones(2) == 0xfff62bbb6d458ec3c792106391dc463eint);
    assert(low_ones(3) == 0xffe9114b9cf28d394c3203dbd44eb085int);
    assert(low_ones(4) == 0xffcede6f1d8be90b88f350424e84e5b7int);
    assert(low_ones(5) == 0xff9a80c1ada7480b1daa871d7c4d9b36int);
    assert(low_ones(6) == 0xff31e58d5a53c84fc142023ec1b1dfd7int);
    assert(low_ones(7) == 0xfe612f8183b1ea21b72fb71b03542ae4int);
    assert(low_ones(8) == 0xfcc1c2f380536bc67ee1ff564d1080b2int);
    assert(low_ones(9) == 0xf98ad8c8d7ecc0a3f8a42c9724cffb6aint);
    assert(low_ones(10) == 0xf33c480189b415235ad119427d89a1f6int);
    assert(low_ones(11) == 0xe71889a85903fd03cb7cc40bdf371a9cint);
    assert(low_ones(12) == 0xd09a9f3e93db5812d4820c2fc67a3e3aint);
    assert(low_ones(13) == 0xa9f973345b9e647c4163af91d00b255fint);
    assert(low_ones(14) == 0x70d9db6485f04ddd567e07c7b89f8e7cint);
    assert(low_ones(15) == 0x31beb65d91af63ae717a760be3b374dcint);
    assert(low_ones(16) == 0x9aa7036fd2355429c4030b032e1cf71int);
    assert(low_ones(17) == 0x5d6c2af97aaa8de0e5a6bf23f5e547int);
    assert(low_ones(18) == 0x221755388a6658e120f4a3c503cfint);
    assert(low_ones(19) == 0x48a25e36942a4fc0c1f899fint);
    assert(low_ones(20) == 0x149b7873d84d48int);
    assert forall|k: int| 0 <= k < 20 implies #[trigger] low_ones(k) >= tick_factor(k) by {
        if k < 10 {
            if k < 5 {
                assert(k == 0 || k == 1 || k == 2 || k == 3 || k == 4);
            } else {
                assert(k == 5 || k == 6 || k == 7 || k == 8 || k == 9);
            }
        } else if k < 15 {
            assert(k == 10 || k == 11 || k == 12 || k == 13 || k == 14);
        } else {
            assert(k == 15 || k == 16 || k == 17 || k == 18 || k == 19);
        }
    }
}

/// A step keeps order, and never raises.
pub proof fn lemma_step(a: int, b: int, k: int)
    requires
        0 <= a <= b,
    ensures
        0 <= ratio_step(a, k) <= ratio_step(b, k),
        ratio_step(b, k) <= b,
{
    lemma_factor_range(k);
    let f = tick_factor(k);
    assert(0 <= a * f <= b * f) by (nonlinear_arith)
        requires
            0 <= a <= b,
            0 < f,
    ;
    assert(b * f <= b * two128()) by (nonlinear_arith)
        requires
            0 <= b,
            f <= two128(),
    ;
    lemma_div_is_ordered(a * f, b * f, two128());
    lemma_div_is_ordered(b * f, b * two128(), two128());
}

/// The chain keeps the order of its start.
pub proof fn lemma_chain_order(t: int, k: int, a: int, b: int)
    requires
        0 <= a <= b,
        0 <= k,
    ensures
        0 <= ratio_chain(t, k, a) <= ratio_chain(t, k, b) <= b,
    decreases 20 - k,
{
    if k < 20 {
        lemma_step(a, b, k);
        if t % 2 == 1 {
            lemma_chain_order(t / 2, k + 1, ratio_step(a, k), ratio_step(b, k));
        } else {
            lemma_chain_order(t / 2, k + 1, a, b);
        }
    }
}

/// The chain does not fall below the product of all factors.
proof fn lemma_chain_lower(t: int, k: int, r: int)
    requires
        0 <= k <= 20,
        r >= low_ones(k) >= 0,
    ensures
        ratio_chain(t, k, r) >= low_ones(20),
    decreases 20 - k,
{
    if k < 20 {
        lemma_step(low_ones(k), r, k);
        assert(low_ones(k + 1) == ratio_step(low_ones(k), k));
        lemma_step(low_ones(k), low_ones(k), k);
        lemma_chain_lower(t / 2, k + 1, if t % 2 == 1 {
            ratio_step(r, k)
        } else {
            r
        });
    }
}

/// Counting up by one, all low bits set on one side and clear on the other, does not raise.
proof fn lemma_chain_successor(t: int, k: int, bound: int)
    requires
        0 <= k <= 20,
        0 <= t,
        t + 1 < bound,
        bound == vstd::arithmetic::power2::pow2((20 - k) as nat),
    ensures
        ratio_chain(t, k, low_ones(k)) >= ratio_chain(t + 1, k, two128()),
    decreases 20 - k,
{
    lemma_low_ones();
    if k == 20 {
        vstd::arithmetic::power2::lemma2_to64();
    } else {
        assert(ratio_step(two128(), k) == tick_factor(k)) by {
            vstd::arithmetic::div_mod::lemma_div_multiples_vanish(tick_factor(k), two128());
        }
        lemma_factor_range(k);
        vstd::arithmetic::power2::lemma_pow2_unfold((20 - k) as nat);
        if t % 2 == 0 {
            assert((t + 1) / 2 == t / 2);
            lemma_chain_order(t / 2, k + 1, tick_factor(k), low_ones(k));
        } else {
            assert((t + 1) / 2 == t / 2 + 1);
            assert(low_ones(k + 1) == ratio_step(low_ones(k), k));
            lemma_chain_successor(
                t / 2,
                k + 1,
                vstd::arithmetic::power2::pow2((20 - (k + 1)) as nat) as int,
            );
        }
    }
}

/// The inverse ratio is positive, at most one, and falls as the distance from zero grows.
proof fn lemma_inverse_ratio(a: int, b: int)
    requires
        0 <= a <= b <= MAX_TICK,
    ensures
        0 < inverse_ratio(b) <= inverse_ratio(a) <= two128(),
    decreases b - a,
{
    lemma_low_ones();
    lemma_chain_lower(b, 0, two128());
    lemma_chain_order(a, 0, two128(), two128());
    if a < b {
        lemma_inverse_ratio(a, b - 1);
        vstd::arithmetic::power2::lemma2_to64();
        lemma_chain_successor(b - 1, 0, 0x10_0000);
    }
}

/// A higher tick never has a lower price.
pub proof fn sqrt_ratio_is_monotone(a: int, b: int)
    requires
        MIN_TICK <= a <= b <= MAX_TICK,
    ensures
        0 < sqrt_ratio(a) <= sqrt_ratio(b) < two256(),
{
    lemma_ratio_bounds(a);
    lemma_ratio_bounds(b);
    if b <= 0 {
        lemma_inverse_ratio(-b, -a);
        lemma_ceil_order(inverse_ratio(-a), inverse_ratio(-b));
    } else if a > 0 {
        lemma_inverse_ratio(a, b);
        vstd::arithmetic::div_mod::lemma_div_is_ordered_by_denominator(
            two256() - 1,
            inverse_ratio(b),
            inverse_ratio(a),
        );
        lemma_ceil_order(
            (two256() - 1) / inverse_ratio(a),
            (two256() - 1) / inverse_ratio(b),
        );
    } else {
        lemma_inverse_ratio(0, -a);
        lemma_inverse_ratio(0, b);
        vstd::arithmetic::div_mod::lemma_div_is_ordered_by_denominator(
            two256() - 1,
            inverse_ratio(b),
            two128(),
        );
        lemma_ceil_order(inverse_ratio(-a), two128());
        lemma_ceil_order(two128() - 1, (two256() - 1) / inverse_ratio(b));
    }
}

/// Rounding up to Q64.96 keeps order.
proof fn lemma_ceil_order(x: int, y: int)
    requires
        0 <= x <= y,
    ensures
        ceil_div(x, 0x1_0000_0000) <= ceil_div(y, 0x1_0000_0000),
{
}

/// Every tick in range has a positive price that fits.
proof fn lemma_ratio_bounds(tick: int)
    requires
        MIN_TICK <= tick <= MAX_TICK,
    ensures
        0 < sqrt_ratio(tick) < two256(),
{
    let a = if tick > 0 {
        tick
    } else {
        -tick
    };
    lemma_inverse_ratio(a, a);
    if tick > 0 {
        let d = inverse_ratio(tick);
        assert(1 <= (two256() - 1) / d <= two256() - 1) by (nonlinear_arith)
            requires
                1 <= d <= two128(),
        ;
    }
}

/// The inverse ratio of the farthest tick.
proof fn lemma_farthest()
    ensures
        inverse_ratio(MAX_TICK as int) == 0x1000276a221a17501,
{
    assert(ratio_chain(887272, 0, 0x100000000000000000000000000000000int) == ratio_chain(443636, 1, 0x100000000000000000000000000000000int));
    assert(ratio_chain(443636, 1, 0x100000000000000000000000000000000int) == ratio_chain(221818, 2, 0x100000000000000000000000000000000int));
    assert(ratio_chain(221818, 2, 0x100000000000000000000000000000000int) == ratio_chain(110909, 3, 0x100000000000000000000000000000000int));
    assert(ratio_chain(110909, 3, 0x100000000000000000000000000000000int) == ratio_chain(55454, 4, 0xffe5caca7e10e4e61c3624eaa0941cd0int));
    assert(ratio_chain(55454, 4, 0xffe5caca7e10e4e61c3624eaa0941cd0int) == ratio_chain(27727, 5, 0xffe5caca7e10e4e61c3624eaa0941cd0int));
    assert(ratio_chain(27727, 5, 0xffe5caca7e10e4e61c3624eaa0941cd0int) == ratio_chain(13863, 6, 0xff7d10c63a977157da4140deb6f31a7bint));
    assert(ratio_chain(13863, 6, 0xff7d10c63a977157da4140deb6f31a7bint) == ratio_chain(6931, 7, 0xfeac1d4052f7714818b490c1138ea058int));
    assert(ratio_chain(6931, 7, 0xfeac1d4052f7714818b490c1138ea058int) == ratio_chain(3465, 8, 0xfd0c3654da9e033741d1a9f93707f6f6int));
    assert(ratio_chain(3465, 8, 0xfd0c3654da9e033741d1a9f93707f6f6int) == ratio_chain(1732, 9, 0xf9d459c5817dbafa9e376ae84dcfeb8bint));
    assert(ratio_chain(1732, 9, 0xf9d459c5817dbafa9e376ae84dcfeb8bint) == ratio_chain(866, 10, 0xf9d459c5817dbafa9e376ae84dcfeb8bint));
    assert(ratio_chain(866, 10, 0xf9d459c5817dbafa9e376ae84dcfeb8bint) == ratio_chain(433, 11, 0xf9d459c5817dbafa9e376ae84dcfeb8bint));
    assert(ratio_chain(433, 11, 0xf9d459c5817dbafa9e376ae84dcfeb8bint) == ratio_chain(216, 12, 0xe183ac4e25d5949966242a64e9c80e2fint));
    assert(ratio_chain(216, 12, 0xe183ac4e25d5949966242a64e9c80e2fint) == ratio_chain(108, 13, 0xe183ac4e25d5949966242a64e9c80e2fint));
    assert(ratio_chain(108, 13, 0xe183ac4e25d5949966242a64e9c80e2fint) == ratio_chain(54, 14, 0xe183ac4e25d5949966242a64e9c80e2fint));
    assert(ratio_chain(54, 14, 0xe183ac4e25d5949966242a64e9c80e2fint) == ratio_chain(27, 15, 0xe183ac4e25d5949966242a64e9c80e2fint));
    assert(ratio_chain(27, 15, 0xe183ac4e25d5949966242a64e9c80e2fint) == ratio_chain(13, 16, 0x2bd1a4c5d2a1181aca1ef15e64c2e3cfint));
    assert(ratio_chain(13, 16, 0x2bd1a4c5d2a1181aca1ef15e64c2e3cfint) == ratio_chain(6, 17, 0x1a785cbbdc050483e3be5812760be73int));
    assert(ratio_chain(6, 17, 0x1a785cbbdc050483e3be5812760be73int) == ratio_chain(3, 18, 0x1a785cbbdc050483e3be5812760be73int));
    assert(ratio_chain(3, 18, 0x1a785cbbdc050483e3be5812760be73int) == ratio_chain(1, 19, 0x3865a6455d07d2bc87c5956d2eint));
    assert(ratio_chain(1, 19, 0x3865a6455d07d2bc87c5956d2eint) == ratio_chain(0, 20, 0x1000276a221a17501int));
}

/// Every price lies between those of the lowest and the highest tick.
pub proof fn sqrt_ratio_is_bounded(tick: int)
    requires
        MIN_TICK <= tick <= MAX_TICK,
    ensures
        sqrt_ratio(MIN_TICK as int) == min_sqrt(),
        sqrt_ratio(MAX_TICK as int) == max_sqrt(),
        min_sqrt() <= sqrt_ratio(tick) <= max_sqrt(),
{
    lemma_farthest();
    sqrt_ratio_is_monotone(MIN_TICK as int, tick);
    sqrt_ratio_is_monotone(tick, MAX_TICK as int);
}

/// TickMath.getSqrtRatioAtTick: the Q64.96 square-root price of a tick.
pub fn get_sqrt_ratio_at_tick(tick: i32) -> (r: Result<U256, SimError>)
    ensures
        match r {
            Ok(v) => MIN_TICK <= tick <= MAX_TICK && v@ == sqrt_ratio(tick as int),
            Err(e) => !(MIN_TICK <= tick <= MAX_TICK) && e == SimError::BadConfig(
                "tick out of range",
            ),
        },
{
    broadcast use lemma_u256_range;

    if tick < MIN_TICK || tick > MAX_TICK {
        return Err(SimError::BadConfig("tick out of range"));
    }
    let abs_tick: u32 = if tick < 0 {
        (-tick) as u32
    } else {
        tick as u32
    };
    let mut ratio = U256::from_limbs(0, 0, 1, 0);
    let mut rest: u32 = abs_tick;
    let mut k: u32 = 0;
    proof {
        lemma_low_ones();
    }
    while k < 20
        invariant
            k <= 20,
            low_ones(20) > 0,
            0 <= low_ones(k as int) <= ratio@ <= two128(),
            ratio_chain(rest as int, k as int, ratio@) == inverse_ratio(abs_tick as int),
        decreases 20 - k,
    {
        proof {
            lemma_step(low_ones(k as int), ratio@, k as int);
            lemma_step(low_ones(k as int), low_ones(k as int), k as int);
            assert(low_ones(k + 1) == ratio_step(low_ones(k as int), k as int));
        }
        if rest % 2 == 1 {
            let factor = factor_of(k);
            proof {
                lemma_factor_range(k as int);
                let x = ratio@;
                assert(0 <= x * factor < two256()) by (nonlinear_arith)
                    requires
                        0 <= x <= two128(),
                        0 <= factor < two128(),
                ;
                lemma_small_mod((x * factor) as nat, two256() as nat);
                lemma_pow2_128();
            }
            ratio = ratio.wrapping_mul(U256::from_u128(factor)).shift_right(128);
        }
        rest = rest / 2;
        k += 1;
    }
    if tick > 0 {
        ratio = U256::max_value().div_floor(ratio);
    }
    proof {
        vstd::arithmetic::power2::lemma2_to64();
        lemma_small_mod((ratio@ / 0x1_0000_0000 + 1) as nat, two256() as nat);
    }
    let shifted = ratio.shift_right(32);
    let rem = ratio.remainder(U256::from_u64(0x1_0000_0000));
    Ok(
        if rem.is_zero() {
            shifted
        } else {
            shifted.wrapping_add(U256::one())
        },
    )
}

/// 2^96 and 2^128 as powers of two.
pub proof fn lemma_pow2_128()
    ensures
        vstd::arithmetic::power2::pow2(128) == two128(),
        vstd::arithmetic::power2::pow2(96) == 0x1_0000_0000_0000_0000_0000_0000int,
{
    vstd::arithmetic::power2::lemma2_to64();
    vstd::arithmetic::power2::lemma_pow2_adds(64, 64);
    vstd::arithmetic::power2::lemma_pow2_adds(64, 32);
}

} // verus!
