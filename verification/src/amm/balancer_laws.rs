//! What a weighted swap pays: the balance out, less what the power of the ratio in leaves of it.
use crate::amm::balancer_accuracy::rounded_powers_bracket_the_true_power;
use crate::amm::balancer_math::{
    complement_value, div_down_value, div_up_value, mul_down_value, mul_up_value, one18,
    pow_down_value, pow_error, pow_is_not_negative, pow_up_value, pow_value, weighted_out,
    MathError,
};
use crate::math::{ceil_div, is_ceil, is_floor, lemma_is_ceil, lemma_is_floor};
use crate::types::two256;
use vstd::arithmetic::power::pow;
use vstd::prelude::*;

verus! {

/// The square of a number, rounded down and up, apart by at most one.
proof fn lemma_squares(x: int)
    ensures
        mul_down_value(x, x) matches Ok(d) ==> d >= 0 && is_floor(d, x * x, one18()),
        mul_up_value(x, x) matches Ok(u) ==> u >= 0 && is_ceil(u, x * x, one18()),
        mul_down_value(x, x) is Ok <==> mul_up_value(x, x) is Ok,
{
    assert(x * x >= 0) by (nonlinear_arith);
    lemma_is_floor(x * x, one18());
    lemma_is_ceil(x * x, one18());
}

proof fn lemma_fourth_is_close(x: int, u: int)
    requires
        0 <= x,
        pow_up_value(x, 4 * one18()) == Ok::<int, MathError>(u),
    ensures
        pow_down_value(x, 4 * one18()) matches Ok(d) && 0 <= d <= u && (u - d) * one18() <= 20_000
            * u + 6 * one18(),
{
    let e = one18();
    lemma_squares(x);
    let (a, b) = (mul_down_value(x, x)->Ok_0, mul_up_value(x, x)->Ok_0);
    lemma_squares(a);
    lemma_squares(b);
    let w = x * x;
    assert(a <= b <= a + 1) by (nonlinear_arith)
        requires
            a * e <= w < (a + 1) * e,
            (b - 1) * e < w <= b * e,
            e > 0,
    ;
    assert(a * a <= b * b && b * b <= a * a + 2 * a + 1) by (nonlinear_arith)
        requires
            0 <= a <= b <= a + 1,
    ;
    let d = mul_down_value(a, a)->Ok_0;
    let (p, q) = (a * a, b * b);
    assert(d <= u) by (nonlinear_arith)
        requires
            d * e <= p,
            p <= q,
            q <= u * e,
            e > 0,
    ;
    // (u - d) e < q - p + 2 e.
    assert((u - d) * e <= 2 * a + 1 + 2 * e) by (nonlinear_arith)
        requires
            (u - 1) * e < q,
            p < (d + 1) * e,
            q <= p + 2 * a + 1,
    ;
    if a > e {
        // u e >= a a > a e.
        assert(a <= u) by (nonlinear_arith)
            requires
                a > e,
                e > 0,
                a * a <= u * e,
        {
            assert(a * e <= a * a);
        }
    }
}

/// The rounded powers are close to each other: they are apart by at most a part in fifty million
/// million and six units. Where the one rounded up fits, so does the other.
pub proof fn rounded_powers_are_close(x: int, y: int, u: int)
    requires
        0 <= x,
        0 <= y,
        pow_up_value(x, y) == Ok::<int, MathError>(u),
    ensures
        match pow_down_value(x, y) {
            Ok(d) => 0 <= d <= u && (u - d) * 1_000_000_000_000_000_000 <= 20_000 * u + 6
                * 1_000_000_000_000_000_000,
            Err(_) => false,
        },
{
    let e = one18();
    if y == 2 * e {
        lemma_squares(x);
        let d = mul_down_value(x, x)->Ok_0;
        let w = x * x;
        assert(d <= u <= d + 1) by (nonlinear_arith)
            requires
                d * e <= w < (d + 1) * e,
                (u - 1) * e < w <= u * e,
                e > 0,
        ;
    } else if y == 4 * e {
        lemma_fourth_is_close(x, u);
    } else if y != e {
        pow_is_not_negative(x, y);
        let raw = pow_value(x, y)->Ok_0;
        let error = pow_error(raw)->Ok_0;
        lemma_is_ceil(raw * 10_000, e);
        assert(error == ceil_div(raw * 10_000, e) + 1);
    }
}

/// What a weighted swap pays. With `E` for `10^18`, the ratio of the balance in before and after is
/// rounded up to `base / E`, the ratio of the weights down to `exponent / E`; `low` and `high`
/// bracket the true power of the one by the other, and are close; and `1 - high / E` of the
/// balance out is paid, rounded down. At most three tenths of the balance in may come in.
pub open spec fn is_weighted_swap(
    balance_in: int,
    weight_in: int,
    balance_out: int,
    weight_out: int,
    amount_in: int,
    base: int,
    exponent: int,
    low: int,
    high: int,
    out: int,
) -> bool {
    let e: int = 1_000_000_000_000_000_000;
    &&& amount_in * 10 <= balance_in * 3
    &&& is_ceil(base, balance_in * e, balance_in + amount_in)
    &&& is_floor(exponent, weight_in * e, weight_out)
    &&& 0 <= low <= high
    &&& (high - low) * e <= 20_000 * high + 6 * e
    &&& pow(low, e as nat) * pow(e, exponent as nat) <= pow(base, exponent as nat) * pow(
        e,
        e as nat,
    )
    &&& pow(base, exponent as nat) * pow(e, e as nat) <= pow(high, e as nat) * pow(
        e,
        exponent as nat,
    )
    &&& if high < e {
        is_floor(out, balance_out * (e - high), e)
    } else {
        out == 0
    }
}

/// A weighted swap pays what the power of the ratio leaves of the balance, and no less than the
/// rounding of that power takes off.
pub proof fn weighted_swaps_pay_what_the_power_leaves(
    balance_in: int,
    weight_in: int,
    balance_out: int,
    weight_out: int,
    amount_in: int,
    out: int,
) -> (r: (int, int, int, int))
    requires
        0 <= balance_in,
        0 <= weight_in,
        0 <= balance_out,
        0 <= weight_out,
        0 <= amount_in,
        weighted_out(balance_in, weight_in, balance_out, weight_out, amount_in) == Ok::<
            int,
            MathError,
        >(out),
    ensures
        is_weighted_swap(
            balance_in,
            weight_in,
            balance_out,
            weight_out,
            amount_in,
            r.0,
            r.1,
            r.2,
            r.3,
            out,
        ),
{
    let e = one18();
    let total = balance_in + amount_in;
    let base = div_up_value(balance_in, total)->Ok_0;
    let exponent = div_down_value(weight_in, weight_out)->Ok_0;
    let high = pow_up_value(base, exponent)->Ok_0;
    lemma_is_ceil(balance_in * e, total);
    lemma_is_floor(weight_in * e, weight_out);
    rounded_powers_are_close(base, exponent, high);
    rounded_powers_bracket_the_true_power(base, exponent);
    let low = pow_down_value(base, exponent)->Ok_0;
    if high < e {
        lemma_is_floor(balance_out * (e - high), e);
    } else {
        assert(complement_value(high) == 0);
        assert(balance_out * 0 == 0);
    }
    (base, exponent, low, high)
}

} // verus!
