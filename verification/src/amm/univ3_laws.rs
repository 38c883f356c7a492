//! Laws of the concentrated-liquidity swap: a step stays within its bounds, and a quote from a
//! window of ticks is the quote from all of them.
use crate::amm::tick_math::{sqrt_ratio, sqrt_ratio_is_bounded, sqrt_ratio_is_monotone};
use crate::amm::univ3::{
    amount0_delta, amount1_delta, clamp_tick, greater, has_tick, input_between, is_greatest,
    is_least, kept_pips, lesser, max_rounds, moved, net_at, next_price_amount0,
    next_price_amount1, next_tick, price_limit, step_price, step_target, swap_loop, swap_round,
    swap_step, two96, word_bounds, SwapCurve, SwapState, TickData, UniV3Pool, MAX_TICK,
    MIN_TICK,
};
use crate::math::ceil_div;
use crate::pool::{Pool, SimError};
use crate::types::{two128, two160, two256};
use vstd::arithmetic::div_mod::lemma_fundamental_div_mod;
use vstd::prelude::*;

verus! {

/// `x < ceil(n / d)` means `x * d < n`.
proof fn lemma_below_ceil(x: int, n: int, d: int)
    requires
        d > 0,
        n >= 0,
        x < ceil_div(n, d),
    ensures
        x * d < n,
{
    lemma_fundamental_div_mod(n, d);
    let q = n / d;
    let m = n % d;
    if m == 0 {
        assert(x * d < n) by (nonlinear_arith)
            requires
                x < q,
                n == d * q + m,
                m == 0,
                d > 0,
        ;
    } else {
        assert(x * d < n) by (nonlinear_arith)
            requires
                x <= q,
                n == d * q + m,
                m > 0,
                d > 0,
        ;
    }
}

/// `n > x * d` means `ceil(n / d) > x`.
proof fn lemma_above_ceil(x: int, n: int, d: int)
    requires
        d > 0,
        n >= 0,
        x * d < n,
    ensures
        ceil_div(n, d) > x,
{
    lemma_fundamental_div_mod(n, d);
    let q = n / d;
    let m = n % d;
    if m == 0 {
        assert(q > x) by (nonlinear_arith)
            requires
                x * d < n,
                n == d * q + m,
                m == 0,
                d > 0,
        ;
    } else {
        assert(q >= x) by (nonlinear_arith)
            requires
                x * d < n,
                n == d * q + m,
                0 <= m < d,
                d > 0,
        ;
    }
}

/// Adding token0 that does not reach the target leaves the price above the target.
proof fn lemma_amount0_stays_above(p: int, t: int, l: int, a: int, q: int)
    requires
        0 < t <= p < two256(),
        0 < l < two128(),
        0 <= a < two256(),
        amount0_delta(t, p, l, true) matches Ok(need) && a < need,
        next_price_amount0(p, l, a, true) == Ok::<int, SimError>(q),
    ensures
        q > t,
{
    let n = l * two96();
    let w = n * (p - t);
    assert(n > 0 && w >= 0) by (nonlinear_arith)
        requires
            n == l * two96(),
            w == n * (p - t),
            l > 0,
            p >= t,
    ;
    let inner = ceil_div(w, p);
    lemma_fundamental_div_mod(w, p);
    assert(inner >= 0) by (nonlinear_arith)
        requires
            w >= 0,
            p > 0,
            inner == w / p || inner == w / p + 1,
    ;
    lemma_below_ceil(a, inner, t);
    lemma_below_ceil(a * t, w, p);
    // (a * t) * p < n * (p - t), so t * (n + a * p) < n * p.
    assert(t * (n + a * p) < n * p) by (nonlinear_arith)
        requires
            (a * t) * p < n * (p - t),
    ;
    if a == 0 {
        assert(t < p) by (nonlinear_arith)
            requires
                t * (n + a * p) < n * p,
                a == 0,
                n > 0,
        ;
    } else if a * p < two256() && n + a * p < two256() {
        assert(a * p >= 0) by (nonlinear_arith)
            requires
                a >= 0,
                p >= 0,
        ;
        assert(n * p >= 0) by (nonlinear_arith)
            requires
                n >= 0,
                p >= 0,
        ;
        lemma_above_ceil(t, n * p, n + a * p);
    } else {
        let d = n / p + a;
        lemma_fundamental_div_mod(n, p);
        // d * p <= n + a * p, so t * d * p < n * p.
        assert(d > 0) by (nonlinear_arith)
            requires
                d == n / p + a,
                n > 0,
                p > 0,
                a > 0,
        ;
        assert(d * p <= n + a * p) by (nonlinear_arith)
            requires
                d == n / p + a,
                n == p * (n / p) + n % p,
                n % p >= 0,
        ;
        assert(t * d < n) by (nonlinear_arith)
            requires
                t * (n + a * p) < n * p,
                d * p <= n + a * p,
                t > 0,
                p > 0,
        ;
        lemma_above_ceil(t, n, d);
    }
}

/// Adding token1 that does not reach the target leaves the price below the target.
proof fn lemma_amount1_stays_below(p: int, t: int, l: int, a: int, q: int)
    requires
        0 <= p <= t,
        0 < l,
        0 <= a,
        amount1_delta(p, t, l, true) matches Ok(need) && a < need,
        next_price_amount1(p, l, a, true) == Ok::<int, SimError>(q),
    ensures
        q < t,
{
    let w = l * (t - p);
    assert(w >= 0) by (nonlinear_arith)
        requires
            w == l * (t - p),
            l > 0,
            t >= p,
    ;
    lemma_below_ceil(a, w, two96());
    let s = a * two96();
    lemma_fundamental_div_mod(s, l);
    assert(s / l < t - p) by (nonlinear_arith)
        requires
            s == l * (s / l) + s % l,
            s % l >= 0,
            s < l * (t - p),
            l > 0,
    ;
}

/// A step that its input does not carry to the target ends strictly before it.
pub proof fn step_never_overshoots(
    sqrt_current: int,
    sqrt_target: int,
    liquidity: int,
    less_fee: int,
    sqrt_next: int,
)
    requires
        0 < sqrt_target < two256(),
        0 < sqrt_current < two256(),
        0 < liquidity < two128(),
        0 <= less_fee < two256(),
        input_between(
            sqrt_current,
            sqrt_target,
            liquidity,
            sqrt_current >= sqrt_target,
        ) matches Ok(need) && less_fee < need && step_price(
            sqrt_current,
            sqrt_target,
            liquidity,
            less_fee,
            need,
        ) == Ok::<int, SimError>(sqrt_next),
    ensures
        sqrt_current >= sqrt_target ==> sqrt_next > sqrt_target,
        sqrt_current < sqrt_target ==> sqrt_next < sqrt_target,
{
    if sqrt_current >= sqrt_target {
        lemma_amount0_stays_above(sqrt_current, sqrt_target, liquidity, less_fee, sqrt_next);
    } else {
        lemma_amount1_stays_below(sqrt_current, sqrt_target, liquidity, less_fee, sqrt_next);
    }
}

/// What a step consumes, its fee included, never exceeds the input that was left.
pub proof fn step_never_overspends(
    sqrt_current: int,
    sqrt_target: int,
    liquidity: int,
    amount_remaining: int,
    fee_pips: int,
)
    requires
        0 <= amount_remaining < two256(),
        0 <= fee_pips < 1_000_000,
        0 < sqrt_target < two256(),
        0 < sqrt_current < two256(),
        0 < liquidity < two128(),
    ensures
        swap_step(
            sqrt_current,
            sqrt_target,
            liquidity,
            amount_remaining,
            fee_pips,
        ) matches Ok(step) ==> step.amount_in + step.fee_amount <= amount_remaining,
{
    let kept = 1_000_000 - fee_pips;
    assert(kept_pips(fee_pips) == kept) by {
        vstd::arithmetic::div_mod::lemma_small_mod(kept as nat, two256() as nat);
    }
    let zfo = sqrt_current >= sqrt_target;
    let less = (amount_remaining * kept) / 1_000_000;
    assert(0 <= less <= amount_remaining) by (nonlinear_arith)
        requires
            less == (amount_remaining * kept) / 1_000_000,
            0 <= amount_remaining,
            0 < kept <= 1_000_000,
    ;
    match input_between(sqrt_current, sqrt_target, liquidity, zfo) {
        Err(_) => {},
        Ok(need) => {
            match step_price(sqrt_current, sqrt_target, liquidity, less, need) {
                Err(_) => {},
                Ok(next) => {
                    if less < need {
                        step_never_overshoots(sqrt_current, sqrt_target, liquidity, less, next);
                    } else {
                        lemma_amount_nonnegative(sqrt_current, sqrt_target, liquidity, zfo);
                        lemma_fee_fits(amount_remaining, need, fee_pips);
                    }
                },
            }
        },
    }
}

/// An amount between two prices is not negative.
proof fn lemma_amount_nonnegative(from: int, to: int, l: int, zfo: bool)
    requires
        0 < to,
        0 < from,
        0 <= l,
    ensures
        input_between(from, to, l, zfo) matches Ok(need) ==> need >= 0,
{
    let lo = lesser(from, to);
    let hi = greater(from, to);
    let w0 = l * two96() * (hi - lo);
    let w1 = l * (hi - lo);
    assert(w0 >= 0 && w1 >= 0) by (nonlinear_arith)
        requires
            w0 == l * two96() * (hi - lo),
            w1 == l * (hi - lo),
            l >= 0,
            hi >= lo,
    ;
    lemma_ceil_nonnegative(w0, hi);
    lemma_ceil_nonnegative(ceil_div(w0, hi), lo);
    lemma_ceil_nonnegative(w1, two96());
}

proof fn lemma_ceil_nonnegative(n: int, d: int)
    requires
        n >= 0,
        d > 0,
    ensures
        ceil_div(n, d) >= 0,
{
    assert(n / d >= 0) by (nonlinear_arith)
        requires
            n >= 0,
            d > 0,
    ;
}

/// Input that fits once the fee is deducted fits with its fee added back.
pub proof fn lemma_fee_fits(remaining: int, used: int, fee: int)
    requires
        0 <= used <= (remaining * (1_000_000 - fee)) / 1_000_000,
        0 <= fee < 1_000_000,
        0 <= remaining,
    ensures
        used + ceil_div(used * fee, 1_000_000 - fee) <= remaining,
{
    let kept = 1_000_000 - fee;
    let whole = remaining * kept;
    lemma_fundamental_div_mod(whole, 1_000_000);
    assert(used * 1_000_000 <= whole);
    let extra = ceil_div(used * fee, kept);
    if extra > remaining - used {
        lemma_below_ceil(remaining - used, used * fee, kept);
        // (remaining - used) * kept < used * fee contradicts used * 1_000_000 <= remaining * kept.
        assert(false) by (nonlinear_arith)
            requires
                (remaining - used) * kept < used * fee,
                kept == 1_000_000 - fee,
                used * 1_000_000 <= remaining * kept,
        ;
    }
}

/// Moving the target away raises the input that it takes.
proof fn lemma_farther_needs_more(p: int, near: int, far: int, l: int, zfo: bool)
    requires
        0 < l < two128(),
        zfo ==> 0 < far <= near <= p,
        !zfo ==> 0 < p <= near <= far < two160(),
    ensures
        match (input_between(p, near, l, zfo), input_between(p, far, l, zfo)) {
            (Ok(a), Ok(b)) => a <= b,
            _ => false,
        },
{
    if zfo {
        let n = l * two96();
        let wn = n * (p - near);
        let wf = n * (p - far);
        assert(0 <= wn <= wf) by (nonlinear_arith)
            requires
                wn == n * (p - near),
                wf == n * (p - far),
                n == l * two96(),
                l > 0,
                far <= near <= p,
        ;
        lemma_ceil_monotone(wn, wf, p);
        lemma_ceil_nonnegative(wn, p);
        lemma_ceil_monotone(ceil_div(wn, p), ceil_div(wf, p), near);
        lemma_ceil_smaller_divisor(ceil_div(wf, p), far, near);
    } else {
        let wn = l * (near - p);
        let wf = l * (far - p);
        assert(0 <= wn <= wf) by (nonlinear_arith)
            requires
                wn == l * (near - p),
                wf == l * (far - p),
                l > 0,
                p <= near <= far,
        ;
        lemma_ceil_monotone(wn, wf, two96());
        assert(wf < two128() * two160()) by (nonlinear_arith)
            requires
                wf == l * (far - p),
                0 < l < two128(),
                0 <= far - p < two160(),
        ;
        lemma_fundamental_div_mod(wf, two96());
    }
}

proof fn lemma_ceil_monotone(a: int, b: int, d: int)
    requires
        0 <= a <= b,
        d > 0,
    ensures
        ceil_div(a, d) <= ceil_div(b, d),
{
    if ceil_div(b, d) < ceil_div(a, d) {
        lemma_below_ceil(ceil_div(b, d), a, d);
        lemma_ceil_covers(b, d);
    }
}

proof fn lemma_ceil_covers(n: int, d: int)
    requires
        n >= 0,
        d > 0,
    ensures
        ceil_div(n, d) * d >= n,
{
    if ceil_div(n, d) * d < n {
        lemma_above_ceil(ceil_div(n, d), n, d);
    }
}

proof fn lemma_ceil_smaller_divisor(n: int, small: int, large: int)
    requires
        n >= 0,
        0 < small <= large,
    ensures
        ceil_div(n, large) <= ceil_div(n, small),
{
    if ceil_div(n, small) < ceil_div(n, large) {
        let x = ceil_div(n, small);
        lemma_ceil_nonnegative(n, small);
        lemma_below_ceil(x, n, large);
        lemma_ceil_covers(n, small);
        assert(x * small <= x * large) by (nonlinear_arith)
            requires
                x >= 0,
                small <= large,
        ;
    }
}

// ---- windowed state ----

/// Two tick lists hold the same ticks, with the same net liquidity, between `lo` and `hi`.
pub open spec fn ticks_agree(a: Seq<TickData>, b: Seq<TickData>, lo: int, hi: int) -> bool {
    forall|t: int|
        lo <= t <= hi ==> (#[trigger] has_tick(a, t) <==> has_tick(b, t)) && net_at(a, t)
            == net_at(b, t)
}

/// The relation of the two curves: the same pool, one seen through a window, the other whole.
pub open spec fn same_but_window(w: SwapCurve, f: SwapCurve, lo: int, hi: int) -> bool {
    &&& w.spacing == f.spacing
    &&& w.spacing >= 1
    &&& w.fee_pips == f.fee_pips
    &&& 0 <= w.fee_pips
    &&& w.zero_for_one == f.zero_for_one
    &&& MIN_TICK <= lo <= hi <= MAX_TICK
    &&& ticks_agree(w.ticks, f.ticks, lo, hi)
    &&& if w.zero_for_one {
        &&& 0 < f.limit <= w.limit
        &&& sqrt_ratio(lo) <= w.limit
    } else {
        &&& 0 < w.limit <= f.limit < two160()
        &&& w.limit <= sqrt_ratio(hi)
    }
}

/// A state from which the windowed swap has not left its window.
pub open spec fn inside_window(w: SwapCurve, s: SwapState, lo: int, hi: int) -> bool {
    &&& 0 < s.sqrt_price < two256()
    &&& 0 <= s.remaining < two256()
    &&& 0 <= s.liquidity < two128()
    &&& if w.zero_for_one {
        &&& s.tick <= hi
        &&& w.limit <= s.sqrt_price
        &&& sqrt_ratio(clamp_tick(s.tick)) <= s.sqrt_price
    } else {
        &&& lo - 1 <= s.tick
        &&& s.sqrt_price <= w.limit
        &&& s.sqrt_price <= sqrt_ratio(clamp_tick(s.tick + 1))
    }
}

/// Either both lists give the same next tick, or both next ticks lie beyond the window.
proof fn lemma_next_tick_agrees(w: SwapCurve, f: SwapCurve, s: SwapState, lo: int, hi: int)
    requires
        same_but_window(w, f, lo, hi),
        if w.zero_for_one {
            s.tick <= hi
        } else {
            lo - 1 <= s.tick
        },
    ensures
        ({
            let nw = next_tick(w.ticks, w.spacing, s.tick, w.zero_for_one);
            let nf = next_tick(f.ticks, f.spacing, s.tick, f.zero_for_one);
            ||| nw == nf && (nw.1 && lo <= nw.0 <= hi || !nw.1)
            ||| w.zero_for_one && nw.0 < lo && nf.0 < lo
            ||| !w.zero_for_one && nw.0 > hi && nf.0 > hi
        }),
{
    let (a, b) = word_bounds(w.spacing, s.tick, w.zero_for_one);
    let c = s.tick / w.spacing;
    lemma_fundamental_div_mod(s.tick, w.spacing);
    assert(c * w.spacing <= s.tick && (c + 1) * w.spacing > s.tick) by (nonlinear_arith)
        requires
            s.tick == w.spacing * c + s.tick % w.spacing,
            0 <= s.tick % w.spacing < w.spacing,
    ;
    if w.zero_for_one {
        assert(b <= hi);
        if exists|t: int| is_greatest(w.ticks, a, b, t) && t >= lo {
            let t = choose|t: int| is_greatest(w.ticks, a, b, t) && t >= lo;
            assert(has_tick(f.ticks, t));
            assert forall|u: int| #[trigger] has_tick(f.ticks, u) && a <= u <= b implies u <= t by {
                if u > t {
                    assert(has_tick(w.ticks, u));
                }
            }
            assert(is_greatest(f.ticks, a, b, t));
            lemma_choice_is_greatest(w.ticks, a, b, t);
            lemma_choice_is_greatest(f.ticks, a, b, t);
        } else if exists|t: int| is_greatest(f.ticks, a, b, t) && t >= lo {
            let t = choose|t: int| is_greatest(f.ticks, a, b, t) && t >= lo;
            assert(has_tick(w.ticks, t));
            assert forall|u: int| #[trigger] has_tick(w.ticks, u) && a <= u <= b implies u <= t by {
                if u > t {
                    assert(has_tick(f.ticks, u));
                }
            }
            assert(is_greatest(w.ticks, a, b, t));
        } else if a >= lo {
            assert(!(exists|t: int| is_greatest(w.ticks, a, b, t)));
            assert(!(exists|t: int| is_greatest(f.ticks, a, b, t)));
        }
    } else {
        assert(a >= lo);
        if exists|t: int| is_least(w.ticks, a, b, t) && t <= hi {
            let t = choose|t: int| is_least(w.ticks, a, b, t) && t <= hi;
            assert(has_tick(f.ticks, t));
            assert forall|u: int| #[trigger] has_tick(f.ticks, u) && a <= u <= b implies t <= u by {
                if u < t {
                    assert(has_tick(w.ticks, u));
                }
            }
            assert(is_least(f.ticks, a, b, t));
            lemma_choice_is_least(w.ticks, a, b, t);
            lemma_choice_is_least(f.ticks, a, b, t);
        } else if exists|t: int| is_least(f.ticks, a, b, t) && t <= hi {
            let t = choose|t: int| is_least(f.ticks, a, b, t) && t <= hi;
            assert(has_tick(w.ticks, t));
            assert forall|u: int| #[trigger] has_tick(w.ticks, u) && a <= u <= b implies t <= u by {
                if u < t {
                    assert(has_tick(f.ticks, u));
                }
            }
            assert(is_least(w.ticks, a, b, t));
        } else if b <= hi {
            assert(!(exists|t: int| is_least(w.ticks, a, b, t)));
            assert(!(exists|t: int| is_least(f.ticks, a, b, t)));
        }
    }
}

pub proof fn lemma_choice_is_greatest(ticks: Seq<TickData>, a: int, b: int, t: int)
    requires
        is_greatest(ticks, a, b, t),
    ensures
        (choose|u: int| is_greatest(ticks, a, b, u)) == t,
{
    let u = choose|u: int| is_greatest(ticks, a, b, u);
    assert(is_greatest(ticks, a, b, u));
}

pub proof fn lemma_choice_is_least(ticks: Seq<TickData>, a: int, b: int, t: int)
    requires
        is_least(ticks, a, b, t),
    ensures
        (choose|u: int| is_least(ticks, a, b, u)) == t,
{
    let u = choose|u: int| is_least(ticks, a, b, u);
    assert(is_least(ticks, a, b, u));
}

/// A move that stops short of its target does not depend on how far the target is.
proof fn lemma_short_move(w: SwapCurve, f: SwapCurve, s: SwapState, tw: int, tf: int, m: SwapState)
    requires
        w.fee_pips == f.fee_pips,
        0 < s.sqrt_price < two256(),
        0 <= s.remaining < two256(),
        0 <= s.liquidity < two128(),
        w.fee_pips >= 0,
        if w.zero_for_one {
            0 < tf <= tw <= s.sqrt_price
        } else {
            s.sqrt_price <= tw <= tf < two160()
        },
        moved(w, s, tw) == Ok::<SwapState, SimError>(m),
        m.sqrt_price != tw,
    ensures
        moved(f, s, tf) == Ok::<SwapState, SimError>(m),
        w.zero_for_one ==> m.sqrt_price > tw,
        !w.zero_for_one ==> m.sqrt_price < tw,
{
    let (p, l, fee) = (s.sqrt_price, s.liquidity, w.fee_pips);
    let kept = kept_pips(fee);
    let less = (s.remaining * kept) / 1_000_000;
    assert(kept >= 0);
    assert(less >= 0) by (nonlinear_arith)
        requires
            less == (s.remaining * kept) / 1_000_000,
            s.remaining >= 0,
            kept >= 0,
    ;
    let zfo = p >= tw;
    match input_between(p, tw, l, zfo) {
        Err(_) => {},
        Ok(need) => {
            lemma_amount_nonnegative(p, tw, l, zfo);
            if p == tw {
                assert(l * two96() * (p - tw) == 0) by (nonlinear_arith)
                    requires
                        p == tw,
                ;
                assert(need == 0);
            }
            assert(less < need);
            lemma_farther_needs_more(p, tw, tf, l, zfo);
            step_never_overshoots(p, tw, l, less, m.sqrt_price);
        },
    }
}

/// A round of the windowed swap that does not end at the window's edge is the round that the
/// whole tick list gives.
proof fn lemma_round_agrees(
    w: SwapCurve,
    f: SwapCurve,
    s: SwapState,
    lo: int,
    hi: int,
    next: SwapState,
    done: bool,
)
    requires
        same_but_window(w, f, lo, hi),
        inside_window(w, s, lo, hi),
        s.remaining != 0,
        s.sqrt_price != w.limit,
        swap_round(w, s) == Ok::<(SwapState, bool), SimError>((next, done)),
        next.sqrt_price != w.limit,
    ensures
        swap_round(f, s) == Ok::<(SwapState, bool), SimError>((next, done)),
        !done ==> inside_window(w, next, lo, hi),
{
    let (rw, foundw) = next_tick(w.ticks, w.spacing, s.tick, w.zero_for_one);
    let (rf, foundf) = next_tick(f.ticks, f.spacing, s.tick, f.zero_for_one);
    let (kw, kf) = (clamp_tick(rw), clamp_tick(rf));
    let (bw, bf) = (sqrt_ratio(kw), sqrt_ratio(kf));
    let (tw, tf) = (step_target(w, bw), step_target(f, bf));
    let m = moved(w, s, tw)->Ok_0;
    lemma_next_tick_agrees(w, f, s, lo, hi);
    lemma_next_tick_ahead(w.ticks, w.spacing, s.tick, w.zero_for_one);
    lemma_next_tick_ahead(f.ticks, f.spacing, s.tick, f.zero_for_one);
    sqrt_ratio_is_bounded(kw);
    sqrt_ratio_is_bounded(kf);
    if w.zero_for_one {
        sqrt_ratio_is_monotone(kw, clamp_tick(s.tick));
        sqrt_ratio_is_monotone(kf, clamp_tick(s.tick));
        if rw < lo {
            sqrt_ratio_is_monotone(kw, lo);
        }
        if rf < lo {
            sqrt_ratio_is_monotone(kf, lo);
        }
        sqrt_ratio_is_monotone(clamp_tick(kw - 1), kw);
    } else {
        sqrt_ratio_is_monotone(clamp_tick(s.tick + 1), kw);
        sqrt_ratio_is_monotone(clamp_tick(s.tick + 1), kf);
        if rw > hi {
            sqrt_ratio_is_monotone(hi, kw);
        }
        if rf > hi {
            sqrt_ratio_is_monotone(hi, kf);
        }
        sqrt_ratio_is_monotone(kw, clamp_tick(kw + 1));
    }
    if m.sqrt_price == tw {
        assert(tw == bw && tf == bw);
        assert(moved(f, s, tf) == Ok::<SwapState, SimError>(m));
        if foundw && kw == rw {
            assert(net_at(w.ticks, kw) == net_at(f.ticks, kw)) by {
                assert(has_tick(w.ticks, kw) <==> has_tick(f.ticks, kw));
            }
        }
    } else {
        lemma_short_move(w, f, s, tw, tf, m);
    }
}

/// The next tick lies ahead.
pub proof fn lemma_next_tick_ahead(ticks: Seq<TickData>, spacing: int, tick: int, lte: bool)
    requires
        spacing >= 1,
    ensures
        lte ==> next_tick(ticks, spacing, tick, lte).0 <= tick,
        !lte ==> next_tick(ticks, spacing, tick, lte).0 > tick,
{
    let c = tick / spacing;
    lemma_fundamental_div_mod(tick, spacing);
    assert(c * spacing <= tick && (c + 1) * spacing > tick) by (nonlinear_arith)
        requires
            tick == spacing * c + tick % spacing,
            0 <= tick % spacing < spacing,
    ;
    if lte {
        assert(((c / 256) * 256) * spacing <= c * spacing) by (nonlinear_arith)
            requires
                (c / 256) * 256 <= c,
                spacing >= 1,
        ;
    } else {
        let d = c + 1;
        assert(((d / 256) * 256 + 255) * spacing >= d * spacing) by (nonlinear_arith)
            requires
                (d / 256) * 256 + 255 >= d,
                spacing >= 1,
        ;
    }
}

/// The windowed loop, when it ends off the window's edge, is the loop over the whole tick list.
proof fn lemma_loop_agrees(
    w: SwapCurve,
    f: SwapCurve,
    s: SwapState,
    lo: int,
    hi: int,
    rounds: nat,
    end: SwapState,
)
    requires
        same_but_window(w, f, lo, hi),
        inside_window(w, s, lo, hi),
        swap_loop(w, s, rounds) == Ok::<SwapState, SimError>(end),
        end.sqrt_price != w.limit,
    ensures
        swap_loop(f, s, rounds) == Ok::<SwapState, SimError>(end),
    decreases rounds,
{
    if s.remaining != 0 && s.sqrt_price != w.limit {
        let (next, done) = swap_round(w, s)->Ok_0;
        if !done && next.sqrt_price == w.limit {
            assert(swap_loop(w, next, (rounds - 1) as nat) == Ok::<SwapState, SimError>(next));
        }
        lemma_round_agrees(w, f, s, lo, hi, next, done);
        assert(s.sqrt_price != f.limit);
        if !done {
            lemma_loop_agrees(w, f, next, lo, hi, (rounds - 1) as nat, end);
        }
    }
}

/// The pool's price lies in the range of its current tick.
pub open spec fn price_matches_tick(p: UniV3Pool) -> bool {
    &&& MIN_TICK <= p.tick < MAX_TICK
    &&& sqrt_ratio(p.tick as int) <= p.sqrt_price_x96@ <= sqrt_ratio(p.tick + 1)
}

/// A quote from a window of ticks is never silently wrong: unless the swap ends exactly at the
/// window's edge, it is the quote that the whole tick list gives.
pub proof fn windowed_quote_is_exact(
    windowed: UniV3Pool,
    full: UniV3Pool,
    lo: i32,
    hi: i32,
    amount_in: int,
    zero_for_one: bool,
    limit: int,
    end: SwapState,
)
    requires
        windowed.wf(),
        full.known_range is None,
        windowed.known_range == Some((lo, hi)),
        full.tick_spacing == windowed.tick_spacing,
        full.fee_pips == windowed.fee_pips,
        full.sqrt_price_x96 == windowed.sqrt_price_x96,
        full.liquidity == windowed.liquidity,
        full.tick == windowed.tick,
        price_matches_tick(windowed),
        MIN_TICK <= lo <= windowed.tick <= hi <= MAX_TICK,
        ticks_agree(windowed.ticks@, full.ticks@, lo as int, hi as int),
        0 <= amount_in < two256(),
        price_limit(windowed.known_range, zero_for_one) == Ok::<int, SimError>(limit),
        // The start price does not lie past the limit.
        if zero_for_one {
            limit <= windowed.sqrt_price_x96@
        } else {
            windowed.sqrt_price_x96@ <= limit
        },
        swap_loop(
            windowed.curve(limit, zero_for_one),
            windowed.start(amount_in),
            max_rounds(),
        ) == Ok::<SwapState, SimError>(end),
        end.sqrt_price != limit,
    ensures
        windowed.swap_quote(amount_in, zero_for_one) == Ok::<int, SimError>(end.calculated),
        full.swap_quote(amount_in, zero_for_one) == Ok::<int, SimError>(end.calculated),
{
    let w = windowed.curve(limit, zero_for_one);
    let full_limit = price_limit(full.known_range, zero_for_one)->Ok_0;
    let f = full.curve(full_limit, zero_for_one);
    sqrt_ratio_is_bounded(lo as int);
    sqrt_ratio_is_bounded(hi as int);
    sqrt_ratio_is_bounded(windowed.tick as int);
    sqrt_ratio_is_bounded(windowed.tick + 1);
    lemma_loop_agrees(
        w,
        f,
        windowed.start(amount_in),
        lo as int,
        hi as int,
        max_rounds(),
        end,
    );
}

/// A windowed swap that stops at the window's edge with input left is refused.
pub proof fn windowed_quote_refuses_beyond(
    windowed: UniV3Pool,
    amount_in: int,
    zero_for_one: bool,
    limit: int,
    end: SwapState,
)
    requires
        windowed.known_range is Some,
        price_limit(windowed.known_range, zero_for_one) == Ok::<int, SimError>(limit),
        swap_loop(
            windowed.curve(limit, zero_for_one),
            windowed.start(amount_in),
            max_rounds(),
        ) == Ok::<SwapState, SimError>(end),
        end.sqrt_price == limit,
        end.remaining != 0,
    ensures
        windowed.swap_quote(amount_in, zero_for_one) == Err::<int, SimError>(
            SimError::IncompleteState,
        ),
{
}

} // verus!
