//! A concentrated-liquidity quote as a walk over price segments: each segment pays what its
//! liquidity releases between its two prices, and the quote is what all of them pay.
use crate::amm::tick_math::{
    max_sqrt, min_sqrt, sqrt_ratio, sqrt_ratio_is_bounded, sqrt_ratio_is_monotone,
};
use crate::amm::univ3::{
    amount0_delta, amount1_delta, clamp_tick, crossed, greater, has_tick, is_first_at, is_greatest,
    is_least, kept_pips, lesser, max_rounds, moved, net_at, next_price_amount0,
    next_price_amount1, next_tick, price_limit, step_target, swap_loop, swap_round, swap_step,
    two96, word_bounds, SwapCurve, SwapState, SwapStep, TickData, UniV3Pool, MAX_TICK, MIN_TICK,
};
use crate::amm::univ3_laws::{
    lemma_choice_is_greatest, lemma_choice_is_least, lemma_fee_fits, lemma_next_tick_ahead,
    step_never_overshoots,
};
use crate::math::{
    ceil_div, is_ceil, is_floor, lemma_is_ceil, lemma_is_floor, lemma_one_ceil, lemma_one_floor,
};
use crate::pool::{Pool, SimError};
use crate::types::{lemma_u256_range, two128, two160, two256, Address};
use vstd::arithmetic::div_mod::{lemma_div_denominator, lemma_small_mod};
use vstd::prelude::*;

verus! {

// ---- one segment ----

/// What `liquidity` holds between two prices: `amount0` of token0 and `amount1` of token1, each
/// rounded up or down.
pub open spec fn holds_between(
    lo: int,
    hi: int,
    liquidity: int,
    amount0: int,
    up0: bool,
    amount1: int,
    up1: bool,
) -> bool {
    let n0 = liquidity * 0x1_0000_0000_0000_0000_0000_0000 * (hi - lo);
    let n1 = liquidity * (hi - lo);
    &&& if up0 {
        is_ceil(amount0, n0, hi * lo)
    } else {
        is_floor(amount0, n0, hi * lo)
    }
    &&& if up1 {
        is_ceil(amount1, n1, 0x1_0000_0000_0000_0000_0000_0000)
    } else {
        is_floor(amount1, n1, 0x1_0000_0000_0000_0000_0000_0000)
    }
}

/// Moving the price from `from` to `to` takes `used` of the input token, rounded up, and releases
/// `out` of the output token, rounded down.
pub open spec fn trades_between(
    from: int,
    to: int,
    liquidity: int,
    zero_for_one: bool,
    used: int,
    out: int,
) -> bool {
    if zero_for_one {
        to <= from && holds_between(to, from, liquidity, used, true, out, false)
    } else {
        from <= to && holds_between(from, to, liquidity, out, false, used, true)
    }
}

/// One step of the price further would take more than `less` of the input token.
pub open spec fn is_as_far(
    from: int,
    to: int,
    liquidity: int,
    zero_for_one: bool,
    less: int,
) -> bool {
    let unit: int = 0x1_0000_0000_0000_0000_0000_0000;
    if zero_for_one {
        liquidity * unit + less * from < two256() ==> liquidity * unit * (from - (to - 1)) > less
            * (from * (to - 1))
    } else {
        liquidity * (to + 1 - from) > less * unit
    }
}

/// An exact-input step from `from` toward `target` with `before` of the input left, its fee in
/// millionths: what it uses, what it takes as a fee, and what it pays.
pub open spec fn is_step(
    from: int,
    target: int,
    liquidity: int,
    before: int,
    fee_pips: int,
    zero_for_one: bool,
    to: int,
    used: int,
    fee: int,
    out: int,
) -> bool {
    &&& if zero_for_one {
        target <= to <= from
    } else {
        from <= to <= target
    }
    &&& trades_between(from, to, liquidity, zero_for_one, used, out)
    &&& used >= 0 && fee >= 0 && out >= 0
    &&& used + fee <= before
    &&& used * 1_000_000 <= before * (1_000_000 - fee_pips)
    &&& to == target ==> is_ceil(fee, used * fee_pips, 1_000_000 - fee_pips)
    &&& to != target ==> used + fee == before && exists|less: int|
        #[trigger] is_floor(less, before * (1_000_000 - fee_pips), 1_000_000) && is_as_far(
            from,
            to,
            liquidity,
            zero_for_one,
            less,
        )
}

/// Rounding up twice is rounding up once.
proof fn lemma_ceil_twice(n: int, hi: int, lo: int)
    requires
        n >= 0,
        hi > 0,
        lo > 0,
    ensures
        is_ceil(ceil_div(ceil_div(n, hi), lo), n, hi * lo),
        ceil_div(ceil_div(n, hi), lo) >= 0,
{
    let u = ceil_div(n, hi);
    let v = ceil_div(u, lo);
    lemma_is_ceil(n, hi);
    lemma_is_ceil(u, lo);
    assert(n <= v * (hi * lo)) by (nonlinear_arith)
        requires
            n <= u * hi,
            u <= v * lo,
            hi > 0,
    ;
    assert((v - 1) * (hi * lo) < n) by (nonlinear_arith)
        requires
            (v - 1) * lo <= u - 1,
            (u - 1) * hi < n,
            hi > 0,
    ;
}

/// The amounts between two prices, as the swap computes them.
proof fn lemma_amounts(lo: int, hi: int, l: int)
    requires
        0 < lo <= hi,
        0 <= l,
    ensures
        amount0_delta(lo, hi, l, true) == amount0_delta(hi, lo, l, true),
        amount0_delta(lo, hi, l, false) == amount0_delta(hi, lo, l, false),
        amount1_delta(lo, hi, l, true) == amount1_delta(hi, lo, l, true),
        amount1_delta(lo, hi, l, false) == amount1_delta(hi, lo, l, false),
        amount0_delta(lo, hi, l, true) matches Ok(a) && a >= 0 && is_ceil(
            a,
            l * two96() * (hi - lo),
            hi * lo,
        ),
        amount0_delta(lo, hi, l, false) matches Ok(a) && a >= 0 && is_floor(
            a,
            l * two96() * (hi - lo),
            hi * lo,
        ),
        amount1_delta(lo, hi, l, true) matches Ok(a) ==> a >= 0 && is_ceil(
            a,
            l * (hi - lo),
            two96(),
        ),
        amount1_delta(lo, hi, l, false) matches Ok(a) ==> a >= 0 && is_floor(
            a,
            l * (hi - lo),
            two96(),
        ),
{
    let n0 = l * two96() * (hi - lo);
    let n1 = l * (hi - lo);
    assert(n0 >= 0 && n1 >= 0) by (nonlinear_arith)
        requires
            n0 == l * two96() * (hi - lo),
            n1 == l * (hi - lo),
            l >= 0,
            hi >= lo,
    ;
    assert(hi * lo > 0) by (nonlinear_arith)
        requires
            hi > 0,
            lo > 0,
    ;
    lemma_ceil_twice(n0, hi, lo);
    lemma_div_denominator(n0, hi, lo);
    lemma_is_floor(n0, hi * lo);
    lemma_is_ceil(n1, two96());
    lemma_is_floor(n1, two96());
}

/// Where token0 that does not reach the target takes the price.
proof fn lemma_short0(p: int, l: int, a: int, q: int)
    requires
        0 < p < two160(),
        0 < l < two128(),
        0 <= a < two256(),
        next_price_amount0(p, l, a, true) == Ok::<int, SimError>(q),
    ensures
        0 < q <= p,
        l * two96() * (p - q) <= a * (p * q),
        l * two96() + a * p < two256() ==> l * two96() * (p - (q - 1)) > a * (p * (q - 1)),
{
    let n = l * two96();
    let (f, d) = (n / p, n / p + a);
    assert(n > 0);
    assert(a * p >= 0) by (nonlinear_arith)
        requires
            a >= 0,
            p > 0,
    ;
    if a == 0 {
        assert(n * (p - q) == 0) by (nonlinear_arith)
            requires
                p == q,
        ;
        assert(n * (p - (q - 1)) == n) by (nonlinear_arith)
            requires
                p == q,
        ;
    } else if a * p < two256() && n + a * p < two256() {
        let e = n + a * p;
        let w = n * p;
        lemma_is_ceil(w, e);
        assert(w > 0 && w <= p * e) by (nonlinear_arith)
            requires
                w == n * p,
                e == n + a * p,
                n > 0,
                p > 0,
                a * p >= 0,
        ;
        assert(0 < q <= p) by (nonlinear_arith)
            requires
                (q - 1) * e < w,
                w <= q * e,
                0 < w <= p * e,
                e > 0,
        ;
        assert(n * (p - q) <= a * (p * q)) by (nonlinear_arith)
            requires
                w <= q * e,
                w == n * p,
                e == n + a * p,
        ;
        assert(n * (p - (q - 1)) > a * (p * (q - 1))) by (nonlinear_arith)
            requires
                (q - 1) * e < w,
                w == n * p,
                e == n + a * p,
        ;
    } else {
        lemma_is_floor(n, p);
        lemma_is_ceil(n, d);
        assert(d > 0);
        assert(n < p * d) by (nonlinear_arith)
            requires
                n < (f + 1) * p,
                d == f + a,
                a >= 1,
                p > 0,
        ;
        assert(0 < q <= p) by (nonlinear_arith)
            requires
                (q - 1) * d < n,
                n <= q * d,
                0 < n < p * d,
                d > 0,
        ;
        assert(n * (p - q) <= a * (p * q)) by (nonlinear_arith)
            requires
                n <= q * d,
                d == f + a,
                f * p <= n,
                q > 0,
                p > 0,
        {
            assert(n * p <= (q * d) * p);
            assert((q * d) * p == q * (f * p) + a * (p * q));
            assert(q * (f * p) <= q * n);
        }
    }
}

/// Where token1 that does not reach the target takes the price.
proof fn lemma_short1(p: int, l: int, a: int, q: int)
    requires
        0 < p,
        0 < l,
        0 <= a,
        next_price_amount1(p, l, a, true) == Ok::<int, SimError>(q),
    ensures
        p <= q,
        l * (q - p) <= a * two96(),
        l * (q + 1 - p) > a * two96(),
{
    let s = a * two96();
    lemma_is_floor(s, l);
    let d = s / l;
    assert(l * d <= s && l * (d + 1) > s) by (nonlinear_arith)
        requires
            d * l <= s < (d + 1) * l,
    ;
}

/// A step, as the swap computes it.
proof fn lemma_step(p: int, t: int, l: int, before: int, fee: int, zfo: bool, step: SwapStep)
    requires
        0 < p < two160(),
        0 < t < two160(),
        zfo ==> t <= p,
        !zfo ==> p <= t,
        0 < l < two128(),
        0 <= before < two256(),
        0 <= fee < 1_000_000,
        swap_step(p, t, l, before, fee) == Ok::<SwapStep, SimError>(step),
    ensures
        is_step(
            p,
            t,
            l,
            before,
            fee,
            zfo,
            step.sqrt_next,
            step.amount_in,
            step.fee_amount,
            step.amount_out,
        ),
{
    let kept = 1_000_000 - fee;
    lemma_small_mod(kept as nat, two256() as nat);
    assert(kept_pips(fee) == kept);
    let less = (before * kept) / 1_000_000;
    assert(0 <= before * kept <= before * 1_000_000) by (nonlinear_arith)
        requires
            before >= 0,
            0 < kept <= 1_000_000,
    ;
    lemma_is_floor(before * kept, 1_000_000);
    let q = step.sqrt_next;
    let (used, out) = (step.amount_in, step.amount_out);
    let (lo, hi) = if p <= t {
        (p, t)
    } else {
        (t, p)
    };
    lemma_amounts(lo, hi, l);
    if p == t {
        assert(l * two96() * (hi - lo) == 0 && l * (hi - lo) == 0) by (nonlinear_arith)
            requires
                hi == lo,
        ;
        assert(hi * lo > 0) by (nonlinear_arith)
            requires
                hi > 0,
                lo > 0,
        ;
        let need = amount0_delta(t, p, l, true)->Ok_0;
        assert(is_ceil(0, 0, hi * lo) && is_floor(0, 0, hi * lo));
        lemma_one_ceil(need, 0, 0, hi * lo);
        assert(is_ceil(0, 0, two96()) && is_floor(0, 0, two96()));
        lemma_one_floor(out, 0, 0, two96());
        assert(q == t && used == 0 && out == 0);
        lemma_fee(before, used, fee, step.fee_amount);
    } else {
        let need = if zfo {
            amount0_delta(t, p, l, true)->Ok_0
        } else {
            amount1_delta(p, t, l, true)->Ok_0
        };
        if less >= need {
            assert(q == t && used == need);
            lemma_fee(before, used, fee, step.fee_amount);
        } else {
            step_never_overshoots(p, t, l, less, q);
            if zfo {
                lemma_short0(p, l, less, q);
                lemma_amounts(q, p, l);
                assert(used <= less) by {
                    let n = l * two96() * (p - q);
                    assert(p * q > 0) by (nonlinear_arith)
                        requires
                            p > 0,
                            q > 0,
                    ;
                    assert(used <= less) by (nonlinear_arith)
                        requires
                            (used - 1) * (p * q) < n,
                            n <= less * (p * q),
                            p * q > 0,
                    ;
                }
                assert(q != t);
            } else {
                lemma_short1(p, l, less, q);
                lemma_amounts(p, q, l);
                assert(used <= less);
                assert(q != t);
            }
            assert(is_floor(less, before * (1_000_000 - fee), 1_000_000) && is_as_far(
                p,
                q,
                l,
                zfo,
                less,
            ));
        }
    }
}

/// The fee of a step that reaches its target.
proof fn lemma_fee(before: int, used: int, fee: int, fee_amount: int)
    requires
        0 <= before,
        0 <= used <= (before * (1_000_000 - fee)) / 1_000_000,
        0 <= fee < 1_000_000,
        fee_amount == ceil_div(used * fee, 1_000_000 - fee),
    ensures
        is_ceil(fee_amount, used * fee, 1_000_000 - fee),
        fee_amount >= 0,
        used + fee_amount <= before,
        used * 1_000_000 <= before * (1_000_000 - fee),
{
    lemma_fee_fits(before, used, fee);
    assert(used * fee >= 0) by (nonlinear_arith)
        requires
            used >= 0,
            fee >= 0,
    ;
    lemma_is_ceil(used * fee, 1_000_000 - fee);
}

// ---- the walk ----

/// What stays fixed along a walk.
pub struct Course {
    /// The initialized ticks.
    pub ticks: Seq<TickData>,
    /// The spacing of the ticks.
    pub spacing: int,
    /// The fee in millionths.
    pub fee_pips: int,
    /// The price at which the walk stops.
    pub limit: int,
    /// Whether token0 is sold, which moves the price down.
    pub zero_for_one: bool,
}

/// A stretch of a walk between two prices with one liquidity.
pub struct Segment {
    pub from: int,
    pub to: int,
    pub liquidity: int,
    /// The tick that the stretch starts in.
    pub tick: int,
    /// The tick at whose price it ends at the latest.
    pub boundary: int,
    /// The input that is left before it.
    pub before: int,
    pub used: int,
    pub fee: int,
    pub out: int,
}

/// `net` is the net liquidity of the first entry of tick `t`, and nothing where there is none.
pub open spec fn is_net(ticks: Seq<TickData>, t: int, net: int) -> bool {
    ||| exists|i: int|
        0 <= i < ticks.len() && (#[trigger] ticks[i]).tick == t && ticks[i].liquidity_net == net
            && forall|j: int| 0 <= j < i ==> (#[trigger] ticks[j]).tick != t
    ||| (forall|i: int| 0 <= i < ticks.len() ==> (#[trigger] ticks[i]).tick != t) && net == 0
}

/// A stretch: it goes toward the price of its boundary, or to the limit if that is nearer, past
/// no initialized tick of the spacing on the way, and trades what its liquidity does between its two prices.
/// Without liquidity the price moves for nothing.
#[verifier::opaque]
pub open spec fn is_segment(c: Course, g: Segment) -> bool {
    let edge = sqrt_ratio(g.boundary);
    let target = if c.zero_for_one {
        if edge >= c.limit {
            edge
        } else {
            c.limit
        }
    } else {
        if edge <= c.limit {
            edge
        } else {
            c.limit
        }
    };
    &&& MIN_TICK <= g.boundary <= MAX_TICK
    &&& g.from > 0 && g.to > 0 && g.before > 0 && g.from != c.limit
    &&& forall|i: int|
        0 <= i < c.ticks.len() && MIN_TICK <= (#[trigger] c.ticks[i]).tick <= MAX_TICK
            && c.ticks[i].tick as int % c.spacing == 0 ==> !(
        if c.zero_for_one {
            g.boundary < c.ticks[i].tick <= g.tick
        } else {
            g.tick < c.ticks[i].tick < g.boundary
        })
    &&& if g.liquidity == 0 {
        g.to == target && g.used == 0 && g.fee == 0 && g.out == 0
    } else {
        is_step(
            g.from,
            target,
            g.liquidity,
            g.before,
            c.fee_pips,
            c.zero_for_one,
            g.to,
            g.used,
            g.fee,
            g.out,
        )
    }
}

/// The stretch `h` goes on where `g` ends, at the price of its boundary, with the input that `g`
/// leaves and with the liquidity that is there past the boundary.
pub open spec fn goes_on(c: Course, g: Segment, h: Segment) -> bool {
    &&& h.from == g.to
    &&& g.to == sqrt_ratio(g.boundary)
    &&& h.before == g.before - g.used - g.fee
    &&& h.tick == if c.zero_for_one {
        g.boundary - 1
    } else {
        g.boundary
    }
    &&& is_net(
        c.ticks,
        g.boundary,
        if c.zero_for_one {
            g.liquidity - h.liquidity
        } else {
            h.liquidity - g.liquidity
        },
    )
}

/// What the stretches pay, together.
pub open spec fn paid_along(walk: Seq<Segment>) -> int
    decreases walk.len(),
{
    if walk.len() == 0 {
        0
    } else {
        walk[0].out + paid_along(walk.drop_first())
    }
}

/// A walk from a price, a tick and a liquidity with `amount_in` to spend, which ends at `price`
/// with `left` of it: it ends where nothing is left, or at the limit.
pub open spec fn is_walk(
    c: Course,
    walk: Seq<Segment>,
    from: int,
    tick: int,
    liquidity: int,
    amount_in: int,
    price: int,
    left: int,
) -> bool {
    &&& left == 0 || price == c.limit
    &&& forall|i: int| 0 <= i < walk.len() ==> is_segment(c, #[trigger] walk[i])
    &&& forall|i: int, j: int|
        0 <= i && j == i + 1 && j < walk.len() ==> goes_on(
            c,
            #[trigger] walk[i],
            #[trigger] walk[j],
        )
    &&& if walk.len() == 0 {
        price == from && left == amount_in
    } else {
        &&& walk[0].from == from
        &&& walk[0].tick == tick
        &&& walk[0].liquidity == liquidity
        &&& walk[0].before == amount_in
        &&& price == walk.last().to
        &&& left == walk.last().before - walk.last().used - walk.last().fee
    }
}

/// The course of a curve.
spec fn course_of(c: SwapCurve) -> Course {
    Course {
        ticks: c.ticks,
        spacing: c.spacing,
        fee_pips: c.fee_pips,
        limit: c.limit,
        zero_for_one: c.zero_for_one,
    }
}

/// A curve that can be walked.
spec fn is_course(c: SwapCurve) -> bool {
    &&& c.spacing >= 1
    &&& 0 <= c.fee_pips < 1_000_000
    &&& min_sqrt() < c.limit < max_sqrt()
}

/// A state on the way: the price is not past the limit, nor past the tick.
spec fn is_on_the_way(c: SwapCurve, s: SwapState) -> bool {
    &&& 0 < s.sqrt_price < two160()
    &&& 0 <= s.remaining < two256()
    &&& 0 <= s.liquidity < two128()
    &&& MIN_TICK - 1 <= s.tick <= MAX_TICK
    &&& if c.zero_for_one {
        &&& c.limit <= s.sqrt_price
        &&& sqrt_ratio(clamp_tick(s.tick)) <= s.sqrt_price
    } else {
        &&& s.sqrt_price <= c.limit
        &&& s.sqrt_price <= sqrt_ratio(clamp_tick(s.tick + 1))
    }
}

/// 2^224, above everything that one stretch pays.
spec fn two224() -> int {
    0x1_0000_0000_0000_0000_0000_0000_0000_0000_0000_0000_0000_0000_0000_0000int
}

/// What one stretch pays is far from 2^256.
proof fn lemma_out_is_small(from: int, to: int, l: int, zfo: bool, used: int, out: int)
    requires
        0 < from < two160(),
        0 < to < two160(),
        0 < l < two128(),
        trades_between(from, to, l, zfo, used, out),
    ensures
        out < two224(),
{
    let (lo, hi) = if zfo {
        (to, from)
    } else {
        (from, to)
    };
    let d = hi - lo;
    if zfo {
        assert(l * d < two128() * two160()) by (nonlinear_arith)
            requires
                0 < l < two128(),
                0 <= d < two160(),
        ;
    } else {
        let n = l * two96();
        assert(n < two224());
        assert(out < two224()) by (nonlinear_arith)
            requires
                out * (hi * lo) <= n * d,
                0 <= d < hi,
                0 < n < two224(),
                lo >= 1,
        {
            assert(n * d <= n * hi);
            if out >= two224() {
                assert(out * (hi * lo) >= two224() * (hi * lo));
                assert(two224() * (hi * lo) >= two224() * hi);
                assert(two224() * hi > n * hi);
            }
        }
    }
}

/// No initialized tick lies before the next boundary.
proof fn lemma_nothing_between(c: SwapCurve, tick: int, i: int)
    requires
        c.spacing >= 1,
        0 <= i < c.ticks.len(),
        c.ticks[i].tick as int % c.spacing == 0,
    ensures
        ({
            let (raw, found) = next_tick(c.ticks, c.spacing, tick, c.zero_for_one);
            !(if c.zero_for_one {
                raw < c.ticks[i].tick <= tick
            } else {
                tick < c.ticks[i].tick < raw
            })
        }),
{
    let (lo, hi) = word_bounds(c.spacing, tick, c.zero_for_one);
    let u = c.ticks[i].tick as int;
    let sp = c.spacing;
    let k = tick / sp;
    assert(has_tick(c.ticks, u));
    vstd::arithmetic::div_mod::lemma_fundamental_div_mod(tick, sp);
    vstd::arithmetic::div_mod::lemma_fundamental_div_mod(u, sp);
    let w = u / sp;
    if c.zero_for_one {
        if lo <= u <= tick {
            assert(u <= hi) by (nonlinear_arith)
                requires
                    u == sp * w,
                    u <= tick,
                    tick == sp * k + tick % sp,
                    0 <= tick % sp < sp,
                    hi == k * sp,
            {
                assert(sp * w < sp * (k + 1));
                assert(w < k + 1);
                assert(sp * w <= sp * k);
            }
            lemma_greatest_exists(c.ticks, lo, hi, u);
            let t = choose|t: int| is_greatest(c.ticks, lo, hi, t);
            assert(is_greatest(c.ticks, lo, hi, t));
            assert(u <= t);
        }
    } else {
        if tick < u <= hi {
            assert(lo <= u) by (nonlinear_arith)
                requires
                    u == sp * w,
                    tick < u,
                    tick == sp * k + tick % sp,
                    0 <= tick % sp,
                    lo == (k + 1) * sp,
                    sp >= 1,
            {
                assert(sp * w > sp * k);
                assert(w > k);
                assert(sp * w >= sp * (k + 1));
            }
            lemma_least_exists(c.ticks, lo, hi, u);
            let t = choose|t: int| is_least(c.ticks, lo, hi, t);
            assert(is_least(c.ticks, lo, hi, t));
            assert(t <= u);
        }
    }
}

/// Among the ticks of a range there is a greatest one.
proof fn lemma_greatest_exists(ticks: Seq<TickData>, lo: int, hi: int, u: int)
    requires
        has_tick(ticks, u),
        lo <= u <= hi,
    ensures
        exists|t: int| is_greatest(ticks, lo, hi, t),
    decreases hi - u,
{
    if !is_greatest(ticks, lo, hi, u) {
        let v = choose|v: int| #[trigger] has_tick(ticks, v) && lo <= v <= hi && v > u;
        lemma_greatest_exists(ticks, lo, hi, v);
    }
}

/// And a least one.
proof fn lemma_least_exists(ticks: Seq<TickData>, lo: int, hi: int, u: int)
    requires
        has_tick(ticks, u),
        lo <= u <= hi,
    ensures
        exists|t: int| is_least(ticks, lo, hi, t),
    decreases u - lo,
{
    if !is_least(ticks, lo, hi, u) {
        let v = choose|v: int| #[trigger] has_tick(ticks, v) && lo <= v <= hi && v < u;
        lemma_least_exists(ticks, lo, hi, v);
    }
}

/// The net liquidity of a tick, found.
proof fn lemma_net(ticks: Seq<TickData>, t: int)
    ensures
        is_net(ticks, t, net_at(ticks, t)),
        !has_tick(ticks, t) ==> net_at(ticks, t) == 0,
{
    if exists|i: int| is_first_at(ticks, t, i) {
        let i = choose|i: int| is_first_at(ticks, t, i);
        assert(is_first_at(ticks, t, i));
        assert(ticks[i].tick == t);
    } else {
        assert forall|i: int| 0 <= i < ticks.len() implies (#[trigger] ticks[i]).tick != t by {
            lemma_no_first(ticks, t, i);
        }
    }
}

proof fn lemma_no_first(ticks: Seq<TickData>, t: int, i: int)
    requires
        0 <= i < ticks.len(),
        !(exists|k: int| is_first_at(ticks, t, k)),
    ensures
        ticks[i].tick != t,
    decreases i,
{
    assert forall|j: int| 0 <= j < i implies (#[trigger] ticks[j]).tick != t by {
        lemma_no_first(ticks, t, j);
    }
    if ticks[i].tick == t {
        assert(is_first_at(ticks, t, i));
    }
}

/// A boundary that was not found initialized has no net liquidity.
proof fn lemma_unfound(c: SwapCurve, tick: int)
    requires
        c.spacing >= 1,
    ensures
        ({
            let (raw, found) = next_tick(c.ticks, c.spacing, tick, c.zero_for_one);
            !found ==> net_at(c.ticks, raw) == 0
        }),
{
    let (lo, hi) = word_bounds(c.spacing, tick, c.zero_for_one);
    let (raw, found) = next_tick(c.ticks, c.spacing, tick, c.zero_for_one);
    lemma_net(c.ticks, raw);
    if !found && has_tick(c.ticks, raw) {
        let k = tick / c.spacing;
        let sp = c.spacing;
        assert(lo <= hi) by {
            if c.zero_for_one {
                assert(((k / 256) * 256) * sp <= k * sp) by (nonlinear_arith)
                    requires
                        (k / 256) * 256 <= k,
                        sp >= 1,
                ;
            } else {
                let d = k + 1;
                assert(((d / 256) * 256 + 255) * sp >= d * sp) by (nonlinear_arith)
                    requires
                        (d / 256) * 256 + 255 >= d,
                        sp >= 1,
                ;
            }
        }
        if c.zero_for_one {
            lemma_greatest_exists(c.ticks, lo, hi, raw);
        } else {
            lemma_least_exists(c.ticks, lo, hi, raw);
        }
    }
}

/// One round of the swap is one stretch.
proof fn lemma_segment(c: SwapCurve, s: SwapState, next: SwapState, done: bool) -> (g: Segment)
    requires
        is_course(c),
        is_on_the_way(c, s),
        s.remaining != 0,
        s.sqrt_price != c.limit,
        0 <= s.calculated <= two256() - two224(),
        swap_round(c, s) == Ok::<(SwapState, bool), SimError>((next, done)),
    ensures
        is_segment(course_of(c), g),
        g.from == s.sqrt_price,
        g.tick == s.tick,
        g.liquidity == s.liquidity,
        g.before == s.remaining,
        g.to == next.sqrt_price,
        next.remaining == g.before - g.used - g.fee,
        next.calculated == s.calculated + g.out,
        0 <= g.out < two224(),
        done ==> next.remaining == 0 || next.sqrt_price == c.limit,
        !done ==> {
            &&& is_on_the_way(c, next)
            &&& g.to == sqrt_ratio(g.boundary)
            &&& next.tick == if c.zero_for_one {
                g.boundary - 1
            } else {
                g.boundary
            }
            &&& is_net(
                c.ticks,
                g.boundary,
                if c.zero_for_one {
                    g.liquidity - next.liquidity
                } else {
                    next.liquidity - g.liquidity
                },
            )
        },
{
    let (raw, found) = next_tick(c.ticks, c.spacing, s.tick, c.zero_for_one);
    let boundary = clamp_tick(raw);
    let edge = sqrt_ratio(boundary);
    let target = step_target(c, edge);
    let m = moved(c, s, target)->Ok_0;
    lemma_next_tick_ahead(c.ticks, c.spacing, s.tick, c.zero_for_one);
    sqrt_ratio_is_bounded(boundary);
    if c.zero_for_one {
        sqrt_ratio_is_monotone(boundary, clamp_tick(s.tick));
        sqrt_ratio_is_monotone(clamp_tick(boundary - 1), boundary);
    } else {
        sqrt_ratio_is_monotone(clamp_tick(s.tick + 1), boundary);
        sqrt_ratio_is_monotone(boundary, clamp_tick(boundary + 1));
    }
    lemma_net(c.ticks, boundary);
    lemma_unfound(c, s.tick);
    let step = swap_step(s.sqrt_price, target, s.liquidity, s.remaining, c.fee_pips)->Ok_0;
    let g = if s.liquidity == 0 {
        Segment {
            from: s.sqrt_price,
            to: target,
            liquidity: s.liquidity,
            tick: s.tick,
            boundary,
            before: s.remaining,
            used: 0,
            fee: 0,
            out: 0,
        }
    } else {
        Segment {
            from: s.sqrt_price,
            to: step.sqrt_next,
            liquidity: s.liquidity,
            tick: s.tick,
            boundary,
            before: s.remaining,
            used: step.amount_in,
            fee: step.fee_amount,
            out: step.amount_out,
        }
    };
    if s.liquidity != 0 {
        lemma_step(
            s.sqrt_price,
            target,
            s.liquidity,
            s.remaining,
            c.fee_pips,
            c.zero_for_one,
            step,
        );
        lemma_out_is_small(
            g.from,
            g.to,
            g.liquidity,
            c.zero_for_one,
            g.used,
            g.out,
        );
    }
    lemma_small_mod((s.calculated + g.out) as nat, two256() as nat);
    assert(m.sqrt_price == g.to);
    if !done {
        assert(g.to == edge);
        assert(boundary == raw);
        assert(net_at(c.ticks, boundary) == if c.zero_for_one {
            g.liquidity - next.liquidity
        } else {
            next.liquidity - g.liquidity
        });
        assert(0 <= next.liquidity < two128());
        assert(is_on_the_way(c, next));
    }
    reveal(is_segment);
    assert forall|i: int|
        0 <= i < c.ticks.len() && MIN_TICK <= (#[trigger] c.ticks[i]).tick <= MAX_TICK
            && c.ticks[i].tick as int % c.spacing == 0 implies !(if c.zero_for_one {
        boundary < c.ticks[i].tick <= s.tick
    } else {
        s.tick < c.ticks[i].tick < boundary
    }) by {
        lemma_nothing_between(c, s.tick, i);
    }
    g
}

/// Room for one round more.
proof fn lemma_rounds(rounds: nat, m: nat)
    requires
        rounds == m + 1,
    ensures
        rounds * two224() == m * two224() + two224(),
        m * two224() >= 0,
{
    assert(rounds * two224() == m * two224() + two224()) by (nonlinear_arith)
        requires
            rounds == m + 1,
    ;
    assert(m * two224() >= 0) by (nonlinear_arith)
        requires
            m >= 0,
            two224() > 0,
    ;
}

/// A stretch and the walk that goes on where it ends are a walk.
proof fn lemma_prepend(
    c: Course,
    g: Segment,
    rest: Seq<Segment>,
    tick: int,
    liquidity: int,
    price: int,
    left: int,
)
    requires
        is_segment(c, g),
        is_walk(c, rest, g.to, tick, liquidity, g.before - g.used - g.fee, price, left),
        rest.len() > 0 ==> goes_on(c, g, rest[0]),
    ensures
        is_walk(c, seq![g] + rest, g.from, g.tick, g.liquidity, g.before, price, left),
        paid_along(seq![g] + rest) == g.out + paid_along(rest),
{
    let walk = seq![g] + rest;
    assert(walk.drop_first() =~= rest);
    assert forall|i: int| 0 <= i < walk.len() implies is_segment(c, #[trigger] walk[i]) by {
        if i > 0 {
            assert(walk[i] == rest[i - 1]);
        }
    }
    assert forall|i: int, j: int| 0 <= i && j == i + 1 && j < walk.len() implies goes_on(
        c,
        #[trigger] walk[i],
        #[trigger] walk[j],
    ) by {
        assert(walk[j] == rest[j - 1]);
        if i > 0 {
            assert(walk[i] == rest[i - 1]);
        }
    }
    if rest.len() > 0 {
        assert(walk.last() == rest.last());
    } else {
        assert(walk.last() == g);
    }
}

/// The swap loop is a walk.
proof fn lemma_walk(c: SwapCurve, s: SwapState, rounds: nat, end: SwapState) -> (walk: Seq<Segment>)
    requires
        is_course(c),
        is_on_the_way(c, s),
        0 <= s.calculated,
        s.calculated + rounds * two224() < two256(),
        swap_loop(c, s, rounds) == Ok::<SwapState, SimError>(end),
    ensures
        is_walk(
            course_of(c),
            walk,
            s.sqrt_price,
            s.tick,
            s.liquidity,
            s.remaining,
            end.sqrt_price,
            end.remaining,
        ),
        end.calculated == s.calculated + paid_along(walk),
        paid_along(walk) >= 0,
        end.calculated < two256(),
    decreases rounds,
{
    if s.remaining == 0 || s.sqrt_price == c.limit {
        assert(s.calculated < two256()) by (nonlinear_arith)
            requires
                s.calculated + rounds * two224() < two256(),
                rounds >= 0,
                two224() > 0,
        ;
        Seq::empty()
    } else {
        let (next, done) = swap_round(c, s)->Ok_0;
        let m = (rounds - 1) as nat;
        lemma_rounds(rounds, m);
        let g = lemma_segment(c, s, next, done);
        if done {
            lemma_prepend(
                course_of(c),
                g,
                Seq::empty(),
                next.tick,
                next.liquidity,
                end.sqrt_price,
                end.remaining,
            );
            seq![g] + Seq::empty()
        } else {
            let rest = lemma_walk(c, next, m, end);
            lemma_prepend(
                course_of(c),
                g,
                rest,
                next.tick,
                next.liquidity,
                end.sqrt_price,
                end.remaining,
            );
            seq![g] + rest
        }
    }
}

/// The pool's price lies in the range of its tick, within the prices that a swap may reach, and
/// inside the window that is known.
pub open spec fn is_live(p: UniV3Pool) -> bool {
    &&& MIN_TICK <= p.tick < MAX_TICK
    &&& sqrt_ratio(p.tick as int) <= p.sqrt_price_x96@ <= sqrt_ratio(p.tick + 1)
    &&& 4295128739 < p.sqrt_price_x96@ < 1461446703485210103287273052203988822378723970342int
    &&& p.fee_pips < 1_000_000
    &&& p.known_range matches Some((lo, hi)) ==> (MIN_TICK < lo <= MAX_TICK ==> sqrt_ratio(
        lo as int,
    ) <= p.sqrt_price_x96@) && (MIN_TICK <= hi < MAX_TICK ==> p.sqrt_price_x96@ <= sqrt_ratio(
        hi as int,
    ))
}

/// The price at which a swap stops: one past the lowest price or one before the highest, or the
/// edge of the window that is known, if that is nearer.
pub open spec fn is_limit(p: UniV3Pool, zero_for_one: bool, limit: int) -> bool {
    if zero_for_one {
        &&& limit >= 4295128740
        &&& p.known_range matches Some((lo, _)) ==> lo > MIN_TICK ==> limit >= sqrt_ratio(
            lo as int,
        )
        &&& limit == 4295128740 || (p.known_range matches Some((lo, _)) && lo > MIN_TICK && limit
            == sqrt_ratio(lo as int))
    } else {
        &&& limit <= 1461446703485210103287273052203988822378723970341int
        &&& p.known_range matches Some((_, hi)) ==> hi < MAX_TICK ==> limit <= sqrt_ratio(
            hi as int,
        )
        &&& limit == 1461446703485210103287273052203988822378723970341int
            || (p.known_range matches Some((_, hi)) && hi < MAX_TICK && limit == sqrt_ratio(
            hi as int,
        ))
    }
}

/// A live pool can be walked from its price.
proof fn lemma_live(p: UniV3Pool, amount_in: int, zero_for_one: bool)
    requires
        p.wf(),
        is_live(p),
        0 <= amount_in < two256(),
    ensures
        price_limit(p.known_range, zero_for_one) matches Ok(limit) ==> {
            &&& is_limit(p, zero_for_one, limit)
            &&& is_course(p.curve(limit, zero_for_one))
            &&& is_on_the_way(p.curve(limit, zero_for_one), p.start(amount_in))
        },
        max_rounds() * two224() < two256(),
{
    broadcast use lemma_u256_range;

    sqrt_ratio_is_bounded(p.tick as int);
    sqrt_ratio_is_bounded(p.tick + 1);
    if let Some((lo, hi)) = p.known_range {
        if MIN_TICK <= lo <= MAX_TICK {
            sqrt_ratio_is_bounded(lo as int);
        }
        if MIN_TICK <= hi <= MAX_TICK {
            sqrt_ratio_is_bounded(hi as int);
        }
    }
}

/// A quote is what the stretches of a walk pay, together: from the pool's price, with its
/// liquidity, over every stretch up to where the input is spent or the limit is reached. From a
/// window of ticks there is a quote only where the input is spent.
pub proof fn quotes_are_what_the_walk_pays(
    pool: UniV3Pool,
    token_in: Address,
    token_out: Address,
    amount_in: int,
    out: int,
) -> (r: (Course, Seq<Segment>, int, int))
    requires
        pool.wf(),
        is_live(pool),
        0 <= amount_in < two256(),
        pool.spec_quote(token_in, token_out, amount_in) == Ok::<int, SimError>(out),
    ensures
        ({
            let (c, walk, price, left) = (r.0, r.1, r.2, r.3);
            &&& c.ticks == pool.ticks@
            &&& c.spacing == pool.tick_spacing
            &&& c.fee_pips == pool.fee_pips
            &&& c.zero_for_one == (token_in == pool.token0)
            &&& is_limit(pool, c.zero_for_one, c.limit)
            &&& is_walk(
                c,
                walk,
                pool.sqrt_price_x96@,
                pool.tick as int,
                pool.liquidity as int,
                amount_in,
                price,
                left,
            )
            &&& out == paid_along(walk)
            &&& pool.known_range is Some ==> left == 0
        }),
        token_in == pool.token0 && token_out == pool.token1 || token_in == pool.token1 && token_out
            == pool.token0,
        amount_in > 0,
{
    let zfo = token_in == pool.token0 && token_out == pool.token1;
    lemma_live(pool, amount_in, zfo);
    let limit = price_limit(pool.known_range, zfo)->Ok_0;
    let c = pool.curve(limit, zfo);
    let end = swap_loop(c, pool.start(amount_in), max_rounds())->Ok_0;
    let walk = lemma_walk(c, pool.start(amount_in), max_rounds(), end);
    (course_of(c), walk, end.sqrt_price, end.remaining)
}

// ---- more in, more out ----

/// Going further releases more.
proof fn lemma_further_pays_more(
    from: int,
    near: int,
    far: int,
    l: int,
    zfo: bool,
    used: int,
    used_far: int,
    out: int,
    out_far: int,
)
    requires
        0 < from,
        0 < near,
        0 < far,
        0 <= l,
        zfo ==> far <= near,
        !zfo ==> near <= far,
        trades_between(from, near, l, zfo, used, out),
        trades_between(from, far, l, zfo, used_far, out_far),
    ensures
        out <= out_far,
{
    if zfo {
        assert(l * (from - near) <= l * (from - far)) by (nonlinear_arith)
            requires
                l >= 0,
                far <= near,
        ;
    } else {
        let n = l * two96();
        let (a, b) = (near - from, far - from);
        assert(n >= 0);
        // a / near <= b / far, for both rise from the same price.
        assert((n * a) * (far * from) <= (n * b) * (near * from)) by (nonlinear_arith)
            requires
                n >= 0,
                a == near - from,
                b == far - from,
                near <= far,
                from > 0,
        {
            assert(a * far <= b * near);
            assert((n * from) * (a * far) <= (n * from) * (b * near));
        }
        let (d, e) = (near * from, far * from);
        assert(d > 0 && e > 0) by (nonlinear_arith)
            requires
                d == near * from,
                e == far * from,
                near > 0,
                far > 0,
                from > 0,
        ;
        if out_far < out {
            assert(false) by (nonlinear_arith)
                requires
                    (n * a) * e <= (n * b) * d,
                    out * d <= n * a,
                    n * b < (out_far + 1) * e,
                    out_far + 1 <= out,
                    d > 0,
                    e > 0,
            {
                let (x, y) = (n * a, n * b);
                assert((out * d) * e <= x * e);
                assert(y * d < ((out_far + 1) * e) * d);
                assert(((out_far + 1) * e) * d <= (out * e) * d);
            }
        }
    }
}

/// More of token0 takes the price at least as far down.
proof fn lemma_more0(p: int, l: int, a: int, b: int, qa: int, qb: int)
    requires
        0 < p < two160(),
        0 < l < two128(),
        0 <= a <= b < two256(),
        next_price_amount0(p, l, a, true) == Ok::<int, SimError>(qa),
        next_price_amount0(p, l, b, true) == Ok::<int, SimError>(qb),
    ensures
        qb <= qa,
{
    let n = l * two96();
    lemma_short0(p, l, a, qa);
    lemma_short0(p, l, b, qb);
    if a < b && a > 0 {
        let (f, wa, wb) = (n / p, a * p, b * p);
        assert(0 <= wa <= wb) by (nonlinear_arith)
            requires
                wa == a * p,
                wb == b * p,
                0 <= a <= b,
                p > 0,
        ;
        let w = n * p;
        assert(w > 0) by (nonlinear_arith)
            requires
                w == n * p,
                n > 0,
                p > 0,
        ;
        if n + wb < two256() {
            lemma_is_ceil(w, n + wa);
            lemma_is_ceil(w, n + wb);
            assert(qb <= qa) by (nonlinear_arith)
                requires
                    w <= qa * (n + wa),
                    (qb - 1) * (n + wb) < w,
                    wa <= wb,
                    n > 0,
                    wa >= 0,
                    qa > 0,
            {
                if qb > qa {
                    assert((qb - 1) * (n + wb) >= qa * (n + wb));
                    assert(qa * (n + wb) >= qa * (n + wa));
                }
            }
        } else {
            let d = f + b;
            lemma_is_floor(n, p);
            lemma_is_ceil(n, d);
            assert(d > 0);
            if n + wa < two256() {
                lemma_is_ceil(w, n + wa);
                // (f + b) p > n + a p, so n / (f + b) < n p / (n + a p).
                assert(d * p >= n + wa) by (nonlinear_arith)
                    requires
                        n < (f + 1) * p,
                        d == f + b,
                        wa == a * p,
                        b >= a + 1,
                        p > 0,
                ;
                assert(qb <= qa) by (nonlinear_arith)
                    requires
                        w == n * p,
                        w <= qa * (n + wa),
                        (qb - 1) * d < n,
                        d * p >= n + wa,
                        qa > 0,
                        p > 0,
                        d > 0,
                {
                    if qb > qa {
                        assert(qa * d <= (qb - 1) * d);
                        assert(qa * d < n);
                        assert((qa * d) * p < n * p);
                        assert((qa * d) * p == qa * (d * p));
                        assert(qa * (d * p) >= qa * (n + wa));
                    }
                }
            } else {
                let da = f + a;
                lemma_is_ceil(n, da);
                assert(qb <= qa) by (nonlinear_arith)
                    requires
                        n <= qa * da,
                        (qb - 1) * d < n,
                        da <= d,
                        da > 0,
                        qa > 0,
                {
                    if qb > qa {
                        assert(qa * d <= (qb - 1) * d);
                        assert(qa * da <= qa * d);
                    }
                }
            }
        }
    }
}

/// More of token1 takes the price at least as far up.
proof fn lemma_more1(p: int, l: int, a: int, b: int, qa: int, qb: int)
    requires
        0 < p,
        0 < l,
        0 <= a <= b,
        next_price_amount1(p, l, a, true) == Ok::<int, SimError>(qa),
        next_price_amount1(p, l, b, true) == Ok::<int, SimError>(qb),
    ensures
        qa <= qb,
{
    lemma_short1(p, l, a, qa);
    lemma_short1(p, l, b, qb);
    if qb < qa {
        assert(l * (qb + 1 - p) <= l * (qa - p)) by (nonlinear_arith)
            requires
                l > 0,
                qb + 1 <= qa,
        ;
    }
}

/// With more input a step goes at least as far; and where the smaller input reaches the target,
/// both do the same.
proof fn lemma_more_step(
    p: int,
    t: int,
    l: int,
    a: int,
    b: int,
    fee: int,
    zfo: bool,
    sa: SwapStep,
    sb: SwapStep,
)
    requires
        0 < p < two160(),
        0 < t < two160(),
        zfo ==> t <= p,
        !zfo ==> p <= t,
        0 < l < two128(),
        0 <= a <= b < two256(),
        0 <= fee < 1_000_000,
        swap_step(p, t, l, a, fee) == Ok::<SwapStep, SimError>(sa),
        swap_step(p, t, l, b, fee) == Ok::<SwapStep, SimError>(sb),
    ensures
        sa.amount_out <= sb.amount_out,
        sa.sqrt_next == t ==> sb == sa,
{
    lemma_step(p, t, l, a, fee, zfo, sa);
    lemma_step(p, t, l, b, fee, zfo, sb);
    let kept = 1_000_000 - fee;
    lemma_small_mod(kept as nat, two256() as nat);
    let (la, lb) = ((a * kept) / 1_000_000, (b * kept) / 1_000_000);
    assert(0 <= a * kept <= b * kept) by (nonlinear_arith)
        requires
            0 <= a <= b,
            kept > 0,
    ;
    assert(0 <= la <= lb);
    if p != t {
        let need = if zfo {
            amount0_delta(t, p, l, true)->Ok_0
        } else {
            amount1_delta(p, t, l, true)->Ok_0
        };
        if la < need {
            step_never_overshoots(p, t, l, la, sa.sqrt_next);
            if lb < need {
                if zfo {
                    lemma_more0(p, l, la, lb, sa.sqrt_next, sb.sqrt_next);
                } else {
                    lemma_more1(p, l, la, lb, sa.sqrt_next, sb.sqrt_next);
                }
            }
        }
        lemma_further_pays_more(
            p,
            sa.sqrt_next,
            sb.sqrt_next,
            l,
            zfo,
            sa.amount_in,
            sb.amount_in,
            sa.amount_out,
            sb.amount_out,
        );
    } else {
        let (lo, hi) = (p, t);
        lemma_amounts(p, t, l);
        assert(l * two96() * (hi - lo) == 0) by (nonlinear_arith)
            requires
                hi == lo,
        ;
        assert(hi * lo > 0) by (nonlinear_arith)
            requires
                hi > 0,
                lo > 0,
        ;
        let need = amount0_delta(t, p, l, true)->Ok_0;
        assert(is_ceil(0, 0, hi * lo));
        lemma_one_ceil(need, 0, 0, hi * lo);
    }
}

/// What has been paid never falls along the loop.
proof fn lemma_pays_no_less(c: SwapCurve, s: SwapState, rounds: nat, end: SwapState)
    requires
        is_course(c),
        is_on_the_way(c, s),
        0 <= s.calculated,
        s.calculated + rounds * two224() < two256(),
        swap_loop(c, s, rounds) == Ok::<SwapState, SimError>(end),
    ensures
        s.calculated <= end.calculated,
{
    let walk = lemma_walk(c, s, rounds, end);
}

/// One round with more input: it pays at least as much, and goes on where the other does.
proof fn lemma_more_round(
    c: SwapCurve,
    s: SwapState,
    more: SwapState,
    next: SwapState,
    done: bool,
    more_next: SwapState,
    more_done: bool,
)
    requires
        is_course(c),
        is_on_the_way(c, s),
        is_on_the_way(c, more),
        more == (SwapState { remaining: more.remaining, ..s }),
        0 < s.remaining <= more.remaining,
        s.sqrt_price != c.limit,
        0 <= s.calculated <= two256() - two224(),
        swap_round(c, s) == Ok::<(SwapState, bool), SimError>((next, done)),
        swap_round(c, more) == Ok::<(SwapState, bool), SimError>((more_next, more_done)),
    ensures
        next.calculated <= more_next.calculated,
        !done ==> !more_done && more_next == (SwapState {
            remaining: more_next.remaining,
            ..next
        }) && next.remaining <= more_next.remaining,
{
    let (raw, found) = next_tick(c.ticks, c.spacing, s.tick, c.zero_for_one);
    let boundary = clamp_tick(raw);
    let edge = sqrt_ratio(boundary);
    let target = step_target(c, edge);
    lemma_next_tick_ahead(c.ticks, c.spacing, s.tick, c.zero_for_one);
    sqrt_ratio_is_bounded(boundary);
    if c.zero_for_one {
        sqrt_ratio_is_monotone(boundary, clamp_tick(s.tick));
    } else {
        sqrt_ratio_is_monotone(clamp_tick(s.tick + 1), boundary);
    }
    if s.liquidity != 0 {
        let sa = swap_step(s.sqrt_price, target, s.liquidity, s.remaining, c.fee_pips)->Ok_0;
        let sb = swap_step(s.sqrt_price, target, s.liquidity, more.remaining, c.fee_pips)->Ok_0;
        lemma_more_step(
            s.sqrt_price,
            target,
            s.liquidity,
            s.remaining,
            more.remaining,
            c.fee_pips,
            c.zero_for_one,
            sa,
            sb,
        );
        lemma_step(
            s.sqrt_price,
            target,
            s.liquidity,
            s.remaining,
            c.fee_pips,
            c.zero_for_one,
            sa,
        );
    }
    let g = lemma_segment(c, s, next, done);
    let h = lemma_segment(c, more, more_next, more_done);
    if s.liquidity != 0 {
        let sa = swap_step(s.sqrt_price, target, s.liquidity, s.remaining, c.fee_pips)->Ok_0;
        let sb = swap_step(s.sqrt_price, target, s.liquidity, more.remaining, c.fee_pips)->Ok_0;
        lemma_step(
            s.sqrt_price,
            target,
            s.liquidity,
            more.remaining,
            c.fee_pips,
            c.zero_for_one,
            sb,
        );
        lemma_out_is_small(
            s.sqrt_price,
            sa.sqrt_next,
            s.liquidity,
            c.zero_for_one,
            sa.amount_in,
            sa.amount_out,
        );
        lemma_out_is_small(
            s.sqrt_price,
            sb.sqrt_next,
            s.liquidity,
            c.zero_for_one,
            sb.amount_in,
            sb.amount_out,
        );
        lemma_small_mod((s.calculated + sa.amount_out) as nat, two256() as nat);
        lemma_small_mod((s.calculated + sb.amount_out) as nat, two256() as nat);
        if !done {
            assert(sa.sqrt_next == edge);
            assert(sa.sqrt_next == target);
        }
    }
}

/// The loop with more input pays at least as much.
proof fn lemma_more_in(
    c: SwapCurve,
    s: SwapState,
    more: SwapState,
    rounds: nat,
    end: SwapState,
    more_end: SwapState,
)
    requires
        is_course(c),
        is_on_the_way(c, s),
        is_on_the_way(c, more),
        more == (SwapState { remaining: more.remaining, ..s }),
        s.remaining <= more.remaining,
        0 <= s.calculated,
        s.calculated + rounds * two224() < two256(),
        swap_loop(c, s, rounds) == Ok::<SwapState, SimError>(end),
        swap_loop(c, more, rounds) == Ok::<SwapState, SimError>(more_end),
    ensures
        end.calculated <= more_end.calculated,
    decreases rounds,
{
    if s.remaining == 0 || s.sqrt_price == c.limit {
        lemma_pays_no_less(c, more, rounds, more_end);
    } else {
        let (next, done) = swap_round(c, s)->Ok_0;
        let (more_next, more_done) = swap_round(c, more)->Ok_0;
        let m = (rounds - 1) as nat;
        lemma_rounds(rounds, m);
        lemma_more_round(c, s, more, next, done, more_next, more_done);
        let g = lemma_segment(c, s, next, done);
        let h = lemma_segment(c, more, more_next, more_done);
        if done {
            if !more_done {
                lemma_pays_no_less(c, more_next, m, more_end);
            }
        } else {
            lemma_more_in(c, next, more_next, m, end, more_end);
        }
    }
}

/// More in never pays less: quoting `more` pays at least what quoting `less` does.
pub proof fn quotes_rise_with_the_input(
    pool: UniV3Pool,
    token_in: Address,
    token_out: Address,
    less: int,
    more: int,
)
    requires
        pool.wf(),
        is_live(pool),
        0 <= less <= more < two256(),
    ensures
        match (
            pool.spec_quote(token_in, token_out, less),
            pool.spec_quote(token_in, token_out, more),
        ) {
            (Ok(a), Ok(b)) => 0 <= a <= b,
            _ => true,
        },
{
    if let (Ok(a), Ok(b)) = (
        pool.spec_quote(token_in, token_out, less),
        pool.spec_quote(token_in, token_out, more),
    ) {
        let zfo = token_in == pool.token0 && token_out == pool.token1;
        lemma_live(pool, less, zfo);
        lemma_live(pool, more, zfo);
        let limit = price_limit(pool.known_range, zfo)->Ok_0;
        let c = pool.curve(limit, zfo);
        let end = swap_loop(c, pool.start(less), max_rounds())->Ok_0;
        let more_end = swap_loop(c, pool.start(more), max_rounds())->Ok_0;
        lemma_pays_no_less(c, pool.start(less), max_rounds(), end);
        lemma_more_in(c, pool.start(less), pool.start(more), max_rounds(), end, more_end);
    }
}

} // verus!
