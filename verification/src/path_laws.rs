//! Laws of paths: what a path turns an amount into, what a loop nets, and which size is found.
//!
//! They speak of the quotes of the legs and of the amounts themselves.
use crate::path::{
    best_size_is_sound, best_size_value, chained, concave_curves_are_searched_to_the_top, gas_of,
    is_concave, is_nearly_concave, is_searched, lowest_score, narrowed, net_value,
    path_output, score, Leg, NetView,
};
use crate::pool::SimError;
use crate::types::two256;
use vstd::prelude::*;

verus! {

// ---- paths ----

/// `amounts` are what goes into and comes out of the first legs of a path, one after the other.
pub open spec fn runs_through(legs: Seq<Leg>, amounts: Seq<int>) -> bool {
    &&& 0 < amounts.len() <= legs.len() + 1
    &&& forall|i: int|
        0 <= i < amounts.len() - 1 ==> (#[trigger] legs[i]).pool.spec_quote(
            legs[i].token_in,
            legs[i].token_out,
            amounts[i],
        ) == Ok::<int, SimError>(amounts[i + 1])
}

proof fn lemma_runs_through(legs: Seq<Leg>, amounts: Seq<int>, k: int)
    requires
        runs_through(legs, amounts),
        0 <= k < amounts.len(),
    ensures
        chained(legs, k, amounts[0]) == Ok::<int, SimError>(amounts[k]),
    decreases k,
{
    if k > 0 {
        lemma_runs_through(legs, amounts, k - 1);
        let leg = legs[k - 1];
    }
}

/// A path hands the output of each leg to the next one: what comes out of the last leg is the
/// output of the path.
pub proof fn paths_run_every_leg(legs: Seq<Leg>, amounts: Seq<int>)
    requires
        legs.len() > 0,
        runs_through(legs, amounts),
        amounts.len() == legs.len() + 1,
    ensures
        path_output(legs, amounts[0]) == Ok::<int, SimError>(amounts.last()),
{
    lemma_runs_through(legs, amounts, legs.len() as int);
}

/// A path fails as the first of its legs that fails.
pub proof fn paths_fail_as_their_first_failing_leg(
    legs: Seq<Leg>,
    amounts: Seq<int>,
    error: SimError,
)
    requires
        runs_through(legs, amounts),
        amounts.len() <= legs.len(),
        legs[amounts.len() - 1].pool.spec_quote(
            legs[amounts.len() - 1].token_in,
            legs[amounts.len() - 1].token_out,
            amounts.last(),
        ) == Err::<int, SimError>(error),
    ensures
        path_output(legs, amounts[0]) == Err::<int, SimError>(error),
{
    let k = amounts.len() as int;
    lemma_runs_through(legs, amounts, k - 1);
    lemma_error_stays(legs, k, legs.len() as int, amounts[0]);
}

proof fn lemma_error_stays(legs: Seq<Leg>, k: int, n: int, amount_in: int)
    requires
        0 <= k <= n,
        chained(legs, k, amount_in) is Err,
    ensures
        chained(legs, n, amount_in) == chained(legs, k, amount_in),
    decreases n - k,
{
    if k < n {
        lemma_error_stays(legs, k + 1, n, amount_in);
    }
}

/// A path without legs turns no amount into anything.
pub proof fn empty_paths_fail(legs: Seq<Leg>, amount_in: int)
    requires
        legs.len() == 0,
    ensures
        path_output(legs, amount_in) == Err::<int, SimError>(SimError::ZeroAmount),
{
}

proof fn lemma_gas_of_front(legs: Seq<Leg>, leg: Leg, k: int)
    requires
        0 <= k <= legs.len(),
    ensures
        gas_of(legs.push(leg), k) == gas_of(legs, k),
    decreases k,
{
    if k > 0 {
        lemma_gas_of_front(legs, leg, k - 1);
    }
}

/// One more leg takes its pool's gas more; no leg takes none.
pub proof fn each_leg_takes_its_gas(legs: Seq<Leg>, leg: Leg)
    ensures
        legs.len() == 0 ==> gas_of(legs, legs.len() as int) == 0,
        gas_of(legs.push(leg), legs.push(leg).len() as int) == gas_of(legs, legs.len() as int)
            + leg.pool.spec_gas(),
{
    lemma_gas_of_front(legs, leg, legs.len() as int);
}

// ---- net profit ----

/// `cost` is what `gas_units` cost in token units, rounded down: `ratio` token units are worth
/// 10^18 wei, and a unit of gas takes `gas_price_wei`.
pub open spec fn is_gas_cost(gas_units: int, gas_price_wei: int, ratio: int, cost: int) -> bool {
    cost * 1_000_000_000_000_000_000 <= gas_units * gas_price_wei * ratio < (cost + 1)
        * 1_000_000_000_000_000_000
}

proof fn lemma_gas_cost(gas_units: int, gas_price_wei: int, ratio: int)
    requires
        gas_units >= 0,
        gas_price_wei >= 0,
        ratio >= 0,
    ensures
        is_gas_cost(
            gas_units,
            gas_price_wei,
            ratio,
            (gas_units * gas_price_wei * ratio) / 1_000_000_000_000_000_000,
        ),
        (gas_units * gas_price_wei * ratio) / 1_000_000_000_000_000_000 >= 0,
{
    let w = gas_units * gas_price_wei * ratio;
    assert(gas_units * gas_price_wei >= 0) by (nonlinear_arith)
        requires
            gas_units >= 0,
            gas_price_wei >= 0,
    ;
    let u = gas_units * gas_price_wei;
    assert(u * ratio >= 0) by (nonlinear_arith)
        requires
            u >= 0,
            ratio >= 0,
    ;
    assert(w >= 0);
}

/// There is one cost.
proof fn lemma_one_gas_cost(gas_units: int, gas_price_wei: int, ratio: int, a: int, b: int)
    requires
        is_gas_cost(gas_units, gas_price_wei, ratio, a),
        is_gas_cost(gas_units, gas_price_wei, ratio, b),
    ensures
        a == b,
{
}

/// A loop nets what comes out of it less what went in and less the gas, and only where that is
/// more than nothing: for every gas price and every ratio, a profit of `p` is reported exactly
/// where `p + amount_in + gas_cost` comes out.
pub proof fn profits_are_net_of_the_gas(
    legs: Seq<Leg>,
    amount_in: int,
    gas_price_wei: int,
    ratio: int,
    gross: int,
    cost: int,
)
    requires
        gas_of(legs, legs.len() as int) >= 0,
        gas_price_wei >= 0,
        ratio >= 0,
        path_output(legs, amount_in) == Ok::<int, SimError>(gross),
        is_gas_cost(gas_of(legs, legs.len() as int), gas_price_wei, ratio, cost),
    ensures
        match net_value(legs, amount_in, gas_price_wei, ratio) {
            Ok(n) => {
                &&& n.gross_out == gross
                &&& n.gas_cost == cost
                &&& n.net_profit is Some <==> gross > amount_in + cost
                &&& n.net_profit matches Some(p) ==> p + amount_in + cost == gross && p > 0
            },
            Err(e) => e == SimError::Overflow && (gas_of(legs, legs.len() as int) * gas_price_wei
                >= two256() || cost >= two256()),
        },
        gas_of(legs, legs.len() as int) * gas_price_wei >= two256() || cost >= two256()
            ==> net_value(legs, amount_in, gas_price_wei, ratio) is Err,
{
    let units = gas_of(legs, legs.len() as int);
    lemma_gas_cost(units, gas_price_wei, ratio);
    lemma_one_gas_cost(
        units,
        gas_price_wei,
        ratio,
        cost,
        (units * gas_price_wei * ratio) / 1_000_000_000_000_000_000,
    );
}

/// A loop that does not run nets nothing, and fails as the loop does.
pub proof fn failing_loops_net_nothing(
    legs: Seq<Leg>,
    amount_in: int,
    gas_price_wei: int,
    ratio: int,
    error: SimError,
)
    requires
        path_output(legs, amount_in) == Err::<int, SimError>(error),
    ensures
        net_value(legs, amount_in, gas_price_wei, ratio) == Err::<NetView, SimError>(error),
{
}

/// Gas that costs more never raises a profit: where the loop nets `dear` at the higher price, it
/// nets at least that at the lower one.
pub proof fn dearer_gas_never_pays(
    legs: Seq<Leg>,
    amount_in: int,
    low_price: int,
    high_price: int,
    ratio: int,
    at_high: NetView,
    dear: int,
)
    requires
        gas_of(legs, legs.len() as int) >= 0,
        0 <= low_price <= high_price,
        ratio >= 0,
        net_value(legs, amount_in, high_price, ratio) == Ok::<NetView, SimError>(at_high),
        at_high.net_profit == Some(dear),
    ensures
        match net_value(legs, amount_in, low_price, ratio) {
            Ok(n) => {
                &&& n.gross_out == at_high.gross_out
                &&& n.gas_cost <= at_high.gas_cost
                &&& n.net_profit == Some(dear + at_high.gas_cost - n.gas_cost)
            },
            Err(_) => false,
        },
{
    let units = gas_of(legs, legs.len() as int);
    let gross = at_high.gross_out;
    lemma_gas_cost(units, low_price, ratio);
    lemma_gas_cost(units, high_price, ratio);
    let (wl, wh) = (units * low_price, units * high_price);
    assert(0 <= wl <= wh) by (nonlinear_arith)
        requires
            wl == units * low_price,
            wh == units * high_price,
            units >= 0,
            0 <= low_price <= high_price,
    ;
    assert(wl * ratio <= wh * ratio) by (nonlinear_arith)
        requires
            wl <= wh,
            ratio >= 0,
    ;
    let (cl, ch) = (
        (wl * ratio) / 1_000_000_000_000_000_000,
        (wh * ratio) / 1_000_000_000_000_000_000,
    );
    assert(cl <= ch);
    assert(path_output(legs, amount_in) == Ok::<int, SimError>(gross));
    profits_are_net_of_the_gas(legs, amount_in, high_price, ratio, gross, ch);
    profits_are_net_of_the_gas(legs, amount_in, low_price, ratio, gross, cl);
}

// ---- the best size ----

/// The gas of a loop can be priced: neither its cost in wei nor that in token units overflows.
pub open spec fn gas_is_priced(legs: Seq<Leg>, gas_price_wei: int, ratio: int, cost: int) -> bool {
    let units = gas_of(legs, legs.len() as int);
    &&& units >= 0
    &&& gas_price_wei >= 0
    &&& ratio >= 0
    &&& units * gas_price_wei < two256()
    &&& is_gas_cost(units, gas_price_wei, ratio, cost)
    &&& cost < two256()
}

/// A loop runs up to the size `top`, where it gives `g`, and reverts past it.
pub open spec fn runs_up_to(
    legs: Seq<Leg>,
    min_amount: int,
    max_amount: int,
    top: int,
    g: spec_fn(int) -> int,
) -> bool {
    &&& min_amount <= top <= max_amount
    &&& forall|x: int|
        min_amount <= x <= top ==> #[trigger] path_output(legs, x) == Ok::<int, SimError>(g(x))
    &&& forall|x: int| top < x <= max_amount ==> #[trigger] path_output(legs, x) is Err
}

/// Where a loop's gas can be priced, it is evaluated exactly where it runs.
proof fn lemma_priced(legs: Seq<Leg>, x: int, gas_price_wei: int, ratio: int, cost: int)
    requires
        gas_is_priced(legs, gas_price_wei, ratio, cost),
    ensures
        net_value(legs, x, gas_price_wei, ratio) is Ok <==> path_output(legs, x) is Ok,
        path_output(legs, x) matches Ok(gross) ==> net_value(legs, x, gas_price_wei, ratio) is Ok
            && net_value(legs, x, gas_price_wei, ratio)->Ok_0.gross_out == gross && net_value(
            legs,
            x,
            gas_price_wei,
            ratio,
        )->Ok_0.gas_cost == cost,
{
    if let Ok(gross) = path_output(legs, x) {
        profits_are_net_of_the_gas(legs, x, gas_price_wei, ratio, gross, cost);
    }
}

/// The lower end of the search's bracket never reverts.
proof fn lemma_lower_end_runs(
    legs: Seq<Leg>,
    min_amount: int,
    max_amount: int,
    top: int,
    g: spec_fn(int) -> int,
    gp: int,
    q: int,
    cost: int,
    lo: int,
    hi: int,
    n: nat,
)
    requires
        runs_up_to(legs, min_amount, max_amount, top, g),
        gas_is_priced(legs, gp, q, cost),
        min_amount <= lo <= top,
        lo <= hi <= max_amount,
    ensures
        ({
            let (l, h) = narrowed(legs, gp, q, lo, hi, n);
            min_amount <= l <= top && l <= h <= max_amount
        }),
    decreases n,
{
    let third = (hi - lo) / 3;
    if n > 0 && third > 0 {
        let (m1, m2) = (lo + third, hi - third);
        let m = (n - 1) as nat;
        if score(legs, gp, q, m1) < score(legs, gp, q, m2) {
            assert(m2 <= top) by {
                if m2 > top {
                    assert(path_output(legs, m2) is Err);
                    lemma_priced(legs, m2, gp, q, cost);
                    assert(score(legs, gp, q, m2) == lowest_score());
                    assert(score(legs, gp, q, m1) >= lowest_score());
                }
            }
            lemma_lower_end_runs(legs, min_amount, max_amount, top, g, gp, q, cost, m1, hi, m);
        } else {
            lemma_lower_end_runs(legs, min_amount, max_amount, top, g, gp, q, cost, lo, m2, m);
        }
    }
}

/// The probe: the larger of the least size allowed and a ten-thousandth of the largest.
pub open spec fn is_probe(min_amount: int, max_amount: int, s: int) -> bool {
    &&& s == min_amount || s * 10_000 <= max_amount < (s + 1) * 10_000
    &&& s >= min_amount
    &&& (s + 1) * 10_000 > max_amount
}

/// No arbitrage is passed over: a loop that gives back more than it takes over the step from the
/// probe to its double, and that runs up to some size, is given a size, whatever the gas costs.
pub proof fn rising_loops_are_given_a_size(
    legs: Seq<Leg>,
    min_amount: int,
    max_amount: int,
    gas_price_wei: int,
    ratio: int,
    s: int,
    top: int,
    g: spec_fn(int) -> int,
    cost: int,
)
    requires
        0 < min_amount < max_amount,
        is_probe(min_amount, max_amount, s),
        2 * s < max_amount,
        runs_up_to(legs, min_amount, max_amount, top, g),
        2 * s <= top,
        g(2 * s) - g(s) > s,
        gas_is_priced(legs, gas_price_wei, ratio, cost),
    ensures
        best_size_value(legs, min_amount, max_amount, gas_price_wei, ratio) matches Some(x)
            && min_amount <= x <= top,
{
    assert(path_output(legs, s) == Ok::<int, SimError>(g(s)));
    assert(path_output(legs, 2 * s) == Ok::<int, SimError>(g(2 * s)));
    assert(is_searched(legs, min_amount, max_amount));
    let (gp, q) = (gas_price_wei, ratio);
    lemma_lower_end_runs(
        legs,
        min_amount,
        max_amount,
        top,
        g,
        gp,
        q,
        cost,
        min_amount,
        max_amount,
        64,
    );
    let (lo, hi) = narrowed(legs, gp, q, min_amount, max_amount, 64);
    assert(path_output(legs, lo) == Ok::<int, SimError>(g(lo)));
    lemma_priced(legs, lo, gp, q, cost);
    best_size_is_sound(legs, min_amount, max_amount, gp, q);
    let x = best_size_value(legs, min_amount, max_amount, gp, q)->0;
    lemma_priced(legs, x, gp, q, cost);
}

/// On a concave loop, a size past the double of the probe that earns more than the probe does,
/// gas aside, is enough for one to be found.
pub proof fn gains_past_the_probe_are_given_a_size(
    legs: Seq<Leg>,
    min_amount: int,
    max_amount: int,
    gas_price_wei: int,
    ratio: int,
    s: int,
    top: int,
    g: spec_fn(int) -> int,
    cost: int,
    x: int,
)
    requires
        0 < min_amount < max_amount,
        is_probe(min_amount, max_amount, s),
        2 * s < max_amount,
        runs_up_to(legs, min_amount, max_amount, top, g),
        is_concave(g, min_amount, top),
        2 * s <= x <= top,
        g(x) - x > g(s) - s,
        gas_is_priced(legs, gas_price_wei, ratio, cost),
    ensures
        best_size_value(legs, min_amount, max_amount, gas_price_wei, ratio) is Some,
{
    if x > 2 * s && g(2 * s) - g(s) <= s {
        let (a, b, c) = (s, 2 * s, x);
        assert((g(b) - g(a)) * (c - b) >= (g(c) - g(b)) * (b - a));
        let (d, e, w) = (g(b) - g(a), g(c) - g(b), c - b);
        assert(false) by (nonlinear_arith)
            requires
                d * w >= e * s,
                d <= s,
                e > w,
                w > 0,
                s > 0,
        {
            assert(d * w <= s * w);
            assert(e * s > w * s);
        }
    }
    rising_loops_are_given_a_size(
        legs,
        min_amount,
        max_amount,
        gas_price_wei,
        ratio,
        s,
        top,
        g,
        cost,
    );
}

/// No size is found where none is allowed, where the probe has no room, and where the loop
/// reverts at the probe or its double, or gives back no more than it takes between the two.
pub proof fn other_loops_are_left_out(
    legs: Seq<Leg>,
    min_amount: int,
    max_amount: int,
    gas_price_wei: int,
    ratio: int,
    s: int,
)
    requires
        min_amount >= 0,
        is_probe(min_amount, max_amount, s),
        min_amount == 0 || max_amount <= min_amount || 2 * s >= max_amount || path_output(
            legs,
            s,
        ) is Err || path_output(legs, 2 * s) is Err || path_output(legs, 2 * s)->Ok_0 - path_output(
            legs,
            s,
        )->Ok_0 <= s,
    ensures
        best_size_value(legs, min_amount, max_amount, gas_price_wei, ratio) is None,
{
    let t = max_amount / 10_000;
    if max_amount >= 0 {
        assert(t * 10_000 <= max_amount < (t + 1) * 10_000);
    }
}

/// The size that is found nets the most. Up to the size `top`, past which the loop reverts, its
/// output less its input follows a concave curve `f`, in units of one `scale`-th, but for an
/// error of rounding. Where the sizes allowed span at most 186 thousand million units, no size
/// nets more than the one that is found by over 130 errors: on an exactly concave curve, none
/// nets more at all.
pub proof fn the_best_size_nets_the_most(
    legs: Seq<Leg>,
    min_amount: int,
    max_amount: int,
    gas_price_wei: int,
    ratio: int,
    s: int,
    top: int,
    g: spec_fn(int) -> int,
    cost: int,
    f: spec_fn(int) -> int,
    scale: int,
    error: int,
    x: int,
)
    requires
        0 < min_amount < max_amount,
        max_amount - min_amount <= 186_000_000_000,
        is_probe(min_amount, max_amount, s),
        2 * s < max_amount,
        runs_up_to(legs, min_amount, max_amount, top, g),
        2 * s <= top,
        g(2 * s) - g(s) > s,
        gas_is_priced(legs, gas_price_wei, ratio, cost),
        // Sizes, outputs and gas are far from 2^127.
        max_amount + cost <= 0x7fff_ffff_ffff_ffff_ffff_ffff_ffff_ffff,
        forall|y: int|
            min_amount <= y <= top ==> 0 <= #[trigger] g(y)
                <= 0x7fff_ffff_ffff_ffff_ffff_ffff_ffff_ffff,
        scale > 0,
        error >= 0,
        is_concave(f, min_amount, top),
        forall|y: int|
            min_amount <= y <= top ==> -error <= #[trigger] f(y) - scale * (g(y) - y) <= error,
        min_amount <= x <= top,
    ensures
        best_size_value(legs, min_amount, max_amount, gas_price_wei, ratio) matches Some(b)
            && min_amount <= b <= top && scale * (g(x) - x) <= scale * (g(b) - b) + 130 * error && (
        error == 0 ==> g(x) - x <= g(b) - b),
{
    let (gp, q) = (gas_price_wei, ratio);
    rising_loops_are_given_a_size(legs, min_amount, max_amount, gp, q, s, top, g, cost);
    assert(path_output(legs, s) == Ok::<int, SimError>(g(s)));
    assert(path_output(legs, 2 * s) == Ok::<int, SimError>(g(2 * s)));
    assert(is_searched(legs, min_amount, max_amount));
    let h = |y: int| f(y) - scale * cost;
    lemma_gas_cost(gas_of(legs, legs.len() as int), gp, q);
    lemma_one_gas_cost(
        gas_of(legs, legs.len() as int),
        gp,
        q,
        cost,
        (gas_of(legs, legs.len() as int) * gp * q) / 1_000_000_000_000_000_000,
    );
    assert forall|y: int| min_amount <= y <= top implies #[trigger] score(legs, gp, q, y) == g(y)
        - y - cost && score(legs, gp, q, y) > lowest_score() by {
        assert(path_output(legs, y) == Ok::<int, SimError>(g(y)));
        lemma_priced(legs, y, gp, q, cost);
        assert(0 <= g(y) <= 0x7fff_ffff_ffff_ffff_ffff_ffff_ffff_ffff);
    }
    assert forall|y: int| top < y <= max_amount implies #[trigger] score(legs, gp, q, y)
        == lowest_score() by {
        assert(path_output(legs, y) is Err);
        lemma_priced(legs, y, gp, q, cost);
    }
    assert forall|y: int| min_amount <= y <= top implies -error <= #[trigger] h(y) - scale * score(
        legs,
        gp,
        q,
        y,
    ) <= error by {
        let v = g(y) - y;
        assert(score(legs, gp, q, y) == v - cost);
        assert(scale * (v - cost) == scale * v - scale * cost) by (nonlinear_arith);
        assert(-error <= f(y) - scale * (g(y) - y) <= error);
    }
    assert(is_concave(h, min_amount, top)) by {
        assert forall|a: int, b: int, c: int|
            #![trigger h(a), h(b), h(c)]
            min_amount <= a < b < c <= top implies (h(b) - h(a)) * (c - b) >= (h(c) - h(b)) * (b
            - a) by {
            assert((f(b) - f(a)) * (c - b) >= (f(c) - f(b)) * (b - a));
        }
    }
    assert(is_nearly_concave(legs, min_amount, max_amount, gp, q, h, scale, error, top));
    concave_curves_are_searched_to_the_top(
        legs,
        min_amount,
        max_amount,
        gp,
        q,
        h,
        scale,
        error,
        top,
        x,
    );
    let b = best_size_value(legs, min_amount, max_amount, gp, q)->0;
    let (u, v) = (g(x) - x, g(b) - b);
    assert(score(legs, gp, q, x) == u - cost && score(legs, gp, q, b) == v - cost);
    assert(scale * (u - cost) == scale * u - scale * cost) by (nonlinear_arith);
    assert(scale * (v - cost) == scale * v - scale * cost) by (nonlinear_arith);
}

} // verus!
