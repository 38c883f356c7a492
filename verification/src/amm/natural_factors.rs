//! The factors that Balancer takes out of an exponent, against the exponential of
//! [`natural_powers`](crate::amm::natural_powers).
use crate::amm::balancer_math::{a_0, a_1, a_n, x_n};
use crate::amm::natural_powers::{
    at, ex, grain, grains, lemma_ex_add, lemma_ex_inverse, lemma_ex_lower, lemma_grain,
};
use crate::amm::natural_series::{lemma_taylor_above, lemma_taylor_below, taylor, taylor_term};
use vstd::prelude::*;

verus! {

/// `s` units of `10^-20` in grains.
pub open spec fn fine(s: int) -> int {
    s * 10_000_000_000_000_000_000_000_000_000_000_000_000_000_000_000_000_000_000_000_000_000_000_000_000_000_000_000_000_000_000_000_000_000int
}

/// Units of `10^-20` as a number.
pub proof fn lemma_fine(s: int)
    ensures
        at(fine(s)) == (s as real) / 100_000_000_000_000_000_000real,
{
    lemma_grain();
    let (x, g) = (s as real, grain());
    let m = 10_000_000_000_000_000_000_000_000_000_000_000_000_000_000_000_000_000_000_000_000_000_000_000_000_000_000_000_000_000_000_000_000_000real;
    assert(fine(s) as real == x * m);
    let n = grains() as real;
    assert(n == m * 100_000_000_000_000_000_000real);
    assert((x * m) * g == x / 100_000_000_000_000_000_000real) by (nonlinear_arith)
        requires
            g * n == 1real,
            n == m * 100_000_000_000_000_000_000real,
    {
        assert((g * m) * 100_000_000_000_000_000_000real == 1real);
        assert((x * m) * g == x * (g * m));
    }
}

/// The exponential of twice an exponent is the square.
proof fn lemma_ex_square(k: int, lo: real, hi: real)
    requires
        0real <= lo <= ex(k) <= hi,
    ensures
        lo * lo <= ex(2 * k) <= hi * hi,
{
    lemma_ex_add(k, k);
    assert(k + k == 2 * k);
    let e = ex(k);
    assert(lo * lo <= e * e <= hi * hi) by (nonlinear_arith)
        requires
            0real <= lo <= e <= hi,
    ;
}

/// The exponential of a sixteenth.
proof fn lemma_ex_sixteenth()
    ensures
        10644944589178594295633905588247947712487real / 10000000000000000000000000000000000000000real <= ex(fine(6250000000000000000)) <= 1330618073647324286954239358210680964061real / 1250000000000000000000000000000000000000real,
{
    let k = fine(6250000000000000000);
    let t = 1real / 16real;
    lemma_fine(6250000000000000000);
    lemma_grain();
    lemma_grain_is_small();
    assert(at(k) == t);
    let x0 = taylor_term(t, 0);
    let s0 = taylor(t, 0);
    let x1 = taylor_term(t, 1);
    let s1 = taylor(t, 1);
    assert(x1 == x0 * t / 1real);
    assert(x1 == 1real / 16real) by (nonlinear_arith)
        requires
            x1 == x0 * t / 1real,
            x0 == 1real,
            t == 1real / 16real,
    ;
    assert(s1 == s0 + x1);
    assert(s1 == 17real / 16real);
    let x2 = taylor_term(t, 2);
    let s2 = taylor(t, 2);
    assert(x2 == x1 * t / 2real);
    assert(x2 == 1real / 512real) by (nonlinear_arith)
        requires
            x2 == x1 * t / 2real,
            x1 == 1real / 16real,
            t == 1real / 16real,
    ;
    assert(s2 == s1 + x2);
    assert(s2 == 545real / 512real);
    let x3 = taylor_term(t, 3);
    let s3 = taylor(t, 3);
    assert(x3 == x2 * t / 3real);
    assert(x3 == 1real / 24576real) by (nonlinear_arith)
        requires
            x3 == x2 * t / 3real,
            x2 == 1real / 512real,
            t == 1real / 16real,
    ;
    assert(s3 == s2 + x3);
    assert(s3 == 26161real / 24576real);
    let x4 = taylor_term(t, 4);
    let s4 = taylor(t, 4);
    assert(x4 == x3 * t / 4real);
    assert(x4 == 1real / 1572864real) by (nonlinear_arith)
        requires
            x4 == x3 * t / 4real,
            x3 == 1real / 24576real,
            t == 1real / 16real,
    ;
    assert(s4 == s3 + x4);
    assert(s4 == 1674305real / 1572864real);
    let x5 = taylor_term(t, 5);
    let s5 = taylor(t, 5);
    assert(x5 == x4 * t / 5real);
    assert(x5 == 1real / 125829120real) by (nonlinear_arith)
        requires
            x5 == x4 * t / 5real,
            x4 == 1real / 1572864real,
            t == 1real / 16real,
    ;
    assert(s5 == s4 + x5);
    assert(s5 == 133944401real / 125829120real);
    let x6 = taylor_term(t, 6);
    let s6 = taylor(t, 6);
    assert(x6 == x5 * t / 6real);
    assert(x6 == 1real / 12079595520real) by (nonlinear_arith)
        requires
            x6 == x5 * t / 6real,
            x5 == 1real / 125829120real,
            t == 1real / 16real,
    ;
    assert(s6 == s5 + x6);
    assert(s6 == 12858662497real / 12079595520real);
    let x7 = taylor_term(t, 7);
    let s7 = taylor(t, 7);
    assert(x7 == x6 * t / 7real);
    assert(x7 == 1real / 1352914698240real) by (nonlinear_arith)
        requires
            x7 == x6 * t / 7real,
            x6 == 1real / 12079595520real,
            t == 1real / 16real,
    ;
    assert(s7 == s6 + x7);
    assert(s7 == 288034039933real / 270582939648real);
    let x8 = taylor_term(t, 8);
    let s8 = taylor(t, 8);
    assert(x8 == x7 * t / 8real);
    assert(x8 == 1real / 173173081374720real) by (nonlinear_arith)
        requires
            x8 == x7 * t / 8real,
            x7 == 1real / 1352914698240real,
            t == 1real / 16real,
    ;
    assert(s8 == s7 + x8);
    assert(s8 == 184341785557121real / 173173081374720real);
    let x9 = taylor_term(t, 9);
    let s9 = taylor(t, 9);
    assert(x9 == x8 * t / 9real);
    assert(x9 == 1real / 24936923717959680real) by (nonlinear_arith)
        requires
            x9 == x8 * t / 9real,
            x8 == 1real / 173173081374720real,
            t == 1real / 16real,
    ;
    assert(s9 == s8 + x9);
    assert(s9 == 5309043424045085real / 4987384743591936real);
    let x10 = taylor_term(t, 10);
    let s10 = taylor(t, 10);
    assert(x10 == x9 * t / 10real);
    assert(x10 == 1real / 3989907794873548800real) by (nonlinear_arith)
        requires
            x10 == x9 * t / 10real,
            x9 == 1real / 24936923717959680real,
            t == 1real / 16real,
    ;
    assert(s10 == s9 + x10);
    assert(s10 == 4247234739236068001real / 3989907794873548800real);
    let x11 = taylor_term(t, 11);
    let s11 = taylor(t, 11);
    assert(x11 == x10 * t / 11real);
    assert(x11 == 1real / 702223771897744588800real) by (nonlinear_arith)
        requires
            x11 == x10 * t / 11real,
            x10 == 1real / 3989907794873548800real,
            t == 1real / 16real,
    ;
    assert(s11 == s10 + x11);
    assert(s11 == 747513314105547968177real / 702223771897744588800real);
    let x12 = taylor_term(t, 12);
    let s12 = taylor(t, 12);
    assert(x12 == x11 * t / 12real);
    assert(x12 == 1real / 134826964204366961049600real) by (nonlinear_arith)
        requires
            x12 == x11 * t / 12real,
            x11 == 1real / 702223771897744588800real,
            t == 1real / 16real,
    ;
    assert(s12 == s11 + x12);
    assert(s12 == 28704511261653041977997real / 26965392840873392209920real);
    lemma_taylor_below(k, 12);
    let c = 148439real / 10000000000000000000000000000real;
    lemma_taylor_above(k, 12, t, c);
    assert(c * t == 148439real / 160000000000000000000000000000real) by (nonlinear_arith)
        requires
            c == 148439real / 10000000000000000000000000000real,
            t == 1real / 16real,
    ;
}

/// There are many grains in `10^-27`.
pub proof fn lemma_grain_is_small()
    ensures
        4real * grain() <= 1real / 1_000_000_000_000_000_000_000_000_000real,
{
    lemma_grain();
    let (g, n) = (grain(), grains() as real);
    assert(n >= 4_000_000_000_000_000_000_000_000_000real);
    assert(4real * g <= 1real / 1_000_000_000_000_000_000_000_000_000real) by (nonlinear_arith)
        requires
            g * n == 1real,
            n >= 4_000_000_000_000_000_000_000_000_000real,
            g > 0real,
    ;
}

/// What the exponentials of the powers of two are between.
proof fn lemma_ex_factors()
    ensures
        10644944589178594295633905588247947712487real / 10000000000000000000000000000000000000000real <= ex(fine(6250000000000000000)) <= 1330618073647324286954239358210680964061real / 1250000000000000000000000000000000000000real,
        566574226533413158414503575777733384267real / 500000000000000000000000000000000000000real <= ex(fine(12500000000000000000)) <= 1133148453066826316829009126711629109887real / 1000000000000000000000000000000000000000real,
        1284025416687741484073420395242958269353real / 1000000000000000000000000000000000000000real <= ex(fine(25000000000000000000)) <= 1284025416687741484073424871533258114381real / 1000000000000000000000000000000000000000real,
        1648721270700128146848650344004958584919real / 1000000000000000000000000000000000000000real <= ex(fine(50000000000000000000)) <= 824360635350064073424330919672996766267real / 500000000000000000000000000000000000000real,
        2718281828459045235360286007917309709471real / 1000000000000000000000000000000000000000real <= ex(fine(100000000000000000000)) <= 679570457114761308840080978285966562447real / 250000000000000000000000000000000000000real,
        3694528049465325113615209752257777297639real / 500000000000000000000000000000000000000real <= ex(fine(200000000000000000000)) <= 7389056098930650227230625578692659128823real / 1000000000000000000000000000000000000000real,
        68247687541430298847637679534152032367real / 1250000000000000000000000000000000000real <= ex(fine(400000000000000000000)) <= 5459815003314423907811318901463195863071real / 100000000000000000000000000000000000000real,
        2980957987041728274743579260639024001083real / 1000000000000000000000000000000000000real <= ex(fine(800000000000000000000)) <= 596191597408345654948782361133116232367real / 200000000000000000000000000000000000real,
        2221527630126968159190736799212995568659real / 250000000000000000000000000000000real <= ex(fine(1600000000000000000000)) <= 8886110520507872636764929802357915418609real / 1000000000000000000000000000000000real,
        1974074004567017379024416556986859241289real / 25000000000000000000000000real <= ex(fine(3200000000000000000000)) <= 7896296018268069516101189758276294833989real / 100000000000000000000000000real,
        1247029816162323376581804774702593811509real / 200000000000real <= ex(fine(6400000000000000000000)) <= 6235149080811616882914588441214170491791real / 1000000000000real,
        38877084059945950922224057821887810943034988685910825317real <= ex(fine(12800000000000000000000)) <= 38877084059945950922293449640262331212487045118890202225real,
{
    lemma_ex_sixteenth();
    lemma_ex_square(
        fine(6250000000000000000),
        10644944589178594295633905588247947712487real / 10000000000000000000000000000000000000000real,
        1330618073647324286954239358210680964061real / 1250000000000000000000000000000000000000real,
    );
    assert(2 * fine(6250000000000000000) == fine(12500000000000000000));
    assert(566574226533413158414503575777733384267real / 500000000000000000000000000000000000000real <= (10644944589178594295633905588247947712487real / 10000000000000000000000000000000000000000real) * (10644944589178594295633905588247947712487real / 10000000000000000000000000000000000000000real));
    assert(1133148453066826316829009126711629109887real / 1000000000000000000000000000000000000000real >= (1330618073647324286954239358210680964061real / 1250000000000000000000000000000000000000real) * (1330618073647324286954239358210680964061real / 1250000000000000000000000000000000000000real));
    lemma_ex_square(
        fine(12500000000000000000),
        566574226533413158414503575777733384267real / 500000000000000000000000000000000000000real,
        1133148453066826316829009126711629109887real / 1000000000000000000000000000000000000000real,
    );
    assert(2 * fine(12500000000000000000) == fine(25000000000000000000));
    assert(1284025416687741484073420395242958269353real / 1000000000000000000000000000000000000000real <= (566574226533413158414503575777733384267real / 500000000000000000000000000000000000000real) * (566574226533413158414503575777733384267real / 500000000000000000000000000000000000000real));
    assert(1284025416687741484073424871533258114381real / 1000000000000000000000000000000000000000real >= (1133148453066826316829009126711629109887real / 1000000000000000000000000000000000000000real) * (1133148453066826316829009126711629109887real / 1000000000000000000000000000000000000000real));
    lemma_ex_square(
        fine(25000000000000000000),
        1284025416687741484073420395242958269353real / 1000000000000000000000000000000000000000real,
        1284025416687741484073424871533258114381real / 1000000000000000000000000000000000000000real,
    );
    assert(2 * fine(25000000000000000000) == fine(50000000000000000000));
    assert(1648721270700128146848650344004958584919real / 1000000000000000000000000000000000000000real <= (1284025416687741484073420395242958269353real / 1000000000000000000000000000000000000000real) * (1284025416687741484073420395242958269353real / 1000000000000000000000000000000000000000real));
    assert(824360635350064073424330919672996766267real / 500000000000000000000000000000000000000real >= (1284025416687741484073424871533258114381real / 1000000000000000000000000000000000000000real) * (1284025416687741484073424871533258114381real / 1000000000000000000000000000000000000000real));
    lemma_ex_square(
        fine(50000000000000000000),
        1648721270700128146848650344004958584919real / 1000000000000000000000000000000000000000real,
        824360635350064073424330919672996766267real / 500000000000000000000000000000000000000real,
    );
    assert(2 * fine(50000000000000000000) == fine(100000000000000000000));
    assert(2718281828459045235360286007917309709471real / 1000000000000000000000000000000000000000real <= (1648721270700128146848650344004958584919real / 1000000000000000000000000000000000000000real) * (1648721270700128146848650344004958584919real / 1000000000000000000000000000000000000000real));
    assert(679570457114761308840080978285966562447real / 250000000000000000000000000000000000000real >= (824360635350064073424330919672996766267real / 500000000000000000000000000000000000000real) * (824360635350064073424330919672996766267real / 500000000000000000000000000000000000000real));
    lemma_ex_square(
        fine(100000000000000000000),
        2718281828459045235360286007917309709471real / 1000000000000000000000000000000000000000real,
        679570457114761308840080978285966562447real / 250000000000000000000000000000000000000real,
    );
    assert(2 * fine(100000000000000000000) == fine(200000000000000000000));
    assert(3694528049465325113615209752257777297639real / 500000000000000000000000000000000000000real <= (2718281828459045235360286007917309709471real / 1000000000000000000000000000000000000000real) * (2718281828459045235360286007917309709471real / 1000000000000000000000000000000000000000real));
    assert(7389056098930650227230625578692659128823real / 1000000000000000000000000000000000000000real >= (679570457114761308840080978285966562447real / 250000000000000000000000000000000000000real) * (679570457114761308840080978285966562447real / 250000000000000000000000000000000000000real));
    lemma_ex_square(
        fine(200000000000000000000),
        3694528049465325113615209752257777297639real / 500000000000000000000000000000000000000real,
        7389056098930650227230625578692659128823real / 1000000000000000000000000000000000000000real,
    );
    assert(2 * fine(200000000000000000000) == fine(400000000000000000000));
    assert(68247687541430298847637679534152032367real / 1250000000000000000000000000000000000real <= (3694528049465325113615209752257777297639real / 500000000000000000000000000000000000000real) * (3694528049465325113615209752257777297639real / 500000000000000000000000000000000000000real));
    assert(5459815003314423907811318901463195863071real / 100000000000000000000000000000000000000real >= (7389056098930650227230625578692659128823real / 1000000000000000000000000000000000000000real) * (7389056098930650227230625578692659128823real / 1000000000000000000000000000000000000000real));
    lemma_ex_square(
        fine(400000000000000000000),
        68247687541430298847637679534152032367real / 1250000000000000000000000000000000000real,
        5459815003314423907811318901463195863071real / 100000000000000000000000000000000000000real,
    );
    assert(2 * fine(400000000000000000000) == fine(800000000000000000000));
    assert(2980957987041728274743579260639024001083real / 1000000000000000000000000000000000000real <= (68247687541430298847637679534152032367real / 1250000000000000000000000000000000000real) * (68247687541430298847637679534152032367real / 1250000000000000000000000000000000000real));
    assert(596191597408345654948782361133116232367real / 200000000000000000000000000000000000real >= (5459815003314423907811318901463195863071real / 100000000000000000000000000000000000000real) * (5459815003314423907811318901463195863071real / 100000000000000000000000000000000000000real));
    lemma_ex_square(
        fine(800000000000000000000),
        2980957987041728274743579260639024001083real / 1000000000000000000000000000000000000real,
        596191597408345654948782361133116232367real / 200000000000000000000000000000000000real,
    );
    assert(2 * fine(800000000000000000000) == fine(1600000000000000000000));
    assert(2221527630126968159190736799212995568659real / 250000000000000000000000000000000real <= (2980957987041728274743579260639024001083real / 1000000000000000000000000000000000000real) * (2980957987041728274743579260639024001083real / 1000000000000000000000000000000000000real));
    assert(8886110520507872636764929802357915418609real / 1000000000000000000000000000000000real >= (596191597408345654948782361133116232367real / 200000000000000000000000000000000000real) * (596191597408345654948782361133116232367real / 200000000000000000000000000000000000real));
    lemma_ex_square(
        fine(1600000000000000000000),
        2221527630126968159190736799212995568659real / 250000000000000000000000000000000real,
        8886110520507872636764929802357915418609real / 1000000000000000000000000000000000real,
    );
    assert(2 * fine(1600000000000000000000) == fine(3200000000000000000000));
    assert(1974074004567017379024416556986859241289real / 25000000000000000000000000real <= (2221527630126968159190736799212995568659real / 250000000000000000000000000000000real) * (2221527630126968159190736799212995568659real / 250000000000000000000000000000000real));
    assert(7896296018268069516101189758276294833989real / 100000000000000000000000000real >= (8886110520507872636764929802357915418609real / 1000000000000000000000000000000000real) * (8886110520507872636764929802357915418609real / 1000000000000000000000000000000000real));
    lemma_ex_square(
        fine(3200000000000000000000),
        1974074004567017379024416556986859241289real / 25000000000000000000000000real,
        7896296018268069516101189758276294833989real / 100000000000000000000000000real,
    );
    assert(2 * fine(3200000000000000000000) == fine(6400000000000000000000));
    assert(1247029816162323376581804774702593811509real / 200000000000real <= (1974074004567017379024416556986859241289real / 25000000000000000000000000real) * (1974074004567017379024416556986859241289real / 25000000000000000000000000real));
    assert(6235149080811616882914588441214170491791real / 1000000000000real >= (7896296018268069516101189758276294833989real / 100000000000000000000000000real) * (7896296018268069516101189758276294833989real / 100000000000000000000000000real));
    lemma_ex_square(
        fine(6400000000000000000000),
        1247029816162323376581804774702593811509real / 200000000000real,
        6235149080811616882914588441214170491791real / 1000000000000real,
    );
    assert(2 * fine(6400000000000000000000) == fine(12800000000000000000000));
    assert(38877084059945950922224057821887810943034988685910825317real <= (1247029816162323376581804774702593811509real / 200000000000real) * (1247029816162323376581804774702593811509real / 200000000000real));
    assert(38877084059945950922293449640262331212487045118890202225real >= (6235149080811616882914588441214170491791real / 1000000000000real) * (6235149080811616882914588441214170491791real / 1000000000000real));
}
/// `a` is the exponential of `x` units, but for a part of `10^-20`.
proof fn lemma_factor(a: real, x: int, lo: real, hi: real)
    requires
        lo <= ex(fine(x)) <= hi,
        lo > 0real,
        hi <= a * (1real + 1real / 100_000_000_000_000_000_000real),
        a <= lo * (1real + 1real / 100_000_000_000_000_000_000real),
    ensures
        ex(fine(x - 1)) <= a <= ex(fine(x + 1)),
{
    let one = 1real + 1real / 100_000_000_000_000_000_000real;
    lemma_fine(1);
    lemma_ex_lower(fine(1));
    lemma_ex_add(fine(x), fine(1));
    lemma_ex_add(fine(x - 1), fine(1));
    lemma_ex_inverse(fine(x - 1));
    assert(fine(x) + fine(1) == fine(x + 1) && fine(x - 1) + fine(1) == fine(x));
    let (e, f, m) = (ex(fine(x)), ex(fine(x - 1)), ex(fine(1)));
    assert(m >= one);
    assert(a <= e * m) by (nonlinear_arith)
        requires
            a <= lo * one,
            0real < lo <= e,
            m >= one,
            one > 1real,
    {
        assert(lo * one <= e * one);
        assert(e * one <= e * m);
    }
    assert(f <= a) by (nonlinear_arith)
        requires
            e == f * m,
            e <= hi,
            hi <= a * one,
            m >= one,
            one > 1real,
            f > 0real,
    {
        assert(f * one <= f * m);
        assert(f * one <= a * one);
    }
}

/// The factors that powers are made of are the exponentials of the powers of two, but for a part of
/// `10^-20`.
pub proof fn lemma_factors(k: int)
    ensures
        2 <= k <= 11 ==> ex(fine(x_n(k) - 1)) <= (a_n(k) as real) / 100_000_000_000_000_000_000real
            <= ex(fine(x_n(k) + 1)),
        ex(fine(12_799_999_999_999_999_999_999)) <= (a_0() as real) <= ex(
            fine(12_800_000_000_000_000_000_001),
        ),
        ex(fine(6_399_999_999_999_999_999_999)) <= (a_1() as real) <= ex(
            fine(6_400_000_000_000_000_000_001),
        ),
{
    lemma_ex_factors();
    lemma_factor(
        38877084059945950922200000000000000000000000000000000000real,
        12800000000000000000000,
        38877084059945950922224057821887810943034988685910825317real,
        38877084059945950922293449640262331212487045118890202225real,
    );
    lemma_factor(
        6235149080811616882910000000real,
        6400000000000000000000,
        1247029816162323376581804774702593811509real / 200000000000real,
        6235149080811616882914588441214170491791real / 1000000000000real,
    );
    if k == 2 {
        lemma_factor(
            7896296018268069516100000000000000real / 100_000_000_000_000_000_000real,
            3200000000000000000000,
            1974074004567017379024416556986859241289real / 25000000000000000000000000real,
            7896296018268069516101189758276294833989real / 100000000000000000000000000real,
        );
    } else if k == 3 {
        lemma_factor(
            888611052050787263676000000real / 100_000_000_000_000_000_000real,
            1600000000000000000000,
            2221527630126968159190736799212995568659real / 250000000000000000000000000000000real,
            8886110520507872636764929802357915418609real / 1000000000000000000000000000000000real,
        );
    } else if k == 4 {
        lemma_factor(
            298095798704172827474000real / 100_000_000_000_000_000_000real,
            800000000000000000000,
            2980957987041728274743579260639024001083real / 1000000000000000000000000000000000000real,
            596191597408345654948782361133116232367real / 200000000000000000000000000000000000real,
        );
    } else if k == 5 {
        lemma_factor(
            5459815003314423907810real / 100_000_000_000_000_000_000real,
            400000000000000000000,
            68247687541430298847637679534152032367real / 1250000000000000000000000000000000000real,
            5459815003314423907811318901463195863071real / 100000000000000000000000000000000000000real,
        );
    } else if k == 6 {
        lemma_factor(
            738905609893065022723real / 100_000_000_000_000_000_000real,
            200000000000000000000,
            3694528049465325113615209752257777297639real / 500000000000000000000000000000000000000real,
            7389056098930650227230625578692659128823real / 1000000000000000000000000000000000000000real,
        );
    } else if k == 7 {
        lemma_factor(
            271828182845904523536real / 100_000_000_000_000_000_000real,
            100000000000000000000,
            2718281828459045235360286007917309709471real / 1000000000000000000000000000000000000000real,
            679570457114761308840080978285966562447real / 250000000000000000000000000000000000000real,
        );
    } else if k == 8 {
        lemma_factor(
            164872127070012814685real / 100_000_000_000_000_000_000real,
            50000000000000000000,
            1648721270700128146848650344004958584919real / 1000000000000000000000000000000000000000real,
            824360635350064073424330919672996766267real / 500000000000000000000000000000000000000real,
        );
    } else if k == 9 {
        lemma_factor(
            128402541668774148407real / 100_000_000_000_000_000_000real,
            25000000000000000000,
            1284025416687741484073420395242958269353real / 1000000000000000000000000000000000000000real,
            1284025416687741484073424871533258114381real / 1000000000000000000000000000000000000000real,
        );
    } else if k == 10 {
        lemma_factor(
            113314845306682631683real / 100_000_000_000_000_000_000real,
            12500000000000000000,
            566574226533413158414503575777733384267real / 500000000000000000000000000000000000000real,
            1133148453066826316829009126711629109887real / 1000000000000000000000000000000000000000real,
        );
    } else if k == 11 {
        lemma_factor(
            106449445891785942956real / 100_000_000_000_000_000_000real,
            6250000000000000000,
            10644944589178594295633905588247947712487real / 10000000000000000000000000000000000000000real,
            1330618073647324286954239358210680964061real / 1250000000000000000000000000000000000000real,
        );
    }
}

} // verus!
