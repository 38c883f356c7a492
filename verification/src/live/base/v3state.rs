//! Exact Uniswap V3 (and fork) tick data: which bitmap words to read, which ticks they hold,
//! and their liquidity.
//!
//! A pool's `tickBitmap` is walked across a range of words to find the initialized ticks; then
//! `ticks(tick)` is read for each of them.
use crate::amm::univ3::{floor_div, TickData, MAX_TICK, MIN_TICK};
use crate::types::{Address, U256};
use vstd::arithmetic::power2::pow2;
use vstd::prelude::*;

verus! {

/// The Multicall3 contract.
pub fn multicall3() -> (r: Address)
    ensures
        r.hi == 0xcA11bde0,
        r.lo == 0x5977b3631167028862bE2a173976CA11,
{
    Address { hi: 0xcA11bde0, lo: 0x5977b3631167028862bE2a173976CA11 }
}

/// Division rounded down.
pub open spec fn floored(a: int, b: int) -> int {
    if b > 0 {
        a / b
    } else {
        (-a) / (-b)
    }
}

/// The low 16 bits of an integer, as a signed one.
pub open spec fn wrapped16(x: int) -> int {
    let low = x % 0x1_0000;
    if low < 0x8000 {
        low
    } else {
        low - 0x1_0000
    }
}

/// The word of the bitmap that holds a compressed tick.
pub open spec fn word_of(compressed: int) -> int {
    wrapped16(compressed / 256)
}

/// Floor division toward -inf.
pub fn compress(tick: i32, spacing: i32) -> (r: i32)
    requires
        spacing != 0,
        tick > i32::MIN || spacing != -1,
    ensures
        r == floored(tick as int, spacing as int),
{
    if spacing > 0 {
        let q: i64 = floor_div(tick as i64, spacing as i64);
        proof {
            assert(-0x8000_0000 <= q <= 0x7fff_ffff) by (nonlinear_arith)
                requires
                    q == tick as int / spacing as int,
                    spacing >= 1,
                    -0x8000_0000 <= tick <= 0x7fff_ffff,
            ;
        }
        q as i32
    } else {
        let q: i64 = floor_div(-(tick as i64), -(spacing as i64));
        proof {
            let (a, b) = (-(tick as int), -(spacing as int));
            if b > 1 {
                assert(-0x8000_0000 <= q <= 0x7fff_ffff) by (nonlinear_arith)
                    requires
                        q == a / b,
                        b > 1,
                        -0x7fff_ffff <= a <= 0x8000_0000,
                ;
            } else {
                assert(q == a) by (nonlinear_arith)
                    requires
                        q == a / b,
                        b == 1,
                ;
            }
        }
        q as i32
    }
}

/// The word of the bitmap that holds a compressed tick.
pub fn word_pos(compressed: i32) -> (r: i16)
    ensures
        r == word_of(compressed as int),
{
    let q: i64 = floor_div(compressed as i64, 256);
    let low: i64 = q - floor_div(q, 0x1_0000) * 0x1_0000;
    if low < 0x8000 {
        low as i16
    } else {
        (low - 0x1_0000) as i16
    }
}

/// Current price, liquidity and tick of a V3 pool.
#[derive(Debug, Clone, Copy)]
pub struct V3Snapshot {
    pub sqrt_price_x96: U256,
    pub liquidity: u128,
    pub tick: i32,
    pub tick_spacing: i32,
}

/// `tick` brought into the range of ticks.
pub open spec fn clamped(tick: i32) -> i32 {
    if tick < MIN_TICK {
        MIN_TICK
    } else if tick > MAX_TICK {
        MAX_TICK
    } else {
        tick
    }
}

/// The first and the last word that hold ticks from `lo_tick` to `hi_tick`.
pub fn window_words(tick_spacing: i32, lo_tick: i32, hi_tick: i32) -> (r: (i16, i16))
    requires
        tick_spacing != 0,
    ensures
        r.0 == word_of(floored(clamped(lo_tick) as int, tick_spacing as int)),
        r.1 == word_of(floored(clamped(hi_tick) as int, tick_spacing as int)),
{
    let lo: i32 = if lo_tick < MIN_TICK {
        MIN_TICK
    } else if lo_tick > MAX_TICK {
        MAX_TICK
    } else {
        lo_tick
    };
    let hi: i32 = if hi_tick < MIN_TICK {
        MIN_TICK
    } else if hi_tick > MAX_TICK {
        MAX_TICK
    } else {
        hi_tick
    };
    (word_pos(compress(lo, tick_spacing)), word_pos(compress(hi, tick_spacing)))
}

/// The first and the last word that hold any tick.
pub fn full_words(tick_spacing: i32) -> (r: (i16, i16))
    requires
        tick_spacing != 0,
    ensures
        r.0 == word_of(floored(MIN_TICK as int, tick_spacing as int)),
        r.1 == word_of(floored(MAX_TICK as int, tick_spacing as int)),
{
    window_words(tick_spacing, MIN_TICK, MAX_TICK)
}

/// The words from `min_word` to `max_word`, both included.
pub fn words_between(min_word: i16, max_word: i16) -> (r: Vec<i16>)
    ensures
        r@.len() == (if min_word <= max_word {
            max_word - min_word + 1
        } else {
            0
        }),
        forall|i: int| 0 <= i < r@.len() ==> #[trigger] r@[i] == min_word + i,
{
    let mut out: Vec<i16> = Vec::new();
    let mut w: i32 = min_word as i32;
    while w <= max_word as i32
        invariant
            min_word <= w,
            w <= max_word + 1 || w == min_word,
            out@.len() == w - min_word,
            forall|i: int| 0 <= i < out@.len() ==> #[trigger] out@[i] == min_word + i,
        decreases max_word + 1 - w,
    {
        out.push(w as i16);
        w = w + 1;
    }
    out
}

/// A bit of a word is set.
pub open spec fn bit_set(word: int, bit: int) -> bool {
    (word / (pow2(bit as nat) as int)) % 2 == 1
}

/// The ticks of the first `n` bits of the bitmap word `w`.
pub open spec fn word_ticks(word: int, w: int, spacing: int, n: int) -> Seq<int>
    decreases n,
{
    if n <= 0 {
        Seq::empty()
    } else if bit_set(word, n - 1) {
        word_ticks(word, w, spacing, n - 1).push((w * 256 + (n - 1)) * spacing)
    } else {
        word_ticks(word, w, spacing, n - 1)
    }
}

/// The ticks of the first `n` words that were read.
pub open spec fn all_ticks(
    words: Seq<i16>,
    replies: Seq<Option<U256>>,
    spacing: int,
    n: int,
) -> Seq<int>
    decreases n,
{
    if n <= 0 {
        Seq::empty()
    } else {
        match replies[n - 1] {
            None => all_ticks(words, replies, spacing, n - 1),
            Some(word) => all_ticks(words, replies, spacing, n - 1) + word_ticks(
                word@,
                words[n - 1] as int,
                spacing,
                256,
            ),
        }
    }
}

/// Every tick that the words hold fits in 32 bits.
pub open spec fn ticks_fit(words: Seq<i16>, replies: Seq<Option<U256>>, spacing: int) -> bool {
    forall|i: int, bit: int|
        0 <= i < words.len() && 0 <= bit < 256 && (replies[i] matches Some(word) && bit_set(
            word@,
            bit,
        )) ==> i32::MIN <= #[trigger] tick_at(words[i] as int, bit, spacing) <= i32::MAX
}

/// The tick of a bit of a bitmap word.
pub open spec fn tick_at(w: int, bit: int, spacing: int) -> int {
    (w * 256 + bit) * spacing
}

/// Integers as mathematical ones.
pub open spec fn tick_ints(ticks: Seq<i32>) -> Seq<int> {
    ticks.map_values(|t: i32| t as int)
}

/// Ticks in order, equal ones side by side.
pub open spec fn in_order(ticks: Seq<i32>) -> bool {
    forall|i: int, j: int| 0 <= i <= j < ticks.len() ==> #[trigger] ticks[i] <= #[trigger] ticks[j]
}

/// Put a tick in its place among ticks in order.
fn put_in_order(ticks: &mut Vec<i32>, tick: i32)
    requires
        in_order(old(ticks)@),
    ensures
        in_order(final(ticks)@),
        final(ticks)@.to_multiset() == old(ticks)@.to_multiset().insert(tick),
{
    let mut at: usize = ticks.len();
    while at > 0 && ticks[at - 1] > tick
        invariant
            at <= ticks.len(),
            in_order(ticks@),
            ticks@ == old(ticks)@,
            forall|i: int| at <= i < ticks.len() ==> #[trigger] ticks@[i] > tick,
        decreases at,
    {
        at = at - 1;
    }
    let ghost before = ticks@;
    ticks.insert(at, tick);
    proof {
        before.to_multiset_ensures();
        vstd::seq_lib::to_multiset_insert(before, at as int, tick);
    }
}

/// The initialized ticks in ascending order, from the bitmap words that were read. A word that
/// could not be read holds none.
pub fn initialized_ticks(words: &[i16], replies: &[Option<U256>], tick_spacing: i32) -> (r: Vec<
    i32,
>)
    requires
        words@.len() == replies@.len(),
        ticks_fit(words@, replies@, tick_spacing as int),
    ensures
        in_order(r@),
        tick_ints(r@).to_multiset() == all_ticks(
            words@,
            replies@,
            tick_spacing as int,
            words@.len() as int,
        ).to_multiset(),
{
    let ghost spacing = tick_spacing as int;
    let mut found: Vec<i32> = Vec::new();
    let mut i: usize = 0;
    while i < words.len()
        invariant
            i <= words@.len(),
            words@.len() == replies@.len(),
            spacing == tick_spacing,
            ticks_fit(words@, replies@, spacing),
            tick_ints(found@) == all_ticks(words@, replies@, spacing, i as int),
        decreases words@.len() - i,
    {
        let ghost start = tick_ints(found@);
        match replies[i] {
            None => {},
            Some(word) => {
                let w: i64 = words[i] as i64;
                let mut bit: usize = 0;
                assert(start + word_ticks(word@, w as int, spacing, 0) =~= start);
                while bit < 256
                    invariant
                        bit <= 256,
                        i < words@.len(),
                        words@.len() == replies@.len(),
                        w == words@[i as int],
                        replies@[i as int] == Some(word),
                        spacing == tick_spacing,
                        ticks_fit(words@, replies@, spacing),
                        tick_ints(found@) == start + word_ticks(
                            word@,
                            w as int,
                            spacing,
                            bit as int,
                        ),
                    decreases 256 - bit,
                {
                    if word.bit(bit) {
                        let ghost before = found@;
                        proof {
                            assert(i32::MIN <= tick_at(w as int, bit as int, spacing) <= i32::MAX);
                        }
                        let tick: i32 = ((w * 256 + bit as i64) * (tick_spacing as i64)) as i32;
                        found.push(tick);
                        proof {
                            assert(tick_ints(found@) =~= tick_ints(before).push(tick as int));
                            assert(tick_ints(found@) =~= start + word_ticks(
                                word@,
                                w as int,
                                spacing,
                                bit + 1,
                            ));
                        }
                    }
                    bit = bit + 1;
                }
            },
        }
        i = i + 1;
    }
    let mut sorted: Vec<i32> = Vec::new();
    let mut k: usize = 0;
    proof {
        assert(found@.take(0) =~= Seq::<i32>::empty());
        assert(sorted@ =~= Seq::<i32>::empty());
    }
    while k < found.len()
        invariant
            k <= found.len(),
            in_order(sorted@),
            sorted@.to_multiset() == found@.take(k as int).to_multiset(),
        decreases found.len() - k,
    {
        proof {
            found@.take(k as int).to_multiset_ensures();
            assert(found@.take(k + 1) =~= found@.take(k as int).push(found@[k as int]));
        }
        put_in_order(&mut sorted, found[k]);
        k = k + 1;
    }
    proof {
        assert(found@.take(k as int) =~= found@);
        lemma_same_ints(sorted@, found@);
    }
    sorted
}

/// Ticks that are the same, in whatever order, are the same integers.
proof fn lemma_same_ints(a: Seq<i32>, b: Seq<i32>)
    requires
        a.to_multiset() == b.to_multiset(),
    ensures
        tick_ints(a).to_multiset() == tick_ints(b).to_multiset(),
    decreases a.len(),
{
    a.to_multiset_ensures();
    b.to_multiset_ensures();
    if a.len() == 0 {
        assert(b.len() == 0);
        assert(tick_ints(a) =~= tick_ints(b));
    } else {
        let t = a.last();
        assert(a.contains(t));
        assert(b.to_multiset().count(t) > 0);
        assert(b.contains(t));
        let k = choose|k: int| 0 <= k < b.len() && b[k] == t;
        let (a1, b1) = (a.drop_last(), b.remove(k));
        assert(a1 =~= a.remove(a.len() - 1));
        vstd::seq_lib::to_multiset_remove(a, a.len() - 1);
        vstd::seq_lib::to_multiset_remove(b, k);
        lemma_same_ints(a1, b1);
        vstd::seq_lib::to_multiset_remove(tick_ints(a), a.len() - 1);
        vstd::seq_lib::to_multiset_remove(tick_ints(b), k);
        assert(tick_ints(a).remove(a.len() - 1) =~= tick_ints(a1));
        assert(tick_ints(b).remove(k) =~= tick_ints(b1));
        tick_ints(a).to_multiset_ensures();
        tick_ints(b).to_multiset_ensures();
        assert(tick_ints(a)[a.len() - 1] == t as int);
        assert(tick_ints(b)[k] == t as int);
        assert(tick_ints(a).contains(t as int));
        assert(tick_ints(b).contains(t as int));
        assert(tick_ints(a).to_multiset() =~= tick_ints(a1).to_multiset().insert(t as int));
        assert(tick_ints(b).to_multiset() =~= tick_ints(b1).to_multiset().insert(t as int));
    }
}

/// The ticks within `window_ticks` of the current one, both ends included.
pub fn window_around(tick: i32, window_ticks: i32) -> (r: (i32, i32))
    requires
        window_fits(tick, window_ticks),
    ensures
        r.0 == tick - window_ticks,
        r.1 == tick + window_ticks,
{
    (tick - window_ticks, tick + window_ticks)
}

/// The window around a tick fits in 32 bits.
pub open spec fn window_fits(tick: i32, window_ticks: i32) -> bool {
    i32::MIN <= tick - window_ticks <= i32::MAX && i32::MIN <= tick + window_ticks <= i32::MAX
}

/// The window of ticks that is read around the current one; a window that is not positive stands
/// for the whole range.
pub open spec fn window_of(tick: i32, window_ticks: i32) -> Option<(i32, i32)> {
    if window_ticks > 0 {
        Some(((tick - window_ticks) as i32, (tick + window_ticks) as i32))
    } else {
        None
    }
}

/// The window of ticks that is read around the current one, if not the whole range.
pub fn window_to_read(tick: i32, window_ticks: i32) -> (r: Option<(i32, i32)>)
    requires
        window_ticks > 0 ==> window_fits(tick, window_ticks),
    ensures
        r == window_of(tick, window_ticks),
{
    if window_ticks > 0 {
        Some(window_around(tick, window_ticks))
    } else {
        None
    }
}

/// The first and the last word of the bitmap to read for a window, or for the whole range.
pub fn words_to_read(tick_spacing: i32, window: Option<(i32, i32)>) -> (r: (i16, i16))
    requires
        tick_spacing != 0,
    ensures
        ({
            let (lo, hi) = match window {
                Some((lo, hi)) => (clamped(lo), clamped(hi)),
                None => (MIN_TICK, MAX_TICK),
            };
            &&& r.0 == word_of(floored(lo as int, tick_spacing as int))
            &&& r.1 == word_of(floored(hi as int, tick_spacing as int))
        }),
{
    match window {
        Some((lo, hi)) => window_words(tick_spacing, lo, hi),
        None => full_words(tick_spacing),
    }
}

/// The first `n` ticks with the gross and net liquidity that was read of each; ticks that could
/// not be read are left out.
pub open spec fn read_ticks(ticks: Seq<i32>, reads: Seq<Option<(u128, i128)>>, n: int) -> Seq<
    (i32, u128, i128),
>
    decreases n,
{
    if n <= 0 {
        Seq::empty()
    } else {
        match reads[n - 1] {
            Some((gross, net)) => read_ticks(ticks, reads, n - 1).push((ticks[n - 1], gross, net)),
            None => read_ticks(ticks, reads, n - 1),
        }
    }
}

/// The ticks with the gross and net liquidity that was read of each, in order.
pub fn ticks_full(ticks: &[i32], reads: &[Option<(u128, i128)>]) -> (r: Vec<(i32, u128, i128)>)
    ensures
        r@ == read_ticks(
            ticks@,
            reads@,
            if ticks@.len() <= reads@.len() {
                ticks@.len() as int
            } else {
                reads@.len() as int
            },
        ),
{
    let mut out: Vec<(i32, u128, i128)> = Vec::new();
    let mut i: usize = 0;
    while i < ticks.len() && i < reads.len()
        invariant
            i <= ticks@.len(),
            i <= reads@.len(),
            out@ == read_ticks(ticks@, reads@, i as int),
        decreases ticks@.len() - i,
    {
        if let Some((gross, net)) = reads[i] {
            out.push((ticks[i], gross, net));
        }
        i = i + 1;
    }
    out
}

/// Ticks with their net liquidity alone.
pub open spec fn nets(full: Seq<(i32, u128, i128)>) -> Seq<TickData> {
    full.map_values(|t: (i32, u128, i128)| TickData { tick: t.0, liquidity_net: t.2 })
}

/// Ticks with their net liquidity alone.
pub fn net_ticks(full: &[(i32, u128, i128)]) -> (r: Vec<TickData>)
    ensures
        r@ == nets(full@),
{
    let mut out: Vec<TickData> = Vec::new();
    let mut i: usize = 0;
    while i < full.len()
        invariant
            i <= full@.len(),
            out@ == nets(full@).take(i as int),
        decreases full@.len() - i,
    {
        let (tick, _, net) = full[i];
        out.push(TickData { tick, liquidity_net: net });
        assert(nets(full@).take(i + 1) =~= nets(full@).take(i as int).push(nets(full@)[i as int]));
        i = i + 1;
    }
    assert(nets(full@).take(i as int) =~= nets(full@));
    out
}

/// Every tick on the spacing's grid stands at one bit of the bitmap, and the words that are read
/// for the whole range of ticks hold that bit: a full read misses no tick.
pub proof fn full_reads_miss_no_tick(tick: int, spacing: int)
    requires
        spacing > 0,
        MIN_TICK <= tick <= MAX_TICK,
        tick % spacing == 0,
    ensures
        ({
            let compressed = floored(tick, spacing);
            let (w, bit) = (word_of(compressed), compressed % 256);
            &&& tick_at(w, bit, spacing) == tick
            &&& word_of(floored(MIN_TICK as int, spacing)) <= w
            &&& w <= word_of(floored(MAX_TICK as int, spacing))
        }),
{
    let (lo, hi) = (MIN_TICK as int, MAX_TICK as int);
    let c = tick / spacing;
    assert(lo / spacing <= c <= hi / spacing && -887272 <= lo / spacing && hi / spacing <= 887272
        && c * spacing == tick) by (nonlinear_arith)
        requires
            spacing > 0,
            lo == -887272,
            hi == 887272,
            lo <= tick <= hi,
            tick % spacing == 0,
            c == tick / spacing,
    ;
    assert(c == (c / 256) * 256 + c % 256);
}

} // verus!
