//! Laws of the checks against the chain, and of the ticks that are read for them.
use crate::amm::tick_math::{MAX_TICK, MIN_TICK};
use crate::book::PoolInfo;
use crate::live::base::groundtruth::GtOutcome;
use crate::live::base::v3state::{
    all_ticks, bit_set, clamped, floored, nets, read_ticks, word_of, word_ticks,
};
use crate::live::base::verify::{agrees, checkable_v3, is_checkable_v3, ladder, nonzero, whole_unit};
use crate::pool::SimError;
use crate::types::{two256, U256};
use vstd::arithmetic::div_mod::{lemma_fundamental_div_mod, lemma_mod_multiples_basic, lemma_small_mod};
use vstd::arithmetic::power::{lemma_pow_adds, lemma_pow_increases, lemma_pow_positive, pow};
use vstd::prelude::*;

verus! {

/// A quote agrees with the chain where both give the same output; where the chain refuses the
/// swap, it agrees if it fails or gives nothing.
pub proof fn only_equal_quotes_agree(mine: Result<U256, SimError>, chain: GtOutcome)
    ensures
        chain is Out ==> (agrees(mine, chain) <==> mine is Ok && mine->Ok_0@ == chain->Out_0@),
        chain is Revert ==> (agrees(mine, chain) <==> mine is Err || mine->Ok_0@ == 0),
{
}

proof fn lemma_top_unit()
    ensures
        pow(10, 0) == 1,
        pow(10, 1) == 10,
        pow(10, 2) == 100,
        pow(10, 70) * 10_000 < two256(),
{
    reveal_with_fuel(pow, 71);
}

proof fn lemma_unit(dec: u8, unit: int)
    requires
        dec <= 70,
        unit == pow(10, dec as nat),
    ensures
        0 < unit * 10_000 < two256(),
        whole_unit(dec) == unit,
        dec < 2 ==> unit == 1 || unit == 10,
        dec >= 2 ==> unit >= 100 && unit % 100 == 0,
{
    lemma_top_unit();
    lemma_pow_increases(10, dec as nat, 70);
    lemma_pow_positive(10, dec as nat);
    lemma_small_mod(unit as nat, two256() as nat);
    if dec >= 2 {
        lemma_pow_adds(10, 2, (dec - 2) as nat);
        lemma_pow_increases(10, 2, dec as nat);
        lemma_mod_multiples_basic(pow(10, (dec - 2) as nat), 100);
    }
}

proof fn lemma_nonzero(a: int, b: int, c: int, d: int, e: int)
    requires
        a != 0,
        c != 0,
        d != 0,
        e != 0,
    ensures
        nonzero(seq![a, b, c, d, e]) == if b == 0 {
            seq![a, c, d, e]
        } else {
            seq![a, b, c, d, e]
        },
{
    let none = Seq::<int>::empty();
    assert(nonzero(none) == none);
    assert(seq![a].drop_last() == none);
    assert(nonzero(seq![a]) == seq![a]);
    assert(seq![a, b].drop_last() == seq![a]);
    let two = if b == 0 {
        seq![a]
    } else {
        seq![a, b]
    };
    assert(nonzero(seq![a, b]) == two);
    assert(seq![a, b, c].drop_last() == seq![a, b]);
    assert(nonzero(seq![a, b, c]) == two.push(c));
    assert(seq![a, b, c, d].drop_last() == seq![a, b, c]);
    assert(nonzero(seq![a, b, c, d]) == two.push(c).push(d));
    assert(seq![a, b, c, d, e].drop_last() == seq![a, b, c, d]);
    assert(nonzero(seq![a, b, c, d, e]) == two.push(c).push(d).push(e));
}

/// The amounts that are checked go up in hundreds from a hundredth of a whole unit, after the
/// least amount there is.
pub proof fn sweeps_go_up_in_hundreds(dec: u8, unit: int)
    requires
        dec <= 70,
        unit == pow(10, dec as nat),
    ensures
        dec >= 2 ==> 100 * (unit / 100) == unit && nonzero(ladder(dec)) == seq![
            1,
            unit / 100,
            unit,
            100 * unit,
            10_000 * unit,
        ],
        dec < 2 ==> nonzero(ladder(dec)) == seq![1, unit, 100 * unit, 10_000 * unit],
{
    lemma_unit(dec, unit);
    lemma_small_mod((unit * 100) as nat, two256() as nat);
    lemma_small_mod((unit * 10_000) as nat, two256() as nat);
    lemma_nonzero(1, unit / 100, unit, 100 * unit, 10_000 * unit);
    assert(ladder(dec) == seq![1, unit / 100, unit, 100 * unit, 10_000 * unit]);
}

/// The pools that can be checked are all those that a quoter is known for, in order.
pub proof fn the_checkable_are_listed(pools: Seq<PoolInfo>, n: int)
    requires
        0 <= n <= pools.len() <= usize::MAX,
    ensures
        forall|i: int, j: int|
            0 <= i < j < checkable_v3(pools, n).len() ==> (#[trigger] checkable_v3(pools, n)[i])
                < (#[trigger] checkable_v3(pools, n)[j]),
        forall|k: usize|
            #![trigger checkable_v3(pools, n).contains(k)]
            checkable_v3(pools, n).contains(k) <==> k < n && is_checkable_v3(pools[k as int]),
    decreases n,
{
    if n > 0 {
        the_checkable_are_listed(pools, n - 1);
        let before = checkable_v3(pools, n - 1);
        let after = checkable_v3(pools, n);
        assert forall|i: int| 0 <= i < before.len() implies #[trigger] before[i] < n - 1 by {
            assert(before.contains(before[i]));
        }
        if is_checkable_v3(pools[n - 1]) {
            assert(after == before.push((n - 1) as usize));
            assert forall|k: usize|
                after.contains(k) <==> k < n && is_checkable_v3(pools[k as int]) by {
                if k == n - 1 {
                    assert(after[before.len() as int] == k);
                } else {
                    if before.contains(k) {
                        let i = choose|i: int| 0 <= i < before.len() && before[i] == k;
                        assert(after[i] == k);
                    }
                    if after.contains(k) {
                        let i = choose|i: int| 0 <= i < after.len() && after[i] == k;
                        assert(before[i] == k);
                    }
                }
            }
        }
    }
}

/// A tick stands in a word of the bitmap where its bit is set.
pub open spec fn stands_in(word: int, w: int, spacing: int, n: int, tick: int) -> bool {
    exists|bit: int| 0 <= bit < n && #[trigger] bit_set(word, bit) && tick == (256 * w + bit) * spacing
}

/// The ticks of a word go up, so none of them is listed twice.
pub proof fn words_list_their_ticks(word: int, w: int, spacing: int, n: int)
    requires
        n >= 0,
        spacing > 0,
    ensures
        forall|tick: int|
            #![trigger word_ticks(word, w, spacing, n).contains(tick)]
            word_ticks(word, w, spacing, n).contains(tick) <==> stands_in(word, w, spacing, n, tick),
        forall|i: int, j: int|
            0 <= i < j < word_ticks(word, w, spacing, n).len() ==> (#[trigger] word_ticks(
                word,
                w,
                spacing,
                n,
            )[i]) < (#[trigger] word_ticks(word, w, spacing, n)[j]),
    decreases n,
{
    if n > 0 {
        words_list_their_ticks(word, w, spacing, n - 1);
        let before = word_ticks(word, w, spacing, n - 1);
        let after = word_ticks(word, w, spacing, n);
        let last = (256 * w + (n - 1)) * spacing;
        assert forall|i: int| 0 <= i < before.len() implies #[trigger] before[i] < last by {
            assert(before.contains(before[i]));
            let bit = choose|bit: int|
                0 <= bit < n - 1 && #[trigger] bit_set(word, bit) && before[i] == (256 * w + bit)
                    * spacing;
            assert((256 * w + bit) * spacing < last) by (nonlinear_arith)
                requires
                    bit < n - 1,
                    spacing > 0,
                    last == (256 * w + (n - 1)) * spacing,
            ;
        }
        assert forall|tick: int|
            #![trigger after.contains(tick)]
            after.contains(tick) <==> stands_in(word, w, spacing, n, tick) by {
            if after.contains(tick) {
                let i = choose|i: int| 0 <= i < after.len() && after[i] == tick;
                if i < before.len() {
                    assert(before[i] == tick);
                    assert(before.contains(tick));
                    let bit = choose|bit: int|
                        0 <= bit < n - 1 && #[trigger] bit_set(word, bit) && tick == (256 * w + bit)
                            * spacing;
                    assert(bit_set(word, bit));
                } else {
                    assert(bit_set(word, n - 1));
                }
            }
            if stands_in(word, w, spacing, n, tick) {
                let bit = choose|bit: int|
                    0 <= bit < n && #[trigger] bit_set(word, bit) && tick == (256 * w + bit) * spacing;
                if bit == n - 1 {
                    assert(after[before.len() as int] == tick);
                } else {
                    assert(stands_in(word, w, spacing, n - 1, tick));
                    assert(before.contains(tick));
                    let i = choose|i: int| 0 <= i < before.len() && before[i] == tick;
                    assert(after[i] == tick);
                }
            }
        }
    }
}

/// A tick stands in one of the words that were answered.
pub open spec fn is_initialized(
    words: Seq<i16>,
    replies: Seq<Option<U256>>,
    spacing: int,
    n: int,
    tick: int,
) -> bool {
    exists|i: int|
        0 <= i < n && (#[trigger] replies[i]) is Some && stands_in(
            replies[i]->0@,
            words[i] as int,
            spacing,
            256,
            tick,
        )
}

/// The initialized ticks are those whose bit is set in a word that was answered.
pub proof fn set_bits_are_initialized_ticks(
    words: Seq<i16>,
    replies: Seq<Option<U256>>,
    spacing: int,
    n: int,
)
    requires
        0 <= n <= words.len() == replies.len(),
        spacing > 0,
    ensures
        forall|tick: int|
            #![trigger all_ticks(words, replies, spacing, n).contains(tick)]
            all_ticks(words, replies, spacing, n).contains(tick) <==> is_initialized(
                words,
                replies,
                spacing,
                n,
                tick,
            ),
    decreases n,
{
    if n > 0 {
        set_bits_are_initialized_ticks(words, replies, spacing, n - 1);
        let before = all_ticks(words, replies, spacing, n - 1);
        let after = all_ticks(words, replies, spacing, n);
        assert forall|tick: int|
            #![trigger after.contains(tick)]
            after.contains(tick) <==> is_initialized(words, replies, spacing, n, tick) by {
            match replies[n - 1] {
                None => {
                    if after.contains(tick) {
                        assert(before.contains(tick));
                    }
                    if is_initialized(words, replies, spacing, n, tick) {
                        assert(is_initialized(words, replies, spacing, n - 1, tick));
                        assert(before.contains(tick));
                    }
                },
                Some(word) => {
                    let own = word_ticks(word@, words[n - 1] as int, spacing, 256);
                    words_list_their_ticks(word@, words[n - 1] as int, spacing, 256);
                    assert(after == before + own);
                    assert(after.contains(tick) <==> before.contains(tick) || own.contains(tick)) by {
                        if before.contains(tick) {
                            let i = choose|i: int| 0 <= i < before.len() && before[i] == tick;
                            assert(after[i] == tick);
                        }
                        if own.contains(tick) {
                            let i = choose|i: int| 0 <= i < own.len() && own[i] == tick;
                            assert(after[before.len() + i] == tick);
                        }
                        if after.contains(tick) {
                            let i = choose|i: int| 0 <= i < after.len() && after[i] == tick;
                            if i < before.len() {
                                assert(before[i] == tick);
                            } else {
                                assert(own[i - before.len()] == tick);
                            }
                        }
                    }
                    if own.contains(tick) {
                        assert(replies[n - 1] is Some);
                        assert(is_initialized(words, replies, spacing, n, tick));
                    }
                    if before.contains(tick) {
                        let i = choose|i: int|
                            0 <= i < n - 1 && (#[trigger] replies[i]) is Some && stands_in(
                                replies[i]->0@,
                                words[i] as int,
                                spacing,
                                256,
                                tick,
                            );
                        assert(replies[i] is Some);
                    }
                    if is_initialized(words, replies, spacing, n, tick) {
                        let i = choose|i: int|
                            0 <= i < n && (#[trigger] replies[i]) is Some && stands_in(
                                replies[i]->0@,
                                words[i] as int,
                                spacing,
                                256,
                                tick,
                            );
                        if i < n - 1 {
                            assert(is_initialized(words, replies, spacing, n - 1, tick));
                        }
                    }
                },
            }
        }
    }
}

/// A tick is compressed by rounding down, and its word is the one that holds it.
pub proof fn compressed_ticks_round_down(tick: int, spacing: int)
    requires
        spacing > 0,
        MIN_TICK <= tick <= MAX_TICK,
    ensures
        floored(tick, spacing) * spacing <= tick < (floored(tick, spacing) + 1) * spacing,
        256 * word_of(floored(tick, spacing)) <= floored(tick, spacing) < 256 * (word_of(
            floored(tick, spacing),
        ) + 1),
{
    let c = tick / spacing;
    lemma_fundamental_div_mod(tick, spacing);
    assert(c * spacing <= tick < (c + 1) * spacing) by (nonlinear_arith)
        requires
            tick == spacing * c + tick % spacing,
            0 <= tick % spacing < spacing,
    ;
    assert(-887272 <= c <= 887272) by (nonlinear_arith)
        requires
            c * spacing <= tick < (c + 1) * spacing,
            spacing >= 1,
            -887272 <= tick <= 887272,
    ;
}

/// A tick outside the range of ticks is moved to its nearest end.
pub proof fn ticks_are_kept_in_range(tick: i32)
    ensures
        -887272 <= clamped(tick) <= 887272,
        -887272 <= tick <= 887272 ==> clamped(tick) == tick,
        tick < -887272 ==> clamped(tick) == -887272,
        tick > 887272 ==> clamped(tick) == 887272,
{
}

/// Where the ticks that were read came from: their places in the list, in order.
pub open spec fn are_read(
    ticks: Seq<i32>,
    reads: Seq<Option<(u128, i128)>>,
    n: int,
    places: Seq<int>,
) -> bool {
    &&& forall|j: int| 0 <= j < places.len() ==> 0 <= #[trigger] places[j] < n
    &&& forall|j: int, k: int| 0 <= j < k < places.len() ==> (#[trigger] places[j]) < (
    #[trigger] places[k])
    &&& forall|i: int| 0 <= i < n && (#[trigger] reads[i]) is Some ==> places.contains(i)
    &&& forall|j: int| 0 <= j < places.len() ==> (#[trigger] reads[places[j]]) is Some
}

/// Every tick that was answered is kept with what was read of it, in order; the others are left
/// out.
pub proof fn answered_ticks_are_kept(
    ticks: Seq<i32>,
    reads: Seq<Option<(u128, i128)>>,
    n: int,
) -> (places: Seq<int>)
    requires
        0 <= n <= ticks.len(),
        n <= reads.len(),
    ensures
        are_read(ticks, reads, n, places),
        places.len() == read_ticks(ticks, reads, n).len(),
        forall|j: int|
            #![trigger places[j]]
            #![trigger read_ticks(ticks, reads, n)[j]]
            0 <= j < places.len() ==> {
                let (tick, gross, net) = read_ticks(ticks, reads, n)[j];
                &&& tick == ticks[places[j]]
                &&& reads[places[j]] == Some((gross, net))
            },
    decreases n,
{
    if n <= 0 {
        Seq::empty()
    } else {
        let before = answered_ticks_are_kept(ticks, reads, n - 1);
        if reads[n - 1] is Some {
            let after = before.push(n - 1);
            assert forall|i: int| 0 <= i < n && (#[trigger] reads[i]) is Some implies after.contains(
                i,
            ) by {
                if i == n - 1 {
                    assert(after[before.len() as int] == i);
                } else {
                    let j = choose|j: int| 0 <= j < before.len() && before[j] == i;
                    assert(after[j] == i);
                }
            }
            after
        } else {
            before
        }
    }
}

/// A tick is kept for a quote with its net liquidity.
pub proof fn quotes_use_the_net_liquidity(full: Seq<(i32, u128, i128)>, i: int)
    requires
        0 <= i < full.len(),
    ensures
        nets(full).len() == full.len(),
        nets(full)[i].tick == full[i].0,
        nets(full)[i].liquidity_net == full[i].2,
{
}

} // verus!
