//! Laws of what is read: frames, families of pools, and the readings that make a pool.
use crate::book::PoolInfo;
use crate::live::base::flashblocks::{
    frame_place, hex_value, nibble, number_of, ScalarView,
};
use crate::live::base::groundtruth::{quoter_of, route_of, router_of, GtOutcome, Route};
use crate::live::base::loader::{
    family_of, makes_sim, read_after, sim_failure, Family, Read, Readings,
};
use crate::live::base::synced::{answered, live_failure, makes_live};
use crate::live::base::scan::reply::{hex_digit, hex_text};
use crate::live::source::SourceError;
use crate::types::U256;
use vstd::arithmetic::power::pow;
use vstd::prelude::*;

verus! {

/// A digit in base 16 is read as what it was written for.
proof fn lemma_digit(d: int)
    requires
        0 <= d < 16,
    ensures
        nibble(hex_digit(d)) == Some(d),
{
}

/// A number that was written in base 16 is read back, up to as many digits as were written.
pub proof fn hex_numbers_read_back(x: int, n: nat)
    requires
        0 <= x < pow(16, n),
    ensures
        hex_value(hex_text(x, n)) == Some(x),
    decreases n,
{
    if n == 0 {
        assert(pow(16, 0) == 1) by {
            reveal(pow);
        }
    } else {
        let s = hex_text(x, n);
        let m = (n - 1) as nat;
        assert(pow(16, n) == 16 * pow(16, m)) by {
            reveal(pow);
        }
        hex_numbers_read_back(x / 16, m);
        lemma_digit(x % 16);
        assert(s.drop_last() == hex_text(x / 16, m));
        assert(s.last() == hex_digit(x % 16));
    }
}

/// A frame stands in the block that its metadata names, or else its base, at its own index; it
/// has no place without an index, or where neither names a block.
pub proof fn frames_stand_in_their_block(
    index: Option<ScalarView>,
    metadata: Option<ScalarView>,
    base: Option<ScalarView>,
    block: u64,
    i: u64,
)
    ensures
        frame_place(index, metadata, base) == Some((block, i)) <==> index == Some(
            ScalarView::Whole(i),
        ) && (number_of(metadata) == Some(block) || (number_of(metadata) is None && number_of(base)
            == Some(block))),
{
}

/// Pools are told apart by their kind first and then by their exchange.
pub proof fn pools_have_their_family(p: PoolInfo)
    ensures
        p.kind@ == "uniswap_v3"@ <==> family_of(p) == Some(Family::V3),
        p.kind@ != "uniswap_v3"@ && p.exchange@ == "aerodrome"@ <==> family_of(p) == Some(
            Family::Aerodrome,
        ),
        p.kind@ != "uniswap_v3"@ && p.exchange@ == "uniswap-v2"@ ==> family_of(p) == Some(
            Family::V2 { fee_bps: 30 },
        ),
        p.kind@ != "uniswap_v3"@ && p.exchange@ == "pancakeswap-v2"@ ==> family_of(p) == Some(
            Family::V2 { fee_bps: 25 },
        ),
        p.kind@ != "uniswap_v3"@ && p.exchange@ != "aerodrome"@ && p.exchange@ != "uniswap-v2"@
            && p.exchange@ != "pancakeswap-v2"@ ==> family_of(p) is None,
{
    reveal_strlit("aerodrome");
    reveal_strlit("uniswap-v2");
    reveal_strlit("pancakeswap-v2");
    assert("aerodrome"@.len() == 9 && "uniswap-v2"@.len() == 10 && "pancakeswap-v2"@.len() == 14);
}

/// The answers so far, on which the next reading depends: whether one failed, and what is left.
pub open spec fn is_read_completely(p: PoolInfo, r: Readings) -> bool {
    match family_of(p) {
        Some(Family::V3) => r.slot0 is Some && r.ticks is Some,
        Some(Family::Aerodrome) => r.stable is Some && r.reserves is Some && r.fee is Some,
        Some(Family::V2 { .. }) => r.reserves is Some,
        None => true,
    }
}

/// One of the readings of a pool failed.
pub open spec fn has_failed(r: Readings) -> bool {
    ||| r.slot0 matches Some(Err(_))
    ||| r.ticks matches Some(Err(_))
    ||| r.stable matches Some(Err(_))
    ||| r.reserves matches Some(Err(_))
    ||| r.fee matches Some(Err(_))
}

/// Nothing can be traded through a pool without a price or liquidity, or with an empty side.
pub open spec fn is_dead(r: Readings) -> bool {
    ||| (r.slot0 matches Some(Ok(snap)) && (snap.liquidity == 0 || snap.sqrt_price_x96@ == 0))
    ||| (r.reserves matches Some(Ok(reserves)) && (reserves.0@ == 0 || reserves.1@ == 0))
}

/// Reading goes on until everything is read, a reading failed, or the pool is dead.
pub proof fn pools_are_read_to_the_end(p: PoolInfo, r: Readings)
    requires
        family_of(p) is Some,
        !has_failed(r),
        !is_dead(r),
    ensures
        read_after(p, r, true) is Done <==> is_read_completely(p, r),
        read_after(p, r, true) is Done <==> makes_sim(p, r),
        sim_failure(p, r) is None,
{
}

/// What is read next has not been read yet.
pub proof fn nothing_is_read_twice(p: PoolInfo, r: Readings, prune: bool)
    ensures
        match read_after(p, r, prune) {
            Read::Slot0 => r.slot0 is None,
            Read::Ticks => r.ticks is None && r.slot0 is Some,
            Read::Stable => r.stable is None,
            Read::Reserves => r.reserves is None,
            Read::WideReserves => r.reserves is None && r.stable is Some,
            Read::Fee => r.fee is None && r.reserves is Some,
            Read::Done => true,
        },
{
}

/// A pool that failed or is dead is not made.
pub proof fn dead_pools_are_not_made(p: PoolInfo, r: Readings)
    requires
        makes_sim(p, r),
    ensures
        sim_failure(p, r) is None,
        family_of(p) == Some(Family::V3) ==> (r.slot0 matches Some(Ok(snap)) && snap.liquidity
            > 0 && snap.sqrt_price_x96@ != 0) && r.ticks matches Some(Ok(_)),
        family_of(p) != Some(Family::V3) ==> (r.reserves matches Some(Ok(reserves)) && reserves.0@
            != 0 && reserves.1@ != 0),
{
}

/// A failure is that of a reading, after a first one that was answered.
pub proof fn failures_are_those_of_later_reads(p: PoolInfo, r: Readings, e: SourceError)
    requires
        sim_failure(p, r) == Some(e),
    ensures
        r.ticks == Some(Err::<Vec<(i32, u128, i128)>, SourceError>(e)) && family_of(p) == Some(
            Family::V3,
        ) || (family_of(p) == Some(Family::Aerodrome) && (r.stable matches Some(Ok(_))) && (
        r.reserves == Some(Err::<(crate::types::U256, crate::types::U256), SourceError>(e)) || r.fee
            == Some(Err::<crate::types::U256, SourceError>(e)))),
        !makes_sim(p, r),
{
}

/// Quotes are checked with the quoter or the router of the pool's own exchange.
pub proof fn pools_are_checked_on_their_exchange(p: PoolInfo)
    ensures
        match route_of(p) {
            Some(Route::V3 { quoter, fee }) => {
                &&& p.kind@ == "uniswap_v3"@
                &&& quoter_of(p.exchange@) == Some(quoter)
                &&& p.fee_bps is Some ==> fee == p.fee_bps->0
                &&& p.fee_bps is None ==> fee == 0
            },
            Some(Route::Aerodrome) => p.kind@ != "uniswap_v3"@ && p.exchange@ == "aerodrome"@,
            Some(Route::V2 { router }) => p.kind@ != "uniswap_v3"@ && router_of(p.exchange@)
                == Some(router),
            None => if p.kind@ == "uniswap_v3"@ {
                quoter_of(p.exchange@) is None
            } else {
                p.exchange@ != "aerodrome"@ && router_of(p.exchange@) is None
            },
        },
{
}

/// A live pool is made of every reading: a V3 pool also without liquidity, which a log may bring.
pub proof fn live_pools_are_read_to_the_end(p: PoolInfo, r: Readings)
    requires
        family_of(p) is Some,
        !has_failed(r),
        family_of(p) == Some(Family::V3) || !is_dead(r),
    ensures
        read_after(p, r, false) is Done <==> is_read_completely(p, r),
        makes_live(p, r) <==> is_read_completely(p, r),
        live_failure(p, r) is None,
{
}

/// A V3 pool fails as the first of its readings that failed.
pub proof fn live_v3_pools_fail_with_their_reading(p: PoolInfo, r: Readings, e: SourceError)
    requires
        family_of(p) == Some(Family::V3),
    ensures
        live_failure(p, r) == Some(e) <==> (r.slot0 matches Some(Err(first)) && first == e) || ((
        r.slot0 matches Some(Ok(_))) && (r.ticks matches Some(Err(second)) && second == e)),
        live_failure(p, r) is Some ==> !makes_live(p, r),
{
}

/// A hop was answered with an amount.
pub open spec fn pays(answer: Option<GtOutcome>) -> bool {
    answer matches Some(GtOutcome::Out(out)) && out@ != 0
}

/// A cycle that is checked hop by hop pays what its last hop answers, if every hop pays.
pub proof fn cycles_pay_their_last_answer(
    amount: U256,
    answers: Seq<Option<GtOutcome>>,
    n: int,
)
    requires
        0 <= n <= answers.len(),
    ensures
        answered(amount, answers, n) is Some <==> forall|i: int|
            0 <= i < n ==> pays(#[trigger] answers[i]),
        answered(amount, answers, n) is Some ==> if n == 0 {
            answered(amount, answers, n) == Some(amount)
        } else {
            answers[n - 1] == Some(GtOutcome::Out(answered(amount, answers, n)->0))
        },
    decreases n,
{
    if n > 0 {
        cycles_pay_their_last_answer(amount, answers, n - 1);
        assert(pays(answers[n - 1]) || !pays(answers[n - 1]));
    }
}

} // verus!
