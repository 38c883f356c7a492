//! Laws of pool state kept from logs: what each log sets, and what it leaves.
use crate::amm::univ3::TickData;
use crate::live::abi::{be_value, int24, Log};
use crate::live::base::synced::{kind_after, LiveKind};
use crate::live::base::v3sync::{
    after_log, applied, bumped, lists_ticks, liquidity_at, lower_net, modified, tick_entries,
    V3Model,
};
use crate::live::event::rank_of;
use crate::live::event_laws::later_is_by_block_and_then_by_index;
use crate::types::{two128, two160};
use vstd::prelude::*;

verus! {

/// A log that comes after the last one that was taken: in a later block, or later in the same.
pub open spec fn is_newer(log: Log, last: (u64, u64)) -> bool {
    match (log.block_number, log.log_index) {
        (Some(block), Some(index)) => block > last.0 || (block == last.0 && index > last.1),
        _ => false,
    }
}

/// The `i`-th word of a log's data.
pub open spec fn data_word(log: Log, i: int) -> int {
    be_value(log.data@.subrange(32 * i, 32 * i + 32))
}

/// A tick in the low 24 bits of a word, in two's complement.
pub open spec fn is_tick_in(word: int, tick: int) -> bool {
    -0x80_0000 <= tick < 0x80_0000 && (word - tick) % 0x100_0000 == 0
}

proof fn lemma_int24(word: int, tick: int)
    requires
        is_tick_in(word, tick),
    ensures
        int24(word) == tick,
{
}

proof fn lemma_newer(log: Log, last: (u64, u64))
    ensures
        is_newer(log, last) <==> match log.spec_key() {
            Some(key) => rank_of(key.0, key.1) > rank_of(last.0, last.1),
            None => false,
        },
{
    if let Some(key) = log.spec_key() {
        later_is_by_block_and_then_by_index(key.0, key.1, last.0, last.1);
    }
}

/// A swap log that is newer sets the price, the liquidity and the tick that it carries, and leaves
/// the ticks.
pub proof fn swap_logs_set_the_price(m: V3Model, log: Log, tick: int)
    requires
        log.is_event("Swap(address,address,int256,int256,uint160,uint128,int24)"@),
        log.topics@.len() == 3,
        log.data@.len() >= 160,
        is_newer(log, m.last_key),
        is_tick_in(data_word(log, 4), tick),
    ensures
        after_log(m, log) == (V3Model {
            sqrt_price: data_word(log, 2) % two160(),
            liquidity: data_word(log, 3) % two128(),
            tick,
            ticks: m.ticks,
            last_key: (log.block_number->0, log.log_index->0),
        }),
        applied(m, log) is Some,
{
    lemma_newer(log, m.last_key);
    lemma_int24(data_word(log, 4), tick);
}

/// A log that is not newer, that has no place in the chain, or that is of no event of a pool, is
/// not taken.
pub proof fn other_logs_are_not_taken(m: V3Model, log: Log)
    requires
        !is_newer(log, m.last_key) || log.topics@.len() == 0 || (!log.is_event(
            "Swap(address,address,int256,int256,uint160,uint128,int24)"@,
        ) && !log.is_event("Mint(address,address,int24,int24,uint128,uint256,uint256)"@)
            && !log.is_event("Burn(address,int24,int24,uint128,uint256,uint256)"@)),
    ensures
        after_log(m, log) == m,
        applied(m, log) is None,
{
    lemma_newer(log, m.last_key);
}

/// Gross and net liquidity of a tick; nothing where it is not initialized.
pub open spec fn gross_and_net(ticks: Map<i32, (u128, i128)>, t: i32) -> (int, int) {
    if ticks.dom().contains(t) {
        (ticks[t].0 as int, ticks[t].1 as int)
    } else {
        (0, 0)
    }
}

/// A position of `amount` from `lower` to `upper` is added to `m`, or taken off it: its liquidity
/// counts at both of its ticks, its net liquidity at the lower one and against the upper one, and
/// the pool's own liquidity changes where the price lies in the position. A tick without any
/// liquidity left is gone.
pub open spec fn is_moved_by(
    m: V3Model,
    n: V3Model,
    lower: i32,
    upper: i32,
    amount: int,
) -> bool {
    let (gl, nl) = gross_and_net(m.ticks, lower);
    let (gu, nu) = gross_and_net(m.ticks, upper);
    &&& n.sqrt_price == m.sqrt_price
    &&& n.tick == m.tick
    &&& n.liquidity == m.liquidity + if lower <= m.tick < upper {
        amount
    } else {
        0
    }
    &&& n.ticks.dom().contains(lower) <==> gl + amount != 0
    &&& n.ticks.dom().contains(upper) <==> gu + amount != 0
    &&& gl + amount != 0 ==> gross_and_net(n.ticks, lower) == (gl + amount, nl + amount)
    &&& gu + amount != 0 ==> gross_and_net(n.ticks, upper) == (gu + amount, nu - amount)
    &&& forall|t: i32|
        t != lower && t != upper ==> (#[trigger] n.ticks.dom().contains(t) <==> m.ticks.dom().contains(
            t,
        )) && gross_and_net(n.ticks, t) == gross_and_net(m.ticks, t)
}

/// The amounts stay in range: nothing overflows and nothing is taken that is not there.
pub open spec fn has_room_for(m: V3Model, lower: i32, upper: i32, amount: int) -> bool {
    let (gl, nl) = gross_and_net(m.ticks, lower);
    let (gu, nu) = gross_and_net(m.ticks, upper);
    &&& lower != upper
    &&& -0x8000_0000_0000_0000_0000_0000_0000_0000int < amount
        < 0x8000_0000_0000_0000_0000_0000_0000_0000int
    &&& 0 <= gl + amount < two128()
    &&& 0 <= gu + amount < two128()
    &&& 0 <= m.liquidity
    &&& lower <= m.tick < upper ==> 0 <= m.liquidity + amount < two128()
    &&& -0x8000_0000_0000_0000_0000_0000_0000_0000int <= nl + amount
        < 0x8000_0000_0000_0000_0000_0000_0000_0000int
    &&& -0x8000_0000_0000_0000_0000_0000_0000_0000int <= nu - amount
        < 0x8000_0000_0000_0000_0000_0000_0000_0000int
}

proof fn lemma_modified(m: V3Model, lower: i32, upper: i32, amount: int, mint: bool)
    requires
        amount >= 0,
        has_room_for(m, lower, upper, if mint {
            amount
        } else {
            -amount
        }),
    ensures
        is_moved_by(m, modified(m, lower as int, upper as int, amount, mint), lower, upper, if mint {
            amount
        } else {
            -amount
        }),
        modified(m, lower as int, upper as int, amount, mint).last_key == m.last_key,
{
    let net = if mint {
        amount
    } else {
        -amount
    };
    let once = bumped(m.ticks, lower as int, amount, net, mint);
    assert(liquidity_at(once, upper as int) == liquidity_at(m.ticks, upper as int));
}

/// A mint log that is newer adds its position.
pub proof fn mint_logs_add_their_position(m: V3Model, log: Log, lower: i32, upper: i32)
    requires
        log.is_event("Mint(address,address,int24,int24,uint128,uint256,uint256)"@),
        !log.is_event("Swap(address,address,int256,int256,uint160,uint128,int24)"@),
        log.topics@.len() == 4,
        log.data@.len() >= 128,
        is_newer(log, m.last_key),
        is_tick_in(log.topics@[2].word@, lower as int),
        is_tick_in(log.topics@[3].word@, upper as int),
        has_room_for(m, lower, upper, data_word(log, 1) % two128()),
    ensures
        is_moved_by(m, after_log(m, log), lower, upper, data_word(log, 1) % two128()),
        after_log(m, log).last_key == (log.block_number->0, log.log_index->0),
{
    lemma_newer(log, m.last_key);
    lemma_int24(log.topics@[2].word@, lower as int);
    lemma_int24(log.topics@[3].word@, upper as int);
    lemma_modified(m, lower, upper, data_word(log, 1) % two128(), true);
}

/// A burn log that is newer takes its position off.
pub proof fn burn_logs_take_their_position_off(m: V3Model, log: Log, lower: i32, upper: i32)
    requires
        log.is_event("Burn(address,int24,int24,uint128,uint256,uint256)"@),
        !log.is_event("Swap(address,address,int256,int256,uint160,uint128,int24)"@),
        !log.is_event("Mint(address,address,int24,int24,uint128,uint256,uint256)"@),
        log.topics@.len() == 4,
        log.data@.len() >= 96,
        is_newer(log, m.last_key),
        is_tick_in(log.topics@[2].word@, lower as int),
        is_tick_in(log.topics@[3].word@, upper as int),
        has_room_for(m, lower, upper, -(data_word(log, 0) % two128())),
    ensures
        is_moved_by(m, after_log(m, log), lower, upper, -(data_word(log, 0) % two128())),
        after_log(m, log).last_key == (log.block_number->0, log.log_index->0),
{
    lemma_newer(log, m.last_key);
    lemma_int24(log.topics@[2].word@, lower as int);
    lemma_int24(log.topics@[3].word@, upper as int);
    lemma_modified(m, lower, upper, data_word(log, 0) % two128(), false);
}

/// What more or less of an amount makes, held at zero and at the largest 128-bit integer.
pub open spec fn is_held(before: int, change: int, after: int) -> bool {
    &&& before + change < 0 ==> after == 0
    &&& before + change >= two128() ==> after == two128() - 1
    &&& 0 <= before + change < two128() ==> after == before + change
}

/// Liquidity that would leave its range is held at the end of it.
pub proof fn liquidity_is_held_in_its_range(
    m: V3Model,
    lower: i32,
    upper: i32,
    amount: int,
    mint: bool,
)
    requires
        0 <= m.liquidity < two128(),
        0 <= amount < two128(),
        lower < upper,
    ensures
        ({
            let n = modified(m, lower as int, upper as int, amount, mint);
            let change = if mint {
                amount
            } else {
                -amount
            };
            &&& lower <= m.tick < upper ==> is_held(m.liquidity, change, n.liquidity)
            &&& !(lower <= m.tick < upper) ==> n.liquidity == m.liquidity
            &&& is_held(
                gross_and_net(m.ticks, lower).0,
                change,
                gross_and_net(n.ticks, lower).0,
            )
            &&& is_held(
                gross_and_net(m.ticks, upper).0,
                change,
                gross_and_net(n.ticks, upper).0,
            )
        }),
{
    let net = lower_net(amount, mint);
    let once = bumped(m.ticks, lower as int, amount, net, mint);
    assert(liquidity_at(once, upper as int) == liquidity_at(m.ticks, upper as int));
}

/// What a log makes of two reserves: a sync log that is newer sets both to the words that it
/// carries, in order; any other leaves them.
pub open spec fn is_synced_by(
    log: Log,
    before0: int,
    before1: int,
    last: (u64, u64),
    after0: int,
    after1: int,
    next: (u64, u64),
) -> bool {
    if log.topics@.len() > 0 && (log.is_event("Sync(uint112,uint112)"@) || log.is_event(
        "Sync(uint256,uint256)"@,
    )) && log.data@.len() >= 64 && is_newer(log, last) {
        &&& after0 == data_word(log, 0)
        &&& after1 == data_word(log, 1)
        &&& next == (log.block_number->0, log.log_index->0)
    } else {
        after0 == before0 && after1 == before1 && next == last
    }
}

/// Sync logs set the reserves of live pairs, and no other log does.
pub proof fn sync_logs_set_the_reserves(before: LiveKind, after: LiveKind, log: Log)
    requires
        kind_after(before, after, log),
    ensures
        match (before, after) {
            (
                LiveKind::V2 { sim: a, last: x },
                LiveKind::V2 { sim: b, last: y },
            ) => is_synced_by(log, a.reserve0@, a.reserve1@, x, b.reserve0@, b.reserve1@, y),
            (
                LiveKind::AeroVol { sim: a, last: x },
                LiveKind::AeroVol { sim: b, last: y },
            ) => is_synced_by(log, a.reserve0@, a.reserve1@, x, b.reserve0@, b.reserve1@, y),
            (
                LiveKind::AeroStable { sim: a, last: x },
                LiveKind::AeroStable { sim: b, last: y },
            ) => is_synced_by(log, a.reserve0@, a.reserve1@, x, b.reserve0@, b.reserve1@, y),
            (LiveKind::V3(_), LiveKind::V3(_)) => true,
            _ => false,
        },
{
    match before {
        LiveKind::V2 { sim, last } => lemma_newer(log, last),
        LiveKind::AeroVol { sim, last } => lemma_newer(log, last),
        LiveKind::AeroStable { sim, last } => lemma_newer(log, last),
        LiveKind::V3(_) => {},
    }
}

/// The ticks of a pool that is made from its state are those with liquidity, each with its net
/// liquidity, and they go up.
pub proof fn live_ticks_have_their_net_liquidity(
    ticks: Map<i32, (u128, i128)>,
    list: Seq<TickData>,
    t: i32,
    net: i128,
)
    requires
        lists_ticks(ticks, list),
    ensures
        list.contains(TickData { tick: t, liquidity_net: net }) <==> ticks.dom().contains(t)
            && ticks[t].0 > 0 && ticks[t].1 == net,
        forall|i: int, j: int|
            0 <= i < j < list.len() ==> (#[trigger] list[i]).tick < (#[trigger] list[j]).tick,
{
    let data = TickData { tick: t, liquidity_net: net };
    if ticks.dom().contains(t) && ticks[t].0 > 0 && ticks[t].1 == net {
        let i = choose|i: int| 0 <= i < list.len() && (#[trigger] list[i]).tick == t;
        assert(list[i] == data);
    }
    if list.contains(data) {
        let i = choose|i: int| 0 <= i < list.len() && list[i] == data;
        assert(list[i].tick == t);
    }
}

/// A tick starts with what was read of it last.
pub proof fn ticks_start_as_they_were_read(ticks: Seq<(i32, u128, i128)>, n: int, t: i32)
    requires
        0 <= n <= ticks.len(),
    ensures
        tick_entries(ticks, n).dom().contains(t) <==> exists|i: int|
            0 <= i < n && (#[trigger] ticks[i]).0 == t,
        forall|i: int|
            0 <= i < n && (#[trigger] ticks[i]).0 == t && (forall|j: int|
                i < j < n ==> (#[trigger] ticks[j]).0 != t) ==> tick_entries(ticks, n)[t] == (
                ticks[i].1,
                ticks[i].2,
            ),
    decreases n,
{
    if n > 0 {
        ticks_start_as_they_were_read(ticks, n - 1, t);
        if ticks[n - 1].0 == t {
            assert(tick_entries(ticks, n).dom().contains(t));
        }
    }
}

} // verus!
