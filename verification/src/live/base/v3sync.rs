//! Event-driven incremental Uniswap V3 state.
//!
//! A pool's full state is read once and then kept exact from its logs:
//!   - `Swap` carries the post-swap `sqrtPriceX96`, `liquidity` and `tick`, which are set
//!     directly.
//!   - `Mint` and `Burn` change the initialized-tick map (gross and net liquidity) and the active
//!     `liquidity` if the position straddles the current tick, as the pool's `_modifyPosition`
//!     does.
//!   - Other events don't change liquidity or ticks and are ignored.
//!
//! Quotes go through [`UniV3Pool`].
use crate::amm::univ3::{sorted_ticks, tick_keys, TickData, UniV3Pool};
use crate::live::abi::{int24, int24_of, topic, topic_value, word, word_at, Log};
use crate::live::base::v3state::V3Snapshot;
use crate::live::event::{is_later, rank_of};
use crate::order::{
    as_ints, is_stable_order, key_values, permute, sort_by_keys, sorting_is_idempotent,
    stable_order, stable_order_of,
};
use crate::pool::{quote_view, Pool, SimError};
use crate::rank_map::{ascending, RankMap, Ranked};
use crate::types::{lemma_u256_range, two128, two160, two64, Address, B256, U256};
use vstd::prelude::*;

verus! {

/// Tick to `(liquidityGross, liquidityNet)`.
pub type TickMap = RankMap<i32, (u128, i128)>;

/// The signature of the `Swap` event.
pub open spec fn swap_sig() -> Seq<char> {
    "Swap(address,address,int256,int256,uint160,uint128,int24)"@
}

/// The signature of the `Mint` event.
pub open spec fn mint_sig() -> Seq<char> {
    "Mint(address,address,int24,int24,uint128,uint256,uint256)"@
}

/// The signature of the `Burn` event.
pub open spec fn burn_sig() -> Seq<char> {
    "Burn(address,int24,int24,uint128,uint256,uint256)"@
}

/// First topics of the V3 events that change quotable state.
pub fn v3_event_topics() -> (r: Vec<B256>)
    ensures
        r@.len() == 3,
        r@[0].word@ == topic_value(swap_sig()),
        r@[1].word@ == topic_value(mint_sig()),
        r@[2].word@ == topic_value(burn_sig()),
{
    let mut out: Vec<B256> = Vec::new();
    out.push(topic("Swap(address,address,int256,int256,uint160,uint128,int24)"));
    out.push(topic("Mint(address,address,int24,int24,uint128,uint256,uint256)"));
    out.push(topic("Burn(address,int24,int24,uint128,uint256,uint256)"));
    out
}

/// A decoded V3 event.
#[derive(Debug, Clone, Copy, PartialEq, Eq, Structural)]
pub enum V3Event {
    Swap { sqrt_price_x96: U256, liquidity: u128, tick: i32 },
    Mint { lower: i32, upper: i32, amount: u128 },
    Burn { lower: i32, upper: i32, amount: u128 },
}

/// A V3 event in mathematical integers.
pub enum V3EventView {
    Swap { sqrt_price: int, liquidity: int, tick: int },
    Mint { lower: int, upper: int, amount: int },
    Burn { lower: int, upper: int, amount: int },
}

impl V3Event {
    /// The event in mathematical integers.
    pub open spec fn model(self) -> V3EventView {
        match self {
            V3Event::Swap { sqrt_price_x96, liquidity, tick } => V3EventView::Swap {
                sqrt_price: sqrt_price_x96@,
                liquidity: liquidity as int,
                tick: tick as int,
            },
            V3Event::Mint { lower, upper, amount } => V3EventView::Mint {
                lower: lower as int,
                upper: upper as int,
                amount: amount as int,
            },
            V3Event::Burn { lower, upper, amount } => V3EventView::Burn {
                lower: lower as int,
                upper: upper as int,
                amount: amount as int,
            },
        }
    }
}

/// The event that a log carries: indexed values stand in the topics, the others in the words of
/// the data, each in the low bits of its word.
pub open spec fn carried(log: Log) -> Option<V3EventView> {
    let (topics, data) = (log.topics@, log.data@);
    if log.is_event(swap_sig()) {
        if topics.len() == 3 && data.len() >= 160 {
            Some(
                V3EventView::Swap {
                    sqrt_price: word_at(data, 2) % two160(),
                    liquidity: word_at(data, 3) % two128(),
                    tick: int24(word_at(data, 4)),
                },
            )
        } else {
            None
        }
    } else if log.is_event(mint_sig()) {
        if topics.len() == 4 && data.len() >= 128 {
            Some(
                V3EventView::Mint {
                    lower: int24(topics[2].word@),
                    upper: int24(topics[3].word@),
                    amount: word_at(data, 1) % two128(),
                },
            )
        } else {
            None
        }
    } else if log.is_event(burn_sig()) {
        if topics.len() == 4 && data.len() >= 96 {
            Some(
                V3EventView::Burn {
                    lower: int24(topics[2].word@),
                    upper: int24(topics[3].word@),
                    amount: word_at(data, 0) % two128(),
                },
            )
        } else {
            None
        }
    } else {
        None
    }
}

/// The event that a log carries, if it is one of the three and complete.
pub fn decode_v3(log: &Log) -> (r: Option<V3Event>)
    ensures
        (match r {
            Some(e) => Some(e.model()),
            None => None,
        }) == carried(*log),
{
    broadcast use lemma_u256_range;

    let data = log.data.as_slice();
    if log.has_topic("Swap(address,address,int256,int256,uint160,uint128,int24)") {
        if log.topics.len() == 3 && data.len() >= 160 {
            Some(
                V3Event::Swap {
                    sqrt_price_x96: Address::from_word(word(data, 2)).to_word(),
                    liquidity: word(data, 3).low_u128(),
                    tick: int24_of(word(data, 4)),
                },
            )
        } else {
            None
        }
    } else if log.has_topic("Mint(address,address,int24,int24,uint128,uint256,uint256)") {
        if log.topics.len() == 4 && data.len() >= 128 {
            Some(
                V3Event::Mint {
                    lower: int24_of(log.topics[2].word),
                    upper: int24_of(log.topics[3].word),
                    amount: word(data, 1).low_u128(),
                },
            )
        } else {
            None
        }
    } else if log.has_topic("Burn(address,int24,int24,uint128,uint256,uint256)") {
        if log.topics.len() == 4 && data.len() >= 96 {
            Some(
                V3Event::Burn {
                    lower: int24_of(log.topics[2].word),
                    upper: int24_of(log.topics[3].word),
                    amount: word(data, 0).low_u128(),
                },
            )
        } else {
            None
        }
    } else {
        None
    }
}

/// Live, mutable V3 pool state maintained from events.
pub struct V3PoolState {
    pub address: Address,
    pub token0: Address,
    pub token1: Address,
    pub fee_pips: u32,
    pub tick_spacing: i32,
    pub sqrt_price_x96: U256,
    pub liquidity: u128,
    pub tick: i32,
    /// Tick to `(liquidityGross, liquidityNet)`. Present means initialized.
    pub ticks: TickMap,
    /// Last applied `(block, log_index)`: dedup and ordering guard.
    pub last_key: (u64, u64),
    pub snapshot_block: u64,
    /// `Some((lo, hi))` if the tick map is only complete within that range; `None` is full-range
    /// data.
    pub window: Option<(i32, i32)>,
}

/// What logs change of a pool's state.
pub struct V3Model {
    pub sqrt_price: int,
    pub liquidity: int,
    pub tick: int,
    pub ticks: Map<i32, (u128, i128)>,
    pub last_key: (u64, u64),
}

/// An unsigned 128-bit integer read as a signed one.
pub open spec fn as_signed(amount: int) -> int {
    if amount < 0x8000_0000_0000_0000_0000_0000_0000_0000int {
        amount
    } else {
        amount - two128()
    }
}

/// `a + b` held at the largest 128-bit integer.
pub open spec fn held_sum(a: int, b: int) -> int {
    if a + b >= two128() {
        two128() - 1
    } else {
        a + b
    }
}

/// `a - b` held at zero.
pub open spec fn held_difference(a: int, b: int) -> int {
    if a < b {
        0
    } else {
        a - b
    }
}

/// A tick's gross and net liquidity; a tick that is not initialized has none.
pub open spec fn liquidity_at(ticks: Map<i32, (u128, i128)>, tick: int) -> (u128, i128) {
    if ticks.dom().contains(tick as i32) {
        ticks[tick as i32]
    } else {
        (0, 0)
    }
}

/// The gross liquidity of a tick after a change.
pub open spec fn gross_after(
    ticks: Map<i32, (u128, i128)>,
    tick: int,
    gross: int,
    mint: bool,
) -> int {
    if mint {
        held_sum(liquidity_at(ticks, tick).0 as int, gross)
    } else {
        held_difference(liquidity_at(ticks, tick).0 as int, gross)
    }
}

/// The ticks after the gross liquidity of one grew (or shrank) by `gross` and its net liquidity
/// changed by `net`. A tick without gross liquidity is no longer initialized.
pub open spec fn bumped(
    ticks: Map<i32, (u128, i128)>,
    tick: int,
    gross: int,
    net: int,
    mint: bool,
) -> Map<i32, (u128, i128)> {
    let after = gross_after(ticks, tick, gross, mint);
    if after == 0 {
        ticks.remove(tick as i32)
    } else {
        ticks.insert(tick as i32, (after as u128, (liquidity_at(ticks, tick).1 + net) as i128))
    }
}

/// The net liquidity of a tick can take the change.
pub open spec fn bump_fits(ticks: Map<i32, (u128, i128)>, tick: int, net: int) -> bool {
    i128::MIN <= liquidity_at(ticks, tick).1 + net <= i128::MAX
}

/// The change of net liquidity at the lower end of a position; at the upper end it is the
/// opposite.
pub open spec fn lower_net(amount: int, mint: bool) -> int {
    if mint {
        as_signed(amount)
    } else {
        -as_signed(amount)
    }
}

/// The state after a position over `[lower, upper)` grew (or shrank) by `amount`.
pub open spec fn modified(m: V3Model, lower: int, upper: int, amount: int, mint: bool) -> V3Model {
    let net = lower_net(amount, mint);
    let ticks = bumped(bumped(m.ticks, lower, amount, net, mint), upper, amount, -net, mint);
    V3Model {
        ticks,
        liquidity: if lower <= m.tick < upper {
            if mint {
                held_sum(m.liquidity, amount)
            } else {
                held_difference(m.liquidity, amount)
            }
        } else {
            m.liquidity
        },
        ..m
    }
}

/// The net liquidity of both ends of a position can take the change.
pub open spec fn modification_fits(
    m: V3Model,
    lower: int,
    upper: int,
    amount: int,
    mint: bool,
) -> bool {
    let net = lower_net(amount, mint);
    &&& -i128::MAX <= as_signed(amount)
    &&& bump_fits(m.ticks, lower, net)
    &&& bump_fits(bumped(m.ticks, lower, amount, net, mint), upper, -net)
}

/// The state after an event at `key`.
pub open spec fn state_after(m: V3Model, event: V3EventView, key: (u64, u64)) -> V3Model {
    let changed = match event {
        V3EventView::Swap { sqrt_price, liquidity, tick } => V3Model {
            sqrt_price,
            liquidity,
            tick,
            ..m
        },
        V3EventView::Mint { lower, upper, amount } => modified(m, lower, upper, amount, true),
        V3EventView::Burn { lower, upper, amount } => modified(m, lower, upper, amount, false),
    };
    V3Model { last_key: key, ..changed }
}

/// What a log makes of the state, if it is newer and carries an event.
pub open spec fn applied(m: V3Model, log: Log) -> Option<V3Model> {
    match (log.spec_key(), carried(log)) {
        (Some(key), Some(event)) => if rank_of(key.0, key.1) > rank_of(
            m.last_key.0,
            m.last_key.1,
        ) {
            Some(state_after(m, event, key))
        } else {
            None
        },
        _ => None,
    }
}

/// The state after a log.
pub open spec fn after_log(m: V3Model, log: Log) -> V3Model {
    match applied(m, log) {
        Some(next) => next,
        None => m,
    }
}

/// What the log changes can be held.
pub open spec fn log_fits(m: V3Model, log: Log) -> bool {
    applied(m, log) is Some ==> match carried(log) {
        Some(V3EventView::Mint { lower, upper, amount }) => modification_fits(
            m,
            lower,
            upper,
            amount,
            true,
        ),
        Some(V3EventView::Burn { lower, upper, amount }) => modification_fits(
            m,
            lower,
            upper,
            amount,
            false,
        ),
        _ => true,
    }
}

/// The ticks that are initialized, in ascending order, with their net liquidity.
pub open spec fn lists_ticks(ticks: Map<i32, (u128, i128)>, list: Seq<TickData>) -> bool {
    &&& forall|i: int, j: int|
        0 <= i < j < list.len() ==> (#[trigger] list[i]).tick < (#[trigger] list[j]).tick
    &&& forall|i: int|
        0 <= i < list.len() ==> ticks.dom().contains((#[trigger] list[i]).tick)
            && ticks[list[i].tick].0 > 0 && ticks[list[i].tick].1 == list[i].liquidity_net
    &&& forall|t: i32| #[trigger]
        ticks.dom().contains(t) && ticks[t].0 > 0 ==> exists|i: int|
            0 <= i < list.len() && (#[trigger] list[i]).tick == t
}

impl V3PoolState {
    /// What logs change of the state.
    pub open spec fn model(&self) -> V3Model {
        V3Model {
            sqrt_price: self.sqrt_price_x96@,
            liquidity: self.liquidity as int,
            tick: self.tick as int,
            ticks: self.ticks@,
            last_key: self.last_key,
        }
    }

    /// The same pool: what no log changes is the same.
    pub open spec fn same_pool(&self, other: V3PoolState) -> bool {
        &&& self.address == other.address
        &&& self.token0 == other.token0
        &&& self.token1 == other.token1
        &&& self.fee_pips == other.fee_pips
        &&& self.tick_spacing == other.tick_spacing
        &&& self.snapshot_block == other.snapshot_block
        &&& self.window == other.window
    }

    /// The state of a pool read at `block`, which the snapshot reflects in full.
    pub fn from_snapshot(
        address: Address,
        token0: Address,
        token1: Address,
        fee_pips: u32,
        block: u64,
        snap: V3Snapshot,
        ticks: &[(i32, u128, i128)],
        window: Option<(i32, i32)>,
    ) -> (r: V3PoolState)
        ensures
            r.address == address,
            r.token0 == token0,
            r.token1 == token1,
            r.fee_pips == fee_pips,
            r.tick_spacing == snap.tick_spacing,
            r.sqrt_price_x96 == snap.sqrt_price_x96,
            r.liquidity == snap.liquidity,
            r.tick == snap.tick,
            r.ticks@ == tick_entries(ticks@, ticks@.len() as int),
            r.last_key == (block, u64::MAX),
            r.snapshot_block == block,
            r.window == window,
    {
        let mut map: TickMap = RankMap::new();
        let mut i: usize = 0;
        while i < ticks.len()
            invariant
                i <= ticks@.len(),
                map@ == tick_entries(ticks@, i as int),
            decreases ticks@.len() - i,
        {
            let (tick, gross, net) = ticks[i];
            map.insert(tick, (gross, net));
            i = i + 1;
        }
        V3PoolState {
            address,
            token0,
            token1,
            fee_pips,
            tick_spacing: snap.tick_spacing,
            sqrt_price_x96: snap.sqrt_price_x96,
            liquidity: snap.liquidity,
            tick: snap.tick,
            ticks: map,
            last_key: (block, u64::MAX),
            snapshot_block: block,
            window,
        }
    }

    fn apply_swap(&mut self, sqrt_price_x96: U256, liquidity: u128, tick: i32)
        ensures
            final(self).model() == (V3Model {
                sqrt_price: sqrt_price_x96@,
                liquidity: liquidity as int,
                tick: tick as int,
                ..old(self).model()
            }),
            final(self).same_pool(*old(self)),
    {
        self.sqrt_price_x96 = sqrt_price_x96;
        self.liquidity = liquidity;
        self.tick = tick;
    }

    /// Mint or burn: change the ticks at both ends, and the active liquidity if the range
    /// straddles the current tick.
    fn modify(&mut self, lower: i32, upper: i32, amount: u128, mint: bool)
        requires
            modification_fits(
                old(self).model(),
                lower as int,
                upper as int,
                amount as int,
                mint,
            ),
        ensures
            final(self).model() == modified(
                old(self).model(),
                lower as int,
                upper as int,
                amount as int,
                mint,
            ),
            final(self).same_pool(*old(self)),
    {
        let signed: i128 = if amount <= 0x7fff_ffff_ffff_ffff_ffff_ffff_ffff_ffff {
            amount as i128
        } else {
            -((u128::MAX - amount) as i128) - 1
        };
        let net: i128 = if mint {
            signed
        } else {
            -signed
        };
        self.bump_tick(lower, amount, net, mint);
        self.bump_tick(upper, amount, -net, mint);
        if lower <= self.tick && self.tick < upper {
            self.liquidity = if mint {
                if self.liquidity > u128::MAX - amount {
                    u128::MAX
                } else {
                    self.liquidity + amount
                }
            } else if self.liquidity < amount {
                0
            } else {
                self.liquidity - amount
            };
        }
    }

    fn bump_tick(&mut self, tick: i32, gross_delta: u128, net_delta: i128, mint: bool)
        requires
            bump_fits(old(self).ticks@, tick as int, net_delta as int),
        ensures
            final(self).model() == (V3Model {
                ticks: bumped(
                    old(self).ticks@,
                    tick as int,
                    gross_delta as int,
                    net_delta as int,
                    mint,
                ),
                ..old(self).model()
            }),
            final(self).same_pool(*old(self)),
    {
        let (gross, net) = match self.ticks.get(tick) {
            Some(e) => *e,
            None => (0u128, 0i128),
        };
        let after: u128 = if mint {
            if gross > u128::MAX - gross_delta {
                u128::MAX
            } else {
                gross + gross_delta
            }
        } else if gross < gross_delta {
            0
        } else {
            gross - gross_delta
        };
        if after == 0 {
            self.ticks.remove(tick);
        } else {
            self.ticks.insert(tick, (after, net + net_delta));
        }
    }

    /// Apply one log (Swap/Mint/Burn) if newer than `last_key`. Returns true if it was a
    /// recognized, applied event.
    pub fn apply_log(&mut self, log: &Log) -> (r: bool)
        requires
            log_fits(old(self).model(), *log),
        ensures
            r == (applied(old(self).model(), *log) is Some),
            final(self).model() == after_log(old(self).model(), *log),
            final(self).same_pool(*old(self)),
    {
        let key = match log.key() {
            Some(key) => key,
            None => return false,
        };
        if !is_later(key.0, key.1, self.last_key.0, self.last_key.1) {
            return false;
        }
        match decode_v3(log) {
            None => false,
            Some(event) => {
                match event {
                    V3Event::Swap { sqrt_price_x96, liquidity, tick } => {
                        self.apply_swap(sqrt_price_x96, liquidity, tick);
                    },
                    V3Event::Mint { lower, upper, amount } => {
                        self.modify(lower, upper, amount, true);
                    },
                    V3Event::Burn { lower, upper, amount } => {
                        self.modify(lower, upper, amount, false);
                    },
                }
                self.last_key = key;
                true
            },
        }
    }
}

/// The tick map of a list of ticks with their gross and net liquidity.
pub open spec fn tick_entries(ticks: Seq<(i32, u128, i128)>, n: int) -> Map<i32, (u128, i128)>
    decreases n,
{
    if n <= 0 {
        Map::empty()
    } else {
        tick_entries(ticks, n - 1).insert(ticks[n - 1].0, (ticks[n - 1].1, ticks[n - 1].2))
    }
}

/// The place of a log in chain order; a log without a place comes first.
pub open spec fn log_rank(log: Log) -> int {
    rank_of(
        match log.block_number {
            Some(b) => b,
            None => 0,
        },
        match log.log_index {
            Some(i) => i,
            None => 0,
        },
    )
}

/// The places of logs as sort keys.
pub open spec fn log_ranks(logs: Seq<Log>) -> Seq<int> {
    logs.map_values(|l: Log| log_rank(l))
}

/// Logs in chain order.
pub open spec fn in_chain_order(logs: Seq<Log>) -> Seq<Log> {
    sort_by_keys(logs, log_ranks(logs))
}

/// The state after the first `n` logs.
pub open spec fn after_logs(m: V3Model, logs: Seq<Log>, n: int) -> V3Model
    decreases n,
{
    if n <= 0 {
        m
    } else {
        after_log(after_logs(m, logs, n - 1), logs[n - 1])
    }
}

/// What each log changes can be held.
pub open spec fn logs_fit(m: V3Model, logs: Seq<Log>) -> bool {
    forall|n: int| 0 <= n < logs.len() ==> log_fits(#[trigger] after_logs(m, logs, n), logs[n])
}

impl V3PoolState {
    /// Whether what the log changes can be held.
    pub fn accepts_log(&self, log: &Log) -> (r: bool)
        ensures
            r == log_fits(self.model(), *log),
    {
        let key = match log.key() {
            Some(key) => key,
            None => return true,
        };
        if !is_later(key.0, key.1, self.last_key.0, self.last_key.1) {
            return true;
        }
        match decode_v3(log) {
            Some(V3Event::Mint { lower, upper, amount }) => {
                self.accepts_change(lower, upper, amount, true)
            },
            Some(V3Event::Burn { lower, upper, amount }) => {
                self.accepts_change(lower, upper, amount, false)
            },
            _ => true,
        }
    }

    /// Whether the net liquidity of both ends of a position can take a change.
    fn accepts_change(&self, lower: i32, upper: i32, amount: u128, mint: bool) -> (r: bool)
        ensures
            r == modification_fits(
                self.model(),
                lower as int,
                upper as int,
                amount as int,
                mint,
            ),
    {
        if amount == 0x8000_0000_0000_0000_0000_0000_0000_0000 {
            return false;
        }
        let signed: i128 = if amount <= 0x7fff_ffff_ffff_ffff_ffff_ffff_ffff_ffff {
            amount as i128
        } else {
            -((u128::MAX - amount) as i128) - 1
        };
        let net: i128 = if mint {
            signed
        } else {
            -signed
        };
        let (gross, at_lower) = match self.ticks.get(lower) {
            Some(e) => *e,
            None => (0u128, 0i128),
        };
        let after: i128 = match at_lower.checked_add(net) {
            Some(x) => x,
            None => return false,
        };
        let at_upper: i128 = if upper == lower {
            let gone: bool = if mint {
                gross == 0 && amount == 0
            } else {
                gross <= amount
            };
            if gone {
                0
            } else {
                after
            }
        } else {
            match self.ticks.get(upper) {
                Some(e) => e.1,
                None => 0i128,
            }
        };
        at_upper.checked_add(-net).is_some()
    }

    /// Apply one log if what it changes can be held. Returns whether it was a recognized, applied
    /// event, and nothing, with the state as it was, if the change cannot be held.
    pub fn try_apply_log(&mut self, log: &Log) -> (r: Option<bool>)
        ensures
            match r {
                Some(done) => {
                    &&& log_fits(old(self).model(), *log)
                    &&& done == (applied(old(self).model(), *log) is Some)
                    &&& final(self).model() == after_log(old(self).model(), *log)
                },
                None => !log_fits(old(self).model(), *log) && *final(self) == *old(self),
            },
            final(self).same_pool(*old(self)),
    {
        if self.accepts_log(log) {
            Some(self.apply_log(log))
        } else {
            None
        }
    }

    /// Apply a batch of logs in `(block, log_index)` order, up to one whose change cannot be held.
    /// Returns how many were handled: all of them, or those before that one.
    pub fn try_apply_logs(&mut self, logs: &[Log]) -> (r: usize)
        ensures
            r <= logs@.len(),
            final(self).model() == after_logs(old(self).model(), in_chain_order(logs@), r as int),
            final(self).same_pool(*old(self)),
            forall|n: int|
                0 <= n < r ==> log_fits(
                    #[trigger] after_logs(old(self).model(), in_chain_order(logs@), n),
                    in_chain_order(logs@)[n],
                ),
            r < logs@.len() ==> !log_fits(
                after_logs(old(self).model(), in_chain_order(logs@), r as int),
                in_chain_order(logs@)[r as int],
            ),
            is_stable_order(log_ranks(logs@), stable_order(log_ranks(logs@))),
    {
        let mut keys: Vec<U256> = Vec::new();
        let mut i: usize = 0;
        while i < logs.len()
            invariant
                i <= logs@.len(),
                keys.len() == i,
                forall|j: int| 0 <= j < i ==> (#[trigger] keys@[j])@ == log_rank(logs@[j]),
            decreases logs@.len() - i,
        {
            let block: u64 = match logs[i].block_number {
                Some(b) => b,
                None => 0,
            };
            let index: u64 = match logs[i].log_index {
                Some(x) => x,
                None => 0,
            };
            keys.push(
                U256::from_u128((block as u128) * 0x1_0000_0000_0000_0000 + (index as u128)),
            );
            i = i + 1;
        }
        assert(key_values(keys@) =~= log_ranks(logs@));
        let order = stable_order_of(keys.as_slice());
        let ghost ints = as_ints(order@);
        let ghost sorted = in_chain_order(logs@);
        let ghost m = self.model();
        let mut i: usize = 0;
        while i < order.len()
            invariant
                i <= order.len(),
                order.len() == logs@.len(),
                ints == as_ints(order@),
                forall|j: int| 0 <= j < ints.len() ==> 0 <= #[trigger] ints[j] < logs@.len(),
                sorted == in_chain_order(logs@),
                sorted == permute(logs@, ints),
                m == old(self).model(),
                forall|n: int|
                    0 <= n < i ==> log_fits(#[trigger] after_logs(m, sorted, n), sorted[n]),
                self.model() == after_logs(m, sorted, i as int),
                self.same_pool(*old(self)),
                is_stable_order(log_ranks(logs@), stable_order(log_ranks(logs@))),
            decreases order.len() - i,
        {
            proof {
                assert(ints[i as int] == order@[i as int]);
                assert(sorted[i as int] == logs@[order@[i as int] as int]);
            }
            if self.try_apply_log(&logs[order[i]]).is_none() {
                return i;
            }
            i = i + 1;
        }
        i
    }

    /// Apply a batch of logs in `(block, log_index)` order.
    pub fn apply_logs(&mut self, logs: &[Log])
        requires
            logs_fit(old(self).model(), in_chain_order(logs@)),
        ensures
            final(self).model() == after_logs(
                old(self).model(),
                in_chain_order(logs@),
                logs@.len() as int,
            ),
            final(self).same_pool(*old(self)),
            is_stable_order(log_ranks(logs@), stable_order(log_ranks(logs@))),
    {
        let ghost sorted = in_chain_order(logs@);
        let n: usize = self.try_apply_logs(logs);
        assert(sorted.len() == logs@.len());
        assert(n < logs@.len() ==> log_fits(
            after_logs(old(self).model(), sorted, n as int),
            sorted[n as int],
        ));
    }

    /// A quotable pool with the current state.
    pub open spec fn is_pool(&self, p: UniV3Pool) -> bool {
        &&& p.wf()
        &&& p.address == self.address
        &&& p.token0 == self.token0
        &&& p.token1 == self.token1
        &&& p.fee_pips == self.fee_pips
        &&& p.sqrt_price_x96 == self.sqrt_price_x96
        &&& p.liquidity == self.liquidity
        &&& p.tick == self.tick
        &&& p.tick_spacing == if self.tick_spacing >= 1 {
            self.tick_spacing
        } else {
            1
        }
        &&& lists_ticks(self.ticks@, p.ticks@)
        &&& p.known_range == self.window
        &&& p.tokens@ == seq![self.token0, self.token1]
    }

    /// A quotable pool with the current state.
    pub open spec fn spec_pool(&self) -> UniV3Pool {
        choose|p: UniV3Pool| self.is_pool(p)
    }

    /// Build a quotable [`UniV3Pool`] snapshot from the current state.
    pub fn as_pool(&self) -> (r: UniV3Pool)
        ensures
            self.is_pool(r),
            self.is_pool(self.spec_pool()),
            r.ticks@ == self.spec_pool().ticks@,
    {
        let count: usize = self.ticks.len();
        let ghost keys = self.ticks.key_seq();
        let mut list: Vec<TickData> = Vec::new();
        let mut i: usize = 0;
        while i < count
            invariant
                i <= count,
                count == keys.len(),
                keys == self.ticks.key_seq(),
                ascending(keys),
                forall|t: i32| keys.contains(t) <==> self.ticks@.dom().contains(t),
                forall|a: int, b: int|
                    0 <= a < b < list.len() ==> (#[trigger] list@[a]).tick < (
                    #[trigger] list@[b]).tick,
                forall|a: int|
                    0 <= a < list.len() ==> self.ticks@.dom().contains((#[trigger] list@[a]).tick)
                        && self.ticks@[list@[a].tick].0 > 0 && self.ticks@[list@[a].tick].1
                        == list@[a].liquidity_net,
                forall|a: int|
                    0 <= a < list.len() ==> exists|j: int|
                        0 <= j < i && keys[j] == (#[trigger] list@[a]).tick,
                forall|j: int|
                    0 <= j < i && self.ticks@[#[trigger] keys[j]].0 > 0 ==> exists|a: int|
                        0 <= a < list.len() && (#[trigger] list@[a]).tick == keys[j],
            decreases count - i,
        {
            let tick: i32 = self.ticks.key_at(i);
            let (gross, net) = *self.ticks.value_at(i);
            let ghost before = list@;
            if gross > 0 {
                list.push(TickData { tick, liquidity_net: net });
                proof {
                    assert(list@[before.len() as int].tick == tick);
                    assert forall|a: int, b: int| 0 <= a < b < list.len() implies (
                    #[trigger] list@[a]).tick < (#[trigger] list@[b]).tick by {
                        if b == before.len() {
                            assert(list@[a] == before[a]);
                            let j = choose|j: int| 0 <= j < i && keys[j] == before[a].tick;
                            assert(keys[j].rank() < keys[i as int].rank());
                        } else {
                            assert(list@[a] == before[a] && list@[b] == before[b]);
                        }
                    }
                    assert forall|a: int| 0 <= a < list.len() implies exists|j: int|
                        0 <= j < i + 1 && keys[j] == (#[trigger] list@[a]).tick by {
                        if a < before.len() {
                            assert(list@[a] == before[a]);
                            let j = choose|j: int| 0 <= j < i && keys[j] == before[a].tick;
                            assert(keys[j] == list@[a].tick);
                        } else {
                            assert(keys[i as int] == list@[a].tick);
                        }
                    }
                    assert forall|j: int|
                        0 <= j < i + 1 && self.ticks@[#[trigger] keys[j]].0 > 0 implies exists|
                        a: int,
                    | 0 <= a < list.len() && (#[trigger] list@[a]).tick == keys[j] by {
                        if j < i {
                            let a = choose|a: int|
                                0 <= a < before.len() && (#[trigger] before[a]).tick == keys[j];
                            assert(list@[a] == before[a]);
                        } else {
                            assert(list@[before.len() as int].tick == keys[j]);
                        }
                    }
                }
            } else {
                proof {
                    assert forall|a: int| 0 <= a < list.len() implies exists|j: int|
                        0 <= j < i + 1 && keys[j] == (#[trigger] list@[a]).tick by {
                        let j = choose|j: int| 0 <= j < i && keys[j] == list@[a].tick;
                        assert(keys[j] == list@[a].tick);
                    }
                }
            }
            i = i + 1;
        }
        let ghost listed = list@;
        proof {
            assert forall|t: i32| #[trigger]
                self.ticks@.dom().contains(t) && self.ticks@[t].0 > 0 implies exists|a: int|
                0 <= a < listed.len() && (#[trigger] listed[a]).tick == t by {
                assert(keys.contains(t));
                let j = choose|j: int| 0 <= j < keys.len() && keys[j] == t;
                assert(self.ticks@[keys[j]].0 > 0);
            }
            assert(lists_ticks(self.ticks@, listed));
            lemma_listed_is_sorted(listed);
        }
        let pool = UniV3Pool::new(
            self.address,
            self.token0,
            self.token1,
            self.fee_pips,
            self.sqrt_price_x96,
            self.liquidity,
            self.tick,
            self.tick_spacing,
            list,
        );
        let pool = match self.window {
            Some((lo, hi)) => pool.with_known_range(lo, hi),
            None => pool,
        };
        proof {
            assert(self.is_pool(pool));
            lemma_one_list(self.ticks@, pool.ticks@, self.spec_pool().ticks@);
        }
        pool
    }

    /// What a swap of `amount_in` returns, net of the pool's fee.
    pub fn quote(&self, token_in: Address, token_out: Address, amount_in: U256) -> (r: Result<
        U256,
        SimError,
    >)
        ensures
            quote_view(r) == self.spec_pool().spec_quote(token_in, token_out, amount_in@),
    {
        let pool = self.as_pool();
        proof {
            lemma_same_quote(pool, self.spec_pool(), token_in, token_out, amount_in@);
        }
        pool.quote(token_in, token_out, amount_in)
    }
}

/// Ticks that ascend are in sorted order.
proof fn lemma_listed_is_sorted(list: Seq<TickData>)
    requires
        forall|i: int, j: int|
            0 <= i < j < list.len() ==> (#[trigger] list[i]).tick < (#[trigger] list[j]).tick,
    ensures
        sorted_ticks(list) == list,
{
    let keys = tick_keys(list);
    assert forall|i: int, j: int| 0 <= i <= j < keys.len() implies keys[i] <= keys[j] by {
        if i < j {
            assert(list[i].tick < list[j].tick);
        }
    }
    sorting_is_idempotent(keys);
    assert(sorted_ticks(list) =~= list);
}

/// A tick map has one list of ticks.
proof fn lemma_one_list(ticks: Map<i32, (u128, i128)>, a: Seq<TickData>, b: Seq<TickData>)
    requires
        lists_ticks(ticks, a),
        lists_ticks(ticks, b),
    ensures
        a == b,
    decreases a.len(),
{
    if a.len() == 0 {
        if b.len() > 0 {
            assert(ticks.dom().contains(b[0].tick));
        }
        assert(a =~= b);
    } else {
        assert(ticks.dom().contains(a[a.len() - 1].tick));
        let k = choose|k: int| 0 <= k < b.len() && (#[trigger] b[k]).tick == a[a.len() - 1].tick;
        assert(ticks.dom().contains(b[b.len() - 1].tick));
        let h = choose|h: int| 0 <= h < a.len() && (#[trigger] a[h]).tick == b[b.len() - 1].tick;
        assert(k == b.len() - 1) by {
            if k < b.len() - 1 {
                assert(b[k].tick < b[b.len() - 1].tick);
                if h < a.len() - 1 {
                    assert(a[h].tick < a[a.len() - 1].tick);
                }
            }
        }
        let t = a[a.len() - 1].tick;
        let rest = ticks.remove(t);
        lemma_list_without_last(ticks, a);
        lemma_list_without_last(ticks, b);
        lemma_one_list(rest, a.drop_last(), b.drop_last());
        assert(a.last() == b.last());
        assert(a =~= a.drop_last().push(a.last()));
        assert(b =~= b.drop_last().push(b.last()));
    }
}

proof fn lemma_list_without_last(ticks: Map<i32, (u128, i128)>, a: Seq<TickData>)
    requires
        lists_ticks(ticks, a),
        a.len() > 0,
    ensures
        lists_ticks(ticks.remove(a.last().tick), a.drop_last()),
{
    let t = a[a.len() - 1].tick;
    let (rest, front) = (ticks.remove(t), a.drop_last());
    assert forall|i: int| 0 <= i < front.len() implies rest.dom().contains(
        (#[trigger] front[i]).tick,
    ) && rest[front[i].tick].0 > 0 && rest[front[i].tick].1 == front[i].liquidity_net by {
        assert(a[i].tick < a[a.len() - 1].tick);
    }
    assert forall|u: i32| #[trigger] rest.dom().contains(u) && rest[u].0 > 0 implies exists|i: int|
        0 <= i < front.len() && (#[trigger] front[i]).tick == u by {
        assert(ticks.dom().contains(u));
        let i = choose|i: int| 0 <= i < a.len() && (#[trigger] a[i]).tick == u;
        assert(i < a.len() - 1);
        assert(front[i] == a[i]);
    }
    assert forall|i: int, j: int| 0 <= i < j < front.len() implies (#[trigger] front[i]).tick < (
    #[trigger] front[j]).tick by {
        assert(a[i].tick < a[j].tick);
    }
}

/// Pools with the same state quote the same.
proof fn lemma_same_quote(
    p: UniV3Pool,
    q: UniV3Pool,
    token_in: Address,
    token_out: Address,
    amount_in: int,
)
    requires
        p.token0 == q.token0,
        p.token1 == q.token1,
        p.fee_pips == q.fee_pips,
        p.sqrt_price_x96 == q.sqrt_price_x96,
        p.liquidity == q.liquidity,
        p.tick == q.tick,
        p.tick_spacing == q.tick_spacing,
        p.ticks@ == q.ticks@,
        p.known_range == q.known_range,
    ensures
        p.spec_quote(token_in, token_out, amount_in) == q.spec_quote(
            token_in,
            token_out,
            amount_in,
        ),
{
}

/// A log that was applied, delivered again, changes nothing.
pub proof fn redelivered_logs_change_nothing(m: V3Model, log: Log)
    ensures
        after_log(after_log(m, log), log) == after_log(m, log),
        applied(after_log(m, log), log) is None,
{
}

/// Events up to the block of the snapshot are in the snapshot and change nothing.
pub proof fn the_snapshot_holds_its_block(m: V3Model, log: Log, block: u64)
    requires
        m.last_key == (block, u64::MAX),
        log.block_number matches Some(b) ==> b <= block,
    ensures
        applied(m, log) is None,
        after_log(m, log) == m,
{
    if let Some(key) = log.spec_key() {
        assert(key.0 * two64() <= block * two64()) by (nonlinear_arith)
            requires
                key.0 <= block,
                two64() > 0,
        ;
    }
}

/// Every initialized tick has gross liquidity.
pub open spec fn ticks_are_live(ticks: Map<i32, (u128, i128)>) -> bool {
    forall|t: i32| #[trigger] ticks.dom().contains(t) ==> ticks[t].0 > 0
}

/// A log leaves no tick without gross liquidity.
pub proof fn logs_keep_ticks_live(m: V3Model, log: Log)
    requires
        ticks_are_live(m.ticks),
    ensures
        ticks_are_live(after_log(m, log).ticks),
{
}

/// Burning what was minted gives back the state as it was, where nothing overflowed: the ticks, a
/// tick that was not there being gone again, the liquidity, price, tick and last log.
pub proof fn burn_undoes_mint(m: V3Model, lower: int, upper: int, amount: int)
    requires
        ticks_are_live(m.ticks),
        i32::MIN <= lower < upper <= i32::MAX,
        0 <= amount < two128(),
        0 <= m.liquidity,
        m.liquidity + amount < two128(),
        liquidity_at(m.ticks, lower).0 + amount < two128(),
        liquidity_at(m.ticks, upper).0 + amount < two128(),
        modification_fits(m, lower, upper, amount, true),
    ensures
        modified(modified(m, lower, upper, amount, true), lower, upper, amount, false) == m,
{
    let minted = modified(m, lower, upper, amount, true);
    let burned = modified(minted, lower, upper, amount, false);
    assert(lower as i32 != upper as i32);
    assert(burned.ticks =~= m.ticks);
}

} // verus!
