//! Pools found by their recent trades: the pools that actually trade are where arbs live.
use crate::book::{ExchangeInfo, PoolInfo, Sources};
use crate::live::abi::{topic, topic_value};
use crate::rank_map::{ascending, AddressMap, RankMap};
use crate::symbols::SymbolMap;
use crate::text::same_text;
use crate::types::{lemma_u256_range, Address, B256, U256};
use vstd::prelude::*;
use vstd::string::StringExecFns;

verus! {

/// The signatures of the `Swap` events of UniV2, UniV3 and Aerodrome pools.
pub open spec fn swap_sigs() -> Seq<Seq<char>> {
    seq![
        "Swap(address,uint256,uint256,uint256,uint256,address)"@,
        "Swap(address,address,int256,int256,uint160,uint128,int24)"@,
        "Swap(address,address,uint256,uint256,uint256,uint256)"@,
    ]
}

/// The first topics by which an address is taken for a pool.
pub fn swap_topics() -> (r: Vec<B256>)
    ensures
        r@.len() == 3,
        forall|i: int| 0 <= i < 3 ==> (#[trigger] r@[i]).word@ == topic_value(swap_sigs()[i]),
{
    let mut t: Vec<B256> = Vec::new();
    t.push(topic("Swap(address,uint256,uint256,uint256,uint256,address)"));
    t.push(topic("Swap(address,address,int256,int256,uint160,uint128,int24)"));
    t.push(topic("Swap(address,address,uint256,uint256,uint256,uint256)"));
    t
}

/// The addresses that occur and are not known, in address order, once each.
pub fn fresh_addresses(found: &[Address], known: &AddressMap<bool>) -> (r: Vec<Address>)
    ensures
        ascending(r@),
        forall|a: Address|
            r@.contains(a) <==> found@.contains(a) && !known@.dom().contains(a),
{
    let mut fresh: AddressMap<bool> = RankMap::new();
    let mut i: usize = 0;
    while i < found.len()
        invariant
            i <= found@.len(),
            forall|a: Address| #[trigger]
                fresh@.dom().contains(a) <==> found@.take(i as int).contains(a)
                    && !known@.dom().contains(a),
        decreases found@.len() - i,
    {
        let address = found[i];
        let ghost before = fresh@;
        if !known.contains_key(address) {
            fresh.insert(address, true);
        }
        proof {
            let (upto, next) = (found@.take(i as int), found@.take(i + 1));
            assert(next =~= upto.push(address));
            assert forall|a: Address| #[trigger]
                fresh@.dom().contains(a) <==> next.contains(a) && !known@.dom().contains(a) by {
                assert(before.dom().contains(a) <==> upto.contains(a) && !known@.dom().contains(
                    a,
                ));
                if upto.contains(a) {
                    let k = choose|k: int| 0 <= k < upto.len() && upto[k] == a;
                    assert(next[k] == a);
                }
                if a == address {
                    assert(next[i as int] == a);
                }
                if next.contains(a) && a != address {
                    let k = choose|k: int| 0 <= k < next.len() && next[k] == a;
                    assert(upto[k] == a);
                }
            }
        }
        i = i + 1;
    }
    assert(found@.take(i as int) =~= found@);
    let count: usize = fresh.len();
    let ghost keys = fresh.key_seq();
    let mut out: Vec<Address> = Vec::new();
    let mut i: usize = 0;
    while i < count
        invariant
            i <= count,
            count == keys.len(),
            keys == fresh.key_seq(),
            out@ == keys.take(i as int),
        decreases count - i,
    {
        assert(keys.take(i + 1) =~= keys.take(i as int).push(keys[i as int]));
        out.push(fresh.key_at(i));
        i = i + 1;
    }
    assert(keys.take(i as int) =~= keys);
    out
}

/// The tokens of pools, each pool's two in order.
pub open spec fn tokens_listed(pools: Seq<PoolInfo>, n: int) -> Seq<Address>
    decreases n,
{
    if n <= 0 {
        Seq::empty()
    } else {
        tokens_listed(pools, n - 1).push(pools[n - 1].token0).push(pools[n - 1].token1)
    }
}

/// The tokens of pools that are not known yet, in address order, once each.
pub fn new_tokens(pools: &Vec<PoolInfo>, known: &AddressMap<bool>) -> (r: Vec<Address>)
    ensures
        ascending(r@),
        forall|a: Address|
            r@.contains(a) <==> tokens_listed(pools@, pools@.len() as int).contains(a)
                && !known@.dom().contains(a),
{
    let mut found: Vec<Address> = Vec::new();
    let mut i: usize = 0;
    while i < pools.len()
        invariant
            i <= pools.len(),
            found@ == tokens_listed(pools@, i as int),
        decreases pools.len() - i,
    {
        found.push(pools[i].token0);
        found.push(pools[i].token1);
        i = i + 1;
    }
    fresh_addresses(found.as_slice(), known)
}

/// The last exchange with this factory among the first `n`.
pub open spec fn factory_place(exchanges: Seq<ExchangeInfo>, factory: Address, n: int) -> Option<int>
    decreases n,
{
    if n <= 0 {
        None
    } else if exchanges[n - 1].factory == Some(factory) {
        Some(n - 1)
    } else {
        factory_place(exchanges, factory, n - 1)
    }
}

/// The exchange with this factory; of several, the last.
pub fn exchange_for_factory(sources: &Sources, factory: Address) -> (r: Option<&ExchangeInfo>)
    ensures
        match (
            r,
            factory_place(sources.exchanges@, factory, sources.exchanges@.len() as int),
        ) {
            (Some(e), Some(i)) => 0 <= i < sources.exchanges@.len() && *e
                == sources.exchanges@[i],
            (None, None) => true,
            _ => false,
        },
{
    let mut i: usize = sources.exchanges.len();
    while i > 0
        invariant
            i <= sources.exchanges@.len(),
            factory_place(sources.exchanges@, factory, sources.exchanges@.len() as int)
                == factory_place(sources.exchanges@, factory, i as int),
        decreases i,
    {
        i = i - 1;
        if let Some(f) = sources.exchanges[i].factory {
            if f == factory {
                return Some(&sources.exchanges[i]);
            }
        }
    }
    None
}

/// What else a pool of an exchange must be asked to be classified.
#[derive(Debug, Clone, Copy, PartialEq, Eq, Structural)]
pub enum Question {
    /// `fee()`.
    Fee,
    /// `stable()`.
    Stable,
    /// Nothing.
    Nothing,
}

/// What else a pool of an exchange must be asked to be classified.
pub open spec fn question_for(exchange: Seq<char>) -> Question {
    if exchange == "uniswap-v3"@ || exchange == "pancakeswap-v3"@ {
        Question::Fee
    } else if exchange == "aerodrome"@ {
        Question::Stable
    } else {
        Question::Nothing
    }
}

/// What else a pool of an exchange must be asked to be classified.
pub fn question(exchange: &str) -> (r: Question)
    ensures
        r == question_for(exchange@),
{
    if same_text(exchange, "uniswap-v3") || same_text(exchange, "pancakeswap-v3") {
        Question::Fee
    } else if same_text(exchange, "aerodrome") {
        Question::Stable
    } else {
        Question::Nothing
    }
}

/// The family and the fee of a pool of an exchange, or the bucket it is skipped into. Only pools
/// that can be confirmed on chain to the wei are indexed.
pub open spec fn class_of(exchange: Seq<char>, answer: Option<int>) -> Result<
    (Seq<char>, Option<int>),
    Seq<char>,
> {
    if exchange == "uniswap-v3"@ || exchange == "pancakeswap-v3"@ {
        Ok(
            (
                "uniswap_v3"@,
                match answer {
                    Some(word) => Some(word % 0x1_0000_0000),
                    None => None,
                },
            ),
        )
    } else if exchange == "aerodrome"@ {
        match answer {
            Some(word) => Ok(
                (
                    if word % 256 != 0 {
                        "solidly"@
                    } else {
                        "uniswap_v2"@
                    },
                    None,
                ),
            ),
            None => Err("skip:aero_no_stable()"@),
        }
    } else if exchange == "uniswap-v2"@ {
        Ok(("uniswap_v2"@, Some(30)))
    } else {
        Err("skip:"@ + exchange)
    }
}

/// The family and the fee of a pool of an exchange, from the answer to what it was asked, or the
/// bucket it is skipped into.
pub fn classify(exchange: &str, answer: Option<U256>) -> (r: Result<(String, Option<u32>), String>)
    ensures
        (match r {
            Ok((kind, fee)) => Ok::<(Seq<char>, Option<int>), Seq<char>>(
                (
                    kind@,
                    match fee {
                        Some(fee) => Some(fee as int),
                        None => None,
                    },
                ),
            ),
            Err(bucket) => Err(bucket@),
        }) == class_of(
            exchange@,
            match answer {
                Some(word) => Some(word@),
                None => None,
            },
        ),
{
    broadcast use lemma_u256_range;

    if same_text(exchange, "uniswap-v3") || same_text(exchange, "pancakeswap-v3") {
        let fee: Option<u32> = match answer {
            Some(word) => Some(word.remainder(U256::from_u64(0x1_0000_0000)).low_u128() as u32),
            None => None,
        };
        Ok(("uniswap_v3".to_owned(), fee))
    } else if same_text(exchange, "aerodrome") {
        match answer {
            Some(word) => {
                let stable = !word.remainder(U256::from_u64(256)).is_zero();
                Ok(
                    (
                        if stable {
                            "solidly".to_owned()
                        } else {
                            "uniswap_v2".to_owned()
                        },
                        None,
                    ),
                )
            },
            None => Err("skip:aero_no_stable()".to_owned()),
        }
    } else if same_text(exchange, "uniswap-v2") {
        Ok(("uniswap_v2".to_owned(), Some(30)))
    } else {
        Err("skip:".to_owned().concat(exchange))
    }
}

/// How many addresses fell into each bucket: an exchange's name, or `skip:<reason>`.
pub type Histogram = SymbolMap<usize>;

/// Count one more in a bucket.
pub fn count_in(hist: &mut Histogram, bucket: String)
    requires
        old(hist)@.dom().contains(bucket@) ==> old(hist)@[bucket@] < usize::MAX,
    ensures
        final(hist)@ == old(hist)@.insert(
            bucket@,
            (if old(hist)@.dom().contains(bucket@) {
                (old(hist)@[bucket@] + 1) as usize
            } else {
                1usize
            }),
        ),
{
    let n: usize = match hist.get(bucket.as_str()) {
        Some(n) => n + 1,
        None => 1,
    };
    hist.insert(bucket, n);
}

/// What the chain answered about a pool that traded: what its `factory()` returned, what it
/// returned to the question that its exchange poses, and its two tokens.
#[derive(Debug, Clone, Copy, PartialEq, Eq, Structural)]
pub struct Probe {
    pub pool: Address,
    pub factory: Option<Address>,
    pub answer: Option<U256>,
    pub token0: Option<Address>,
    pub token1: Option<Address>,
}

/// The exchange that a pool with this factory belongs to, and what its family and fee are; or the
/// bucket that it is skipped into.
pub open spec fn placed(exchanges: Seq<ExchangeInfo>, probe: Probe) -> Result<
    (int, Seq<char>, Option<int>),
    Seq<char>,
> {
    match probe.factory {
        None => Err("skip:no_factory()"@),
        Some(factory) => match factory_place(exchanges, factory, exchanges.len() as int) {
            None => Err("skip:unknown_factory"@),
            Some(i) => match class_of(
                exchanges[i].name@,
                match probe.answer {
                    Some(word) => Some(word@),
                    None => None,
                },
            ) {
                Err(bucket) => Err(bucket),
                Ok((kind, fee)) => Ok((i, kind, fee)),
            },
        },
    }
}

/// The bucket that a pool is counted in: its exchange's name, or why it is skipped.
pub open spec fn bucket_of(exchanges: Seq<ExchangeInfo>, probe: Probe) -> Seq<char> {
    match placed(exchanges, probe) {
        Err(bucket) => bucket,
        Ok((i, _, _)) => if probe.token0 is Some && probe.token1 is Some {
            exchanges[i].name@
        } else {
            "skip:no_tokens"@
        },
    }
}

/// The pool is indexed.
pub open spec fn is_indexed(exchanges: Seq<ExchangeInfo>, probe: Probe) -> bool {
    placed(exchanges, probe) is Ok && probe.token0 is Some && probe.token1 is Some
}

/// The book entry is that of an indexed pool.
pub open spec fn is_entry(exchanges: Seq<ExchangeInfo>, probe: Probe, info: PoolInfo) -> bool {
    match placed(exchanges, probe) {
        Err(_) => false,
        Ok((i, kind, fee)) => {
            &&& info.address == probe.pool
            &&& info.exchange@ == exchanges[i].name@
            &&& info.kind@ == kind
            &&& Some(info.token0) == probe.token0
            &&& Some(info.token1) == probe.token1
            &&& fee == (match info.fee_bps {
                Some(fee) => Some(fee as int),
                None => None,
            })
            &&& info.discovered_block is None
        },
    }
}

/// The indexed ones among the first `n` pools.
pub open spec fn indexed(exchanges: Seq<ExchangeInfo>, probes: Seq<Probe>, n: int) -> Seq<Probe>
    decreases n,
{
    if n <= 0 {
        Seq::empty()
    } else if is_indexed(exchanges, probes[n - 1]) {
        indexed(exchanges, probes, n - 1).push(probes[n - 1])
    } else {
        indexed(exchanges, probes, n - 1)
    }
}

/// How many of the first `n` pools fall into a bucket.
pub open spec fn tally(
    exchanges: Seq<ExchangeInfo>,
    probes: Seq<Probe>,
    bucket: Seq<char>,
    n: int,
) -> int
    decreases n,
{
    if n <= 0 {
        0
    } else {
        tally(exchanges, probes, bucket, n - 1) + (if bucket_of(exchanges, probes[n - 1])
            == bucket {
            1int
        } else {
            0int
        })
    }
}

/// The histogram of the first `n` pools: each bucket that any falls into, with their number.
pub open spec fn is_histogram(
    exchanges: Seq<ExchangeInfo>,
    probes: Seq<Probe>,
    n: int,
    hist: Map<Seq<char>, usize>,
) -> bool {
    forall|bucket: Seq<char>|
        (#[trigger] hist.dom().contains(bucket) <==> tally(exchanges, probes, bucket, n) > 0) && (
        hist.dom().contains(bucket) ==> hist[bucket] == tally(exchanges, probes, bucket, n))
}

proof fn lemma_tally_bound(
    exchanges: Seq<ExchangeInfo>,
    probes: Seq<Probe>,
    bucket: Seq<char>,
    n: int,
)
    ensures
        0 <= tally(exchanges, probes, bucket, n),
        n >= 0 ==> tally(exchanges, probes, bucket, n) <= n,
    decreases n,
{
    if n > 0 {
        lemma_tally_bound(exchanges, probes, bucket, n - 1);
    }
}

/// The book entry of a pool that traded, or the bucket that it is skipped into.
pub fn index_pool(sources: &Sources, probe: Probe) -> (r: Result<PoolInfo, String>)
    ensures
        match r {
            Ok(info) => is_indexed(sources.exchanges@, probe) && is_entry(
                sources.exchanges@,
                probe,
                info,
            ),
            Err(bucket) => !is_indexed(sources.exchanges@, probe) && bucket@ == bucket_of(
                sources.exchanges@,
                probe,
            ),
        },
{
    let factory = match probe.factory {
        Some(factory) => factory,
        None => {
            return Err("skip:no_factory()".to_owned());
        },
    };
    let exchange = match exchange_for_factory(sources, factory) {
        Some(exchange) => exchange,
        None => {
            return Err("skip:unknown_factory".to_owned());
        },
    };
    match classify(exchange.name.as_str(), probe.answer) {
        Err(bucket) => Err(bucket),
        Ok((kind, fee_bps)) => {
            match (probe.token0, probe.token1) {
                (Some(token0), Some(token1)) => Ok(
                    PoolInfo {
                        address: probe.pool,
                        exchange: exchange.name.clone(),
                        kind,
                        token0,
                        token1,
                        fee_bps,
                        discovered_block: None,
                    },
                ),
                _ => Err("skip:no_tokens".to_owned()),
            }
        },
    }
}

/// Sort the pools that traded: the book entries of those on an exchange whose quotes can be
/// confirmed on chain, in order, and how many fell into each bucket. Pools on other exchanges and
/// from unknown factories are counted but skipped, so that coverage gaps are visible.
pub fn discover_active_pools(sources: &Sources, probes: &[Probe]) -> (r: (
    Vec<PoolInfo>,
    Histogram,
))
    ensures
        ({
            let taken = indexed(sources.exchanges@, probes@, probes@.len() as int);
            r.0@.len() == taken.len() && forall|i: int|
                0 <= i < taken.len() ==> is_entry(
                    sources.exchanges@,
                    taken[i],
                    #[trigger] r.0@[i],
                )
        }),
        is_histogram(sources.exchanges@, probes@, probes@.len() as int, r.1@),
{
    let mut pools: Vec<PoolInfo> = Vec::new();
    let mut hist: Histogram = SymbolMap::new();
    let ghost exchanges = sources.exchanges@;
    let mut i: usize = 0;
    while i < probes.len()
        invariant
            i <= probes@.len(),
            exchanges == sources.exchanges@,
            pools@.len() == indexed(exchanges, probes@, i as int).len(),
            forall|k: int|
                0 <= k < pools@.len() ==> is_entry(
                    exchanges,
                    indexed(exchanges, probes@, i as int)[k],
                    #[trigger] pools@[k],
                ),
            is_histogram(exchanges, probes@, i as int, hist@),
        decreases probes@.len() - i,
    {
        let ghost before = hist@;
        let ghost bucket = bucket_of(exchanges, probes@[i as int]);
        proof {
            assert forall|b: Seq<char>| true implies 0 <= #[trigger] tally(
                exchanges,
                probes@,
                b,
                i as int,
            ) <= i by {
                lemma_tally_bound(exchanges, probes@, b, i as int);
            }
            assert(before.dom().contains(bucket) ==> before[bucket] <= i);
        }
        match index_pool(sources, probes[i]) {
            Ok(info) => {
                let name = info.exchange.clone();
                assert(name@ == bucket);
                pools.push(info);
                count_in(&mut hist, name);
            },
            Err(skipped) => {
                assert(skipped@ == bucket);
                count_in(&mut hist, skipped);
            },
        }
        proof {
            assert forall|b: Seq<char>|
                (#[trigger] hist@.dom().contains(b) <==> tally(exchanges, probes@, b, i + 1) > 0)
                    && (hist@.dom().contains(b) ==> hist@[b] == tally(
                    exchanges,
                    probes@,
                    b,
                    i + 1,
                )) by {
                assert(before.dom().contains(b) <==> tally(exchanges, probes@, b, i as int) > 0);
                assert(before.dom().contains(b) ==> before[b] == tally(
                    exchanges,
                    probes@,
                    b,
                    i as int,
                ));
            }
        }
        i = i + 1;
    }
    (pools, hist)
}

proof fn lemma_tally_grows(
    exchanges: Seq<ExchangeInfo>,
    probes: Seq<Probe>,
    bucket: Seq<char>,
    m: int,
    n: int,
)
    requires
        m <= n,
    ensures
        tally(exchanges, probes, bucket, m) <= tally(exchanges, probes, bucket, n),
    decreases n - m,
{
    if m < n {
        lemma_tally_grows(exchanges, probes, bucket, m, n - 1);
        lemma_tally_bound(exchanges, probes, bucket, m);
    }
}

/// Nothing is dropped silently: the bucket of every pool that traded is in the histogram.
pub proof fn no_pool_is_dropped(
    exchanges: Seq<ExchangeInfo>,
    probes: Seq<Probe>,
    hist: Map<Seq<char>, usize>,
    i: int,
)
    requires
        is_histogram(exchanges, probes, probes.len() as int, hist),
        0 <= i < probes.len(),
    ensures
        hist.dom().contains(bucket_of(exchanges, probes[i])),
        hist[bucket_of(exchanges, probes[i])] >= 1,
{
    let bucket = bucket_of(exchanges, probes[i]);
    lemma_tally_bound(exchanges, probes, bucket, i);
    lemma_tally_grows(exchanges, probes, bucket, i + 1, probes.len() as int);
    assert(hist.dom().contains(bucket) <==> tally(exchanges, probes, bucket, probes.len() as int)
        > 0);
}

} // verus!
