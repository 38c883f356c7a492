//! Laws of the scans: which exchange a pool is of, what is asked of the factories, and what is
//! counted.
use crate::book::ExchangeInfo;
use crate::live::base::scan::active::{
    bucket_of, class_of, factory_place, indexed, is_indexed, tally, Probe,
};
use crate::live::base::scan::forks::shared;
use crate::live::base::scan::pairs::{
    all_lookups, exchange_lookups, pair_lookups, row_lookups, LookupView,
};
use crate::types::{Address, B256};
use vstd::prelude::*;

verus! {

/// The exchange of a factory is the last one that has it.
pub proof fn factories_name_their_exchange(exchanges: Seq<ExchangeInfo>, factory: Address, n: int)
    requires
        0 <= n <= exchanges.len(),
    ensures
        match factory_place(exchanges, factory, n) {
            Some(i) => {
                &&& 0 <= i < n
                &&& exchanges[i].factory == Some(factory)
                &&& forall|j: int| i < j < n ==> (#[trigger] exchanges[j]).factory != Some(factory)
            },
            None => forall|j: int|
                0 <= j < n ==> (#[trigger] exchanges[j]).factory != Some(factory),
        },
    decreases n,
{
    if n > 0 && exchanges[n - 1].factory != Some(factory) {
        factories_name_their_exchange(exchanges, factory, n - 1);
    }
}

/// The pools that are indexed are those whose exchange and tokens are known, in the order in which
/// they were found; and every bucket counts the pools in it.
pub proof fn buckets_count_their_pools(
    exchanges: Seq<ExchangeInfo>,
    probes: Seq<Probe>,
    bucket: Seq<char>,
    n: int,
)
    requires
        0 <= n <= probes.len(),
    ensures
        indexed(exchanges, probes, n) == probes.take(n).filter(|p: Probe| is_indexed(exchanges, p)),
        tally(exchanges, probes, bucket, n) == probes.take(n).filter(
            |p: Probe| bucket_of(exchanges, p) == bucket,
        ).len(),
    decreases n,
{
    reveal(Seq::filter);
    if n > 0 {
        buckets_count_their_pools(exchanges, probes, bucket, n - 1);
        assert(probes.take(n).drop_last() == probes.take(n - 1));
    }
}

/// What an exchange's pools are: the fee of a V3 pool is what the pool answered, a V2 pool takes
/// 30 basis points, and an Aerodrome pool says whether it is stable.
pub proof fn exchanges_have_their_kind(exchange: Seq<char>, answer: Option<int>)
    ensures
        ({
            let class = class_of(exchange, answer);
            &&& exchange == "uniswap-v3"@ || exchange == "pancakeswap-v3"@ ==> {
                &&& class is Ok
                &&& class->Ok_0.0 == "uniswap_v3"@
                &&& class->Ok_0.1 is Some <==> answer is Some
                &&& answer is Some && 0 <= answer->0 < 0x1_0000_0000 ==> class->Ok_0.1 == answer
            }
            &&& exchange == "aerodrome"@ ==> {
                &&& class is Ok <==> answer is Some
                &&& answer == Some(1int) ==> class->Ok_0.0 == "solidly"@
                &&& answer == Some(0int) ==> class->Ok_0.0 == "uniswap_v2"@
                &&& class is Ok ==> class->Ok_0.1 is None
            }
            &&& exchange == "uniswap-v2"@ ==> {
                &&& class is Ok
                &&& class->Ok_0.0 == "uniswap_v2"@
                &&& class->Ok_0.1 == Some(30int)
            }
            &&& class is Ok ==> exchange == "uniswap-v3"@ || exchange == "pancakeswap-v3"@
                || exchange == "aerodrome"@ || exchange == "uniswap-v2"@
        }),
{
    reveal_strlit("uniswap-v3");
    reveal_strlit("pancakeswap-v3");
    reveal_strlit("aerodrome");
    reveal_strlit("uniswap-v2");
    assert("uniswap-v3"@[9] == '3' && "uniswap-v2"@[9] == '2');
    assert("aerodrome"@.len() == 9 && "pancakeswap-v3"@.len() == 14 && "uniswap-v2"@.len() == 10
        && "uniswap-v3"@.len() == 10);
}

/// Codes that occur more than once are reported with their number; the others are not.
pub proof fn shared_codes_are_reported(
    counts: Map<B256, usize>,
    hashes: Seq<B256>,
    hash: B256,
    n: usize,
)
    ensures
        shared(counts, hashes).contains((hash, n)) <==> hashes.contains(hash) && n == counts[hash]
            && n >= 2,
    decreases hashes.len(),
{
    if hashes.len() > 0 {
        let rest = hashes.drop_last();
        shared_codes_are_reported(counts, rest, hash, n);
        let before = shared(counts, rest);
        let after = shared(counts, hashes);
        if before.contains((hash, n)) {
            let i = choose|i: int| 0 <= i < before.len() && before[i] == (hash, n);
            assert(after[i] == (hash, n));
        }
        if after.contains((hash, n)) {
            let i = choose|i: int| 0 <= i < after.len() && after[i] == (hash, n);
            if i < before.len() {
                assert(before[i] == (hash, n));
                assert(before.contains((hash, n)));
            }
        }
        if hashes.contains(hash) {
            let i = choose|i: int| 0 <= i < hashes.len() && hashes[i] == hash;
            if i < rest.len() {
                assert(rest[i] == hash);
                assert(rest.contains(hash));
            } else if counts[hash] >= 2 {
                assert(after[before.len() as int] == (hash, counts[hash]));
            }
        }
        if rest.contains(hash) {
            let i = choose|i: int| 0 <= i < rest.len() && rest[i] == hash;
            assert(hashes[i] == hash);
        }
        assert(hashes[hashes.len() - 1] == hashes.last());
    }
}

proof fn lemma_joined<A>(a: Seq<A>, b: Seq<A>, x: A)
    ensures
        (a + b).contains(x) <==> a.contains(x) || b.contains(x),
{
    if a.contains(x) {
        let i = choose|i: int| 0 <= i < a.len() && a[i] == x;
        assert((a + b)[i] == x);
    }
    if b.contains(x) {
        let i = choose|i: int| 0 <= i < b.len() && b[i] == x;
        assert((a + b)[a.len() + i] == x);
    }
    if (a + b).contains(x) {
        let i = choose|i: int| 0 <= i < (a + b).len() && (a + b)[i] == x;
        if i < a.len() {
            assert(a[i] == x);
        } else {
            assert(b[i - a.len()] == x);
        }
    }
}

/// A lookup of the pair of the `i`-th and the `j`-th token.
pub open spec fn asks_for(
    kind: Seq<char>,
    place: int,
    factory: Address,
    tokens: Seq<Address>,
    l: LookupView,
    i: int,
    j: int,
) -> bool {
    pair_lookups(kind, place, factory, tokens[i], tokens[j]).contains(l)
}

proof fn lemma_row(
    kind: Seq<char>,
    place: int,
    factory: Address,
    tokens: Seq<Address>,
    i: int,
    n: int,
    l: LookupView,
)
    requires
        0 <= i < n <= tokens.len(),
    ensures
        row_lookups(kind, place, factory, tokens, i, n).contains(l) <==> exists|j: int|
            i < j < n && #[trigger] asks_for(kind, place, factory, tokens, l, i, j),
    decreases n,
{
    if n > i + 1 {
        lemma_row(kind, place, factory, tokens, i, n - 1, l);
        lemma_joined(
            row_lookups(kind, place, factory, tokens, i, n - 1),
            pair_lookups(kind, place, factory, tokens[i], tokens[n - 1]),
            l,
        );
        if pair_lookups(kind, place, factory, tokens[i], tokens[n - 1]).contains(l) {
            assert(asks_for(kind, place, factory, tokens, l, i, n - 1));
        }
    }
}

proof fn lemma_rows(
    kind: Seq<char>,
    place: int,
    factory: Address,
    tokens: Seq<Address>,
    m: int,
    l: LookupView,
)
    requires
        0 <= m <= tokens.len(),
    ensures
        exchange_lookups(kind, place, factory, tokens, m).contains(l) <==> exists|i: int, j: int|
            0 <= i < m && i < j < tokens.len() && #[trigger] asks_for(
                kind,
                place,
                factory,
                tokens,
                l,
                i,
                j,
            ),
    decreases m,
{
    if m > 0 {
        let n = tokens.len() as int;
        lemma_rows(kind, place, factory, tokens, m - 1, l);
        lemma_row(kind, place, factory, tokens, m - 1, n, l);
        lemma_joined(
            exchange_lookups(kind, place, factory, tokens, m - 1),
            row_lookups(kind, place, factory, tokens, m - 1, n),
            l,
        );
    }
}

/// Every exchange with a factory is asked for every pair of tokens, and for nothing else.
pub proof fn every_pair_is_asked_for(
    exchanges: Seq<ExchangeInfo>,
    tokens: Seq<Address>,
    e: int,
    l: LookupView,
)
    requires
        0 <= e <= exchanges.len(),
    ensures
        all_lookups(exchanges, tokens, e).contains(l) <==> exists|k: int, i: int, j: int|
            0 <= k < e && exchanges[k].factory is Some && 0 <= i < j < tokens.len()
                && #[trigger] asks_for(
                exchanges[k].kind@,
                k,
                exchanges[k].factory->0,
                tokens,
                l,
                i,
                j,
            ),
    decreases e,
{
    if e > 0 {
        every_pair_is_asked_for(exchanges, tokens, e - 1, l);
        if let Some(factory) = exchanges[e - 1].factory {
            let kind = exchanges[e - 1].kind@;
            lemma_rows(kind, e - 1, factory, tokens, tokens.len() as int, l);
            lemma_joined(
                all_lookups(exchanges, tokens, e - 1),
                exchange_lookups(kind, e - 1, factory, tokens, tokens.len() as int),
                l,
            );
        }
    }
}

/// A lookup that finds a pool of two tokens, the lower one first.
pub open spec fn is_lookup_of(
    l: LookupView,
    place: int,
    factory: Address,
    a: Address,
    b: Address,
) -> bool {
    &&& l.place == place
    &&& l.factory == factory
    &&& (l.token0 == a && l.token1 == b) || (l.token0 == b && l.token1 == a)
    &&& l.token0.value() <= l.token1.value()
}

/// A V2 factory is asked once for a pair, a V3 factory once for each of the four fees, and a
/// Solidly factory for the volatile and the stable pool.
pub proof fn pairs_are_asked_for_by_kind(
    kind: Seq<char>,
    place: int,
    factory: Address,
    a: Address,
    b: Address,
)
    ensures
        ({
            let asked = pair_lookups(kind, place, factory, a, b);
            &&& forall|i: int|
                0 <= i < asked.len() ==> is_lookup_of(#[trigger] asked[i], place, factory, a, b)
            &&& kind == "uniswap_v2"@ ==> asked.len() == 1 && asked[0].kind == kind
                && asked[0].fee_bps == Some(30u32)
            &&& kind == "uniswap_v3"@ ==> {
                &&& asked.len() == 4
                &&& forall|i: int| 0 <= i < 4 ==> (#[trigger] asked[i]).kind == kind
                &&& asked[0].fee_bps == Some(100u32)
                &&& asked[1].fee_bps == Some(500u32)
                &&& asked[2].fee_bps == Some(3_000u32)
                &&& asked[3].fee_bps == Some(10_000u32)
            }
            &&& kind == "solidly"@ ==> {
                &&& asked.len() == 2
                &&& asked[0].kind == "uniswap_v2"@
                &&& asked[1].kind == "solidly"@
                &&& asked[0].fee_bps is None
                &&& asked[1].fee_bps is None
            }
            &&& kind != "uniswap_v2"@ && kind != "uniswap_v3"@ && kind != "solidly"@ ==> asked.len()
                == 0
        }),
{
    reveal_strlit("uniswap_v2");
    reveal_strlit("uniswap_v3");
    reveal_strlit("solidly");
    assert("uniswap_v3"@[9] == '3' && "uniswap_v2"@[9] == '2');
    assert("solidly"@.len() == 7 && "uniswap_v2"@.len() == 10 && "uniswap_v3"@.len() == 10);
}

} // verus!
