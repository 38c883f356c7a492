//! Pools found by asking each factory for every pair of tokens: a handful of calls, no logs.
use crate::book::{
    codehash_recorded, lemma_pool_at_place, lists_pool, pool_place, ExchangeInfo, PoolBook, PoolInfo,
    Sources,
};
use crate::live::abi::{
    be_bytes, enc_addr, enc_bool, enc_u24, keccak, keccak256, selector, selector_bytes,
};
use crate::text::same_text;
use crate::types::{Address, B256};
use vstd::prelude::*;

verus! {

/// One call to a factory that asks for the pool of a pair, and what the pool is if there is one.
#[derive(Debug)]
pub struct Lookup {
    /// The place of the exchange among the sources.
    pub place: usize,
    pub factory: Address,
    pub calldata: Vec<u8>,
    pub kind: String,
    pub token0: Address,
    pub token1: Address,
    pub fee_bps: Option<u32>,
}

/// A lookup by its contents.
pub struct LookupView {
    pub place: int,
    pub factory: Address,
    pub calldata: Seq<u8>,
    pub kind: Seq<char>,
    pub token0: Address,
    pub token1: Address,
    pub fee_bps: Option<u32>,
}

impl View for Lookup {
    type V = LookupView;

    open spec fn view(&self) -> LookupView {
        LookupView {
            place: self.place as int,
            factory: self.factory,
            calldata: self.calldata@,
            kind: self.kind@,
            token0: self.token0,
            token1: self.token1,
            fee_bps: self.fee_bps,
        }
    }
}

/// Lookups by their contents.
pub open spec fn lookup_views(lookups: Seq<Lookup>) -> Seq<LookupView> {
    lookups.map_values(|l: Lookup| l@)
}

/// A call with two addresses.
pub open spec fn pair_call(sig: Seq<char>, a: Address, b: Address) -> Seq<u8> {
    selector_bytes(sig) + be_bytes(a.value(), 32) + be_bytes(b.value(), 32)
}

/// The lookup of a pair that makes this call; the pool's tokens are in address order.
pub open spec fn lookup_of(
    place: int,
    factory: Address,
    a: Address,
    b: Address,
    calldata: Seq<u8>,
    kind: Seq<char>,
    fee_bps: Option<u32>,
) -> LookupView {
    LookupView {
        place,
        factory,
        calldata,
        kind,
        token0: if a.value() < b.value() {
            a
        } else {
            b
        },
        token1: if a.value() < b.value() {
            b
        } else {
            a
        },
        fee_bps,
    }
}

/// The lookup of a pool of a pair with this fee.
pub open spec fn fee_lookup(
    place: int,
    factory: Address,
    a: Address,
    b: Address,
    fee: u32,
) -> LookupView {
    lookup_of(
        place,
        factory,
        a,
        b,
        pair_call("getPool(address,address,uint24)"@, a, b) + be_bytes(
            fee as int % 0x100_0000,
            32,
        ),
        "uniswap_v3"@,
        Some(fee),
    )
}

/// The lookup of the stable or the volatile pool of a pair.
pub open spec fn stable_lookup(
    place: int,
    factory: Address,
    a: Address,
    b: Address,
    stable: bool,
) -> LookupView {
    lookup_of(
        place,
        factory,
        a,
        b,
        pair_call("getPool(address,address,bool)"@, a, b) + be_bytes(
            if stable {
                1
            } else {
                0
            },
            32,
        ),
        if stable {
            "solidly"@
        } else {
            "uniswap_v2"@
        },
        None,
    )
}

/// What an exchange of this family is asked about a pair.
pub open spec fn pair_lookups(
    kind: Seq<char>,
    place: int,
    factory: Address,
    a: Address,
    b: Address,
) -> Seq<LookupView> {
    if kind == "uniswap_v2"@ {
        seq![
            lookup_of(
                place,
                factory,
                a,
                b,
                pair_call("getPair(address,address)"@, a, b),
                "uniswap_v2"@,
                Some(30),
            ),
        ]
    } else if kind == "uniswap_v3"@ {
        seq![
            fee_lookup(place, factory, a, b, 100),
            fee_lookup(place, factory, a, b, 500),
            fee_lookup(place, factory, a, b, 3000),
            fee_lookup(place, factory, a, b, 10000),
        ]
    } else if kind == "solidly"@ {
        seq![
            stable_lookup(place, factory, a, b, false),
            stable_lookup(place, factory, a, b, true),
        ]
    } else {
        Seq::empty()
    }
}

/// What an exchange is asked about token `i` and each later one before token `n`.
pub open spec fn row_lookups(
    kind: Seq<char>,
    place: int,
    factory: Address,
    tokens: Seq<Address>,
    i: int,
    n: int,
) -> Seq<LookupView>
    decreases n - i,
{
    if n <= i + 1 {
        Seq::empty()
    } else {
        row_lookups(kind, place, factory, tokens, i, n - 1) + pair_lookups(
            kind,
            place,
            factory,
            tokens[i],
            tokens[n - 1],
        )
    }
}

/// What an exchange is asked about the first `m` tokens, each with every later one.
pub open spec fn exchange_lookups(
    kind: Seq<char>,
    place: int,
    factory: Address,
    tokens: Seq<Address>,
    m: int,
) -> Seq<LookupView>
    decreases m,
{
    if m <= 0 {
        Seq::empty()
    } else {
        exchange_lookups(kind, place, factory, tokens, m - 1) + row_lookups(
            kind,
            place,
            factory,
            tokens,
            m - 1,
            tokens.len() as int,
        )
    }
}

/// What the first `e` exchanges are asked: each that has a factory, about every pair.
pub open spec fn all_lookups(
    exchanges: Seq<ExchangeInfo>,
    tokens: Seq<Address>,
    e: int,
) -> Seq<LookupView>
    decreases e,
{
    if e <= 0 {
        Seq::empty()
    } else {
        let before = all_lookups(exchanges, tokens, e - 1);
        match exchanges[e - 1].factory {
            None => before,
            Some(factory) => before + exchange_lookups(
                exchanges[e - 1].kind@,
                e - 1,
                factory,
                tokens,
                tokens.len() as int,
            ),
        }
    }
}

/// A call with two addresses.
fn pair_calldata(sig: &str, a: Address, b: Address) -> (r: Vec<u8>)
    ensures
        r@ == pair_call(sig@, a, b),
{
    let mut data = selector(sig);
    let mut first = enc_addr(a);
    let mut second = enc_addr(b);
    data.append(&mut first);
    data.append(&mut second);
    data
}

fn lookup_with(
    place: usize,
    factory: Address,
    a: Address,
    b: Address,
    calldata: Vec<u8>,
    kind: &str,
    fee_bps: Option<u32>,
) -> (r: Lookup)
    ensures
        r@ == lookup_of(place as int, factory, a, b, calldata@, kind@, fee_bps),
{
    let ascending = a < b;
    Lookup {
        place,
        factory,
        calldata,
        kind: kind.to_owned(),
        token0: if ascending {
            a
        } else {
            b
        },
        token1: if ascending {
            b
        } else {
            a
        },
        fee_bps,
    }
}

fn lookup_by_fee(place: usize, factory: Address, a: Address, b: Address, fee: u32) -> (r: Lookup)
    ensures
        r@ == fee_lookup(place as int, factory, a, b, fee),
{
    let mut data = pair_calldata("getPool(address,address,uint24)", a, b);
    let mut tail = enc_u24(fee);
    data.append(&mut tail);
    lookup_with(place, factory, a, b, data, "uniswap_v3", Some(fee))
}

fn lookup_by_stability(place: usize, factory: Address, a: Address, b: Address, stable: bool) -> (r:
    Lookup)
    ensures
        r@ == stable_lookup(place as int, factory, a, b, stable),
{
    let mut data = pair_calldata("getPool(address,address,bool)", a, b);
    let mut tail = enc_bool(stable);
    data.append(&mut tail);
    let kind = if stable {
        "solidly"
    } else {
        "uniswap_v2"
    };
    lookup_with(place, factory, a, b, data, kind, None)
}

/// Append what an exchange of this family is asked about a pair.
fn push_pair(
    out: &mut Vec<Lookup>,
    kind: &str,
    place: usize,
    factory: Address,
    a: Address,
    b: Address,
)
    ensures
        lookup_views(final(out)@) == lookup_views(old(out)@) + pair_lookups(
            kind@,
            place as int,
            factory,
            a,
            b,
        ),
{
    let ghost before = lookup_views(out@);
    if same_text(kind, "uniswap_v2") {
        let data = pair_calldata("getPair(address,address)", a, b);
        out.push(lookup_with(place, factory, a, b, data, "uniswap_v2", Some(30)));
    } else if same_text(kind, "uniswap_v3") {
        out.push(lookup_by_fee(place, factory, a, b, 100));
        out.push(lookup_by_fee(place, factory, a, b, 500));
        out.push(lookup_by_fee(place, factory, a, b, 3000));
        out.push(lookup_by_fee(place, factory, a, b, 10000));
    } else if same_text(kind, "solidly") {
        out.push(lookup_by_stability(place, factory, a, b, false));
        out.push(lookup_by_stability(place, factory, a, b, true));
    }
    assert(lookup_views(out@) =~= before + pair_lookups(kind@, place as int, factory, a, b));
}

/// Append what an exchange is asked about every pair of tokens.
fn push_exchange(
    out: &mut Vec<Lookup>,
    kind: &str,
    place: usize,
    factory: Address,
    tokens: &Vec<Address>,
)
    ensures
        lookup_views(final(out)@) == lookup_views(old(out)@) + exchange_lookups(
            kind@,
            place as int,
            factory,
            tokens@,
            tokens@.len() as int,
        ),
{
    let ghost start = lookup_views(out@);
    let ghost p = place as int;
    let mut i: usize = 0;
    assert(start + exchange_lookups(kind@, p, factory, tokens@, 0) =~= start);
    while i < tokens.len()
        invariant
            i <= tokens@.len(),
            p == place,
            lookup_views(out@) == start + exchange_lookups(
                kind@,
                p,
                factory,
                tokens@,
                i as int,
            ),
        decreases tokens@.len() - i,
    {
        let ghost row = lookup_views(out@);
        let mut j: usize = i + 1;
        assert(row + row_lookups(kind@, p, factory, tokens@, i as int, i + 1) =~= row);
        while j < tokens.len()
            invariant
                i < j <= tokens@.len(),
                p == place,
                lookup_views(out@) == row + row_lookups(
                    kind@,
                    p,
                    factory,
                    tokens@,
                    i as int,
                    j as int,
                ),
            decreases tokens@.len() - j,
        {
            push_pair(out, kind, place, factory, tokens[i], tokens[j]);
            assert(lookup_views(out@) =~= row + row_lookups(
                kind@,
                p,
                factory,
                tokens@,
                i as int,
                j + 1,
            ));
            j = j + 1;
        }
        assert(lookup_views(out@) =~= start + exchange_lookups(
            kind@,
            p,
            factory,
            tokens@,
            i + 1,
        ));
        i = i + 1;
    }
}

/// The addresses of a book's tokens, in symbol order.
pub open spec fn token_addresses(book: PoolBook) -> Seq<Address> {
    book.tokens.symbol_seq().map_values(|s: Seq<char>| book.tokens@[s].address)
}

/// A lookup of the pools of every pair of a book's tokens, exchange by exchange, under way.
#[derive(Debug)]
pub struct PairScan {
    pub lookups: Vec<Lookup>,
    /// The next lookup.
    pub at: usize,
    /// The exchange whose pool codehash was learnt last.
    pub learnt: Option<usize>,
    pub added: usize,
    /// How many codehashes were new.
    pub codehashes: usize,
}

/// Start to look up a pool of every pair of the book's tokens at every exchange that has a
/// factory: `getPair`, `getPool` by fee, or `getPool` by stability.
pub fn discover_pairs(sources: &Sources, official: &PoolBook) -> (r: PairScan)
    ensures
        lookup_views(r.lookups@) == all_lookups(
            sources.exchanges@,
            token_addresses(*official),
            sources.exchanges@.len() as int,
        ),
        r.at == 0,
        r.learnt is None,
        r.added == 0,
        r.codehashes == 0,
        r.wf(*sources),
{
    let ghost wanted = token_addresses(*official);
    let mut tokens: Vec<Address> = Vec::new();
    let count: usize = official.tokens.len();
    let mut i: usize = 0;
    while i < count
        invariant
            i <= count,
            count == official.tokens.symbol_seq().len(),
            wanted == token_addresses(*official),
            tokens@ == wanted.take(i as int),
        decreases count - i,
    {
        assert(wanted.take(i + 1) =~= wanted.take(i as int).push(wanted[i as int]));
        tokens.push(official.tokens.value_at(i).address);
        i = i + 1;
    }
    assert(wanted.take(i as int) =~= wanted);
    let mut lookups: Vec<Lookup> = Vec::new();
    assert(lookup_views(lookups@) =~= all_lookups(sources.exchanges@, wanted, 0));
    let mut e: usize = 0;
    while e < sources.exchanges.len()
        invariant
            e <= sources.exchanges@.len(),
            tokens@ == wanted,
            lookup_views(lookups@) == all_lookups(sources.exchanges@, wanted, e as int),
        decreases sources.exchanges@.len() - e,
    {
        if let Some(factory) = sources.exchanges[e].factory {
            push_exchange(
                &mut lookups,
                sources.exchanges[e].kind.as_str(),
                e,
                factory,
                &tokens,
            );
        }
        e = e + 1;
    }
    proof {
        lookups_go_exchange_by_exchange(sources.exchanges@, wanted, e as int);
        assert forall|i: int| 0 <= i < lookups@.len() implies (#[trigger] lookups@[i]).place
            < sources.exchanges@.len() by {
            assert(lookup_views(lookups@)[i] == lookups@[i]@);
        }
    }
    PairScan { lookups, at: 0, learnt: None, added: 0, codehashes: 0 }
}

impl PairScan {
    /// The counts stay within the lookups made, and the lookups name exchanges of these sources.
    pub open spec fn wf(&self, sources: Sources) -> bool {
        &&& self.added <= self.at <= self.lookups@.len()
        &&& self.codehashes <= self.at
        &&& forall|i: int|
            0 <= i < self.lookups@.len() ==> (#[trigger] self.lookups@[i]).place
                < sources.exchanges@.len()
    }

    /// The next lookup to make, if any is left.
    pub fn next_lookup(&self) -> (r: Option<&Lookup>)
        requires
            self.at <= self.lookups@.len(),
        ensures
            match r {
                Some(l) => self.at < self.lookups@.len() && *l == self.lookups@[self.at as int],
                None => self.at == self.lookups@.len(),
            },
    {
        if self.at < self.lookups.len() {
            Some(&self.lookups[self.at])
        } else {
            None
        }
    }

    /// Take in what the next lookup returned: a pool goes into the book. Returns the exchange
    /// whose pool codehash is still to be learnt from the code of this pool.
    pub fn record(
        &mut self,
        sources: &Sources,
        official: &mut PoolBook,
        found: Option<Address>,
    ) -> (r: Option<usize>)
        requires
            old(self).wf(*sources),
            old(self).at < old(self).lookups@.len(),
        ensures
            final(self).wf(*sources),
            final(self).lookups == old(self).lookups,
            final(self).at == old(self).at + 1,
            final(self).learnt == old(self).learnt,
            final(self).codehashes == old(self).codehashes,
            final(official).chain == old(official).chain,
            final(official).tokens == old(official).tokens,
            ({
                let lookup = old(self).lookups@[old(self).at as int];
                let pools = old(official).pools@;
                match found {
                    None => {
                        &&& r is None
                        &&& final(official).pools@ == pools
                        &&& final(self).added == old(self).added
                    },
                    Some(pool) => {
                        let at = pool_place(pools, pool);
                        let listed = lists_pool(pools, pool);
                        let now = final(official).pools@;
                        &&& r == (if old(self).learnt == Some(lookup.place) {
                            None
                        } else {
                            Some(lookup.place)
                        })
                        &&& now.len() == (if listed {
                            pools.len()
                        } else {
                            pools.len() + 1
                        })
                        &&& forall|i: int|
                            0 <= i < pools.len() && i != at ==> #[trigger] now[i] == pools[i]
                        &&& is_found(
                            lookup@,
                            sources.exchanges@[lookup.place as int].name@,
                            pool,
                            now[at],
                        )
                        &&& final(self).added == old(self).added + (if listed {
                            0int
                        } else {
                            1int
                        })
                    },
                }
            }),
    {
        let at: usize = self.at;
        assert(at < self.lookups.len());
        self.at = at + 1;
        let pool = match found {
            Some(pool) => pool,
            None => {
                return None;
            },
        };
        let place: usize = self.lookups[at].place;
        let ghost pools = official.pools@;
        let newly = official.upsert_pool(
            PoolInfo {
                address: pool,
                exchange: sources.exchanges[place].name.clone(),
                kind: self.lookups[at].kind.clone(),
                token0: self.lookups[at].token0,
                token1: self.lookups[at].token1,
                fee_bps: self.lookups[at].fee_bps,
                discovered_block: None,
            },
        );
        proof {
            lemma_pool_at_place(pools, pool);
        }
        if newly {
            self.added = self.added + 1;
        }
        match self.learnt {
            Some(last) if last == place => None,
            _ => Some(place),
        }
    }

    /// Learn an exchange's pool codehash from the code of one of its pools, if the code could be
    /// read. Returns whether the codehash is new.
    pub fn learn(&mut self, sources: &mut Sources, place: usize, code: Option<&[u8]>) -> (r: bool)
        requires
            old(self).wf(*old(sources)),
            old(self).codehashes < old(self).at,
            place < old(sources).exchanges@.len(),
        ensures
            final(self).wf(*final(sources)),
            final(self).lookups == old(self).lookups,
            final(self).at == old(self).at,
            final(self).added == old(self).added,
            final(self).codehashes == old(self).codehashes + (if r {
                1int
            } else {
                0int
            }),
            match code {
                None => {
                    &&& !r
                    &&& *final(sources) == *old(sources)
                    &&& final(self).learnt == old(self).learnt
                },
                Some(code) => {
                    &&& exists|hash: B256|
                        hash.word@ == keccak(code@) && #[trigger] codehash_recorded(
                            *old(sources),
                            *final(sources),
                            old(sources).exchanges@[place as int].name@,
                            hash,
                            r,
                        )
                    &&& final(self).learnt == Some(place)
                },
            },
    {
        if let Some(code) = code {
            let name = sources.exchanges[place].name.clone();
            let hash = keccak256(code);
            let newly = sources.add_codehash(name.as_str(), hash);
            self.learnt = Some(place);
            if newly {
                self.codehashes = self.codehashes + 1;
            }
            assert(codehash_recorded(*old(sources), *sources, name@, hash, newly));
            newly
        } else {
            false
        }
    }
}

/// The book entry of a pool that a lookup found.
pub open spec fn is_found(
    lookup: LookupView,
    exchange: Seq<char>,
    pool: Address,
    info: PoolInfo,
) -> bool {
    &&& info.address == pool
    &&& info.exchange@ == exchange
    &&& info.kind@ == lookup.kind
    &&& info.token0 == lookup.token0
    &&& info.token1 == lookup.token1
    &&& info.fee_bps == lookup.fee_bps
    &&& info.discovered_block is None
}

proof fn lemma_pair_lookups(kind: Seq<char>, place: int, factory: Address, a: Address, b: Address)
    ensures
        forall|i: int|
            0 <= i < pair_lookups(kind, place, factory, a, b).len() ==> {
                let l = #[trigger] pair_lookups(kind, place, factory, a, b)[i];
                l.place == place && l.factory == factory && l.token0.value() <= l.token1.value()
            },
{
}

proof fn lemma_row_lookups(
    kind: Seq<char>,
    place: int,
    factory: Address,
    tokens: Seq<Address>,
    i: int,
    n: int,
)
    ensures
        forall|k: int|
            0 <= k < row_lookups(kind, place, factory, tokens, i, n).len() ==> {
                let l = #[trigger] row_lookups(kind, place, factory, tokens, i, n)[k];
                l.place == place && l.factory == factory && l.token0.value() <= l.token1.value()
            },
    decreases n - i,
{
    if n > i + 1 {
        lemma_row_lookups(kind, place, factory, tokens, i, n - 1);
        lemma_pair_lookups(kind, place, factory, tokens[i], tokens[n - 1]);
    }
}

proof fn lemma_exchange_lookups(
    kind: Seq<char>,
    place: int,
    factory: Address,
    tokens: Seq<Address>,
    m: int,
)
    ensures
        forall|k: int|
            0 <= k < exchange_lookups(kind, place, factory, tokens, m).len() ==> {
                let l = #[trigger] exchange_lookups(kind, place, factory, tokens, m)[k];
                l.place == place && l.factory == factory && l.token0.value() <= l.token1.value()
            },
    decreases m,
{
    if m > 0 {
        lemma_exchange_lookups(kind, place, factory, tokens, m - 1);
        lemma_row_lookups(kind, place, factory, tokens, m - 1, tokens.len() as int);
    }
}

/// The lookups go exchange by exchange, each to the exchange's own factory, with the pair's tokens
/// in address order. So an exchange whose codehash was learnt is not asked for it again.
pub proof fn lookups_go_exchange_by_exchange(
    exchanges: Seq<ExchangeInfo>,
    tokens: Seq<Address>,
    e: int,
)
    requires
        0 <= e <= exchanges.len(),
    ensures
        ({
            let all = all_lookups(exchanges, tokens, e);
            &&& forall|i: int|
                0 <= i < all.len() ==> {
                    let l = #[trigger] all[i];
                    &&& 0 <= l.place < e
                    &&& exchanges[l.place].factory == Some(l.factory)
                    &&& l.token0.value() <= l.token1.value()
                }
            &&& forall|i: int, j: int|
                0 <= i <= j < all.len() ==> (#[trigger] all[i]).place <= (#[trigger] all[j]).place
        }),
    decreases e,
{
    if e > 0 {
        lookups_go_exchange_by_exchange(exchanges, tokens, e - 1);
        if let Some(factory) = exchanges[e - 1].factory {
            lemma_exchange_lookups(
                exchanges[e - 1].kind@,
                e - 1,
                factory,
                tokens,
                tokens.len() as int,
            );
        }
    }
}

} // verus!
