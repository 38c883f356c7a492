//! Two registries per chain:
//!
//! - [`PoolBook`], the **graph**: tokens (nodes) and pools (edges). This is what the runtime
//!   traverses to find USDC→…→USDC cycles. Tiered into `official` (trusted) and `secondary`
//!   (discovered fork candidates).
//! - [`Sources`], **discovery scaffolding** only: exchange factories and per-exchange pool
//!   codehashes. The traversal engine never looks at it.
//!
//! Factories are deliberately not in the pool book: they aren't graph data, just a means of
//! finding edges.
use crate::symbols::{ascending, SymbolMap};
use crate::text::{lemma_text_irreflexive, same_text, text_before};
use crate::order::{as_ints, is_stable_order, key_values, sort_by_keys, stable_order, stable_order_of};
use crate::rank_map::AddressMap;
use crate::types::{two256, Address, B256, U256};
use vstd::arithmetic::power::pow;
use vstd::prelude::*;
use vstd::string::StringExecFns;

verus! {

/// A token's contract and its decimals.
#[derive(Debug, Clone, Copy, PartialEq, Eq, Structural)]
pub struct TokenInfo {
    pub address: Address,
    pub decimals: u8,
}

/// Tokens by symbol. Iteration is in the order of the symbols' code points.
pub type TokenMap = SymbolMap<TokenInfo>;

/// Per-chain incremental-scan watermark: the last block that an activity scan covered. Lets
/// indexing run as a "catch up from watermark to head" job.
#[derive(Debug, Clone, Copy, PartialEq, Eq, Structural)]
pub struct ScanState {
    pub last_active_block: u64,
}

impl Default for ScanState {
    fn default() -> (r: ScanState)
        ensures
            r.last_active_block == 0,
    {
        ScanState { last_active_block: 0 }
    }
}

/// `config/<chain>.<kind>.toml`.
pub open spec fn config_path(chain: Seq<char>, kind: Seq<char>) -> Seq<char> {
    "config/"@ + chain + "."@ + kind + ".toml"@
}

fn config_path_of(chain: &str, kind: &str) -> (r: String)
    ensures
        r@ == config_path(chain@, kind@),
{
    "config/".to_owned().concat(chain).concat(".").concat(kind).concat(".toml")
}

impl ScanState {
    /// `config/<chain>.scanstate.toml`.
    pub fn path_for_chain(chain: &str) -> (r: String)
        ensures
            r@ == config_path(chain@, "scanstate"@),
    {
        config_path_of(chain, "scanstate")
    }
}

/// A pool = one graph edge (token0 <-> token1). The runtime traverses these.
#[derive(Debug, PartialEq, Eq)]
pub struct PoolInfo {
    pub address: Address,
    /// Label of the owning exchange (or "<family>-fork" for discoveries).
    pub exchange: String,
    /// Math family: "uniswap_v2" | "uniswap_v3" | "solidly" | "balancer_v2".
    pub kind: String,
    pub token0: Address,
    pub token1: Address,
    pub fee_bps: Option<u32>,
    pub discovered_block: Option<u64>,
}

impl Clone for PoolInfo {
    fn clone(&self) -> (r: PoolInfo)
        ensures
            r == *self,
    {
        PoolInfo {
            address: self.address,
            exchange: self.exchange.clone(),
            kind: self.kind.clone(),
            token0: self.token0,
            token1: self.token1,
            fee_bps: self.fee_bps,
            discovered_block: self.discovered_block,
        }
    }
}

/// The pool graph for one chain/tier: nodes (`tokens`) and edges (`pools`).
#[derive(Debug, PartialEq, Eq)]
pub struct PoolBook {
    pub chain: String,
    pub tokens: TokenMap,
    pub pools: Vec<PoolInfo>,
}

/// Which pool book: curated/trusted vs discovered/candidate.
#[derive(Debug, Clone, Copy, PartialEq, Eq, Structural)]
pub enum Tier {
    /// Curated graph: trusted tokens and pools. Traded by default.
    Official,
    /// Discovered forks/clones (codehash clustering). Review before trusting.
    Secondary,
}

impl Tier {
    /// The tier's part of a file name.
    pub open spec fn spec_suffix(self) -> Seq<char> {
        match self {
            Tier::Official => "official"@,
            Tier::Secondary => "secondary"@,
        }
    }

    /// The tier's part of a file name.
    pub fn suffix(&self) -> (r: &'static str)
        ensures
            r@ == self.spec_suffix(),
    {
        match self {
            Tier::Official => "official",
            Tier::Secondary => "secondary",
        }
    }
}

/// The first place of a pool with this address, or the number of pools.
pub open spec fn pool_place(pools: Seq<PoolInfo>, address: Address) -> int
    decreases pools.len(),
{
    if pools.len() == 0 || pools[0].address == address {
        0
    } else {
        1 + pool_place(pools.drop_first(), address)
    }
}

/// A pool with this address is listed.
pub open spec fn lists_pool(pools: Seq<PoolInfo>, address: Address) -> bool {
    pool_place(pools, address) < pools.len()
}

/// `pools` with the `added` ones whose addresses were not listed before.
pub open spec fn pools_with(pools: Seq<PoolInfo>, added: Seq<PoolInfo>) -> Seq<PoolInfo>
    decreases added.len(),
{
    if added.len() == 0 {
        pools
    } else {
        let before = pools_with(pools, added.drop_last());
        if lists_pool(before, added.last().address) {
            before
        } else {
            before.push(added.last())
        }
    }
}

/// The first place is where the address first stands.
proof fn lemma_pool_place(pools: Seq<PoolInfo>, address: Address, i: int)
    requires
        0 <= i <= pools.len(),
        forall|j: int| 0 <= j < i ==> (#[trigger] pools[j]).address != address,
        i < pools.len() ==> pools[i].address == address,
    ensures
        pool_place(pools, address) == i,
    decreases pools.len(),
{
    if pools.len() > 0 && pools[0].address != address {
        lemma_pool_place(pools.drop_first(), address, i - 1);
    }
}

/// The first place of a listed pool holds it, and no earlier place does.
pub proof fn lemma_pool_at_place(pools: Seq<PoolInfo>, address: Address)
    ensures
        0 <= pool_place(pools, address) <= pools.len(),
        lists_pool(pools, address) ==> pools[pool_place(pools, address)].address == address,
        forall|j: int|
            0 <= j < pool_place(pools, address) ==> (#[trigger] pools[j]).address != address,
    decreases pools.len(),
{
    if pools.len() > 0 && pools[0].address != address {
        lemma_pool_at_place(pools.drop_first(), address);
        let rest = pools.drop_first();
        assert forall|j: int| 0 <= j < pool_place(pools, address) implies (
        #[trigger] pools[j]).address != address by {
            if j > 0 {
                assert(rest[j - 1].address != address);
            }
        }
    }
}

impl PoolBook {
    /// `config/<chain>.<tier>.toml`.
    pub fn path_for_chain(chain: &str, tier: Tier) -> (r: String)
        ensures
            r@ == config_path(chain@, tier.spec_suffix()),
    {
        config_path_of(chain, tier.suffix())
    }

    /// A book without tokens and pools.
    pub fn empty(chain: &str) -> (r: PoolBook)
        ensures
            r.chain@ == chain@,
            r.tokens@ == Map::<Seq<char>, TokenInfo>::empty(),
            r.pools@ == Seq::<PoolInfo>::empty(),
    {
        PoolBook { chain: chain.to_owned(), tokens: TokenMap::new(), pools: Vec::new() }
    }

    /// The book that was found in the chain's file, or an empty one where there is no file.
    pub fn load_or_new(chain: &str, found: Option<PoolBook>) -> (r: PoolBook)
        ensures
            match found {
                Some(book) => r == book,
                None => {
                    &&& r.chain@ == chain@
                    &&& r.tokens@ == Map::<Seq<char>, TokenInfo>::empty()
                    &&& r.pools@ == Seq::<PoolInfo>::empty()
                },
            },
    {
        match found {
            Some(book) => book,
            None => PoolBook::empty(chain),
        }
    }

    /// Where a pool with this address first stands, or the number of pools.
    fn place_of(&self, address: Address) -> (r: usize)
        ensures
            r == pool_place(self.pools@, address),
    {
        let mut i: usize = 0;
        while i < self.pools.len() && self.pools[i].address != address
            invariant
                i <= self.pools.len(),
                forall|j: int| 0 <= j < i ==> (#[trigger] self.pools@[j]).address != address,
            decreases self.pools.len() - i,
        {
            i = i + 1;
        }
        proof {
            lemma_pool_place(self.pools@, address, i as int);
        }
        i
    }

    /// Insert or replace a pool by address. Returns true if newly added.
    pub fn upsert_pool(&mut self, pool: PoolInfo) -> (r: bool)
        ensures
            r == !lists_pool(old(self).pools@, pool.address),
            final(self).pools@ == (if r {
                old(self).pools@.push(pool)
            } else {
                old(self).pools@.update(pool_place(old(self).pools@, pool.address), pool)
            }),
            final(self).chain == old(self).chain,
            final(self).tokens == old(self).tokens,
    {
        let at: usize = self.place_of(pool.address);
        if at < self.pools.len() {
            self.pools.set(at, pool);
            false
        } else {
            self.pools.push(pool);
            true
        }
    }

    /// Whether a pool with this address is listed.
    pub fn has_pool(&self, address: Address) -> (r: bool)
        ensures
            r == lists_pool(self.pools@, address),
    {
        self.place_of(address) < self.pools.len()
    }

    /// Fold `other`'s tokens and pools into this book. `self` (the trusted tier) wins every
    /// conflict: an existing token symbol or pool address is kept, only previously-unseen
    /// entries are added. Returns `(tokens_added, pools_added)`.
    pub fn merge(&mut self, other: &PoolBook) -> (r: (usize, usize))
        ensures
            final(self).chain == old(self).chain,
            final(self).tokens@ == other.tokens@.union_prefer_right(old(self).tokens@),
            final(self).pools@ == pools_with(old(self).pools@, other.pools@),
            r.0 == other.tokens@.dom().difference(old(self).tokens@.dom()).len(),
            r.1 == final(self).pools@.len() - old(self).pools@.len(),
    {
        let ghost mine = self.tokens@;
        let ghost theirs = other.tokens@;
        let ghost symbols = other.tokens.symbol_seq();
        let count: usize = other.tokens.len();
        let mut tokens_added: usize = 0;
        let mut i: usize = 0;
        proof {
            assert(symbols.take(0).to_set() =~= Set::<Seq<char>>::empty());
            assert(mine =~= theirs.restrict(symbols.take(0).to_set()).union_prefer_right(mine));
            assert(symbols.take(0).to_set().difference(mine.dom()) =~= Set::empty());
        }
        while i < count
            invariant
                i <= count,
                count == symbols.len(),
                symbols == other.tokens.symbol_seq(),
                ascending(symbols),
                theirs == other.tokens@,
                forall|s: Seq<char>| symbols.contains(s) <==> theirs.dom().contains(s),
                self.chain == old(self).chain,
                self.pools@ == old(self).pools@,
                mine == old(self).tokens@,
                self.tokens@ == theirs.restrict(
                    symbols.take(i as int).to_set(),
                ).union_prefer_right(mine),
                tokens_added == symbols.take(i as int).to_set().difference(mine.dom()).len(),
                symbols.take(i as int).to_set().difference(mine.dom()).finite(),
                tokens_added <= i,
            decreases count - i,
        {
            let symbol = other.tokens.symbol_at(i);
            let ghost upto = symbols.take(i as int);
            let ghost next = symbols.take(i + 1);
            proof {
                assert(next =~= upto.push(symbol@));
                assert(!upto.contains(symbol@)) by {
                    if upto.contains(symbol@) {
                        let k = choose|k: int| 0 <= k < upto.len() && upto[k] == symbol@;
                        assert(text_before(symbols[k], symbols[i as int]));
                        lemma_text_irreflexive(symbol@);
                    }
                }
                assert(next.to_set() =~= upto.to_set().insert(symbol@)) by {
                    assert forall|s: Seq<char>| next.contains(s) <==> (upto.contains(s) || s
                        == symbol@) by {
                        if upto.contains(s) {
                            let k = choose|k: int| 0 <= k < upto.len() && upto[k] == s;
                            assert(next[k] == s);
                        }
                        if s == symbol@ {
                            assert(next[i as int] == s);
                        }
                        if next.contains(s) && s != symbol@ {
                            let k = choose|k: int| 0 <= k < next.len() && next[k] == s;
                            assert(upto[k] == s);
                        }
                    }
                }
            }
            if !self.tokens.contains_key(symbol.as_str()) {
                proof {
                    assert(next.to_set().difference(mine.dom()) =~= upto.to_set().difference(
                        mine.dom(),
                    ).insert(symbol@));
                }
                self.tokens.insert(symbol.clone(), other.tokens.value_at(i));
                tokens_added = tokens_added + 1;
            } else {
                proof {
                    assert(mine.dom().contains(symbol@));
                    assert(next.to_set().difference(mine.dom()) =~= upto.to_set().difference(
                        mine.dom(),
                    ));
                }
            }
            proof {
                assert(self.tokens@ =~= theirs.restrict(next.to_set()).union_prefer_right(mine));
            }
            i = i + 1;
        }
        proof {
            assert(symbols.take(i as int) =~= symbols);
            assert(symbols.to_set() =~= theirs.dom());
            assert(theirs.restrict(symbols.to_set()) =~= theirs);
        }
        let ghost known = self.pools@;
        let mut pools_added: usize = 0;
        let mut i: usize = 0;
        assert(other.pools@.take(0) =~= Seq::<PoolInfo>::empty());
        while i < other.pools.len()
            invariant
                i <= other.pools.len(),
                pools_added <= i,
                self.chain == old(self).chain,
                self.tokens@ == theirs.union_prefer_right(mine),
                known == old(self).pools@,
                self.pools@ == pools_with(known, other.pools@.take(i as int)),
                pools_added == self.pools@.len() - known.len(),
            decreases other.pools.len() - i,
        {
            proof {
                assert(other.pools@.take(i + 1).drop_last() =~= other.pools@.take(i as int));
            }
            if !self.has_pool(other.pools[i].address) {
                self.pools.push(other.pools[i].clone());
                pools_added = pools_added + 1;
            }
            i = i + 1;
        }
        assert(other.pools@.take(i as int) =~= other.pools@);
        (tokens_added, pools_added)
    }

    /// The pools in address order, for stable diffs.
    pub fn pools_by_address(&self) -> (r: Vec<PoolInfo>)
        ensures
            r@ == sort_by_keys(self.pools@, address_keys(self.pools@)),
            is_stable_order(
                address_keys(self.pools@),
                stable_order(address_keys(self.pools@)),
            ),
    {
        let mut keys: Vec<U256> = Vec::new();
        let mut i: usize = 0;
        while i < self.pools.len()
            invariant
                i <= self.pools.len(),
                keys.len() == i,
                forall|j: int|
                    0 <= j < i ==> (#[trigger] keys@[j])@ == self.pools@[j].address.value(),
            decreases self.pools.len() - i,
        {
            keys.push(self.pools[i].address.to_word());
            i = i + 1;
        }
        assert(key_values(keys@) =~= address_keys(self.pools@));
        let order = stable_order_of(keys.as_slice());
        let ghost ints = as_ints(order@);
        let mut out: Vec<PoolInfo> = Vec::new();
        let mut i: usize = 0;
        while i < order.len()
            invariant
                i <= order.len(),
                out.len() == i,
                ints == as_ints(order@),
                ints.len() == self.pools@.len(),
                forall|j: int| 0 <= j < ints.len() ==> 0 <= #[trigger] ints[j] < self.pools@.len(),
                forall|j: int| 0 <= j < i ==> #[trigger] out@[j] == self.pools@[ints[j]],
            decreases order.len() - i,
        {
            assert(ints[i as int] == order@[i as int]);
            out.push(self.pools[order[i]].clone());
            i = i + 1;
        }
        assert(out@ =~= sort_by_keys(self.pools@, address_keys(self.pools@)));
        out
    }
}

/// The addresses of pools as sort keys.
pub open spec fn address_keys(pools: Seq<PoolInfo>) -> Seq<int> {
    pools.map_values(|p: PoolInfo| p.address.value())
}

/// A known exchange deployment: a factory and the codehashes of its pools.
#[derive(Debug, PartialEq, Eq)]
pub struct ExchangeInfo {
    pub name: String,
    /// Math family the factory mints: uniswap_v2 | uniswap_v3 | solidly | balancer_v2.
    pub kind: String,
    pub factory: Option<Address>,
    pub router: Option<Address>,
    /// Pool runtime-bytecode codehashes; used to classify forks (same code).
    pub pool_codehashes: Vec<B256>,
}

/// Discovery scaffolding for one chain: the factories that a scan enumerates and the codehashes
/// it learns. Never consulted by the traversal engine.
#[derive(Debug, PartialEq, Eq)]
pub struct Sources {
    pub chain: String,
    pub exchanges: Vec<ExchangeInfo>,
}

/// The first place of an exchange with this name, or the number of exchanges.
pub open spec fn name_place(exchanges: Seq<ExchangeInfo>, name: Seq<char>) -> int
    decreases exchanges.len(),
{
    if exchanges.len() == 0 || exchanges[0].name@ == name {
        0
    } else {
        1 + name_place(exchanges.drop_first(), name)
    }
}

/// The first place of an exchange with this codehash, or the number of exchanges.
pub open spec fn codehash_place(exchanges: Seq<ExchangeInfo>, codehash: B256) -> int
    decreases exchanges.len(),
{
    if exchanges.len() == 0 || exchanges[0].pool_codehashes@.contains(codehash) {
        0
    } else {
        1 + codehash_place(exchanges.drop_first(), codehash)
    }
}

proof fn lemma_name_place(exchanges: Seq<ExchangeInfo>, name: Seq<char>, i: int)
    requires
        0 <= i <= exchanges.len(),
        forall|j: int| 0 <= j < i ==> (#[trigger] exchanges[j]).name@ != name,
        i < exchanges.len() ==> exchanges[i].name@ == name,
    ensures
        name_place(exchanges, name) == i,
    decreases exchanges.len(),
{
    if exchanges.len() > 0 && exchanges[0].name@ != name {
        lemma_name_place(exchanges.drop_first(), name, i - 1);
    }
}

proof fn lemma_codehash_place(exchanges: Seq<ExchangeInfo>, codehash: B256, i: int)
    requires
        0 <= i <= exchanges.len(),
        forall|j: int|
            0 <= j < i ==> !(#[trigger] exchanges[j]).pool_codehashes@.contains(codehash),
        i < exchanges.len() ==> exchanges[i].pool_codehashes@.contains(codehash),
    ensures
        codehash_place(exchanges, codehash) == i,
    decreases exchanges.len(),
{
    if exchanges.len() > 0 && !exchanges[0].pool_codehashes@.contains(codehash) {
        lemma_codehash_place(exchanges.drop_first(), codehash, i - 1);
    }
}

impl ExchangeInfo {
    /// Whether the exchange's pools have this codehash.
    fn has_codehash(&self, codehash: B256) -> (r: bool)
        ensures
            r == self.pool_codehashes@.contains(codehash),
    {
        let mut i: usize = 0;
        while i < self.pool_codehashes.len()
            invariant
                i <= self.pool_codehashes.len(),
                forall|j: int| 0 <= j < i ==> self.pool_codehashes@[j] != codehash,
            decreases self.pool_codehashes.len() - i,
        {
            if self.pool_codehashes[i] == codehash {
                assert(self.pool_codehashes@[i as int] == codehash);
                return true;
            }
            i = i + 1;
        }
        false
    }
}

/// The sources after a codehash was recorded for the first exchange of this name: it is appended
/// there unless the exchange has it, and everything else is kept.
pub open spec fn codehash_recorded(
    before: Sources,
    after: Sources,
    exchange: Seq<char>,
    codehash: B256,
    newly: bool,
) -> bool {
    let at = name_place(before.exchanges@, exchange);
    let (old_ones, new_ones) = (before.exchanges@, after.exchanges@);
    &&& after.chain == before.chain
    &&& newly == (at < old_ones.len() && !old_ones[at].pool_codehashes@.contains(codehash))
    &&& !newly ==> new_ones == old_ones
    &&& newly ==> {
        &&& new_ones.len() == old_ones.len()
        &&& forall|i: int|
            0 <= i < old_ones.len() && i != at ==> #[trigger] new_ones[i] == old_ones[i]
        &&& new_ones[at].pool_codehashes@ == old_ones[at].pool_codehashes@.push(codehash)
        &&& new_ones[at].name == old_ones[at].name
        &&& new_ones[at].kind == old_ones[at].kind
        &&& new_ones[at].factory == old_ones[at].factory
        &&& new_ones[at].router == old_ones[at].router
    }
}

impl Sources {
    /// `config/<chain>.sources.toml`.
    pub fn path_for_chain(chain: &str) -> (r: String)
        ensures
            r@ == config_path(chain@, "sources"@),
    {
        config_path_of(chain, "sources")
    }

    /// Record a pool codehash for an exchange (idempotent). Returns true if it was newly added.
    pub fn add_codehash(&mut self, exchange: &str, codehash: B256) -> (r: bool)
        ensures
            codehash_recorded(*old(self), *final(self), exchange@, codehash, r),
    {
        let mut i: usize = 0;
        while i < self.exchanges.len() && !same_text(self.exchanges[i].name.as_str(), exchange)
            invariant
                i <= self.exchanges.len(),
                *self == *old(self),
                forall|j: int| 0 <= j < i ==> (#[trigger] self.exchanges@[j]).name@ != exchange@,
            decreases self.exchanges.len() - i,
        {
            i = i + 1;
        }
        proof {
            lemma_name_place(self.exchanges@, exchange@, i as int);
        }
        if i < self.exchanges.len() && !self.exchanges[i].has_codehash(codehash) {
            self.exchanges[i].pool_codehashes.push(codehash);
            true
        } else {
            false
        }
    }

    /// The first exchange whose pools have this codehash.
    pub fn exchange_for_codehash(&self, codehash: B256) -> (r: Option<&ExchangeInfo>)
        ensures
            match r {
                Some(e) => codehash_place(self.exchanges@, codehash) < self.exchanges@.len() && *e
                    == self.exchanges@[codehash_place(self.exchanges@, codehash)],
                None => codehash_place(self.exchanges@, codehash) == self.exchanges@.len(),
            },
    {
        let mut i: usize = 0;
        while i < self.exchanges.len() && !self.exchanges[i].has_codehash(codehash)
            invariant
                i <= self.exchanges.len(),
                forall|j: int|
                    0 <= j < i ==> !(#[trigger] self.exchanges@[j]).pool_codehashes@.contains(
                        codehash,
                    ),
            decreases self.exchanges.len() - i,
        {
            i = i + 1;
        }
        proof {
            lemma_codehash_place(self.exchanges@, codehash, i as int);
        }
        if i < self.exchanges.len() {
            Some(&self.exchanges[i])
        } else {
            None
        }
    }
}

/// A listed pool is still listed in a longer list.
proof fn lemma_still_listed(pools: Seq<PoolInfo>, more: Seq<PoolInfo>, address: Address)
    requires
        pools.len() <= more.len(),
        more.take(pools.len() as int) == pools,
        lists_pool(pools, address),
    ensures
        lists_pool(more, address),
{
    lemma_pool_at_place(pools, address);
    lemma_pool_at_place(more, address);
    let i = pool_place(pools, address);
    assert(more[i] == pools[i]);
}

/// A merge keeps the pools that were there, in their places.
proof fn lemma_merge_keeps(pools: Seq<PoolInfo>, added: Seq<PoolInfo>)
    ensures
        pools.len() <= pools_with(pools, added).len(),
        pools_with(pools, added).take(pools.len() as int) == pools,
    decreases added.len(),
{
    if added.len() > 0 {
        lemma_merge_keeps(pools, added.drop_last());
        let before = pools_with(pools, added.drop_last());
        assert(before.push(added.last()).take(pools.len() as int) =~= before.take(
            pools.len() as int,
        ));
    } else {
        assert(pools.take(pools.len() as int) =~= pools);
    }
}

/// After a merge every pool that was handed in is listed.
proof fn lemma_merge_lists(pools: Seq<PoolInfo>, added: Seq<PoolInfo>, i: int)
    requires
        0 <= i < added.len(),
    ensures
        lists_pool(pools_with(pools, added), added[i].address),
    decreases added.len(),
{
    let before = pools_with(pools, added.drop_last());
    let after = pools_with(pools, added);
    if i < added.len() - 1 {
        lemma_merge_lists(pools, added.drop_last(), i);
        assert(before.push(added.last()).take(before.len() as int) =~= before);
        assert(before.take(before.len() as int) =~= before);
        lemma_still_listed(before, after, added[i].address);
    } else if !lists_pool(before, added[i].address) {
        assert(after[after.len() - 1].address == added[i].address);
        lemma_pool_at_place(after, added[i].address);
    }
}

/// Pools that are all listed already add nothing.
proof fn lemma_listed_add_nothing(pools: Seq<PoolInfo>, added: Seq<PoolInfo>)
    requires
        forall|i: int| 0 <= i < added.len() ==> lists_pool(pools, (#[trigger] added[i]).address),
    ensures
        pools_with(pools, added) == pools,
    decreases added.len(),
{
    if added.len() > 0 {
        let front = added.drop_last();
        assert forall|i: int| 0 <= i < front.len() implies lists_pool(
            pools,
            (#[trigger] front[i]).address,
        ) by {
            assert(front[i] == added[i]);
        }
        lemma_listed_add_nothing(pools, front);
        assert(lists_pool(pools, added[added.len() - 1].address));
    }
}

/// The trusted book wins every conflict: a merge leaves its tokens and its pools as they were.
pub proof fn the_trusted_book_wins(
    tokens: Map<Seq<char>, TokenInfo>,
    other: Map<Seq<char>, TokenInfo>,
    pools: Seq<PoolInfo>,
    added: Seq<PoolInfo>,
    symbol: Seq<char>,
    i: int,
)
    requires
        0 <= i < pools.len(),
    ensures
        tokens.dom().contains(symbol) ==> other.union_prefer_right(tokens)[symbol]
            == tokens[symbol],
        pools_with(pools, added)[i] == pools[i],
{
    lemma_merge_keeps(pools, added);
    assert(pools_with(pools, added).take(pools.len() as int)[i] == pools[i]);
}

/// A second merge of the same book adds nothing.
pub proof fn merging_again_adds_nothing(
    tokens: Map<Seq<char>, TokenInfo>,
    other: Map<Seq<char>, TokenInfo>,
    pools: Seq<PoolInfo>,
    added: Seq<PoolInfo>,
)
    ensures
        other.union_prefer_right(other.union_prefer_right(tokens)) == other.union_prefer_right(
            tokens,
        ),
        pools_with(pools_with(pools, added), added) == pools_with(pools, added),
{
    assert(other.union_prefer_right(other.union_prefer_right(tokens))
        =~= other.union_prefer_right(tokens));
    assert forall|i: int| 0 <= i < added.len() implies lists_pool(
        pools_with(pools, added),
        (#[trigger] added[i]).address,
    ) by {
        lemma_merge_lists(pools, added, i);
    }
    lemma_listed_add_nothing(pools_with(pools, added), added);
}

/// The decimals of the tokens behind the first `n` symbols; of two symbols of one token, the
/// later counts.
pub open spec fn decimals_map(
    symbols: Seq<Seq<char>>,
    tokens: Map<Seq<char>, TokenInfo>,
    n: int,
) -> Map<Address, u8>
    decreases n,
{
    if n <= 0 {
        Map::empty()
    } else {
        let token = tokens[symbols[n - 1]];
        decimals_map(symbols, tokens, n - 1).insert(token.address, token.decimals)
    }
}

/// The first of the symbols whose token has this address.
pub open spec fn symbol_place(
    symbols: Seq<Seq<char>>,
    tokens: Map<Seq<char>, TokenInfo>,
    address: Address,
    n: int,
) -> Option<int>
    decreases n,
{
    if n <= 0 {
        None
    } else {
        match symbol_place(symbols, tokens, address, n - 1) {
            Some(i) => Some(i),
            None => if tokens[symbols[n - 1]].address == address {
                Some(n - 1)
            } else {
                None
            },
        }
    }
}

/// The last place of a pool with this address among the first `n`.
pub open spec fn last_pool_place(pools: Seq<PoolInfo>, address: Address, n: int) -> Option<int>
    decreases n,
{
    if n <= 0 {
        None
    } else if pools[n - 1].address == address {
        Some(n - 1)
    } else {
        last_pool_place(pools, address, n - 1)
    }
}

proof fn lemma_symbol_place(
    symbols: Seq<Seq<char>>,
    tokens: Map<Seq<char>, TokenInfo>,
    address: Address,
    n: int,
    m: int,
)
    requires
        0 <= n <= m,
        symbol_place(symbols, tokens, address, n) is Some,
    ensures
        symbol_place(symbols, tokens, address, m) == symbol_place(symbols, tokens, address, n),
    decreases m,
{
    if n < m {
        lemma_symbol_place(symbols, tokens, address, n, m - 1);
    }
}

/// The decimals of a token; 18 where they are not known.
pub fn decimals_of(decimals: &AddressMap<u8>, token: Address) -> (r: u8)
    ensures
        r == (if decimals@.dom().contains(token) {
            decimals@[token]
        } else {
            18
        }),
{
    match decimals.get(token) {
        Some(d) => *d,
        None => 18,
    }
}

impl PoolBook {
    /// The decimals of the book's tokens by address.
    pub fn decimals(&self) -> (r: AddressMap<u8>)
        ensures
            r@ == decimals_map(
                self.tokens.symbol_seq(),
                self.tokens@,
                self.tokens.symbol_seq().len() as int,
            ),
    {
        let count: usize = self.tokens.len();
        let ghost symbols = self.tokens.symbol_seq();
        let mut out: AddressMap<u8> = AddressMap::new();
        let mut i: usize = 0;
        while i < count
            invariant
                i <= count,
                count == symbols.len(),
                symbols == self.tokens.symbol_seq(),
                out@ == decimals_map(symbols, self.tokens@, i as int),
            decreases count - i,
        {
            let token = self.tokens.value_at(i);
            out.insert(token.address, token.decimals);
            i = i + 1;
        }
        out
    }

    /// The place of the first symbol whose token has this address.
    fn first_symbol(&self, address: Address) -> (r: Option<usize>)
        ensures
            (match r {
                Some(i) => Some(i as int),
                None => None,
            }) == symbol_place(
                self.tokens.symbol_seq(),
                self.tokens@,
                address,
                self.tokens.symbol_seq().len() as int,
            ),
            r matches Some(i) ==> i < self.tokens.symbol_seq().len(),
    {
        let count: usize = self.tokens.len();
        let ghost symbols = self.tokens.symbol_seq();
        let mut i: usize = 0;
        while i < count
            invariant
                i <= count,
                count == symbols.len(),
                symbols == self.tokens.symbol_seq(),
                symbol_place(symbols, self.tokens@, address, i as int) is None,
            decreases count - i,
        {
            if self.tokens.value_at(i).address == address {
                proof {
                    lemma_symbol_place(symbols, self.tokens@, address, i + 1, count as int);
                }
                return Some(i);
            }
            i = i + 1;
        }
        None
    }

    /// A token's symbol: the first one with its address.
    pub fn symbol_of(&self, address: Address) -> (r: Option<&String>)
        ensures
            (match r {
                Some(s) => Some(s@),
                None => None,
            }) == (match symbol_place(
                self.tokens.symbol_seq(),
                self.tokens@,
                address,
                self.tokens.symbol_seq().len() as int,
            ) {
                Some(i) => Some(self.tokens.symbol_seq()[i]),
                None => None,
            }),
    {
        match self.first_symbol(address) {
            Some(i) => Some(self.tokens.symbol_at(i)),
            None => None,
        }
    }

    /// One whole unit of a token, in its smallest ones: ten to its decimals, or to 6 where the
    /// token is not listed.
    pub fn unit_of(&self, address: Address) -> (r: U256)
        ensures
            r@ == pow(
                10,
                (match symbol_place(
                    self.tokens.symbol_seq(),
                    self.tokens@,
                    address,
                    self.tokens.symbol_seq().len() as int,
                ) {
                    Some(i) => self.tokens@[self.tokens.symbol_seq()[i]].decimals,
                    None => 6u8,
                }) as nat,
            ) % two256(),
    {
        let decimals: u8 = match self.first_symbol(address) {
            Some(i) => self.tokens.value_at(i).decimals,
            None => 6,
        };
        U256::from_u64(10).wrapping_pow(U256::from_u64(decimals as u64))
    }

    /// The listed pool with this address; of several, the last.
    pub fn pool_at(&self, address: Address) -> (r: Option<&PoolInfo>)
        ensures
            match (r, last_pool_place(self.pools@, address, self.pools@.len() as int)) {
                (Some(p), Some(i)) => 0 <= i < self.pools@.len() && *p == self.pools@[i],
                (None, None) => true,
                _ => false,
            },
    {
        let mut i: usize = self.pools.len();
        while i > 0
            invariant
                i <= self.pools@.len(),
                last_pool_place(self.pools@, address, self.pools@.len() as int)
                    == last_pool_place(self.pools@, address, i as int),
            decreases i,
        {
            i = i - 1;
            if self.pools[i].address == address {
                return Some(&self.pools[i]);
            }
        }
        None
    }
}

proof fn lemma_same_names(a: Seq<ExchangeInfo>, b: Seq<ExchangeInfo>, name: Seq<char>)
    requires
        a.len() == b.len(),
        forall|i: int| 0 <= i < a.len() ==> (#[trigger] a[i]).name@ == b[i].name@,
    ensures
        name_place(a, name) == name_place(b, name),
    decreases a.len(),
{
    if a.len() > 0 {
        assert(a[0].name@ == b[0].name@);
        let (x, y) = (a.drop_first(), b.drop_first());
        assert forall|i: int| 0 <= i < x.len() implies (#[trigger] x[i]).name@ == y[i].name@ by {
            assert(a[i + 1].name@ == b[i + 1].name@);
        }
        lemma_same_names(x, y, name);
    }
}

proof fn lemma_name_at_place(exchanges: Seq<ExchangeInfo>, name: Seq<char>)
    ensures
        0 <= name_place(exchanges, name) <= exchanges.len(),
    decreases exchanges.len(),
{
    if exchanges.len() > 0 {
        lemma_name_at_place(exchanges.drop_first(), name);
    }
}

proof fn lemma_codehash_known(exchanges: Seq<ExchangeInfo>, codehash: B256, i: int)
    requires
        0 <= i < exchanges.len(),
        exchanges[i].pool_codehashes@.contains(codehash),
    ensures
        codehash_place(exchanges, codehash) <= i,
    decreases exchanges.len(),
{
    if i > 0 && !exchanges[0].pool_codehashes@.contains(codehash) {
        lemma_codehash_known(exchanges.drop_first(), codehash, i - 1);
    }
}

/// To record a codehash again changes nothing, and a recorded codehash tells its exchange: a pool
/// with it is classified.
pub proof fn recorded_codehashes_classify(
    before: Sources,
    after: Sources,
    again: Sources,
    exchange: Seq<char>,
    codehash: B256,
    newly: bool,
    newly_again: bool,
)
    requires
        codehash_recorded(before, after, exchange, codehash, newly),
        codehash_recorded(after, again, exchange, codehash, newly_again),
    ensures
        !newly_again,
        again.exchanges@ == after.exchanges@,
        name_place(before.exchanges@, exchange) < before.exchanges@.len() ==> codehash_place(
            after.exchanges@,
            codehash,
        ) < after.exchanges@.len(),
{
    let at = name_place(before.exchanges@, exchange);
    let (old_ones, new_ones) = (before.exchanges@, after.exchanges@);
    lemma_name_at_place(old_ones, exchange);
    if newly {
        assert forall|i: int| 0 <= i < old_ones.len() implies (#[trigger] old_ones[i]).name@
            == new_ones[i].name@ by {
            if i != at {
                assert(new_ones[i] == old_ones[i]);
            }
        }
        assert(new_ones[at].pool_codehashes@.last() == codehash);
    }
    lemma_same_names(old_ones, new_ones, exchange);
    if at < old_ones.len() {
        assert(new_ones[at].pool_codehashes@.contains(codehash));
        lemma_codehash_known(new_ones, codehash, at);
    }
}

} // verus!
