//! Forks found by the codehash of their pools.
use crate::book::{
    codehash_place, lemma_pool_at_place, lists_pool, pool_place, ExchangeInfo, PoolBook, PoolInfo,
    Sources,
};
use crate::live::abi::{keccak, keccak256, topic, topic_value};
use crate::order::{
    a_stable_order_exists, comes_before, is_stable_order, key_values, sort_by_keys, sorted_by_keys,
    stable_order,
};
use crate::rank_map::{AddressMap, RankMap};
use crate::types::{Address, B256, U256};
use vstd::prelude::*;
use vstd::string::StringExecFns;

verus! {

/// The topics of the events that a fork is looked for by.
pub fn fork_topics() -> (r: Vec<B256>)
    ensures
        r@.len() == 2,
        r@[0].word@ == topic_value("Sync(uint112,uint112)"@),
        r@[1].word@ == topic_value("Swap(address,address,int256,int256,uint160,uint128,int24)"@),
{
    let mut t: Vec<B256> = Vec::new();
    t.push(topic("Sync(uint112,uint112)"));
    t.push(topic("Swap(address,address,int256,int256,uint160,uint128,int24)"));
    t
}

/// What a scan did.
#[derive(Debug)]
pub struct ScanReport {
    pub from_block: u64,
    pub to_block: u64,
    pub official_added: usize,
    pub fork_added: usize,
    /// (codehash, number of emitting addresses) for unknown clusters worth review.
    pub unknown_clusters: Vec<(B256, usize)>,
}

impl Default for ScanReport {
    fn default() -> (r: ScanReport)
        ensures
            r.from_block == 0,
            r.to_block == 0,
            r.official_added == 0,
            r.fork_added == 0,
            r.unknown_clusters@ == Seq::<(B256, usize)>::empty(),
    {
        ScanReport {
            from_block: 0,
            to_block: 0,
            official_added: 0,
            fork_added: 0,
            unknown_clusters: Vec::new(),
        }
    }
}

/// A search for forks under way.
pub struct ForkScan {
    /// The pools of the books, and every address that was looked at.
    pub known: AddressMap<bool>,
    /// How many addresses have a code that no exchange's pools have, by codehash.
    pub unknown: RankMap<B256, usize>,
    /// How many codes were looked at.
    pub looked: usize,
    pub added: usize,
}

/// An entry of one of the pools.
pub open spec fn is_listed(pools: Seq<PoolInfo>, address: Address) -> bool {
    exists|i: int| 0 <= i < pools.len() && (#[trigger] pools[i]).address == address
}

/// Put the addresses of pools into a set.
fn note_pools(known: &mut AddressMap<bool>, pools: &Vec<PoolInfo>)
    ensures
        forall|a: Address| #[trigger]
            final(known)@.dom().contains(a) <==> old(known)@.dom().contains(a) || is_listed(
                pools@,
                a,
            ),
{
    let ghost start = known@.dom();
    let mut i: usize = 0;
    assert(pools@.take(0) =~= Seq::<PoolInfo>::empty());
    while i < pools.len()
        invariant
            i <= pools@.len(),
            start == old(known)@.dom(),
            forall|a: Address| #[trigger]
                known@.dom().contains(a) <==> start.contains(a) || is_listed(
                    pools@.take(i as int),
                    a,
                ),
        decreases pools@.len() - i,
    {
        let ghost before = known@.dom();
        let address = pools[i].address;
        known.insert(address, true);
        proof {
            let (upto, next) = (pools@.take(i as int), pools@.take(i + 1));
            assert forall|a: Address| #[trigger]
                known@.dom().contains(a) <==> start.contains(a) || is_listed(next, a) by {
                assert(before.contains(a) <==> start.contains(a) || is_listed(upto, a));
                if is_listed(upto, a) {
                    let k = choose|k: int| 0 <= k < upto.len() && (#[trigger] upto[k]).address == a;
                    assert(next[k].address == a);
                }
                if a == address {
                    assert(next[i as int].address == a);
                }
                if is_listed(next, a) && a != address {
                    let k = choose|k: int| 0 <= k < next.len() && (#[trigger] next[k]).address == a;
                    assert(upto[k].address == a);
                }
            }
        }
        i = i + 1;
    }
    assert(pools@.take(i as int) =~= pools@);
}

/// The book entry of a fork of an exchange.
pub open spec fn is_fork(
    exchange: ExchangeInfo,
    address: Address,
    block: Option<u64>,
    info: PoolInfo,
) -> bool {
    &&& info.address == address
    &&& info.exchange@ == exchange.name@ + "-fork"@
    &&& info.kind@ == exchange.kind@
    &&& info.token0.value() == 0
    &&& info.token1.value() == 0
    &&& info.fee_bps is None
    &&& info.discovered_block == block
}

impl ForkScan {
    /// The counts stay within the number of codes that were looked at.
    pub open spec fn wf(&self) -> bool {
        &&& self.added <= self.looked
        &&& forall|h: B256| #[trigger]
            self.unknown@.dom().contains(h) ==> 1 <= self.unknown@[h] <= self.looked
    }

    /// Start to search, with the pools of both books known.
    pub fn start(official: &PoolBook, secondary: &PoolBook) -> (r: ForkScan)
        ensures
            r.wf(),
            forall|a: Address| #[trigger]
                r.known@.dom().contains(a) <==> is_listed(official.pools@, a) || is_listed(
                    secondary.pools@,
                    a,
                ),
            r.unknown@ == Map::<B256, usize>::empty(),
            r.looked == 0,
            r.added == 0,
    {
        let mut known: AddressMap<bool> = RankMap::new();
        note_pools(&mut known, &official.pools);
        note_pools(&mut known, &secondary.pools);
        ForkScan { known, unknown: RankMap::new(), looked: 0, added: 0 }
    }

    /// Whether the code of an address that emitted an AMM event is to be looked at: it is, the
    /// first time that an unknown address comes up.
    pub fn wants_code(&mut self, address: Address) -> (r: bool)
        requires
            old(self).wf(),
        ensures
            final(self).wf(),
            r == !old(self).known@.dom().contains(address),
            final(self).known@.dom() == old(self).known@.dom().insert(address),
            final(self).unknown == old(self).unknown,
            final(self).looked == old(self).looked,
            final(self).added == old(self).added,
    {
        if self.known.contains_key(address) {
            assert(self.known@.dom().insert(address) =~= self.known@.dom());
            false
        } else {
            self.known.insert(address, true);
            assert(self.known@.dom() =~= old(self).known@.dom().insert(address));
            true
        }
    }

    /// Look at the code of an address. The code of an exchange's pools makes it a fork, which goes
    /// into the secondary book; its tokens are left open. Another code is counted.
    pub fn look_at(
        &mut self,
        sources: &Sources,
        secondary: &mut PoolBook,
        address: Address,
        block: Option<u64>,
        code: &[u8],
    ) -> (hash: B256)
        requires
            old(self).wf(),
            old(self).looked < usize::MAX,
        ensures
            final(self).wf(),
            final(self).looked == old(self).looked + 1,
            final(self).known == old(self).known,
            final(secondary).chain == old(secondary).chain,
            final(secondary).tokens == old(secondary).tokens,
            hash.word@ == keccak(code@),
            ({
                let e = codehash_place(sources.exchanges@, hash);
                let pools = old(secondary).pools@;
                let now = final(secondary).pools@;
                let at = pool_place(pools, address);
                let listed = lists_pool(pools, address);
                if e < sources.exchanges@.len() {
                    &&& final(self).unknown == old(self).unknown
                    &&& now.len() == (if listed {
                        pools.len()
                    } else {
                        pools.len() + 1
                    })
                    &&& forall|i: int|
                        0 <= i < pools.len() && i != at ==> #[trigger] now[i] == pools[i]
                    &&& is_fork(sources.exchanges@[e], address, block, now[at])
                    &&& final(self).added == old(self).added + (if listed {
                        0int
                    } else {
                        1int
                    })
                } else {
                    &&& now == pools
                    &&& final(self).added == old(self).added
                    &&& final(self).unknown@ == old(self).unknown@.insert(
                        hash,
                        (if old(self).unknown@.dom().contains(hash) {
                            (old(self).unknown@[hash] + 1) as usize
                        } else {
                            1usize
                        }),
                    )
                }
            }),
    {
        let hash = keccak256(code);
        self.looked = self.looked + 1;
        match sources.exchange_for_codehash(hash) {
            Some(exchange) => {
                let ghost pools = secondary.pools@;
                let newly = secondary.upsert_pool(
                    PoolInfo {
                        address,
                        exchange: exchange.name.clone().concat("-fork"),
                        kind: exchange.kind.clone(),
                        token0: Address::zero(),
                        token1: Address::zero(),
                        fee_bps: None,
                        discovered_block: block,
                    },
                );
                proof {
                    lemma_pool_at_place(pools, address);
                }
                if newly {
                    self.added = self.added + 1;
                }
            },
            None => {
                let n: usize = match self.unknown.get(hash) {
                    Some(n) => *n,
                    None => 0,
                };
                self.unknown.insert(hash, n + 1);
            },
        }
        hash
    }

    /// The codes that more than one unknown address shares, most addresses first: likely a new
    /// DEX each. Those with as many addresses are in the order of their hashes.
    pub fn clusters(&self) -> (r: Vec<(B256, usize)>)
        ensures
            r@ == sort_by_keys(
                shared(self.unknown@, self.unknown.key_seq()),
                rarity(shared(self.unknown@, self.unknown.key_seq())),
            ),
            is_stable_order(
                rarity(shared(self.unknown@, self.unknown.key_seq())),
                stable_order(rarity(shared(self.unknown@, self.unknown.key_seq()))),
            ),
    {
        let ghost keys = self.unknown.key_seq();
        let count: usize = self.unknown.len();
        let mut found: Vec<(B256, usize)> = Vec::new();
        let mut ranks: Vec<U256> = Vec::new();
        let mut i: usize = 0;
        assert(keys.take(0) =~= Seq::<B256>::empty());
        while i < count
            invariant
                i <= count,
                count == keys.len(),
                keys == self.unknown.key_seq(),
                found@ == shared(self.unknown@, keys.take(i as int)),
                ranks@.len() == found@.len(),
                forall|k: int|
                    0 <= k < found@.len() ==> (#[trigger] ranks@[k])@ == u64::MAX - found@[k].1,
            decreases count - i,
        {
            let hash = self.unknown.key_at(i);
            let n: usize = *self.unknown.value_at(i);
            assert(keys.take(i + 1).drop_last() =~= keys.take(i as int));
            if n > 1 {
                found.push((hash, n));
                ranks.push(U256::from_u64(u64::MAX - n as u64));
            }
            i = i + 1;
        }
        assert(keys.take(i as int) =~= keys);
        assert(key_values(ranks@) =~= rarity(found@));
        sorted_by_keys(found.as_slice(), ranks.as_slice())
    }

    /// The report on a scan that ends here.
    pub fn report(&self, from_block: u64, to_block: u64, official_added: usize) -> (r: ScanReport)
        ensures
            r.from_block == from_block,
            r.to_block == to_block,
            r.official_added == official_added,
            r.fork_added == self.added,
            r.unknown_clusters@ == sort_by_keys(
                shared(self.unknown@, self.unknown.key_seq()),
                rarity(shared(self.unknown@, self.unknown.key_seq())),
            ),
    {
        ScanReport {
            from_block,
            to_block,
            official_added,
            fork_added: self.added,
            unknown_clusters: self.clusters(),
        }
    }
}

/// The hashes that count more than one address, with their counts.
pub open spec fn shared(counts: Map<B256, usize>, hashes: Seq<B256>) -> Seq<(B256, usize)>
    decreases hashes.len(),
{
    if hashes.len() == 0 {
        Seq::empty()
    } else if counts[hashes.last()] > 1 {
        shared(counts, hashes.drop_last()).push((hashes.last(), counts[hashes.last()]))
    } else {
        shared(counts, hashes.drop_last())
    }
}

/// Sort keys that put large counts first.
pub open spec fn rarity(found: Seq<(B256, usize)>) -> Seq<int> {
    found.map_values(|p: (B256, usize)| u64::MAX - p.1)
}

/// The largest clusters come first, and each holds more than one address.
pub proof fn largest_clusters_first(counts: Map<B256, usize>, hashes: Seq<B256>)
    ensures
        ({
            let found = shared(counts, hashes);
            let out = sort_by_keys(found, rarity(found));
            &&& out.len() == found.len()
            &&& forall|i: int| 0 <= i < out.len() ==> (#[trigger] out[i]).1 > 1
            &&& forall|i: int, j: int|
                0 <= i <= j < out.len() ==> (#[trigger] out[i]).1 >= (#[trigger] out[j]).1
        }),
{
    let found = shared(counts, hashes);
    let keys = rarity(found);
    let order = stable_order(keys);
    a_stable_order_exists(keys);
    lemma_shared(counts, hashes);
    let out = sort_by_keys(found, keys);
    assert forall|i: int| 0 <= i < out.len() implies (#[trigger] out[i]).1 > 1 by {
        assert(out[i] == found[order[i]]);
    }
    assert forall|i: int, j: int| 0 <= i <= j < out.len() implies (#[trigger] out[i]).1 >= (
    #[trigger] out[j]).1 by {
        if i < j {
            assert(comes_before(keys, order[i], order[j]));
            assert(out[i] == found[order[i]]);
            assert(out[j] == found[order[j]]);
        }
    }
}

proof fn lemma_shared(counts: Map<B256, usize>, hashes: Seq<B256>)
    ensures
        forall|i: int|
            0 <= i < shared(counts, hashes).len() ==> (#[trigger] shared(counts, hashes)[i]).1 > 1,
    decreases hashes.len(),
{
    if hashes.len() > 0 {
        lemma_shared(counts, hashes.drop_last());
        let (before, found) = (shared(counts, hashes.drop_last()), shared(counts, hashes));
        assert forall|i: int| 0 <= i < found.len() implies (#[trigger] found[i]).1 > 1 by {
            if i < before.len() {
                assert(found[i] == before[i]);
            }
        }
    }
}

/// The blocks that forks are looked for in: the last `blocks` ones up to the head, or none.
pub fn fork_range(head: u64, blocks: u64) -> (r: Option<(u64, u64)>)
    ensures
        r == (if blocks == 0 {
            None
        } else if head >= blocks {
            Some(((head - blocks) as u64, head))
        } else {
            Some((0u64, head))
        }),
{
    if blocks == 0 {
        None
    } else if head >= blocks {
        Some((head - blocks, head))
    } else {
        Some((0, head))
    }
}

} // verus!
