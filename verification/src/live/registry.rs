//! Lock-striped pool-state registry for the hot path.
//!
//! `DashMap` shards internally, and each entry is published behind an `ArcSwap`, so that readers
//! load a consistent immutable snapshot wait-free. Writes go through an exclusive borrow: each
//! registry has one writer.
use crate::live::event::PoolState;
use crate::types::Address;
use arc_swap::ArcSwap;
use dashmap::DashMap;
use std::sync::Arc;
use vstd::prelude::*;

verus! {

/// A pool's published state plus the event it was last updated at.
#[derive(Clone, Copy, Debug, PartialEq, Eq, Structural)]
pub struct Entry {
    pub state: PoolState,
    pub block: u64,
    pub log_index: u64,
}

/// The published cells, one per pool, in a `DashMap` keyed by the address's two words.
#[verifier::external_body]
pub struct Cells {
    map: DashMap<(u32, u128), Arc<ArcSwap<Entry>>>,
}

/// What the cells hold: for each key of the map, the entry that its cell publishes.
pub uninterp spec fn cell_contents(cells: Cells) -> Map<(u32, u128), Entry>;

/// The contents of a map without keys.
pub open spec fn no_cells() -> Map<(u32, u128), Entry> {
    Map::empty()
}

/// `keys` lists the `n` members of `set`, each once.
pub open spec fn lists(keys: Seq<(u32, u128)>, set: Set<(u32, u128)>, n: int) -> bool {
    keys.no_duplicates() && keys.to_set() == set && keys.len() == n
}

impl Cells {
    /// `DashMap::new`: a map without keys.
    #[verifier::external_body]
    fn empty() -> (r: Cells)
        ensures
            cell_contents(r) == no_cells(),
    {
        Cells { map: DashMap::new() }
    }

    /// `DashMap::get`, then `ArcSwap::load`: the entry that the key's cell publishes, `None` when
    /// the map lacks the key.
    #[verifier::external_body]
    fn read(&self, key: (u32, u128)) -> (r: Option<Entry>)
        ensures
            match r {
                Some(e) => cell_contents(*self).dom().contains(key) && e
                    == cell_contents(*self)[key],
                None => !cell_contents(*self).dom().contains(key),
            },
    {
        self.map.get(&key).map(|cell| **cell.load())
    }

    /// `DashMap::get`, then `ArcSwap::store`: replaces what the key's cell publishes. Nothing
    /// happens when the map lacks the key.
    #[verifier::external_body]
    fn publish(&mut self, key: (u32, u128), entry: Entry)
        requires
            cell_contents(*old(self)).dom().contains(key),
        ensures
            cell_contents(*final(self)) == cell_contents(*old(self)).insert(key, entry),
    {
        if let Some(cell) = self.map.get(&key) {
            cell.store(Arc::new(entry));
        }
    }

    /// `DashMap::insert` of a new cell: the key now publishes the entry.
    #[verifier::external_body]
    fn install(&mut self, key: (u32, u128), entry: Entry)
        ensures
            cell_contents(*final(self)) == cell_contents(*old(self)).insert(key, entry),
    {
        self.map.insert(key, Arc::new(ArcSwap::from_pointee(entry)));
    }

    /// `DashMap::contains_key`.
    #[verifier::external_body]
    fn has(&self, key: (u32, u128)) -> (r: bool)
        ensures
            r == cell_contents(*self).dom().contains(key),
    {
        self.map.contains_key(&key)
    }

    /// `DashMap::len`: the number of keys.
    #[verifier::external_body]
    fn count(&self) -> (r: usize)
        ensures
            exists|keys| lists(keys, cell_contents(*self).dom(), r as int),
    {
        self.map.len()
    }

    /// `DashMap::is_empty`: whether the map has no key.
    #[verifier::external_body]
    fn has_none(&self) -> (r: bool)
        ensures
            r == (cell_contents(*self) == no_cells()),
    {
        self.map.is_empty()
    }
}

/// The published state of every tracked pool.
pub struct PoolRegistry {
    cells: Cells,
}

impl View for PoolRegistry {
    type V = Map<Address, Entry>;

    closed spec fn view(&self) -> Map<Address, Entry> {
        Map::new(
            |a: Address| cell_contents(self.cells).dom().contains((a.hi, a.lo)),
            |a: Address| cell_contents(self.cells)[(a.hi, a.lo)],
        )
    }
}

impl PoolRegistry {
    /// An empty registry.
    pub fn new() -> (r: PoolRegistry)
        ensures
            r@ == Map::<Address, Entry>::empty(),
    {
        let r = PoolRegistry { cells: Cells::empty() };
        assert(r@ =~= Map::<Address, Entry>::empty());
        r
    }

    /// Install or overwrite a pool's state.
    pub fn store(&mut self, pool: Address, entry: Entry)
        ensures
            final(self)@ == old(self)@.insert(pool, entry),
    {
        if self.cells.has((pool.hi, pool.lo)) {
            self.cells.publish((pool.hi, pool.lo), entry);
        } else {
            self.cells.install((pool.hi, pool.lo), entry);
        }
        assert(self@ =~= old(self)@.insert(pool, entry));
    }

    /// Load a pool's current state.
    pub fn load(&self, pool: Address) -> (r: Option<Entry>)
        ensures
            match r {
                Some(e) => self@.dom().contains(pool) && e == self@[pool],
                None => !self@.dom().contains(pool),
            },
    {
        self.cells.read((pool.hi, pool.lo))
    }

    /// Whether a pool is tracked.
    pub fn contains(&self, pool: Address) -> (r: bool)
        ensures
            r == self@.dom().contains(pool),
    {
        self.cells.has((pool.hi, pool.lo))
    }

    /// The number of tracked pools.
    pub fn len(&self) -> (r: usize)
        ensures
            self@.dom().finite(),
            r == self@.dom().len(),
    {
        let r: usize = self.cells.count();
        proof {
            let keys = choose|keys| lists(keys, cell_contents(self.cells).dom(), r as int);
            keys.unique_seq_to_set();
            lemma_key_count(cell_contents(self.cells).dom(), self@.dom());
        }
        r
    }

    /// Whether no pool is tracked.
    pub fn is_empty(&self) -> (r: bool)
        ensures
            r == (self@.dom() == Set::<Address>::empty()),
    {
        let r = self.cells.has_none();
        proof {
            if r {
                assert(self@.dom() =~= Set::<Address>::empty());
            } else {
                let keys = cell_contents(self.cells).dom();
                if self@.dom() == Set::<Address>::empty() {
                    assert forall|k: (u32, u128)| !keys.contains(k) by {
                        let a = Address { hi: k.0, lo: k.1 };
                        assert(self@.dom().contains(a) == keys.contains((a.hi, a.lo)));
                    }
                    assert(cell_contents(self.cells) =~= no_cells());
                }
            }
        }
        r
    }
}

/// There are as many addresses as pairs of their words.
proof fn lemma_key_count(keys: Set<(u32, u128)>, addresses: Set<Address>)
    requires
        keys.finite(),
        forall|a: Address| addresses.contains(a) <==> keys.contains((a.hi, a.lo)),
    ensures
        addresses.finite(),
        addresses.len() == keys.len(),
    decreases keys.len(),
{
    if keys.len() == 0 {
        assert(addresses =~= Set::<Address>::empty()) by {
            assert(keys =~= Set::<(u32, u128)>::empty());
        }
    } else {
        let k = keys.choose();
        assert(keys.contains(k));
        let a = Address { hi: k.0, lo: k.1 };
        assert(addresses.contains(a));
        lemma_key_count(keys.remove(k), addresses.remove(a));
        assert(addresses =~= addresses.remove(a).insert(a));
    }
}

/// A read gives back the last write to the pool, and writes to other pools do not touch it.
pub proof fn read_gives_back_the_write(
    before: Map<Address, Entry>,
    pool: Address,
    entry: Entry,
    other: Address,
)
    ensures
        ({
            let after = before.insert(pool, entry);
            &&& after.dom().contains(pool) && after[pool] == entry
            &&& other != pool ==> after.dom().contains(other) == before.dom().contains(other) && (
            before.dom().contains(other) ==> after[other] == before[other])
        }),
{
}

} // verus!
