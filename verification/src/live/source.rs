//! Sources of chain items and pinned snapshots.
use crate::live::event::{ChainItem, PoolState};
use crate::text::{decimal, decimal_text};
use crate::types::{checksum_text, Address};
use vstd::prelude::*;
use vstd::string::StringExecFns;

verus! {

/// Why a source could not deliver.
#[derive(Debug)]
pub enum SourceError {
    /// The node refused or the transport failed.
    Rpc(String),
    /// A pool has no snapshot at a block.
    NoSnapshot(Address, u64),
}

impl SourceError {
    /// What the error says.
    pub open spec fn text(self) -> Seq<char> {
        match self {
            SourceError::Rpc(what) => "rpc error: "@ + what@,
            SourceError::NoSnapshot(pool, block) => "pool "@ + checksum_text(pool.value())
                + " has no snapshot at block "@ + decimal_text(block as int),
        }
    }

    /// What the error says.
    pub fn message(&self) -> (r: String)
        ensures
            r@ == self.text(),
    {
        match self {
            SourceError::Rpc(what) => "rpc error: ".to_owned().concat(what.as_str()),
            SourceError::NoSnapshot(pool, block) => "pool ".to_owned().concat(
                pool.checksum().as_str(),
            ).concat(" has no snapshot at block ").concat(decimal(*block).as_str()),
        }
    }
}

/// One scripted snapshot: what a read of `pool` pinned to `block` returns.
#[derive(Clone, Copy, Debug)]
pub struct ScriptedSnapshot {
    pub pool: Address,
    pub block: u64,
    pub state: PoolState,
}

/// Deterministic in-memory source. The scripted items are delivered in order.
pub struct MockChain {
    pub items: Vec<ChainItem>,
    /// Snapshots; of two for one pool and block, the later counts.
    pub snapshots: Vec<ScriptedSnapshot>,
    pub head: u64,
}

/// What the first `k` scripted snapshots say of `pool` at `block`.
pub open spec fn scripted(
    snapshots: Seq<ScriptedSnapshot>,
    pool: Address,
    block: u64,
    k: int,
) -> Option<PoolState>
    decreases k,
{
    if k <= 0 {
        None
    } else if snapshots[k - 1].pool == pool && snapshots[k - 1].block == block {
        Some(snapshots[k - 1].state)
    } else {
        scripted(snapshots, pool, block, k - 1)
    }
}

impl MockChain {
    /// What a read of `pool` pinned to `block` returns.
    pub open spec fn spec_snapshot(&self, pool: Address, block: u64) -> Option<PoolState> {
        scripted(self.snapshots@, pool, block, self.snapshots@.len() as int)
    }

    /// A source that delivers `items` and has reached block `head`.
    pub fn new(items: Vec<ChainItem>, head: u64) -> (r: MockChain)
        ensures
            r.items == items,
            r.head == head,
            forall|p: Address, b: u64| r.spec_snapshot(p, b) is None,
    {
        MockChain { items, snapshots: Vec::new(), head }
    }

    /// The source with a snapshot of `pool` at `block` added.
    pub fn with_snapshot(self, pool: Address, block: u64, state: PoolState) -> (r: MockChain)
        ensures
            r.items == self.items,
            r.head == self.head,
            forall|p: Address, b: u64|
                r.spec_snapshot(p, b) == if p == pool && b == block {
                    Some(state)
                } else {
                    self.spec_snapshot(p, b)
                },
    {
        let mut r = self;
        let ghost before = r.snapshots@;
        r.snapshots.push(ScriptedSnapshot { pool, block, state });
        proof {
            assert forall|p: Address, b: u64|
                r.spec_snapshot(p, b) == if p == pool && b == block {
                    Some(state)
                } else {
                    self.spec_snapshot(p, b)
                } by {
                lemma_scripted_prefix(before, r.snapshots@, p, b, before.len() as int);
            }
        }
        r
    }

    /// Pinned snapshot of one pool's state at an explicit block.
    pub fn snapshot_pool(&self, pool: Address, at: u64) -> (r: Result<PoolState, SourceError>)
        ensures
            match self.spec_snapshot(pool, at) {
                Some(state) => r == Ok::<PoolState, SourceError>(state),
                None => r == Err::<PoolState, SourceError>(SourceError::NoSnapshot(pool, at)),
            },
    {
        let mut k: usize = self.snapshots.len();
        while k > 0
            invariant
                k <= self.snapshots@.len(),
                self.spec_snapshot(pool, at) == scripted(self.snapshots@, pool, at, k as int),
            decreases k,
        {
            if self.snapshots[k - 1].pool == pool && self.snapshots[k - 1].block == at {
                return Ok(self.snapshots[k - 1].state);
            }
            k -= 1;
        }
        Err(SourceError::NoSnapshot(pool, at))
    }
}

proof fn lemma_scripted_prefix(
    a: Seq<ScriptedSnapshot>,
    b: Seq<ScriptedSnapshot>,
    pool: Address,
    block: u64,
    k: int,
)
    requires
        0 <= k <= a.len() <= b.len(),
        forall|i: int| 0 <= i < a.len() ==> a[i] == b[i],
    ensures
        scripted(a, pool, block, k) == scripted(b, pool, block, k),
    decreases k,
{
    if k > 0 {
        lemma_scripted_prefix(a, b, pool, block, k - 1);
    }
}

} // verus!
