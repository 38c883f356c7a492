//! Timing bench: compare replayed state with on-chain state.
//!
//! Both sides mean the state as of the close of a block, so a correct replay matches exactly;
//! any mismatch is a replay fault.
use crate::live::engine::{
    is_first_missing, items_stored, lemma_keys_stay, lemma_seeded, run_scripted, seeded,
};
use crate::live::event::PoolState;
use crate::live::registry::Entry;
use crate::live::source::{MockChain, SourceError};
use crate::types::Address;
use vstd::prelude::*;

verus! {

/// A pool whose replayed state differs from the chain's.
#[derive(Clone, Copy, Debug, PartialEq, Eq, Structural)]
pub struct Mismatch {
    pub pool: Address,
    pub replayed: PoolState,
    pub onchain: PoolState,
}

/// What a comparison found.
#[derive(Clone, Debug)]
pub struct BenchReport {
    pub cut_block: u64,
    pub pools_checked: usize,
    pub mismatches: Vec<Mismatch>,
}

impl BenchReport {
    /// A report on `pools_checked` pools at `cut_block`, with no mismatch yet.
    pub fn new(cut_block: u64, pools_checked: usize) -> (r: BenchReport)
        ensures
            r.cut_block == cut_block,
            r.pools_checked == pools_checked,
            r.mismatches@ == Seq::<Mismatch>::empty(),
    {
        BenchReport { cut_block, pools_checked, mismatches: Vec::new() }
    }

    /// Compare a pool's replayed state with the chain's.
    pub fn compare(&mut self, pool: Address, replayed: PoolState, onchain: PoolState)
        ensures
            final(self).cut_block == old(self).cut_block,
            final(self).pools_checked == old(self).pools_checked,
            final(self).mismatches@ == if replayed == onchain {
                old(self).mismatches@
            } else {
                old(self).mismatches@.push(Mismatch { pool, replayed, onchain })
            },
    {
        if replayed != onchain {
            self.mismatches.push(Mismatch { pool, replayed, onchain });
        }
    }

    /// Raise the cut to a later block.
    pub fn raise_cut(&mut self, block: u64)
        ensures
            final(self).cut_block == if block > old(self).cut_block {
                block
            } else {
                old(self).cut_block
            },
            final(self).pools_checked == old(self).pools_checked,
            final(self).mismatches@ == old(self).mismatches@,
    {
        if block > self.cut_block {
            self.cut_block = block;
        }
    }

    /// Whether every pool matched.
    pub fn passed(&self) -> (r: bool)
        ensures
            r == (self.mismatches@.len() == 0),
    {
        self.mismatches.len() == 0
    }
}

impl Default for BenchReport {
    fn default() -> (r: BenchReport)
        ensures
            r.cut_block == 0,
            r.pools_checked == 0,
            r.mismatches@ == Seq::<Mismatch>::empty(),
    {
        BenchReport::new(0, 0)
    }
}

/// The mismatches of the first `k` pools between replayed entries and snapshots at `cut_block`.
pub open spec fn mismatches_of(
    entries: Map<Address, Entry>,
    src: MockChain,
    pools: Seq<Address>,
    cut_block: u64,
    k: int,
) -> Seq<Mismatch>
    decreases k,
{
    if k <= 0 {
        Seq::empty()
    } else {
        let rest = mismatches_of(entries, src, pools, cut_block, k - 1);
        let pool = pools[k - 1];
        let replayed = entries[pool].state;
        let onchain = src.spec_snapshot(pool, cut_block)->0;
        if replayed == onchain {
            rest
        } else {
            rest.push(Mismatch { pool, replayed, onchain })
        }
    }
}

/// Run a scripted source to its end, then compare each pool's replayed state with the source's
/// snapshot at `cut_block`. The first pool without a snapshot at the head fails the run; if none
/// does, the first without one at the cut.
pub fn bench_scripted(src: &MockChain, pools: &[Address], cut_block: u64) -> (r: Result<
    BenchReport,
    SourceError,
>)
    ensures
        r matches Ok(report) ==> {
            &&& report.cut_block == cut_block
            &&& report.pools_checked == pools@.len()
            &&& report.mismatches@ == mismatches_of(
                items_stored(
                    seeded(*src, pools@, src.head, pools@.len() as int),
                    src.head,
                    src.items@,
                    src.items@.len() as int,
                ),
                *src,
                pools@,
                cut_block,
                pools@.len() as int,
            )
        },
        r is Ok <==> forall|i: int|
            0 <= i < pools@.len() ==> src.spec_snapshot(#[trigger] pools@[i], src.head) is Some
                && src.spec_snapshot(pools@[i], cut_block) is Some,
        r matches Err(e) ==> if exists|i: int| is_first_missing(*src, pools@, src.head, i) {
            exists|i: int|
                is_first_missing(*src, pools@, src.head, i) && e == SourceError::NoSnapshot(
                    #[trigger] pools@[i],
                    src.head,
                )
        } else {
            exists|i: int|
                is_first_missing(*src, pools@, cut_block, i) && e == SourceError::NoSnapshot(
                    #[trigger] pools@[i],
                    cut_block,
                )
        },
{
    let outcome = match run_scripted(src, pools) {
        Ok(outcome) => outcome,
        Err(e) => {
            return Err(e);
        },
    };
    let ghost entries = outcome.registry@;
    let mut report = BenchReport::new(cut_block, pools.len());
    let mut i: usize = 0;
    while i < pools.len()
        invariant
            i <= pools@.len(),
            entries == outcome.registry@,
            entries == items_stored(
                seeded(*src, pools@, src.head, pools@.len() as int),
                src.head,
                src.items@,
                src.items@.len() as int,
            ),
            report.cut_block == cut_block,
            report.pools_checked == pools@.len(),
            report.mismatches@ == mismatches_of(entries, *src, pools@, cut_block, i as int),
            forall|j: int|
                0 <= j < pools@.len() ==> src.spec_snapshot(#[trigger] pools@[j], src.head) is Some,
            forall|j: int|
                0 <= j < i ==> src.spec_snapshot(#[trigger] pools@[j], cut_block) is Some,
        decreases pools@.len() - i,
    {
        let pool = pools[i];
        proof {
            lemma_seeded(*src, pools@, src.head, pools@.len() as int, i as int);
            lemma_keys_stay(
                seeded(*src, pools@, src.head, pools@.len() as int),
                src.head,
                src.items@,
                src.items@.len() as int,
            );
        }
        let replayed = match outcome.registry.load(pool) {
            Some(entry) => entry.state,
            None => {
                return Err(SourceError::NoSnapshot(pool, cut_block));
            },
        };
        let onchain = match src.snapshot_pool(pool, cut_block) {
            Ok(state) => state,
            Err(e) => {
                assert(src.spec_snapshot(pools@[i as int], cut_block) is None);
                assert(is_first_missing(*src, pools@, cut_block, i as int));
                return Err(e);
            },
        };
        report.compare(pool, replayed, onchain);
        i += 1;
    }
    Ok(report)
}

} // verus!
