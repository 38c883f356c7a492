//! Logs over a range of blocks, and the events that announce pools.
use crate::live::abi::{addr_from_word, topic, topic_value, word, word_at, Log};
use crate::text::same_text;
use crate::types::{lemma_u256_range, two160, Address, B256, U256};
use vstd::prelude::*;

verus! {

/// The signature of the event by which an exchange of this family announces a pool.
pub open spec fn creation_sig(kind: Seq<char>) -> Option<Seq<char>> {
    if kind == "uniswap_v2"@ {
        Some("PairCreated(address,address,address,uint256)"@)
    } else if kind == "uniswap_v3"@ {
        Some("PoolCreated(address,address,uint24,int24,address)"@)
    } else if kind == "solidly"@ {
        Some("PoolCreated(address,address,bool,address,uint256)"@)
    } else {
        None
    }
}

/// The topic of the event by which an exchange of this family announces a pool.
pub fn creation_topic(kind: &str) -> (r: Option<B256>)
    ensures
        match (r, creation_sig(kind@)) {
            (Some(t), Some(sig)) => t.word@ == topic_value(sig),
            (None, None) => true,
            _ => false,
        },
{
    if same_text(kind, "uniswap_v2") {
        Some(topic("PairCreated(address,address,address,uint256)"))
    } else if same_text(kind, "uniswap_v3") {
        Some(topic("PoolCreated(address,address,uint24,int24,address)"))
    } else if same_text(kind, "solidly") {
        Some(topic("PoolCreated(address,address,bool,address,uint256)"))
    } else {
        None
    }
}

/// What a pool-creation event announces.
#[derive(Debug, Clone, Copy, PartialEq, Eq, Structural)]
pub struct Creation {
    pub token0: Address,
    pub token1: Address,
    pub pool: Address,
    pub fee_bps: Option<u32>,
}

/// The word of the data that holds the pool of a creation event.
pub open spec fn creation_word(kind: Seq<char>) -> int {
    if kind == "uniswap_v3"@ {
        1
    } else {
        0
    }
}

/// A log that holds a creation event of this family.
pub open spec fn is_creation(kind: Seq<char>, log: Log) -> bool {
    &&& creation_sig(kind) is Some
    &&& log.topics@.len() >= (if kind == "uniswap_v3"@ {
        4int
    } else {
        3
    })
    &&& log.data@.len() >= 32 * creation_word(kind) + 32
}

/// Decode a creation log of an exchange of this family.
pub fn decode_creation(kind: &str, log: &Log) -> (r: Option<Creation>)
    ensures
        r is Some == is_creation(kind@, *log),
        match r {
            Some(c) => {
                &&& c.token0.value() == log.topics@[1].word@ % two160()
                &&& c.token1.value() == log.topics@[2].word@ % two160()
                &&& c.pool.value() == word_at(log.data@, creation_word(kind@)) % two160()
                &&& c.fee_bps == (if kind@ == "uniswap_v2"@ {
                    Some(30u32)
                } else if kind@ == "uniswap_v3"@ {
                    Some((log.topics@[3].word@ % 0x100_0000) as u32)
                } else {
                    None
                })
            },
            None => true,
        },
{
    broadcast use lemma_u256_range;

    let v2 = same_text(kind, "uniswap_v2");
    let v3 = same_text(kind, "uniswap_v3");
    if !v2 && !v3 && !same_text(kind, "solidly") {
        return None;
    }
    proof {
        reveal_strlit("uniswap_v2");
        reveal_strlit("uniswap_v3");
        assert("uniswap_v2"@[9] != "uniswap_v3"@[9]);
    }
    let at: usize = if v3 {
        1
    } else {
        0
    };
    if log.topics.len() < 3 || (v3 && log.topics.len() < 4) || log.data.len() < 32 * at + 32 {
        return None;
    }
    let fee_bps: Option<u32> = if v2 {
        Some(30)
    } else if v3 {
        Some(
            log.topics[3].word.remainder(U256::from_u64(0x100_0000)).low_u128() as u32,
        )
    } else {
        None
    };
    Some(
        Creation {
            token0: addr_from_word(&log.topics[1]),
            token1: addr_from_word(&log.topics[2]),
            pool: Address::from_word(word(log.data.as_slice(), at)),
            fee_bps,
        },
    )
}

/// The chunks of at most `window` blocks that cover the blocks from `from` to `to`.
pub open spec fn chunks(from: int, to: int, window: int) -> Seq<(u64, u64)>
    decreases to - from + 1,
{
    if from > to || window < 1 {
        Seq::empty()
    } else if to - from < window {
        seq![(from as u64, to as u64)]
    } else {
        seq![(from as u64, (from + window - 1) as u64)] + chunks(from + window, to, window)
    }
}

/// The block ranges to ask logs of: consecutive chunks of at most `window` blocks (at least one
/// block each).
pub fn block_chunks(from: u64, to: u64, window: u64) -> (r: Vec<(u64, u64)>)
    ensures
        r@ == chunks(
            from as int,
            to as int,
            if window == 0 {
                1
            } else {
                window as int
            },
        ),
{
    let size: u64 = if window == 0 {
        1
    } else {
        window
    };
    let mut out: Vec<(u64, u64)> = Vec::new();
    if from > to {
        return out;
    }
    let ghost whole = chunks(from as int, to as int, size as int);
    let mut start: u64 = from;
    assert(out@ + chunks(from as int, to as int, size as int) =~= whole);
    while to - start >= size
        invariant
            size >= 1,
            start <= to,
            out@ + chunks(start as int, to as int, size as int) == whole,
        decreases to - start,
    {
        let end: u64 = start + (size - 1);
        let ghost before = out@;
        out.push((start, end));
        proof {
            let rest = chunks(start + size, to as int, size as int);
            assert(before + (seq![(start, end)] + rest) =~= out@ + rest);
        }
        start = end + 1;
    }
    assert(out@.push((start, to)) =~= out@ + seq![(start, to)]);
    out.push((start, to));
    out
}

/// The chunks cover every block of the range once: they follow each other without a gap or an
/// overlap, from the first block to the last, and none is empty or longer than the window.
pub proof fn chunks_cover_the_range(from: u64, to: u64, window: u64)
    requires
        from <= to,
        window >= 1,
    ensures
        ({
            let c = chunks(from as int, to as int, window as int);
            &&& c.len() > 0
            &&& c[0].0 == from
            &&& c.last().1 == to
            &&& forall|i: int|
                0 <= i < c.len() ==> (#[trigger] c[i]).0 <= c[i].1 && c[i].1 - c[i].0 < window
            &&& forall|i: int, j: int|
                0 <= i && j == i + 1 && j < c.len() ==> (#[trigger] c[j]).0 == (
                #[trigger] c[i]).1 + 1
        }),
    decreases to - from,
{
    let c = chunks(from as int, to as int, window as int);
    if to - from >= window {
        let next = (from + window) as u64;
        let rest = chunks(next as int, to as int, window as int);
        chunks_cover_the_range(next, to, window);
        assert(c =~= seq![(from, (from + window - 1) as u64)] + rest);
        assert forall|i: int| 0 <= i < c.len() implies (#[trigger] c[i]).0 <= c[i].1 && c[i].1
            - c[i].0 < window by {
            if i > 0 {
                assert(c[i] == rest[i - 1]);
            }
        }
        assert forall|i: int, j: int| 0 <= i && j == i + 1 && j < c.len() implies (
        #[trigger] c[j]).0 == (#[trigger] c[i]).1 + 1 by {
            assert(c[j] == rest[j - 1]);
            if i > 0 {
                assert(c[i] == rest[i - 1]);
            }
        }
        assert(c.last() == rest.last());
    }
}

} // verus!
