//! Raw logs and the 32-byte words that calls and events are made of.
use crate::types::{lemma_u256_range, two160, two256, Address, B256, U256};
use vstd::prelude::*;
use vstd::slice::slice_subrange;
use vstd::utf8::encode_utf8;

verus! {

/// The integer that bytes spell, most significant first.
pub open spec fn be_value(bytes: Seq<u8>) -> int
    decreases bytes.len(),
{
    if bytes.len() == 0 {
        0
    } else {
        be_value(bytes.drop_last()) * 256 + bytes.last()
    }
}

/// The low `n` bytes of an integer, most significant first.
pub open spec fn be_bytes(x: int, n: nat) -> Seq<u8>
    decreases n,
{
    if n == 0 {
        Seq::empty()
    } else {
        be_bytes(x / 256, (n - 1) as nat).push((x % 256) as u8)
    }
}

/// The `i`-th 32-byte word of `data`.
pub open spec fn word_at(data: Seq<u8>, i: int) -> int {
    be_value(data.subrange(32 * i, 32 * i + 32))
}

/// The Keccak-256 hash of bytes, as the integer that its bytes spell.
pub uninterp spec fn keccak(bytes: Seq<u8>) -> int;

/// The topic of an event signature.
pub open spec fn topic_value(sig: Seq<char>) -> int {
    keccak(encode_utf8(sig))
}

/// A 24-bit two's complement integer in the low bits of a word.
pub open spec fn int24(word: int) -> int {
    let low = word % 0x100_0000;
    if low < 0x80_0000 {
        low
    } else {
        low - 0x100_0000
    }
}

/// One event log.
#[derive(Debug)]
pub struct Log {
    pub address: Address,
    pub topics: Vec<B256>,
    pub data: Vec<u8>,
    pub block_number: Option<u64>,
    pub log_index: Option<u64>,
}

impl Log {
    /// The first topic is the one of this event signature.
    pub open spec fn is_event(&self, sig: Seq<char>) -> bool {
        self.topics@.len() > 0 && self.topics@[0].word@ == topic_value(sig)
    }

    /// Where the log stands in the chain, if it is in a block.
    pub open spec fn spec_key(&self) -> Option<(u64, u64)> {
        match (self.block_number, self.log_index) {
            (Some(b), Some(i)) => Some((b, i)),
            _ => None,
        }
    }

    /// Where the log stands in the chain, if it is in a block.
    pub fn key(&self) -> (r: Option<(u64, u64)>)
        ensures
            r == self.spec_key(),
    {
        match (self.block_number, self.log_index) {
            (Some(b), Some(i)) => Some((b, i)),
            _ => None,
        }
    }

    /// Whether the first topic is the one of this event signature.
    pub fn has_topic(&self, sig: &str) -> (r: bool)
        ensures
            r == self.is_event(sig@),
    {
        self.topics.len() > 0 && self.topics[0].word.equals(&topic(sig).word)
    }
}

/// `alloy_primitives::U256::from_be_slice`: the integer that the bytes spell, most significant
/// first. The outside function panics on more than 32 bytes.
#[verifier::external_body]
fn read_be(bytes: &[u8]) -> (r: U256)
    requires
        bytes@.len() <= 32,
    ensures
        r@ == be_value(bytes@),
{
    let [l0, l1, l2, l3] = alloy_primitives::U256::from_be_slice(bytes).into_limbs();
    U256 { l0, l1, l2, l3 }
}

/// `alloy_primitives::keccak256`: the Keccak-256 hash of the bytes. Nothing is claimed of the
/// hash but that it depends on the bytes alone.
#[verifier::external_body]
pub(crate) fn keccak256(bytes: &[u8]) -> (r: B256)
    ensures
        r.word@ == keccak(bytes@),
{
    let hash = alloy_primitives::keccak256(bytes);
    let [l0, l1, l2, l3] = alloy_primitives::U256::from_be_bytes(hash.0).into_limbs();
    B256 { word: U256 { l0, l1, l2, l3 } }
}

/// The `i`-th 32-byte word of `data`.
pub fn word(data: &[u8], i: usize) -> (r: U256)
    requires
        32 * i + 32 <= data@.len(),
    ensures
        r@ == word_at(data@, i as int),
{
    let len: usize = data.len();
    assert(32 * i + 32 <= len);
    let from: usize = 32 * i;
    read_be(slice_subrange(data, from, from + 32))
}

/// The topic of an event signature.
pub fn topic(sig: &str) -> (r: B256)
    ensures
        r.word@ == topic_value(sig@),
{
    keccak256(sig.as_bytes())
}

/// A word as 32 bytes, most significant first.
pub fn word_bytes(x: U256) -> (r: Vec<u8>)
    ensures
        r@ == be_bytes(x@, 32),
        r.len() == 32,
{
    broadcast use lemma_u256_range;

    let radix = U256::from_u64(256);
    let mut rest = x;
    let mut out: Vec<u8> = Vec::new();
    let mut left: usize = 32;
    assert(be_bytes(x@, 32) + out@ =~= be_bytes(x@, 32));
    while left > 0
        invariant
            left <= 32,
            out.len() == 32 - left,
            radix@ == 256,
            be_bytes(x@, 32) == be_bytes(rest@, left as nat) + out@,
        decreases left,
    {
        broadcast use lemma_u256_range;

        let low: u8 = rest.remainder(radix).low_u128() as u8;
        let ghost before = out@;
        out.insert(0, low);
        proof {
            assert(be_bytes(rest@, left as nat) == be_bytes(rest@ / 256, (left - 1) as nat).push(
                low,
            ));
            assert(be_bytes(rest@ / 256, (left - 1) as nat).push(low) + before =~= be_bytes(
                rest@ / 256,
                (left - 1) as nat,
            ) + out@);
        }
        rest = rest.div_floor(radix);
        left = left - 1;
    }
    assert(be_bytes(rest@, 0) + out@ =~= out@);
    out
}

/// The four bytes that a call of this signature starts with.
pub open spec fn selector_bytes(sig: Seq<char>) -> Seq<u8> {
    be_bytes(topic_value(sig), 32).take(4)
}

/// The four bytes that a call of this signature starts with.
pub fn selector(sig: &str) -> (r: Vec<u8>)
    ensures
        r@ == selector_bytes(sig@),
        r.len() == 4,
{
    let hash = word_bytes(topic(sig).word);
    let mut out: Vec<u8> = Vec::new();
    let mut i: usize = 0;
    while i < 4
        invariant
            i <= 4,
            hash.len() == 32,
            out@ == hash@.take(i as int),
        decreases 4 - i,
    {
        assert(hash@.take(i + 1) =~= hash@.take(i as int).push(hash@[i as int]));
        out.push(hash[i]);
        i = i + 1;
    }
    out
}

/// The word of an address, left-padded.
pub fn enc_addr(a: Address) -> (r: Vec<u8>)
    ensures
        r@ == be_bytes(a.value(), 32),
        r.len() == 32,
{
    word_bytes(a.to_word())
}

/// The word of a 24-bit unsigned integer: the low 24 bits of `v`.
pub fn enc_u24(v: u32) -> (r: Vec<u8>)
    ensures
        r@ == be_bytes(v as int % 0x100_0000, 32),
        r.len() == 32,
{
    word_bytes(U256::from_u64((v % 0x100_0000) as u64))
}

/// The word of a truth value.
pub fn enc_bool(b: bool) -> (r: Vec<u8>)
    ensures
        r@ == be_bytes(if b {
            1
        } else {
            0
        }, 32),
        r.len() == 32,
{
    word_bytes(if b {
        U256::one()
    } else {
        U256::zero()
    })
}

/// 20-byte address from a 32-byte indexed topic word.
pub fn addr_from_word(word: &B256) -> (r: Address)
    ensures
        r.value() == word.word@ % two160(),
{
    Address::from_word(word.word)
}

/// The 24-bit two's complement integer in the low bits of a word.
pub fn int24_of(word: U256) -> (r: i32)
    ensures
        r == int24(word@),
        -0x80_0000 <= r < 0x80_0000,
{
    broadcast use lemma_u256_range;

    let low: i32 = word.remainder(U256::from_u64(0x100_0000)).low_u128() as i32;
    if low < 0x80_0000 {
        low
    } else {
        low - 0x100_0000
    }
}

/// 256 to the `n`.
spec fn radix_power(n: nat) -> int
    decreases n,
{
    if n == 0 {
        1
    } else {
        256 * radix_power((n - 1) as nat)
    }
}

proof fn lemma_bytes_spell(x: int, n: nat)
    requires
        x >= 0,
    ensures
        be_bytes(x, n).len() == n,
        0 <= be_value(be_bytes(x, n)) <= x,
        x < radix_power(n) ==> be_value(be_bytes(x, n)) == x,
    decreases n,
{
    if n > 0 {
        lemma_bytes_spell(x / 256, (n - 1) as nat);
        assert(be_bytes(x, n).drop_last() =~= be_bytes(x / 256, (n - 1) as nat));
    }
}

/// The bytes of a word spell it: what is encoded reads back as it was.
pub proof fn words_read_back(x: int)
    requires
        0 <= x < two256(),
    ensures
        be_bytes(x, 32).len() == 32,
        be_value(be_bytes(x, 32)) == x,
        word_at(be_bytes(x, 32), 0) == x,
{
    lemma_bytes_spell(x, 32);
    assert(radix_power(32) == two256()) by {
        reveal_with_fuel(radix_power, 33);
    }
    assert(be_bytes(x, 32).subrange(0, 32) =~= be_bytes(x, 32));
}

/// An address reads back from the word that it is encoded as.
pub proof fn addresses_read_back(a: Address)
    ensures
        word_at(be_bytes(a.value(), 32), 0) % two160() == a.value(),
{
    words_read_back(a.value());
}

} // verus!
