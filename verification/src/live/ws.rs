//! Decoding what an EVM node streams and returns.
//!
//! Events are decoded from raw log bytes (the first topic and the data). Only UniV2-style `Sync`
//! is decoded here.
use crate::live::abi::{topic, topic_value, word, word_at, Log};
use crate::live::event::{EventKind, PoolEvent, PoolState};
use crate::live::source::SourceError;
use crate::text::{decimal, decimal_text};
use crate::types::{Address, B256, U256};
use vstd::prelude::*;
use vstd::string::StringExecFns;

verus! {

/// An EVM node behind a WebSocket endpoint, and the pools to track there.
#[derive(Debug)]
pub struct WsChainSource {
    pub url: String,
    pub pools: Vec<Address>,
}

impl WsChainSource {
    /// The node behind this endpoint, asked for these pools.
    pub fn new(url: String, pools: Vec<Address>) -> (r: WsChainSource)
        ensures
            r.url == url,
            r.pools == pools,
    {
        WsChainSource { url, pools }
    }
}

/// `getReserves()` selector (UniswapV2 pair).
pub fn get_reserves_selector() -> (r: Vec<u8>)
    ensures
        r@ == seq![0x09u8, 0x02u8, 0xf1u8, 0xacu8],
{
    let mut out: Vec<u8> = Vec::new();
    out.push(0x09);
    out.push(0x02);
    out.push(0xf1);
    out.push(0xac);
    assert(out@ =~= seq![0x09u8, 0x02u8, 0xf1u8, 0xacu8]);
    out
}

/// First topic of `Sync(uint112,uint112)`.
pub fn sync_topic() -> (r: B256)
    ensures
        r.word@ == topic_value("Sync(uint112,uint112)"@),
{
    topic("Sync(uint112,uint112)")
}

/// A reading of two reserves: their words.
pub open spec fn reserves_in(data: Seq<u8>, reserve0: U256, reserve1: U256) -> bool {
    reserve0@ == word_at(data, 0) && reserve1@ == word_at(data, 1)
}

/// A log is a complete `Sync(uint112,uint112)`.
pub open spec fn is_sync(log: Log) -> bool {
    &&& log.is_event("Sync(uint112,uint112)"@)
    &&& log.data@.len() >= 64
    &&& log.spec_key() is Some
}

/// Decode a UniV2 `Sync(uint112,uint112)` log into a [`PoolEvent`]. Returns `None` for any other
/// event or an incomplete log.
pub fn decode_sync(log: &Log) -> (r: Option<PoolEvent>)
    ensures
        r is Some <==> is_sync(*log),
        r matches Some(ev) ==> ev.pool == log.address && log.spec_key() == Some(
            (ev.block, ev.log_index),
        ) && match ev.kind {
            EventKind::SyncV2 { reserve0, reserve1 } => reserves_in(log.data@, reserve0, reserve1),
            _ => false,
        },
{
    if !log.has_topic("Sync(uint112,uint112)") || log.data.len() < 64 {
        return None;
    }
    match log.key() {
        None => None,
        Some((block, log_index)) => Some(
            PoolEvent {
                pool: log.address,
                block,
                log_index,
                kind: EventKind::SyncV2 {
                    reserve0: word(log.data.as_slice(), 0),
                    reserve1: word(log.data.as_slice(), 1),
                },
            },
        ),
    }
}

/// The pool state that a `getReserves()` call returned.
pub fn decode_reserves(raw: &[u8]) -> (r: Result<PoolState, SourceError>)
    ensures
        match r {
            Ok(PoolState::UniV2 { reserve0, reserve1 }) => raw@.len() >= 64 && reserves_in(
                raw@,
                reserve0,
                reserve1,
            ),
            Ok(_) => false,
            Err(SourceError::Rpc(text)) => raw@.len() < 64 && text@ == "getReserves returned "@
                + decimal_text(raw@.len() as int) + " bytes"@,
            Err(_) => false,
        },
{
    if raw.len() < 64 {
        return Err(
            SourceError::Rpc(
                "getReserves returned ".to_owned().concat(
                    decimal(raw.len() as u64).as_str(),
                ).concat(" bytes"),
            ),
        );
    }
    Ok(PoolState::UniV2 { reserve0: word(raw, 0), reserve1: word(raw, 1) })
}

} // verus!
