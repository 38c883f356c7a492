//! On-chain quoters: the source of truth that the offline simulation is held against, to the
//! wei.
//!
//! - V3 (Uniswap, Pancake): `QuoterV2.quoteExactInputSingle`.
//! - V2 (Uniswap, Pancake): `Router.getAmountsOut`.
//! - Aerodrome (stable and volatile): `Pool.getAmountOut(amountIn, tokenIn)`.
use crate::book::PoolInfo;
use crate::live::source::SourceError;
use crate::text::same_text;
use crate::types::{Address, U256};
use vstd::prelude::*;

verus! {

/// Uniswap's V3 quoter on Base.
pub open spec fn spec_uniswap_quoter_v2() -> Address {
    Address { hi: 0x3d4e44Eb, lo: 0x1374240CE5F1B871ab261CD16335B76a }
}

/// Pancake's V3 quoter on Base.
pub open spec fn spec_pancake_quoter_v2() -> Address {
    Address { hi: 0xB048Bbc1, lo: 0xEe6b733FFfCFb9e9CeF7375518e25997 }
}

/// Uniswap's V2 router on Base.
pub open spec fn spec_uni_v2_router() -> Address {
    Address { hi: 0x4752ba5D, lo: 0xBc23f44D87826276BF6Fd6b1C372aD24 }
}

/// Pancake's V2 router on Base.
pub open spec fn spec_pancake_v2_router() -> Address {
    Address { hi: 0x8cFe327C, lo: 0xEc66d1C090Dd72bd0FF11d690C33a2Eb }
}

/// Uniswap's V3 quoter on Base.
pub fn uniswap_quoter_v2() -> (r: Address)
    ensures
        r == spec_uniswap_quoter_v2(),
        r.hi == 0x3d4e44Eb,
        r.lo == 0x1374240CE5F1B871ab261CD16335B76a,
{
    Address { hi: 0x3d4e44Eb, lo: 0x1374240CE5F1B871ab261CD16335B76a }
}

/// Pancake's V3 quoter on Base.
pub fn pancake_quoter_v2() -> (r: Address)
    ensures
        r == spec_pancake_quoter_v2(),
        r.hi == 0xB048Bbc1,
        r.lo == 0xEe6b733FFfCFb9e9CeF7375518e25997,
{
    Address { hi: 0xB048Bbc1, lo: 0xEe6b733FFfCFb9e9CeF7375518e25997 }
}

/// Uniswap's V2 router on Base.
pub fn uni_v2_router() -> (r: Address)
    ensures
        r == spec_uni_v2_router(),
        r.hi == 0x4752ba5D,
        r.lo == 0xBc23f44D87826276BF6Fd6b1C372aD24,
{
    Address { hi: 0x4752ba5D, lo: 0xBc23f44D87826276BF6Fd6b1C372aD24 }
}

/// Pancake's V2 router on Base.
pub fn pancake_v2_router() -> (r: Address)
    ensures
        r == spec_pancake_v2_router(),
        r.hi == 0x8cFe327C,
        r.lo == 0xEc66d1C090Dd72bd0FF11d690C33a2Eb,
{
    Address { hi: 0x8cFe327C, lo: 0xEc66d1C090Dd72bd0FF11d690C33a2Eb }
}

/// The V3 quoter of an exchange.
pub open spec fn quoter_of(exchange: Seq<char>) -> Option<Address> {
    if exchange == "uniswap-v3"@ {
        Some(spec_uniswap_quoter_v2())
    } else if exchange == "pancakeswap-v3"@ {
        Some(spec_pancake_quoter_v2())
    } else {
        None
    }
}

/// The V2 router of an exchange.
pub open spec fn router_of(exchange: Seq<char>) -> Option<Address> {
    if exchange == "uniswap-v2"@ {
        Some(spec_uni_v2_router())
    } else if exchange == "pancakeswap-v2"@ {
        Some(spec_pancake_v2_router())
    } else {
        None
    }
}

/// The V3 quoter for a given exchange name, if we have one.
pub fn v3_quoter(exchange: &str) -> (r: Option<Address>)
    ensures
        r == quoter_of(exchange@),
{
    if same_text(exchange, "uniswap-v3") {
        Some(uniswap_quoter_v2())
    } else if same_text(exchange, "pancakeswap-v3") {
        Some(pancake_quoter_v2())
    } else {
        None
    }
}

/// The V2 router for a given exchange name, if we have one.
pub fn v2_router(exchange: &str) -> (r: Option<Address>)
    ensures
        r == router_of(exchange@),
{
    if same_text(exchange, "uniswap-v2") {
        Some(uni_v2_router())
    } else if same_text(exchange, "pancakeswap-v2") {
        Some(pancake_v2_router())
    } else {
        None
    }
}

/// Outcome of a ground-truth quote: a value, or "the chain refuses" (revert).
#[derive(Debug, Clone, Copy, PartialEq, Eq, Structural)]
pub enum GtOutcome {
    Out(U256),
    Revert,
}

/// The outcome of a router's `getAmountsOut`: the last amount.
pub fn last_amount(amounts: &[U256]) -> (r: GtOutcome)
    ensures
        r == (if amounts@.len() == 0 {
            GtOutcome::Revert
        } else {
            GtOutcome::Out(amounts@.last())
        }),
{
    let n: usize = amounts.len();
    if n == 0 {
        GtOutcome::Revert
    } else {
        GtOutcome::Out(amounts[n - 1])
    }
}

/// Who quotes a pool on chain.
#[derive(Debug, Clone, Copy, PartialEq, Eq, Structural)]
pub enum Route {
    /// A V3 quoter, asked with the pool's fee in pips.
    V3 { quoter: Address, fee: u32 },
    /// The pool itself.
    Aerodrome,
    /// A V2 router.
    V2 { router: Address },
}

/// Who quotes a pool on chain, by the family it belongs to.
pub open spec fn route_of(p: PoolInfo) -> Option<Route> {
    if p.kind@ == "uniswap_v3"@ {
        match quoter_of(p.exchange@) {
            Some(quoter) => Some(
                Route::V3 {
                    quoter,
                    fee: match p.fee_bps {
                        Some(fee) => fee,
                        None => 0,
                    },
                },
            ),
            None => None,
        }
    } else if p.exchange@ == "aerodrome"@ {
        Some(Route::Aerodrome)
    } else {
        match router_of(p.exchange@) {
            Some(router) => Some(Route::V2 { router }),
            None => None,
        }
    }
}

/// Who quotes a pool on chain, by the family it belongs to.
pub fn route(p: &PoolInfo) -> (r: Option<Route>)
    ensures
        r == route_of(*p),
{
    if same_text(p.kind.as_str(), "uniswap_v3") {
        match v3_quoter(p.exchange.as_str()) {
            Some(quoter) => Some(
                Route::V3 {
                    quoter,
                    fee: match p.fee_bps {
                        Some(fee) => fee,
                        None => 0,
                    },
                },
            ),
            None => None,
        }
    } else if same_text(p.exchange.as_str(), "aerodrome") {
        Some(Route::Aerodrome)
    } else {
        match v2_router(p.exchange.as_str()) {
            Some(router) => Some(Route::V2 { router }),
            None => None,
        }
    }
}

/// What came back of a quote call.
#[derive(Debug)]
pub enum QuoteReply {
    /// One amount.
    Amount(U256),
    /// The amounts along a path.
    Amounts(Vec<U256>),
    /// The node answered with an error: the contract reverts.
    Refused,
    /// No answer: the transport failed.
    Failed(String),
}

/// The outcome of a quote call. A contract revert is an expected "no quote"; other errors surface.
pub fn outcome(reply: QuoteReply) -> (r: Result<GtOutcome, SourceError>)
    ensures
        match reply {
            QuoteReply::Amount(x) => r == Ok::<GtOutcome, SourceError>(GtOutcome::Out(x)),
            QuoteReply::Amounts(v) => r == Ok::<GtOutcome, SourceError>(
                if v@.len() == 0 {
                    GtOutcome::Revert
                } else {
                    GtOutcome::Out(v@.last())
                },
            ),
            QuoteReply::Refused => r == Ok::<GtOutcome, SourceError>(GtOutcome::Revert),
            QuoteReply::Failed(what) => r == Err::<GtOutcome, SourceError>(SourceError::Rpc(what)),
        },
{
    match reply {
        QuoteReply::Amount(x) => Ok(GtOutcome::Out(x)),
        QuoteReply::Amounts(v) => Ok(last_amount(v.as_slice())),
        QuoteReply::Refused => Ok(GtOutcome::Revert),
        QuoteReply::Failed(what) => Err(SourceError::Rpc(what)),
    }
}

} // verus!
