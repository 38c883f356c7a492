//! Earnings simulation.
//!
//! Replays a swap-event stream and estimates realized arb profit under a latency model: when
//! our transaction lands `K` events late, the opportunity is recomputed against the pool state
//! advanced by those `K` events and only counted if still net-positive.
pub mod rng;
pub mod pdf;
pub mod chance_laws;
pub mod engine;
pub mod ledger;
