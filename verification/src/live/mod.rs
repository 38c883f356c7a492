//! Live pool state: events, ordered replay, and the engine that keeps a registry current.
pub mod abi;
pub mod base;
pub mod bench;
pub mod engine;
pub mod event;
pub mod event_laws;
pub mod reconcile;
pub mod registry;
pub mod source;
pub mod ws;
