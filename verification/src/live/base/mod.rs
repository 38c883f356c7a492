//! Base-chain live streaming: Flashblocks preconfirmations, sealed-block reconciliation, and
//! pool state kept from logs.
pub mod check_laws;
pub mod dual;
pub mod dual_laws;
pub mod flashblocks;
pub mod groundtruth;
pub mod loader;
pub mod price;
pub mod price_laws;
pub mod probe;
pub mod read_laws;
pub mod scan;
pub mod status;
pub mod synced;
pub mod v3state;
pub mod verify;
pub mod v3sync;
pub mod v3sync_laws;
