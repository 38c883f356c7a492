//! Pool discovery and fork detection: what is asked of the chain, and what is made of the
//! answers.
//!
//! 1. **Pair lookup**: for each exchange, its factory is asked for a pool of every pair of the
//!    book's tokens; what it returns goes into the official book.
//! 2. **Activity**: addresses that emitted a `Swap` are classified by their factory.
//! 3. **Fork detection by codehash**: an address that emitted an AMM event and whose code is that
//!    of a known exchange's pools is a fork, and goes into the secondary book. Unknown codehashes
//!    that occur more than once are reported as candidate new DEXes.
pub mod active;
pub mod forks;
pub mod logs;
pub mod pairs;
pub mod reply;
pub mod scan_laws;
