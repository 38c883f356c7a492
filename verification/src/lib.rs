//! Cross-AMM arbitrage: exact pool mathematics, cycle search over the pool graph, live pool state
//! from event logs, and a simulator of what detected edges would have earned.
pub mod amm;
pub mod book;
pub mod book_laws;
pub mod config;
pub mod graph;
pub mod graph_laws;
pub mod live;
pub mod math;
pub mod order;
pub mod order_laws;
pub mod path;
pub mod path_laws;
pub mod pool;
pub mod rank_map;
pub mod report;
pub mod sim;
pub mod symbols;
pub mod text;
pub mod text_laws;
pub mod types;
