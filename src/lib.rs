//! In-memory limit order book matching engine with price-time priority,
//! execution reports, a position and PnL ledger, and latency tracking.

pub mod book;
pub mod types;
pub mod engine;
pub mod ledger;
pub mod latency;
pub mod market;
pub mod connector;
pub mod metrics;
pub mod paper;
pub mod sparse_vector;
