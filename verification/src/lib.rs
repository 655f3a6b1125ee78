//! Execution logic for an order-book driven trading strategy: market-data
//! bookkeeping, microstructure signals, order decisions, a simulated matching
//! venue and performance accounting, all over fixed-point integer prices,
//! quantities and ratios.

pub mod fixed;
pub mod lookup;
pub mod types;
pub mod config;
pub mod clock;
pub mod random;
pub mod market_data;
pub mod signals;
pub mod decision;
pub mod exchange;
pub mod performance;
pub mod execution;
pub mod fill_analytics;
pub mod report;
pub mod laws;
