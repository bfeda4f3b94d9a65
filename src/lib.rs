//! An L2 order book fed by snapshot and incremental updates, with cached
//! best-of-book extremes, a fixed-point price type, a byte-level feed decoder
//! and latency statistics for the notification consumer.

pub mod decimal;
pub mod types;
pub mod orderbook;
pub mod strategy;
pub mod parser;
