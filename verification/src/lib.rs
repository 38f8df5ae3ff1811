pub mod book;
pub mod matching;
pub mod error;
pub mod laws;
pub mod level;
pub mod manager;
pub mod order;
pub mod snapshot;
pub mod stats;
pub mod sums;
pub mod trade;
pub mod types;
