//! Ingestion and versioning engine for a temporally versioned entity store.
//!
//! The library turns an ordered stream of blockchain events (block and
//! microblock appends, rollbacks) into edits of a relational history in
//! which every entity keeps all of its versions, linked by an explicit
//! successor pointer (`superseded_by`).  The current version of a key is
//! the single row whose pointer holds the `OPEN_UID` sentinel.

pub mod assets;
pub mod batcher;
pub mod candles;
pub mod config;
pub mod classifier;
pub mod error;
pub mod extract;
pub mod function_call;
pub mod laws;
pub mod ledger;
pub mod models;
pub mod pipeline;
pub mod tickers;
pub mod tuple_len;
pub mod txuid;
pub mod utils;
pub mod waves;
pub mod versioned;
