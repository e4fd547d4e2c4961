//! Core of a blockchain event indexer for the Verbeth encrypted messaging
//! protocol.
//!
//! The library holds the verified heart of the indexer: the store model with
//! its per-stream sequencer and checkpoint, the event processor, the raw-log
//! decoder, the retry queue, and the decision logic of the backfill and
//! subscription workers. All I/O — the embedded database file, the JSON-RPC
//! transport, the HTTP health endpoint — lives outside the library and hands
//! it plain values.

pub mod backfill;
pub mod decode;
pub mod error;
pub mod events;
pub mod health;
pub mod laws;
pub mod models;
pub mod processor;
pub mod retry_queue;
pub mod store;
pub mod subscriber;
pub mod supervisor;
