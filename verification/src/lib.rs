//! A log-structured key-value engine: an append-only record log and an
//! in-memory index from each live key to the place of its latest value.
//!
//! The engine does no input or output. The log is a run of bytes in memory;
//! the host reads the log file into it and writes to the file what the store
//! appends.
//!
//! - [`pattern`] finds a token in a run of bytes.
//! - [`codec`] is the record format: `encode` and `decode_all`.
//! - [`log`] is the append-only log.
//! - [`index`] is the map from keys to the places of their values.
//! - [`indexer`] folds the log into the index, from a cursor on.
//! - [`store`] joins them: `set`, `delete`, `get`, `compact`.
//! - [`compactor`] writes the live records of a log to a fresh one.
//! - [`model`] says what a log means, and [`laws`] what holds of every log.
//! - [`cell`] is the write-once cell of the configuration.

pub mod cell;
pub mod codec;
pub mod compactor;
pub mod config;
pub mod error;
pub mod index;
pub mod indexer;
pub mod laws;
pub mod log;
pub mod model;
pub mod pattern;
pub mod store;

pub use config::Config;
pub use error::StoreError;
pub use index::IndexEntry;
pub use log::AppendLog;
pub use store::KeyValueStore;
