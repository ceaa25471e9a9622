//! A log-structured key-value store: an append-only command log, an in-memory
//! index from keys to log positions, and compaction of superseded records.

pub mod client;
pub mod command;
pub mod compaction;
pub mod engines;
pub mod error;
pub mod index;
pub mod json;
pub mod laws;
pub mod logdir;
pub mod names;
pub mod protocol;
pub mod reader;
pub mod replay;
pub mod selection;
pub mod server;
pub mod store;
pub mod thread_pool;

pub use crate::engines::KvsEngine;
pub use crate::error::KvsError;
pub use crate::server::KvsServer;
pub use crate::store::KvStore;
