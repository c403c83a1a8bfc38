//! A persistent, embedded key-value store organised as an append-only log
//! split into immutable segments, with an in-memory index per segment,
//! per-record checksums, an on-disk segment chain, and a compactor that
//! folds the closed segments into a single fresh segment.
//!
//! Every segment file is modelled here as its full byte image; the engine
//! appends to, parses and links those images, and callers persist them.

pub mod checksum;
pub mod codec;
pub mod endian;
pub mod error;
pub mod index;
pub mod kv;
pub mod laws;
pub mod names;
pub mod service;
pub mod store;

pub use crate::error::DbError;
pub use crate::kv::{ByteString, KeyValue};
pub use crate::store::DataSgment;
pub use crate::service::{LogCompressor, RustDB};
