//! Hummock: the core of a log-structured state store.
//!
//! Batches of ordered key/value mutations become immutable sorted tables; a
//! version manager publishes them under increasing epochs; snapshots fetch
//! the tables from the object store and read through merging iterators; a
//! compactor rewrites tables without changing what a reader sees.
//!
//! The modules, leaves first: `coding`, `key` and `value` hold the encodings;
//! `checksum` and `bloom` what guards and summarises stored bytes; `block`,
//! `table` and `builder` the format of a table; `table_iterator`, `merging`
//! and `user_iterator` the iterators; `version` and `version_manager` the
//! level set and its pins; `snapshot`, `storage`, `picker` and `compactor`
//! the store itself. `intact`, `table_order`, `read_laws`, `merge_laws`,
//! `scan_laws`, `compaction_laws` and `distinct_laws` hold what is proved of
//! them.

pub mod block;
pub mod bloom;
pub mod builder;
pub mod checksum;
pub mod coding;
pub mod compaction_laws;
pub mod compactor;
pub mod distinct_laws;
pub mod error;
pub mod intact;
pub mod key;
pub mod merge_laws;
pub mod merging;
pub mod object;
pub mod picker;
pub mod read_laws;
pub mod scan_laws;
pub mod snapshot;
pub mod storage;
pub mod table;
pub mod table_iterator;
pub mod table_order;
pub mod user_iterator;
pub mod value;
pub mod version;
pub mod version_manager;

pub use crate::checksum::ChecksumAlg;
pub use crate::error::HummockError;
pub use crate::value::HummockValue;
