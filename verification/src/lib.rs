//! An embedded, crash-safe key-value store in the Bitcask style.
//!
//! All mutations are appended to a write-ahead log of CRC-checked frames;
//! an in-memory index maps each live key to the position of its most recent
//! value inside the log. On open, the log is replayed: every complete frame
//! is recovered and any torn or corrupt suffix is truncated away.
//!
//! The crate verifies the storage engine itself: the record codec, the log
//! replay with truncation, the index, and the database facade. File handling
//! around the engine (reading and mirroring the log, fsync) is left to the
//! caller, who hands the engine plain bytes. A small whole-map string store
//! persisted in one piece lives in [`store`], beside the engine.

pub mod codec;
pub mod db;
pub mod error;
pub mod index;
pub mod store;
pub mod wal;

pub use codec::{Record, RecordKind};
pub use db::{Db, DbStats, Options};
pub use error::Error;
pub use store::KvStore;
pub use wal::{ReplayStats, Wal};
