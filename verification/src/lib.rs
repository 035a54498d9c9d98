//! An embedded, transactional, ordered key-value store.
//!
//! Keys and values are byte strings; every write makes a new version of its
//! key at a timestamp, and a read at a timestamp observes the newest version
//! at or before it. Writes go to an append-only log of framed records before
//! they reach the mutable table of the shard that owns the key; when the log
//! is full it is closed, and the shard's table is frozen into an immutable
//! batch of columns. Transactions buffer their edits, read from a snapshot,
//! and commit through an oracle that refuses a commit whose write-set meets
//! that of a commit made since the transaction began.
//!
//! The modules, from the leaves up: [`key`] orders keys and versions;
//! [`serdes`] and [`record`] lay out values and log records as bytes; [`wal`]
//! is the log; [`index`] holds the lookups over sorted versions that
//! [`mem_table`] and [`index_batch`] share; [`iterator`] merges scans;
//! [`oracle`] hands out timestamps and validates commits;
//! [`consistent_hash`] routes keys to shards; [`db`] is the store and
//! [`transaction`] its front end.
use vstd::prelude::*;

pub mod bytes;
pub mod consistent_hash;
pub mod db;
pub mod index;
pub mod index_batch;
pub mod iterator;
pub mod key;
pub mod mem_table;
pub mod oracle;
pub mod record;
pub mod serdes;
pub mod stream;
pub mod transaction;
pub mod user;
pub mod utils;
pub mod wal;

pub use db::{Db, GetWrite};
pub use iterator::EIterator;

verus! {

/// Tunable limits of a database instance.
#[derive(Debug)]
pub struct DbOption {
    /// Byte threshold at which the active log refuses an append.
    pub max_wal_size: usize,
    /// Reserved for scheduling of compaction.
    pub immutable_chunk_num: usize,
}

} // verus!
