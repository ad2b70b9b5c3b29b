//! An embeddable, single-process, single-writer key-value store built on the
//! log-structured merge pattern.
//!
//! The store keeps the most recent record per key in an ordered in-memory
//! buffer (the MemTable), makes every write durable through a write-ahead log
//! (WAL) before acknowledging it, and seals full MemTables into immutable
//! sorted data-block files (DBFs) served by a disk service.  All of the
//! encoding, replay, merge and lookup logic works over plain byte buffers;
//! the thin file-system shell around it lives outside this crate.

pub mod codec;
pub mod db;
pub mod disk_service;
pub mod keys;
pub mod mem_table;
pub mod util;
pub mod wal;
