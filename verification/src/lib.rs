//! Storage core of an embedded key-value store organised as a log-structured
//! merge tree.
//!
//! Writes go to a write buffer that is backed, one record per write, by a
//! write-ahead log. A full buffer is sealed, written out as a sorted table
//! and put at the head of a chain of tables; neighbours of the chain that
//! are out of proportion are merged. A read asks the write buffer, then the
//! sealed buffers, then the tables from the youngest to the oldest, and
//! takes the first answer.
//!
//! Everything here works on byte images held in memory: a log is the bytes
//! appended so far, a table is the bytes of its two files. The embedding
//! program moves those images to and from disk.
//!
//! # Formats
//!
//! - A key is 16 bytes; keys are ordered as their bytes are.
//! - A record is one tag byte, `0` for a value and `1` for a deletion, and
//!   after the tag of a value the bytes of the value.
//! - An entry is the 16 bytes of its key, then its record.
//! - A record of the log is the length of an entry as 8 big-endian bytes,
//!   then the entry.
//! - A slot of the index of a table is 32 bytes: the key, then the offset
//!   and the length of its record among the records of the table, each as
//!   8 big-endian bytes. The slots are sorted by key, each key once.
//! - The manifest is three lists of identifiers as `bincode` encodes them.

pub mod directory;
pub mod endian;
pub mod entry;
pub mod files;
pub mod key;
pub mod lsm_tree;
pub mod memtable;
pub mod model;
pub mod sstable;
pub mod sstable_builder;
pub mod state;
pub mod wal;
pub mod write_buffer;
