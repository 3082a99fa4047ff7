//! Core of a log-structured merge-tree storage engine's read path: the block
//! codec used inside sorted-string tables, the SST layout and builder, the
//! in-memory write buffer, and the family of ordered-key iterators that
//! produce a single sorted stream from many overlapping sources.

pub mod block;
pub mod bytes_util;
pub mod checksum;
pub mod endian;
pub mod error;
pub mod iterators;
pub mod keys;
pub mod mem_table;
pub mod table;

pub use keys::compare_keys;
