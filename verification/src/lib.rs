//! An append-only store for job payloads, kept in numbered segment files.
//!
//! The crate holds everything the store decides: the byte layout of a segment
//! file, how the segments found on disk are read back into an index, where the
//! next body goes, when a new segment is started, and whether the bytes that
//! were read are the bytes that were written. It performs no input or output
//! itself: a caller carries out the reads and writes it asks for and hands
//! back what came of them.

pub mod accounting;
pub mod bytes;
pub mod checksum;
pub mod digits;
pub mod disk;
pub mod effects;
pub mod error;
pub mod format;
pub mod history;
pub mod job;
pub mod laws;
pub mod model;
pub mod names;
pub mod recovery;
pub mod restart;
pub mod scan;
pub mod store;
pub mod sums;
pub mod text;
