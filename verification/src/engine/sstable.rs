//! Immutable sorted-string tables: the form a frozen memtable is flushed to.

pub mod block;
pub mod reader;
pub mod table;
pub mod writer;

pub use crate::engine::sstable::reader::SstReader;
pub use crate::engine::sstable::writer::SstWriter;
