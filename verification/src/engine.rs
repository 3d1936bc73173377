//! The storage engine: write-ahead log, multi-version records over an LSM tree, crash recovery
//! and single-node Percolator transactions.

pub mod atomicity;
pub mod batch;
pub mod checksum;
pub mod clock;
pub mod commit;
pub mod db;
pub mod durability;
pub mod encoding;
pub mod error;
pub mod finite;
pub mod grouping;
pub mod integrity;
pub mod isolation;
pub mod keys;
pub mod locks;
pub mod manifest;
pub mod memtable;
pub mod merged;
pub mod mvcc;
pub mod options;
pub mod percolator;
pub mod range;
pub mod recovery;
pub mod scan;
pub mod sstable;
pub mod wal;
pub mod writes;
