//! Engine configuration.

use vstd::prelude::*;

verus! {

/// How aggressively a group commit is pushed to stable storage.
#[derive(Debug, Clone, Copy, PartialEq, Eq, Structural)]
pub enum FsyncMode {
    /// Flush the file after each group commit.
    Fsync,
    /// Flush the drive cache too, where the platform can.
    FullFsync,
    /// No flush (tests and benchmarks only).
    Off,
}

/// The engine's settings.
#[derive(Debug, Clone)]
pub struct Options {
    /// Directory holding log segments, tables, and the manifest.
    pub data_dir: String,
    /// Freeze the active memtable once its estimated byte size reaches this.
    pub memtable_size_threshold: usize,
    /// Rotate to a new log segment once the current one exceeds this many bytes.
    pub wal_segment_size: usize,
    pub fsync_mode: FsyncMode,
}

impl Options {
    /// Defaults: a 4 MiB memtable, 64 MiB log segments, a flush after every group commit.
    pub fn new(data_dir: String) -> (o: Self)
        ensures
            o.data_dir == data_dir,
            o.memtable_size_threshold == 4 * 1024 * 1024,
            o.wal_segment_size == 64 * 1024 * 1024,
            o.fsync_mode == FsyncMode::Fsync,
    {
        Options {
            data_dir,
            memtable_size_threshold: 4 * 1024 * 1024,
            wal_segment_size: 64 * 1024 * 1024,
            fsync_mode: FsyncMode::Fsync,
        }
    }

    /// Override the memtable freeze threshold.
    pub fn with_memtable_threshold(self, bytes: usize) -> (o: Self)
        ensures
            o == (Options { memtable_size_threshold: bytes, ..self }),
    {
        let mut o = self;
        o.memtable_size_threshold = bytes;
        o
    }

    /// Override the flush mode.
    pub fn with_fsync_mode(self, mode: FsyncMode) -> (o: Self)
        ensures
            o == (Options { fsync_mode: mode, ..self }),
    {
        let mut o = self;
        o.fsync_mode = mode;
        o
    }
}

} // verus!
