//! Options for writes and reads. The engine-wide options, which carry floating-point
//! tuning knobs and an environment, live with the program around the library.
use vstd::prelude::*;

use crate::snapshot::Snapshot;

verus! {

/// When the write-ahead log is synced.
#[derive(Debug, Clone, Copy, PartialEq, Eq, Structural)]
pub enum WalSyncMode {
    Never,
    PerWrite,
}

/// Per-write options.
#[derive(Debug, Clone, Copy, PartialEq, Eq, Structural)]
pub struct WriteOptions {
    pub sync: bool,
    pub disable_wal: bool,
}

impl Default for WriteOptions {
    fn default() -> (r: Self)
        ensures
            !r.sync,
            !r.disable_wal,
    {
        WriteOptions { sync: false, disable_wal: false }
    }
}

/// Per-read options.
#[derive(Debug, Clone, Copy, PartialEq, Eq, Structural)]
pub struct ReadOptions {
    pub verify_checksums: bool,
    pub fill_cache: bool,
    pub total_order_seek: bool,
    pub snapshot: Option<Snapshot>,
}

impl Default for ReadOptions {
    fn default() -> (r: Self)
        ensures
            r.verify_checksums,
            r.fill_cache,
            !r.total_order_seek,
            r.snapshot is None,
    {
        ReadOptions { verify_checksums: true, fill_cache: true, total_order_seek: false, snapshot: None }
    }
}

impl ReadOptions {
    /// The sequence a read with these options sees: the snapshot's, or else `last_sequence`.
    pub open spec fn read_seq_spec(&self, last_sequence: u64) -> u64 {
        match self.snapshot {
            Some(s) => s.spec_read_seq(),
            None => last_sequence,
        }
    }

    /// The sequence a read with these options sees: the snapshot's, or else `last_sequence`.
    pub fn read_seq_or(&self, last_sequence: u64) -> (r: u64)
        ensures
            r == self.read_seq_spec(last_sequence),
    {
        match &self.snapshot {
            Some(s) => s.read_seq(),
            None => last_sequence,
        }
    }
}

} // verus!
