//! Engine-wide counters. Each counter wraps around on overflow, as an atomic
//! `fetch_add` does.
use vstd::prelude::*;

use crate::cache::block_cache::CacheStats;

verus! {

/// `a + b` modulo `2^64`.
pub open spec fn wrap_add(a: u64, b: u64) -> u64 {
    if a + b <= u64::MAX { (a + b) as u64 } else { (a + b - u64::MAX - 1) as u64 }
}

/// Adds with wraparound.
fn add_wrapping(a: u64, b: u64) -> (r: u64)
    ensures
        r == wrap_add(a, b),
{
    if a <= u64::MAX - b {
        a + b
    } else {
        b - (u64::MAX - a) - 1
    }
}

/// A copy of the counters at one moment, with the block cache's statistics.
#[derive(Debug, Clone, Copy, Default, PartialEq, Eq, Structural)]
pub struct MetricsSnapshot {
    pub user_write_bytes: u64,
    pub wal_write_bytes: u64,
    pub wal_sync_count: u64,
    pub sst_write_bytes: u64,
    pub compaction_read_bytes: u64,
    pub compaction_write_bytes: u64,
    pub subcompaction_tasks: u64,
    pub max_subcompaction_parallelism: u64,
    pub block_cache_hits: u64,
    pub block_cache_misses: u64,
    pub bloom_useful: u64,
    pub bloom_false_positive: u64,
}

/// The live counters.
#[derive(Debug)]
pub struct Metrics {
    user_write_bytes: u64,
    wal_write_bytes: u64,
    wal_sync_count: u64,
    sst_write_bytes: u64,
    compaction_read_bytes: u64,
    compaction_write_bytes: u64,
    subcompaction_tasks: u64,
    max_subcompaction_parallelism: u64,
    bloom_useful: u64,
    bloom_false_positive: u64,
}

impl View for Metrics {
    type V = MetricsSnapshot;

    /// The counters, with the cache fields at zero.
    closed spec fn view(&self) -> MetricsSnapshot {
        MetricsSnapshot {
            user_write_bytes: self.user_write_bytes,
            wal_write_bytes: self.wal_write_bytes,
            wal_sync_count: self.wal_sync_count,
            sst_write_bytes: self.sst_write_bytes,
            compaction_read_bytes: self.compaction_read_bytes,
            compaction_write_bytes: self.compaction_write_bytes,
            subcompaction_tasks: self.subcompaction_tasks,
            max_subcompaction_parallelism: self.max_subcompaction_parallelism,
            block_cache_hits: 0,
            block_cache_misses: 0,
            bloom_useful: self.bloom_useful,
            bloom_false_positive: self.bloom_false_positive,
        }
    }
}

/// Every counter at zero.
pub open spec fn zero_snapshot() -> MetricsSnapshot {
    MetricsSnapshot {
        user_write_bytes: 0,
        wal_write_bytes: 0,
        wal_sync_count: 0,
        sst_write_bytes: 0,
        compaction_read_bytes: 0,
        compaction_write_bytes: 0,
        subcompaction_tasks: 0,
        max_subcompaction_parallelism: 0,
        block_cache_hits: 0,
        block_cache_misses: 0,
        bloom_useful: 0,
        bloom_false_positive: 0,
    }
}

impl Metrics {
    /// All counters at zero.
    pub fn new() -> (m: Self)
        ensures
            m@ == zero_snapshot(),
    {
        Metrics {
            user_write_bytes: 0,
            wal_write_bytes: 0,
            wal_sync_count: 0,
            sst_write_bytes: 0,
            compaction_read_bytes: 0,
            compaction_write_bytes: 0,
            subcompaction_tasks: 0,
            max_subcompaction_parallelism: 0,
            bloom_useful: 0,
            bloom_false_positive: 0,
        }
    }

    pub fn record_user_write(&mut self, bytes: u64)
        ensures
            final(self)@ == (MetricsSnapshot { user_write_bytes: wrap_add(old(self)@.user_write_bytes, bytes), ..old(self)@ }),
    {
        self.user_write_bytes = add_wrapping(self.user_write_bytes, bytes);
    }

    pub fn record_wal_write(&mut self, bytes: u64)
        ensures
            final(self)@ == (MetricsSnapshot { wal_write_bytes: wrap_add(old(self)@.wal_write_bytes, bytes), ..old(self)@ }),
    {
        self.wal_write_bytes = add_wrapping(self.wal_write_bytes, bytes);
    }

    pub fn record_wal_sync(&mut self)
        ensures
            final(self)@ == (MetricsSnapshot { wal_sync_count: wrap_add(old(self)@.wal_sync_count, 1), ..old(self)@ }),
    {
        self.wal_sync_count = add_wrapping(self.wal_sync_count, 1);
    }

    pub fn record_sst_write(&mut self, bytes: u64)
        ensures
            final(self)@ == (MetricsSnapshot { sst_write_bytes: wrap_add(old(self)@.sst_write_bytes, bytes), ..old(self)@ }),
    {
        self.sst_write_bytes = add_wrapping(self.sst_write_bytes, bytes);
    }

    pub fn record_compaction_read(&mut self, bytes: u64)
        ensures
            final(self)@ == (MetricsSnapshot { compaction_read_bytes: wrap_add(old(self)@.compaction_read_bytes, bytes), ..old(self)@ }),
    {
        self.compaction_read_bytes = add_wrapping(self.compaction_read_bytes, bytes);
    }

    pub fn record_compaction_write(&mut self, bytes: u64)
        ensures
            final(self)@ == (MetricsSnapshot { compaction_write_bytes: wrap_add(old(self)@.compaction_write_bytes, bytes), ..old(self)@ }),
    {
        self.compaction_write_bytes = add_wrapping(self.compaction_write_bytes, bytes);
    }

    /// Counts `tasks` more subcompaction tasks and raises the largest fan-out seen.
    pub fn record_subcompaction_tasks(&mut self, tasks: u64)
        ensures
            final(self)@ == (MetricsSnapshot {
                subcompaction_tasks: wrap_add(old(self)@.subcompaction_tasks, tasks),
                max_subcompaction_parallelism: if tasks > old(self)@.max_subcompaction_parallelism {
                    tasks
                } else {
                    old(self)@.max_subcompaction_parallelism
                },
                ..old(self)@
            }),
    {
        self.subcompaction_tasks = add_wrapping(self.subcompaction_tasks, tasks);
        if tasks > self.max_subcompaction_parallelism {
            self.max_subcompaction_parallelism = tasks;
        }
    }

    pub fn record_bloom_useful(&mut self)
        ensures
            final(self)@ == (MetricsSnapshot { bloom_useful: wrap_add(old(self)@.bloom_useful, 1), ..old(self)@ }),
    {
        self.bloom_useful = add_wrapping(self.bloom_useful, 1);
    }

    pub fn record_bloom_false_positive(&mut self)
        ensures
            final(self)@ == (MetricsSnapshot { bloom_false_positive: wrap_add(old(self)@.bloom_false_positive, 1), ..old(self)@ }),
    {
        self.bloom_false_positive = add_wrapping(self.bloom_false_positive, 1);
    }

    /// The counters now, with the block cache's hit and miss counts.
    pub fn snapshot(&self, cache_stats: CacheStats) -> (r: MetricsSnapshot)
        ensures
            r == (MetricsSnapshot { block_cache_hits: cache_stats.hits, block_cache_misses: cache_stats.misses, ..self@ }),
    {
        MetricsSnapshot {
            user_write_bytes: self.user_write_bytes,
            wal_write_bytes: self.wal_write_bytes,
            wal_sync_count: self.wal_sync_count,
            sst_write_bytes: self.sst_write_bytes,
            compaction_read_bytes: self.compaction_read_bytes,
            compaction_write_bytes: self.compaction_write_bytes,
            subcompaction_tasks: self.subcompaction_tasks,
            max_subcompaction_parallelism: self.max_subcompaction_parallelism,
            block_cache_hits: cache_stats.hits,
            block_cache_misses: cache_stats.misses,
            bloom_useful: self.bloom_useful,
            bloom_false_positive: self.bloom_false_positive,
        }
    }
}

} // verus!
