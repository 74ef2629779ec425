//! Transactions reading the engine: a read or scan inside a transaction sees the
//! engine at the transaction's snapshot, with the transaction's own writes over it.
use vstd::prelude::*;

use crate::bound::KeyBound;
use crate::cache::block_cache::BlockCache;
use crate::db_state::{
    cache_faithful, get_opt, index_total, lookup_budget, opt_bytes_view, scan_children, scan_opt, sorted_versions,
    spec_lookup, tables_wf, all_tables, DbState,
};
use crate::error::{Error, Result};
use crate::iterator::merge_iterator::merged;
use crate::memtable::{rows_view, visible_rows, EntryView};
use crate::metrics::Metrics;
use crate::mvcc::transaction::{last_write, overlay_writes, Transaction, TxnRead};
use crate::options::ReadOptions;
use crate::snapshot::Snapshot;
use crate::util::sorted_map::{keys_increasing, pairs_map, pairs_view};

verus! {

/// The read options of a transaction's reads: its snapshot, filling the block cache.
fn snapshot_read_options(read_seq: u64) -> (o: ReadOptions)
    ensures
        o.fill_cache,
        o.read_seq_spec(0) == read_seq,
        o.snapshot matches Some(s) && s.spec_read_seq() == read_seq,
{
    ReadOptions { verify_checksums: true, fill_cache: true, total_order_seek: false, snapshot: Some(Snapshot::new(read_seq)) }
}

/// A read of `key` inside a transaction: `Err(Closed)` once it is over; the
/// transaction's own last write of the key when it has one; otherwise the key is recorded
/// as read and the engine is read at the transaction's snapshot.
pub fn transaction_get(
    txn: &mut Transaction,
    state: &DbState,
    key: &[u8],
    block_cache: Option<&mut BlockCache>,
    metrics: &mut Metrics,
) -> (r: Result<Option<Vec<u8>>>)
    requires
        old(txn).wf(),
        state.wf(),
        tables_wf(*state),
        block_cache matches Some(c) ==> c.wf() && c.spec_stats().hits + lookup_budget(*state) < u64::MAX
            && c.spec_stats().misses + lookup_budget(*state) < u64::MAX,
    ensures
        final(txn).wf(),
        final(txn).spec_read_seq() == old(txn).spec_read_seq(),
        final(txn).is_closed() == old(txn).is_closed(),
        final(txn).writes() == old(txn).writes(),
        final(txn).read_ranges() == old(txn).read_ranges(),
        block_cache matches Some(c) ==> final(c).wf() && final(c).capacity() == c.capacity(),
        old(txn).is_closed() ==> r matches Err(Error::Closed),
        !old(txn).is_closed() ==> match last_write(old(txn).writes(), key@) {
            Some(rec) => (r matches Ok(v) && opt_bytes_view(v) == rec) && final(txn).read_keys() == old(txn).read_keys(),
            None => final(txn).read_keys().to_set() == old(txn).read_keys().to_set().insert(key@)
                && (!state.closed && (block_cache is None || (block_cache matches Some(c) && cache_faithful(c.cached(), *state)))
                ==> match spec_lookup(*state, key@, old(txn).spec_read_seq()) {
                    None => r is Err,
                    Some(v) => r matches Ok(x) && opt_bytes_view(x) == v,
                }),
        },
{
    match txn.get(key) {
        Err(e) => Err(e),
        Ok(TxnRead::Local(v)) => Ok(v),
        Ok(TxnRead::Snapshot) => {
            let opts = snapshot_read_options(txn.read_seq());
            get_opt(state, key, &opts, block_cache, metrics)
        },
    }
}

/// A scan of `[lower, upper]` inside a transaction: `Err(Closed)` once it is over;
/// otherwise the range is recorded as read, and the rows are the engine's at the
/// transaction's snapshot with the transaction's own writes in range applied over them,
/// in key order.
pub fn transaction_scan(
    txn: &mut Transaction,
    state: &DbState,
    lower: &KeyBound,
    upper: &KeyBound,
    block_cache: Option<&mut BlockCache>,
) -> (r: Result<Vec<(Vec<u8>, Vec<u8>)>>)
    requires
        old(txn).wf(),
        state.wf(),
        block_cache matches Some(c) ==> c.wf() && c.spec_stats().hits + index_total(all_tables(*state)) < u64::MAX
            && c.spec_stats().misses + index_total(all_tables(*state)) < u64::MAX,
    ensures
        final(txn).wf(),
        final(txn).spec_read_seq() == old(txn).spec_read_seq(),
        final(txn).is_closed() == old(txn).is_closed(),
        final(txn).writes() == old(txn).writes(),
        final(txn).read_keys() == old(txn).read_keys(),
        block_cache matches Some(c) ==> final(c).wf() && final(c).capacity() == c.capacity(),
        old(txn).is_closed() ==> (r matches Err(Error::Closed) && final(txn).read_ranges() == old(txn).read_ranges()),
        !old(txn).is_closed() ==> final(txn).read_ranges() == old(txn).read_ranges().push((lower@, upper@)),
        !old(txn).is_closed() && !state.closed && (block_cache is None || (block_cache matches Some(c) && cache_faithful(c.cached(), *state)))
            ==> match scan_children(*state) {
                None => r is Err,
                Some(cs) => r matches Ok(rows) && keys_increasing(pairs_view(rows@))
                    && exists|sorted: Seq<Seq<EntryView>>| #[trigger] sorted_versions(sorted, cs)
                        && pairs_map(pairs_view(rows@)) == overlay_writes(
                            pairs_map(visible_rows(merged(sorted), lower@, upper@, old(txn).spec_read_seq())),
                            old(txn).writes(), lower@, upper@),
            },
{
    match txn.begin_scan(lower, upper) {
        Err(e) => return Err(e),
        Ok(()) => {},
    }
    let opts = snapshot_read_options(txn.read_seq());
    let rows = match scan_opt(state, lower.duplicate(), upper.duplicate(), &opts, block_cache) {
        Ok(rows) => rows,
        Err(e) => return Err(e),
    };
    proof {
        assert(pairs_view(rows@) =~= rows_view(rows@));
    }
    Ok(txn.scan_overlay(lower, upper, rows))
}

} // verus!
