//! The client side of an optimistic transaction: its buffered writes, the keys and
//! ranges it read, and the decisions made before the engine is consulted. Reads that
//! reach the engine, and the commit itself, are carried out by the caller.
use vstd::prelude::*;

use crate::batch::{records_view, BatchRecord, RecordView, WriteBatch};
use crate::bound::{in_range, within_bounds, BoundView, KeyBound};
use crate::error::{invalid_argument, Error, Result};
use crate::key::{bytes_equal, bytes_less, bytes_lt};
use crate::memtable::btree::{opt_record_view, ValueRecord};
use crate::transaction::TransactionOptions;
use crate::util::sorted_map::{keys_increasing, pairs_map, pairs_view, SortedRows};
use crate::write_path::strictly_sorted_keys;

verus! {

/// The record of the last write of `key` among `rs`, if any.
pub open spec fn last_write(rs: Seq<RecordView>, key: Seq<u8>) -> Option<Option<Seq<u8>>>
    decreases rs.len(),
{
    if rs.len() == 0 {
        None
    } else if rs.last().0 == key {
        Some(rs.last().1)
    } else {
        last_write(rs.drop_last(), key)
    }
}

/// `m` with the writes among `rs` that fall in `[lower, upper]` applied in order.
pub open spec fn overlay_writes(m: Map<Seq<u8>, Seq<u8>>, rs: Seq<RecordView>, lower: BoundView, upper: BoundView) -> Map<Seq<u8>, Seq<u8>>
    decreases rs.len(),
{
    if rs.len() == 0 {
        m
    } else {
        let before = overlay_writes(m, rs.drop_last(), lower, upper);
        let r = rs.last();
        if in_range(r.0, lower, upper) {
            match r.1 {
                Some(v) => before.insert(r.0, v),
                None => before.remove(r.0),
            }
        } else {
            before
        }
    }
}

/// What a read inside a transaction needs: the transaction's own write, or a read of the
/// engine at the transaction's snapshot.
#[derive(Debug)]
pub enum TxnRead {
    Local(Option<Vec<u8>>),
    Snapshot,
}

/// A transaction reading at `read_seq`.
#[derive(Debug)]
pub struct Transaction {
    read_seq: u64,
    opts: TransactionOptions,
    writes: WriteBatch,
    read_keys: Vec<Vec<u8>>,
    read_ranges: Vec<(KeyBound, KeyBound)>,
    closed: bool,
}

/// The abstract value of a list of keys.
pub open spec fn keys_seq(keys: Seq<Vec<u8>>) -> Seq<Seq<u8>> {
    keys.map_values(|k: Vec<u8>| k@)
}

/// The abstract value of a list of ranges.
pub open spec fn ranges_seq(ranges: Seq<(KeyBound, KeyBound)>) -> Seq<(BoundView, BoundView)> {
    ranges.map_values(|r: (KeyBound, KeyBound)| (r.0@, r.1@))
}

impl Transaction {
    pub closed spec fn spec_read_seq(&self) -> u64 {
        self.read_seq
    }

    pub closed spec fn is_closed(&self) -> bool {
        self.closed
    }

    pub closed spec fn read_only(&self) -> bool {
        self.opts.read_only
    }

    /// The writes buffered so far, in order.
    pub closed spec fn writes(&self) -> Seq<RecordView> {
        self.writes@
    }

    /// The keys read from the engine, without repeats, in ascending order.
    pub closed spec fn read_keys(&self) -> Seq<Seq<u8>> {
        keys_seq(self.read_keys@)
    }

    /// The ranges scanned, in order.
    pub closed spec fn read_ranges(&self) -> Seq<(BoundView, BoundView)> {
        ranges_seq(self.read_ranges@)
    }

    pub closed spec fn wf(&self) -> bool {
        strictly_sorted_keys(keys_seq(self.read_keys@))
    }

    /// A transaction reading at `read_seq` with nothing buffered or read yet.
    pub fn new(read_seq: u64, opts: TransactionOptions) -> (t: Self)
        ensures
            t.wf(),
            t.spec_read_seq() == read_seq,
            t.read_only() == opts.read_only,
            !t.is_closed(),
            t.writes() == Seq::<RecordView>::empty(),
            t.read_keys() == Seq::<Seq<u8>>::empty(),
            t.read_ranges() == Seq::<(BoundView, BoundView)>::empty(),
    {
        let t = Transaction {
            read_seq,
            opts,
            writes: WriteBatch::new(),
            read_keys: Vec::new(),
            read_ranges: Vec::new(),
            closed: false,
        };
        assert(t.read_keys() =~= Seq::<Seq<u8>>::empty());
        assert(t.read_ranges() =~= Seq::<(BoundView, BoundView)>::empty());
        t
    }

    pub fn read_seq(&self) -> (r: u64)
        ensures
            r == self.spec_read_seq(),
    {
        self.read_seq
    }

    /// The transaction's own last write of `key`, if any.
    pub fn local_value(&self, key: &[u8]) -> (r: Option<ValueRecord>)
        ensures
            opt_record_view(r) == last_write(self.writes(), key@),
    {
        let records = self.writes.records();
        let ghost rs = records_view(records@);
        let mut i: usize = records.len();
        assert(rs.subrange(0, rs.len() as int) =~= rs);
        while i > 0
            invariant
                rs == self.writes(),
                rs == records_view(records@),
                i <= rs.len(),
                last_write(rs, key@) == last_write(rs.subrange(0, i as int), key@),
            decreases i,
        {
            let ghost pre = rs.subrange(0, i as int);
            assert(pre.drop_last() =~= rs.subrange(0, i - 1));
            assert(pre.last() == rs[i - 1]);
            match &records[i - 1] {
                BatchRecord::Put { key: record_key, value } => {
                    if bytes_equal(record_key.as_slice(), key) {
                        return Some(ValueRecord::Put(value.clone()));
                    }
                },
                BatchRecord::Delete { key: record_key } => {
                    if bytes_equal(record_key.as_slice(), key) {
                        return Some(ValueRecord::Delete);
                    }
                },
            }
            i = i - 1;
        }
        None
    }

    fn ensure_open(&self) -> (r: Result<()>)
        ensures
            self.is_closed() ==> r matches Err(Error::Closed),
            !self.is_closed() ==> r is Ok,
    {
        if self.closed {
            return Err(Error::Closed);
        }
        Ok(())
    }

    fn ensure_writable(&self) -> (r: Result<()>)
        ensures
            self.read_only() ==> r matches Err(Error::InvalidArgument(_)),
            !self.read_only() ==> r is Ok,
    {
        if self.opts.read_only {
            return Err(invalid_argument("read-only transaction cannot write"));
        }
        Ok(())
    }

    /// Starts a read of `key`: `Err(Closed)` once the transaction is over; the
    /// transaction's own write when it has one; otherwise the key is recorded as read and
    /// the engine must be read at the transaction's snapshot.
    pub fn get(&mut self, key: &[u8]) -> (r: Result<TxnRead>)
        requires
            old(self).wf(),
        ensures
            final(self).wf(),
            final(self).spec_read_seq() == old(self).spec_read_seq(),
            final(self).is_closed() == old(self).is_closed(),
            final(self).read_only() == old(self).read_only(),
            final(self).writes() == old(self).writes(),
            final(self).read_ranges() == old(self).read_ranges(),
            old(self).is_closed() ==> (r matches Err(Error::Closed) && final(self).read_keys() == old(self).read_keys()),
            !old(self).is_closed() ==> match last_write(old(self).writes(), key@) {
                Some(rec) => (r matches Ok(TxnRead::Local(v)) && match v {
                    Some(b) => rec == Some(b@),
                    None => rec is None,
                }) && final(self).read_keys() == old(self).read_keys(),
                None => r matches Ok(TxnRead::Snapshot)
                    && final(self).read_keys().to_set() == old(self).read_keys().to_set().insert(key@),
            },
    {
        match self.ensure_open() {
            Err(e) => return Err(e),
            Ok(()) => {},
        }
        match self.local_value(key) {
            Some(record) => return Ok(TxnRead::Local(record.into_visible_value())),
            None => {},
        }
        self.record_read_key(key);
        Ok(TxnRead::Snapshot)
    }

    /// Adds `key` to the sorted set of keys read.
    fn record_read_key(&mut self, key: &[u8])
        requires
            old(self).wf(),
        ensures
            final(self).wf(),
            final(self).read_keys().to_set() == old(self).read_keys().to_set().insert(key@),
            final(self).spec_read_seq() == old(self).spec_read_seq(),
            final(self).is_closed() == old(self).is_closed(),
            final(self).read_only() == old(self).read_only(),
            final(self).writes() == old(self).writes(),
            final(self).read_ranges() == old(self).read_ranges(),
    {
        let ghost kv = keys_seq(self.read_keys@);
        let mut p: usize = 0;
        while p < self.read_keys.len() && bytes_less(self.read_keys[p].as_slice(), key)
            invariant
                p <= self.read_keys@.len(),
                kv == keys_seq(self.read_keys@),
                forall|q: int| 0 <= q < p ==> bytes_lt(#[trigger] kv[q], key@),
            decreases self.read_keys@.len() - p,
        {
            p = p + 1;
        }
        if p < self.read_keys.len() && bytes_equal(self.read_keys[p].as_slice(), key) {
            proof {
                assert(kv[p as int] == key@);
                assert(kv.to_set().insert(key@) =~= kv.to_set());
            }
            return;
        }
        self.read_keys.insert(p, vstd::slice::slice_to_vec(key));
        proof {
            let nv = keys_seq(self.read_keys@);
            assert(nv =~= kv.insert(p as int, key@));
            if p < kv.len() {
                crate::key::lemma_bytes_lt_total(kv[p as int], key@);
            }
            assert forall|a: int, b: int| 0 <= a < b < nv.len() implies bytes_lt(#[trigger] nv[a], #[trigger] nv[b]) by {
                if a == p && b - 1 > p {
                    crate::key::lemma_bytes_lt_transitive(key@, kv[p as int], kv[b - 1]);
                }
            }
            assert(nv.to_set() =~= kv.to_set().insert(key@)) by {
                assert forall|k: Seq<u8>| nv.to_set().contains(k) <==> kv.to_set().insert(key@).contains(k) by {
                    if nv.to_set().contains(k) {
                        let m = choose|m: int| 0 <= m < nv.len() && nv[m] == k;
                        if m < p {
                            assert(kv[m] == k);
                        } else if m > p {
                            assert(kv[m - 1] == k);
                        }
                    }
                    if kv.to_set().contains(k) {
                        let m = choose|m: int| 0 <= m < kv.len() && kv[m] == k;
                        if m < p {
                            assert(nv[m] == k);
                        } else {
                            assert(nv[m + 1] == k);
                        }
                    }
                    if k == key@ {
                        assert(nv[p as int] == k);
                    }
                }
            }
        }
    }

    /// Starts a scan of `[lower, upper]`: `Err(Closed)` once the transaction is over;
    /// otherwise the range is recorded as read, and the engine must be scanned at the
    /// transaction's snapshot.
    pub fn begin_scan(&mut self, lower: &KeyBound, upper: &KeyBound) -> (r: Result<()>)
        requires
            old(self).wf(),
        ensures
            final(self).wf(),
            final(self).spec_read_seq() == old(self).spec_read_seq(),
            final(self).is_closed() == old(self).is_closed(),
            final(self).read_only() == old(self).read_only(),
            final(self).writes() == old(self).writes(),
            final(self).read_keys() == old(self).read_keys(),
            old(self).is_closed() ==> (r matches Err(Error::Closed) && final(self).read_ranges() == old(self).read_ranges()),
            !old(self).is_closed() ==> r is Ok && final(self).read_ranges() == old(self).read_ranges().push((lower@, upper@)),
    {
        match self.ensure_open() {
            Err(e) => return Err(e),
            Ok(()) => {},
        }
        self.read_ranges.push((lower.duplicate(), upper.duplicate()));
        assert(self.read_ranges() =~= old(self).read_ranges().push((lower@, upper@)));
        Ok(())
    }

    /// The rows a scan of `[lower, upper]` returns: the engine's `rows` at the snapshot,
    /// with the transaction's own writes in range applied over them, in key order.
    pub fn scan_overlay(&self, lower: &KeyBound, upper: &KeyBound, rows: Vec<(Vec<u8>, Vec<u8>)>) -> (r: Vec<(Vec<u8>, Vec<u8>)>)
        ensures
            keys_increasing(pairs_view(r@)),
            pairs_map(pairs_view(r@)) == overlay_writes(pairs_map(pairs_view(rows@)), self.writes(), lower@, upper@),
    {
        let mut map = SortedRows::new();
        let ghost rv = pairs_view(rows@);
        let mut i: usize = 0;
        assert(rv.subrange(0, 0) =~= Seq::<(Seq<u8>, Seq<u8>)>::empty());
        while i < rows.len()
            invariant
                rv == pairs_view(rows@),
                i <= rv.len(),
                map.wf(),
                map.map() == pairs_map(rv.subrange(0, i as int)),
            decreases rv.len() - i,
        {
            let (k, v) = &rows[i];
            map.insert(k.clone(), v.clone());
            proof {
                assert(rv.subrange(0, i + 1).drop_last() =~= rv.subrange(0, i as int));
                assert(rv[i as int] == (k@, v@));
            }
            i = i + 1;
        }
        assert(rv.subrange(0, i as int) =~= rv);
        let records = self.writes.records();
        let ghost rs = records_view(records@);
        let mut j: usize = 0;
        assert(rs.subrange(0, 0) =~= Seq::<RecordView>::empty());
        while j < records.len()
            invariant
                rs == records_view(records@),
                rs == self.writes(),
                j <= rs.len(),
                map.wf(),
                map.map() == overlay_writes(pairs_map(rv), rs.subrange(0, j as int), lower@, upper@),
            decreases rs.len() - j,
        {
            proof {
                assert(rs.subrange(0, j + 1).drop_last() =~= rs.subrange(0, j as int));
                assert(rs.subrange(0, j + 1).last() == rs[j as int]);
            }
            match &records[j] {
                BatchRecord::Put { key, value } => {
                    if within_bounds(key.as_slice(), lower, upper) {
                        map.insert(key.clone(), value.clone());
                    }
                },
                BatchRecord::Delete { key } => {
                    if within_bounds(key.as_slice(), lower, upper) {
                        map.remove(key.as_slice());
                    }
                },
            }
            j = j + 1;
        }
        assert(rs.subrange(0, j as int) =~= rs);
        map.into_rows()
    }

    /// Buffers a put: `Err(Closed)` once the transaction is over, `Err(InvalidArgument)`
    /// for a read-only transaction.
    pub fn put(&mut self, key: &[u8], value: &[u8]) -> (r: Result<()>)
        requires
            old(self).wf(),
        ensures
            final(self).wf(),
            final(self).spec_read_seq() == old(self).spec_read_seq(),
            final(self).is_closed() == old(self).is_closed(),
            final(self).read_only() == old(self).read_only(),
            final(self).read_keys() == old(self).read_keys(),
            final(self).read_ranges() == old(self).read_ranges(),
            old(self).is_closed() ==> r matches Err(Error::Closed),
            !old(self).is_closed() && old(self).read_only() ==> r matches Err(Error::InvalidArgument(_)),
            r is Ok <==> !old(self).is_closed() && !old(self).read_only(),
            r is Ok ==> final(self).writes() == old(self).writes().push((key@, Some(value@))),
            r is Err ==> final(self).writes() == old(self).writes(),
    {
        match self.ensure_open() {
            Err(e) => return Err(e),
            Ok(()) => {},
        }
        match self.ensure_writable() {
            Err(e) => return Err(e),
            Ok(()) => {},
        }
        self.writes.put(vstd::slice::slice_to_vec(key), vstd::slice::slice_to_vec(value));
        Ok(())
    }

    /// Buffers a delete, under the same conditions as a put.
    pub fn delete(&mut self, key: &[u8]) -> (r: Result<()>)
        requires
            old(self).wf(),
        ensures
            final(self).wf(),
            final(self).spec_read_seq() == old(self).spec_read_seq(),
            final(self).is_closed() == old(self).is_closed(),
            final(self).read_only() == old(self).read_only(),
            final(self).read_keys() == old(self).read_keys(),
            final(self).read_ranges() == old(self).read_ranges(),
            old(self).is_closed() ==> r matches Err(Error::Closed),
            !old(self).is_closed() && old(self).read_only() ==> r matches Err(Error::InvalidArgument(_)),
            r is Ok <==> !old(self).is_closed() && !old(self).read_only(),
            r is Ok ==> final(self).writes() == old(self).writes().push((key@, None)),
            r is Err ==> final(self).writes() == old(self).writes(),
    {
        match self.ensure_open() {
            Err(e) => return Err(e),
            Ok(()) => {},
        }
        match self.ensure_writable() {
            Err(e) => return Err(e),
            Ok(()) => {},
        }
        self.writes.delete(vstd::slice::slice_to_vec(key));
        Ok(())
    }

    /// Ends the transaction for a commit: `Err(Closed)` if it was already over; otherwise
    /// the read sequence, the buffered writes, the keys read and the ranges scanned, for
    /// the engine to validate and apply.
    pub fn commit(self) -> (r: Result<(u64, WriteBatch, Vec<Vec<u8>>, Vec<(KeyBound, KeyBound)>)>)
        ensures
            self.is_closed() ==> r matches Err(Error::Closed),
            !self.is_closed() ==> (r matches Ok((seq, batch, keys, ranges)) && seq == self.spec_read_seq()
                && batch@ == self.writes() && keys_seq(keys@) == self.read_keys() && ranges_seq(ranges@) == self.read_ranges()),
    {
        match self.ensure_open() {
            Err(e) => return Err(e),
            Ok(()) => {},
        }
        Ok((self.read_seq, self.writes, self.read_keys, self.read_ranges))
    }

    /// Ends the transaction without writing: `Err(Closed)` if it was already over.
    pub fn rollback(self) -> (r: Result<()>)
        ensures
            self.is_closed() ==> r matches Err(Error::Closed),
            !self.is_closed() ==> r is Ok,
    {
        self.ensure_open()
    }
}

} // verus!

verus! {

/// Read-your-own-writes inside a transaction: after a buffered put or delete of `key`,
/// reading `key` in the transaction gives what was written (nothing after a delete),
/// and a scan whose range holds `key` shows the put value, or no row after a delete,
/// whatever the engine returned.
pub proof fn lemma_txn_reads_own_write(
    rs: Seq<RecordView>,
    key: Seq<u8>,
    value: Option<Seq<u8>>,
    m: Map<Seq<u8>, Seq<u8>>,
    lower: BoundView,
    upper: BoundView,
)
    ensures
        last_write(rs.push((key, value)), key) == Some(value),
        in_range(key, lower, upper) ==> match value {
            Some(v) => overlay_writes(m, rs.push((key, value)), lower, upper).dom().contains(key)
                && overlay_writes(m, rs.push((key, value)), lower, upper)[key] == v,
            None => !overlay_writes(m, rs.push((key, value)), lower, upper).dom().contains(key),
        },
{
    assert(rs.push((key, value)).drop_last() =~= rs);
}

} // verus!
