use vstd::prelude::*;

use crate::bound::{within_bounds, BoundView, KeyBound};
use crate::bytes::Bytes;
use crate::error::Result;
use crate::key::{ikey_lt, lemma_bytes_lt_total, bytes_lt, SequenceNumber};
use crate::util::sorted_map::keys_increasing;
use crate::memtable::{
    keys_view, rows_view, scan_rows, scan_step, seen_contains, slice_to_vec_bytes, visible_rows,
    EntryView, ValueRecord,
};

use super::storage_iterator::{sorted_nonstrict, StorageIterator};

verus! {

/// The user-facing iterator: turns a stream of versions into the rows visible at a
/// sequence number, inside a key range.
pub struct DBIterator<I: StorageIterator> {
    inner: I,
    lower: KeyBound,
    upper: KeyBound,
    read_seq: SequenceNumber,
    seen: Vec<Bytes>,
    current: Option<(Bytes, Bytes)>,
}

/// The abstract value of an optional row.
pub open spec fn opt_row_view(r: Option<(Bytes, Bytes)>) -> Seq<(Seq<u8>, Seq<u8>)> {
    match r {
        Some(row) => seq![(row.0@, row.1@)],
        None => Seq::empty(),
    }
}

impl<I: StorageIterator> DBIterator<I> {
    /// The rows still to come; the first is the current one.
    pub closed spec fn rows(&self) -> Seq<(Seq<u8>, Seq<u8>)> {
        opt_row_view(self.current) + scan_rows(keys_view(self.seen@), self.inner.remaining(), self.lower@, self.upper@, self.read_seq)
    }

    pub closed spec fn inv(&self) -> bool {
        &&& self.inner.inv()
        &&& self.inner.infallible()
        &&& self.current is None ==> self.inner.remaining().len() == 0
    }

    pub fn new(inner: I, lower: KeyBound, upper: KeyBound, read_seq: SequenceNumber) -> (it: Self)
        requires
            inner.inv(),
            inner.infallible(),
        ensures
            it.inv(),
            it.rows() == visible_rows(inner.remaining(), lower@, upper@, read_seq),
    {
        let mut it = DBIterator { inner, lower, upper, read_seq, seen: Vec::new(), current: None };
        assert(keys_view(it.seen@) =~= Seq::<Seq<u8>>::empty());
        it.advance_to_next_visible();
        it
    }

    pub fn is_valid(&self) -> (r: bool)
        requires
            self.inv(),
        ensures
            r == (self.rows().len() > 0),
    {
        proof {
            if self.current is None {
                assert(self.inner.remaining() =~= Seq::<EntryView>::empty());
            }
        }
        self.current.is_some()
    }

    pub fn key(&self) -> (r: Option<&[u8]>)
        requires
            self.inv(),
        ensures
            match r {
                Some(k) => self.rows().len() > 0 && k@ == self.rows()[0].0,
                None => self.rows().len() == 0,
            },
    {
        proof {
            if self.current is None {
                assert(self.inner.remaining() =~= Seq::<EntryView>::empty());
            }
        }
        match &self.current {
            Some(row) => Some(row.0.as_slice()),
            None => None,
        }
    }

    pub fn value(&self) -> (r: Option<&[u8]>)
        requires
            self.inv(),
        ensures
            match r {
                Some(v) => self.rows().len() > 0 && v@ == self.rows()[0].1,
                None => self.rows().len() == 0,
            },
    {
        proof {
            if self.current is None {
                assert(self.inner.remaining() =~= Seq::<EntryView>::empty());
            }
        }
        match &self.current {
            Some(row) => Some(row.1.as_slice()),
            None => None,
        }
    }

    /// Moves to the next visible row.
    pub fn next(&mut self) -> (r: Result<()>)
        requires
            old(self).inv(),
        ensures
            final(self).inv(),
            r is Ok,
            final(self).rows() == if old(self).rows().len() > 0 {
                old(self).rows().drop_first()
            } else {
                old(self).rows()
            },
    {
        proof {
            if self.current is None {
                assert(self.inner.remaining() =~= Seq::<EntryView>::empty());
            }
        }
        if self.current.is_some() {
            let ghost before = self.rows();
            self.advance_to_next_visible();
            assert(self.rows() =~= before.drop_first());
        }
        Ok(())
    }

    /// All remaining rows, in order.
    pub fn collect(&mut self) -> (r: Result<Vec<(Bytes, Bytes)>>)
        requires
            old(self).inv(),
        ensures
            final(self).inv(),
            r matches Ok(rows) && rows_view(rows@) == old(self).rows(),
            final(self).rows().len() == 0,
    {
        let mut rows: Vec<(Bytes, Bytes)> = Vec::new();
        assert(rows_view(rows@) =~= Seq::<(Seq<u8>, Seq<u8>)>::empty());
        while self.is_valid()
            invariant
                self.inv(),
                rows_view(rows@) + self.rows() == old(self).rows(),
            decreases self.rows().len(),
        {
            let ghost before = self.rows();
            let k = slice_to_vec_bytes(self.key().unwrap());
            let v = slice_to_vec_bytes(self.value().unwrap());
            let ghost old_rows = rows@;
            rows.push((k, v));
            let _ = self.next();
            proof {
                assert(rows_view(rows@) =~= rows_view(old_rows).push(before[0]));
                assert(rows_view(rows@) + self.rows() =~= rows_view(old_rows) + before);
            }
        }
        assert(rows_view(rows@) + self.rows() =~= rows_view(rows@));
        Ok(rows)
    }

    /// Consumes versions from the inner iterator until one yields a visible row, or the
    /// inner iterator runs out.
    fn advance_to_next_visible(&mut self)
        requires
            old(self).inner.inv(),
            old(self).inner.infallible(),
        ensures
            final(self).inv(),
            final(self).lower == old(self).lower,
            final(self).upper == old(self).upper,
            final(self).read_seq == old(self).read_seq,
            final(self).rows() == scan_rows(keys_view(old(self).seen@), old(self).inner.remaining(), old(self).lower@, old(self).upper@, old(self).read_seq),
    {
        self.current = None;
        while self.inner.is_valid()
            invariant
                self.inner.inv(),
                self.inner.infallible(),
                self.current is None,
                self.lower == old(self).lower,
                self.upper == old(self).upper,
                self.read_seq == old(self).read_seq,
                scan_rows(keys_view(self.seen@), self.inner.remaining(), self.lower@, self.upper@, self.read_seq)
                    == scan_rows(keys_view(old(self).seen@), old(self).inner.remaining(), old(self).lower@, old(self).upper@, old(self).read_seq),
            decreases self.inner.remaining().len(),
        {
            let ghost rem = self.inner.remaining();
            let ghost seen0 = keys_view(self.seen@);
            let ghost step = scan_step(seen0, rem[0], self.lower@, self.upper@, self.read_seq);
            let key = self.inner.key().duplicate();
            let value = self.inner.value().duplicate();
            let _ = self.inner.next();
            let user_key = key.user_key();
            let visible = key.sequence() <= self.read_seq && within_bounds(user_key, &self.lower, &self.upper)
                && !seen_contains(&self.seen, user_key);
            if visible {
                self.seen.push(slice_to_vec_bytes(user_key));
                proof {
                    assert(keys_view(self.seen@) =~= seen0.push(user_key@));
                }
                match value {
                    ValueRecord::Put(v) => {
                        self.current = Some((slice_to_vec_bytes(user_key), v));
                        proof {
                            assert(opt_row_view(self.current) =~= step.1);
                        }
                        return;
                    },
                    ValueRecord::Delete => {},
                }
            }
            proof {
                assert(step.1 =~= Seq::<(Seq<u8>, Seq<u8>)>::empty());
                assert(keys_view(self.seen@) == step.0);
                assert(step.1 + scan_rows(step.0, rem.drop_first(), self.lower@, self.upper@, self.read_seq)
                    =~= scan_rows(step.0, rem.drop_first(), self.lower@, self.upper@, self.read_seq));
            }
        }
        assert(self.inner.remaining() =~= Seq::<EntryView>::empty());
    }
}

} // verus!

verus! {

proof fn lemma_scan_rows_sorted(seen: Seq<Seq<u8>>, s: Seq<EntryView>, lower: BoundView, upper: BoundView, read_seq: SequenceNumber)
    requires
        sorted_nonstrict(s),
    ensures
        keys_increasing(scan_rows(seen, s, lower, upper, read_seq)),
        forall|j: int| 0 <= j < scan_rows(seen, s, lower, upper, read_seq).len() ==> {
            let k = (#[trigger] scan_rows(seen, s, lower, upper, read_seq)[j]).0;
            &&& !seen.contains(k)
            &&& exists|i: int| 0 <= i < s.len() && s[i].0.0 == k
        },
    decreases s.len(),
{
    if s.len() > 0 {
        let e = s[0];
        let t = s.drop_first();
        let (seen1, out) = scan_step(seen, e, lower, upper, read_seq);
        assert forall|i: int, j: int| 0 <= i < j < t.len() implies !ikey_lt(#[trigger] t[j].0, #[trigger] t[i].0) by {
            assert(t[i] == s[i + 1] && t[j] == s[j + 1]);
        }
        lemma_scan_rows_sorted(seen1, t, lower, upper, read_seq);
        let tail = scan_rows(seen1, t, lower, upper, read_seq);
        let all = out + tail;
        assert(scan_rows(seen, s, lower, upper, read_seq) == all);
        assert forall|j: int| 0 <= j < tail.len() implies !seen.contains(#[trigger] tail[j].0) by {
            if seen.contains(tail[j].0) {
                let w = choose|w: int| 0 <= w < seen.len() && seen[w] == tail[j].0;
                if seen1 != seen {
                    assert(seen1[w] == seen[w]);
                }
                assert(seen1.contains(tail[j].0));
            }
        }
        assert forall|j: int| 0 <= j < all.len() implies {
            let k = (#[trigger] all[j]).0;
            &&& !seen.contains(k)
            &&& exists|i: int| 0 <= i < s.len() && s[i].0.0 == k
        } by {
            if j < out.len() {
                assert(all[j] == out[j]);
                assert(s[0].0.0 == all[j].0);
            } else {
                assert(all[j] == tail[j - out.len()]);
                let m = choose|m: int| 0 <= m < t.len() && t[m].0.0 == tail[j - out.len()].0;
                assert(s[m + 1].0.0 == all[j].0);
            }
        }
        if out.len() > 0 {
            assert(seen1 == seen.push(e.0.0));
            assert forall|j: int| 0 <= j < tail.len() implies bytes_lt(e.0.0, #[trigger] tail[j].0) by {
                let k = tail[j].0;
                let m = choose|m: int| 0 <= m < t.len() && t[m].0.0 == k;
                assert(t[m] == s[m + 1]);
                assert(!ikey_lt(s[m + 1].0, s[0].0));
                assert(seen1[seen.len() as int] == e.0.0);
                assert(k != e.0.0);
                lemma_bytes_lt_total(e.0.0, k);
            }
            assert forall|i: int, j: int| 0 <= i < j < all.len() implies bytes_lt(#[trigger] all[i].0, #[trigger] all[j].0) by {
                if i == 0 {
                    assert(all[j] == tail[j - 1]);
                } else {
                    assert(all[i] == tail[i - 1] && all[j] == tail[j - 1]);
                }
            }
        } else {
            assert(all =~= tail);
        }
    }
}

/// A scan yields each user key at most once, in ascending order: the visible rows of
/// entries sorted by internal key have strictly increasing keys.
pub proof fn lemma_visible_rows_sorted(s: Seq<EntryView>, lower: BoundView, upper: BoundView, read_seq: SequenceNumber)
    requires
        sorted_nonstrict(s),
    ensures
        keys_increasing(visible_rows(s, lower, upper, read_seq)),
{
    lemma_scan_rows_sorted(Seq::empty(), s, lower, upper, read_seq);
}

} // verus!
