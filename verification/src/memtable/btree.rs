//! The ordered memtable: entries kept in a vector sorted by internal key.
use vstd::prelude::*;

use crate::bound::KeyBound;
use crate::key::{
    bytes_equal, ikey_lt, internal_key_less, lemma_ikey_lt_irreflexive, lemma_ikey_lt_total,
    lemma_ikey_lt_transitive, InternalKey, InternalKeyView, SequenceNumber, ValueType,
};
use crate::memtable::{
    entries_view, first_visible, lower_bound, rows_view, sorted_entries, spec_upsert,
    visible_rows, visible_rows_of, EntryView, lemma_upsert_sorted,
};

verus! {

/// The value of one internal key: the bytes written by a put, or a tombstone.
#[derive(Debug, Clone, PartialEq, Eq)]
pub enum ValueRecord {
    Put(Vec<u8>),
    Delete,
}

impl View for ValueRecord {
    type V = Option<Seq<u8>>;

    open spec fn view(&self) -> Option<Seq<u8>> {
        match self {
            ValueRecord::Put(v) => Some(v@),
            ValueRecord::Delete => None,
        }
    }
}

impl ValueRecord {
    /// A copy of this record.
    pub fn duplicate(&self) -> (r: ValueRecord)
        ensures
            r@ == self@,
    {
        match self {
            ValueRecord::Put(v) => ValueRecord::Put(v.clone()),
            ValueRecord::Delete => ValueRecord::Delete,
        }
    }

    /// The value a read sees: the bytes of a put, nothing for a tombstone.
    pub fn into_visible_value(self) -> (r: Option<Vec<u8>>)
        ensures
            match r {
                Some(v) => self@ == Some(v@),
                None => self@ is None,
            },
    {
        match self {
            ValueRecord::Put(v) => Some(v),
            ValueRecord::Delete => None,
        }
    }
}

/// The abstract value of an optional record.
pub open spec fn opt_record_view(r: Option<ValueRecord>) -> Option<Option<Seq<u8>>> {
    match r {
        Some(v) => Some(v@),
        None => None,
    }
}

/// A sum of two words below `m` wraps at most once.
pub proof fn lemma_wrap_once(t: int, m: int)
    requires
        0 <= t < 2 * m,
        m > 0,
    ensures
        (if t >= m { t - m } else { t }) == t % m,
{
    if t >= m {
        vstd::arithmetic::div_mod::lemma_small_mod((t - m) as nat, m as nat);
        vstd::arithmetic::div_mod::lemma_mod_add_multiples_vanish(t - m, m);
    } else {
        vstd::arithmetic::div_mod::lemma_small_mod(t as nat, m as nat);
    }
}

/// Sums of machine words wrap modulo `usize::MAX + 1`.
pub proof fn lemma_wrapping_add3(x: int, a: int, b: int, c: int)
    requires
        0 <= x <= usize::MAX,
        0 <= a <= usize::MAX,
        0 <= b <= usize::MAX,
        0 <= c <= usize::MAX,
    ensures
        ({
            let m = usize::MAX + 1;
            let ab = if a + b > usize::MAX { a + b - m } else { a + b };
            let abc = if ab + c > usize::MAX { ab + c - m } else { ab + c };
            let r = if x + abc > usize::MAX { x + abc - m } else { x + abc };
            r == (x + a + b + c) % m
        }),
{
    let m = usize::MAX + 1;
    let ab = if a + b > usize::MAX { a + b - m } else { a + b };
    let abc = if ab + c > usize::MAX { ab + c - m } else { ab + c };
    let r = if x + abc > usize::MAX { x + abc - m } else { x + abc };
    lemma_wrap_once(a + b, m);
    lemma_wrap_once(ab + c, m);
    lemma_wrap_once(x + abc, m);
    vstd::arithmetic::div_mod::lemma_add_mod_noop(a + b, c, m);
    vstd::arithmetic::div_mod::lemma_small_mod(c as nat, m as nat);
    vstd::arithmetic::div_mod::lemma_add_mod_noop(x, a + b + c, m);
    vstd::arithmetic::div_mod::lemma_small_mod(x as nat, m as nat);
    vstd::arithmetic::div_mod::lemma_add_mod_noop(x, ab + c, m);
    vstd::arithmetic::div_mod::lemma_mod_twice(ab + c, m);
}

/// A memtable holding its entries in a vector sorted strictly by internal key.
#[derive(Debug, Default)]
pub struct MemTable {
    entries: Vec<(InternalKey, ValueRecord)>,
    approximate_size: usize,
}

impl MemTable {
    /// The entries in internal-key order.
    pub closed spec fn entries_view(&self) -> Seq<EntryView> {
        entries_view(self.entries@)
    }

    /// The entries are sorted strictly by internal key.
    pub closed spec fn wf(&self) -> bool {
        sorted_entries(self.entries_view())
    }

    /// A well-formed memtable's entries are sorted strictly by internal key.
    pub proof fn lemma_wf_sorted(&self)
        requires
            self.wf(),
        ensures
            sorted_entries(self.entries_view()),
    {
    }

    pub closed spec fn spec_approximate_size(&self) -> usize {
        self.approximate_size
    }

    pub fn new() -> (t: Self)
        ensures
            t.wf(),
            t.entries_view() == Seq::<EntryView>::empty(),
            t.spec_approximate_size() == 0,
    {
        let t = MemTable { entries: Vec::new(), approximate_size: 0 };
        assert(t.entries_view() =~= Seq::<EntryView>::empty());
        t
    }

    /// Inserts `(key, value)` at its sorted position, replacing the value of an equal
    /// internal key.
    fn upsert(&mut self, key: InternalKey, value: ValueRecord)
        requires
            old(self).wf(),
        ensures
            final(self).wf(),
            final(self).entries_view() == spec_upsert(old(self).entries_view(), (key@, value@)),
            final(self).approximate_size == old(self).approximate_size,
    {
        let ghost s = self.entries_view();
        let mut i: usize = 0;
        assert(s.skip(0) =~= s);
        while i < self.entries.len() && internal_key_less(&self.entries[i].0, &key)
            invariant
                s == entries_view(self.entries@),
                i <= s.len(),
                lower_bound(s, key@) == i + lower_bound(s.skip(i as int), key@),
            decreases s.len() - i,
        {
            proof {
                assert(s.skip(i as int).drop_first() =~= s.skip(i + 1));
            }
            i = i + 1;
        }
        proof {
            assert(s.skip(0) =~= s);
            if i < s.len() {
                assert(!ikey_lt(s[i as int].0, key@));
                assert(s.skip(i as int)[0] == s[i as int]);
            }
            lemma_upsert_sorted(s, (key@, value@));
        }
        let ghost e: EntryView = (key@, value@);
        if i < self.entries.len() && !internal_key_less(&key, &self.entries[i].0) {
            proof {
                lemma_ikey_lt_total(key@, s[i as int].0);
            }
            self.entries.set(i, (key, value));
            assert(self.entries_view() =~= s.update(i as int, e));
        } else {
            proof {
                if i < s.len() {
                    lemma_ikey_lt_irreflexive(key@);
                }
            }
            self.entries.insert(i, (key, value));
            assert(self.entries_view() =~= s.insert(i as int, e));
        }
    }

    pub fn put(&mut self, seq: SequenceNumber, key: Vec<u8>, value: Vec<u8>)
        requires
            old(self).wf(),
        ensures
            final(self).wf(),
            final(self).entries_view() == spec_upsert(
                old(self).entries_view(),
                ((key@, seq, ValueType::Put), Some(value@)),
            ),
            final(self).spec_approximate_size() == ((old(self).spec_approximate_size() + key@.len()
                + value@.len() + vstd::layout::size_of::<InternalKey>()) % (usize::MAX + 1)),
    {
        let a = key.len();
        let b = value.len();
        let c = core::mem::size_of::<InternalKey>();
        let old_size = self.approximate_size;
        let add = a.wrapping_add(b).wrapping_add(c);
        self.upsert(InternalKey::new(key, seq, ValueType::Put), ValueRecord::Put(value));
        self.approximate_size = self.approximate_size.wrapping_add(add);
        proof {
            lemma_wrapping_add3(old_size as int, a as int, b as int, c as int);
        }
    }

    pub fn delete(&mut self, seq: SequenceNumber, key: Vec<u8>)
        requires
            old(self).wf(),
        ensures
            final(self).wf(),
            final(self).entries_view() == spec_upsert(
                old(self).entries_view(),
                ((key@, seq, ValueType::Delete), None),
            ),
            final(self).spec_approximate_size() == ((old(self).spec_approximate_size() + key@.len()
                + vstd::layout::size_of::<InternalKey>()) % (usize::MAX + 1)),
    {
        let a = key.len();
        let c = core::mem::size_of::<InternalKey>();
        let old_size = self.approximate_size;
        let add = a.wrapping_add(c);
        self.upsert(InternalKey::new(key, seq, ValueType::Delete), ValueRecord::Delete);
        self.approximate_size = self.approximate_size.wrapping_add(add);
        proof {
            lemma_wrapping_add3(old_size as int, a as int, 0, c as int);
        }
    }

    /// The record of the first entry, in internal-key order, for `key` with a sequence
    /// number at most `read_seq`.
    pub fn get(&self, key: &[u8], read_seq: SequenceNumber) -> (r: Option<ValueRecord>)
        ensures
            opt_record_view(r) == first_visible(self.entries_view(), key@, read_seq),
    {
        let ghost s = self.entries_view();
        let mut i: usize = 0;
        assert(s.skip(0) =~= s);
        while i < self.entries.len()
            invariant
                s == entries_view(self.entries@),
                i <= s.len(),
                first_visible(s, key@, read_seq) == first_visible(s.skip(i as int), key@, read_seq),
            decreases s.len() - i,
        {
            let entry = &self.entries[i];
            if bytes_equal(entry.0.user_key(), key) && entry.0.sequence() <= read_seq {
                return Some(entry.1.duplicate());
            }
            proof {
                assert(s.skip(i as int).drop_first() =~= s.skip(i + 1));
            }
            i = i + 1;
        }
        None
    }

    /// The newest visible value of each user key in range, in key order; tombstones
    /// hide older values and yield no row.
    pub fn scan(&self, lower: &KeyBound, upper: &KeyBound, read_seq: SequenceNumber) -> (r: Vec<(Vec<u8>, Vec<u8>)>)
        ensures
            rows_view(r@) == visible_rows(self.entries_view(), lower@, upper@, read_seq),
    {
        visible_rows_of(self.entries.as_slice(), lower, upper, read_seq)
    }

    pub fn approximate_size(&self) -> (r: usize)
        ensures
            r == self.spec_approximate_size(),
    {
        self.approximate_size
    }

    pub fn is_empty(&self) -> (r: bool)
        ensures
            r == (self.entries_view().len() == 0),
    {
        self.entries.len() == 0
    }

    /// A copy of the entries in internal-key order.
    pub fn entries(&self) -> (r: Vec<(InternalKey, ValueRecord)>)
        ensures
            entries_view(r@) == self.entries_view(),
    {
        crate::memtable::copy_entries(self.entries.as_slice())
    }
}

} // verus!
