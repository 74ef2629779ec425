use vstd::multiset::Multiset;
use vstd::prelude::*;

use crate::error::Result;
use crate::key::{ikey_lt, internal_key_less, InternalKey, InternalKeyView};
use crate::memtable::{entries_view, lower_bound, EntryView, ValueRecord};

verus! {

/// A cursor over entries in internal-key order.
pub trait StorageIterator: Sized {
    /// The entries still to come, in order; the first is the current one.
    spec fn remaining(&self) -> Seq<EntryView>;

    /// What would remain after `seek(key)` from the present state.
    spec fn after_seek(&self, key: InternalKeyView) -> Seq<EntryView>;

    /// Internal consistency of the cursor.
    spec fn inv(&self) -> bool;

    /// Whether `next` and `seek` never fail from now on.
    spec fn infallible(&self) -> bool;

    fn is_valid(&self) -> (r: bool)
        requires
            self.inv(),
        ensures
            r == (self.remaining().len() > 0),
    ;

    fn key(&self) -> (r: &InternalKey)
        requires
            self.inv(),
            self.remaining().len() > 0,
        ensures
            r@ == self.remaining()[0].0,
    ;

    fn value(&self) -> (r: &ValueRecord)
        requires
            self.inv(),
            self.remaining().len() > 0,
        ensures
            r@ == self.remaining()[0].1,
    ;

    /// Moves past the current entry; does nothing when exhausted.
    fn next(&mut self) -> (r: Result<()>)
        requires
            old(self).inv(),
        ensures
            final(self).inv(),
            r is Ok ==> final(self).remaining() == if old(self).remaining().len() > 0 {
                old(self).remaining().drop_first()
            } else {
                old(self).remaining()
            },
            old(self).infallible() ==> r is Ok && final(self).infallible(),
    ;

    /// Moves to the first entry whose key is not below `key`.
    fn seek(&mut self, key: &InternalKey) -> (r: Result<()>)
        requires
            old(self).inv(),
        ensures
            final(self).inv(),
            r is Ok ==> final(self).remaining() == old(self).after_seek(key@),
            old(self).infallible() ==> r is Ok && final(self).infallible(),
    ;
}

/// An iterator over an owned list of entries, sorted on construction.
#[derive(Debug)]
pub struct EntryIterator {
    entries: Vec<(InternalKey, ValueRecord)>,
    index: usize,
}

/// Entries sorted by internal key, equal keys allowed.
pub open spec fn sorted_nonstrict(s: Seq<EntryView>) -> bool {
    forall|i: int, j: int| 0 <= i < j < s.len() ==> !ikey_lt(#[trigger] s[j].0, #[trigger] s[i].0)
}

impl EntryIterator {
    /// All entries, in sorted order.
    pub closed spec fn all(&self) -> Seq<EntryView> {
        entries_view(self.entries@)
    }

    /// Sorts `entries` by internal key and positions at the first.
    pub fn new(entries: Vec<(InternalKey, ValueRecord)>) -> (it: Self)
        ensures
            it.inv(),
            it.infallible(),
            sorted_nonstrict(it.all()),
            it.all().to_multiset() == entries_view(entries@).to_multiset(),
            it.all() == stable_sort(entries_view(entries@)),
            it.remaining() == it.all(),
    {
        let sorted = sort_entries(entries);
        let it = EntryIterator { entries: sorted, index: 0 };
        assert(it.all().skip(0) =~= it.all());
        it
    }
}

/// Whether an internal key names one record: entries with the same internal key are
/// the same entry. Every version written is written once, under its own sequence number.
pub open spec fn keys_determine_records(s: Seq<EntryView>) -> bool {
    forall|i: int, j: int| 0 <= i < s.len() && 0 <= j < s.len() && (#[trigger] s[i]).0 == (#[trigger] s[j]).0 ==> s[i] == s[j]
}

/// The entries of `s` in internal-key order. When internal keys name single records
/// there is exactly one such order (see [`lemma_sorted_unique`]).
pub open spec fn key_sorted(s: Seq<EntryView>) -> Seq<EntryView> {
    choose|t: Seq<EntryView>| sorted_nonstrict(t) && t.to_multiset() == s.to_multiset()
}

/// Two arrangements of the same entries, both in internal-key order, are the same when
/// internal keys name single records.
pub proof fn lemma_sorted_unique(a: Seq<EntryView>, b: Seq<EntryView>)
    requires
        sorted_nonstrict(a),
        sorted_nonstrict(b),
        a.to_multiset() == b.to_multiset(),
        keys_determine_records(a),
    ensures
        a == b,
    decreases a.len(),
{
    broadcast use vstd::seq_lib::group_to_multiset_ensures, vstd::multiset::group_multiset_axioms;

    assert(a.len() == b.len()) by {
        vstd::seq_lib::to_multiset_len(a);
        vstd::seq_lib::to_multiset_len(b);
    }
    if a.len() == 0 {
        assert(a =~= b);
    } else {
        assert(b.to_multiset().count(a[0]) > 0) by {
            vstd::seq_lib::to_multiset_contains(a, a[0]);
            assert(a.contains(a[0]));
        }
        assert(b.contains(a[0])) by {
            vstd::seq_lib::to_multiset_contains(b, a[0]);
        }
        assert(a.contains(b[0])) by {
            vstd::seq_lib::to_multiset_contains(b, b[0]);
            assert(b.contains(b[0]));
            vstd::seq_lib::to_multiset_contains(a, b[0]);
        }
        let p = choose|p: int| 0 <= p < b.len() && b[p] == a[0];
        let q = choose|q: int| 0 <= q < a.len() && a[q] == b[0];
        crate::key::lemma_ikey_lt_irreflexive(b[0].0);
        crate::key::lemma_ikey_lt_irreflexive(a[0].0);
        assert(!ikey_lt(b[p].0, b[0].0));
        assert(!ikey_lt(a[q].0, a[0].0));
        crate::key::lemma_ikey_lt_total(a[0].0, b[0].0);
        assert(a[0].0 == a[q].0);
        assert(a[0] == b[0]);
        let a1 = a.drop_first();
        let b1 = b.drop_first();
        vstd::seq_lib::to_multiset_remove(a, 0);
        vstd::seq_lib::to_multiset_remove(b, 0);
        assert(a.remove(0) =~= a1);
        assert(b.remove(0) =~= b1);
        assert forall|i: int, j: int| 0 <= i < j < a1.len() implies !ikey_lt(#[trigger] a1[j].0, #[trigger] a1[i].0) by {
            assert(a1[i] == a[i + 1] && a1[j] == a[j + 1]);
        }
        assert forall|i: int, j: int| 0 <= i < j < b1.len() implies !ikey_lt(#[trigger] b1[j].0, #[trigger] b1[i].0) by {
            assert(b1[i] == b[i + 1] && b1[j] == b[j + 1]);
        }
        assert forall|i: int, j: int| 0 <= i < a1.len() && 0 <= j < a1.len() && (#[trigger] a1[i]).0 == (#[trigger] a1[j]).0 implies a1[i] == a1[j] by {
            assert(a1[i] == a[i + 1] && a1[j] == a[j + 1]);
        }
        lemma_sorted_unique(a1, b1);
        assert(a =~= b) by {
            assert forall|i: int| 0 <= i < a.len() implies a[i] == b[i] by {
                if i > 0 {
                    assert(a[i] == a1[i - 1] && b[i] == b1[i - 1]);
                }
            }
        }
    }
}

/// An arrangement of `s` in internal-key order is `key_sorted(s)`, when internal keys
/// name single records.
pub proof fn lemma_key_sorted(s: Seq<EntryView>, t: Seq<EntryView>)
    requires
        sorted_nonstrict(t),
        t.to_multiset() == s.to_multiset(),
        keys_determine_records(s),
    ensures
        t == key_sorted(s),
{
    broadcast use vstd::seq_lib::group_to_multiset_ensures, vstd::multiset::group_multiset_axioms;

    let k = key_sorted(s);
    assert(sorted_nonstrict(k) && k.to_multiset() == s.to_multiset());
    assert forall|i: int, j: int| 0 <= i < t.len() && 0 <= j < t.len() && (#[trigger] t[i]).0 == (#[trigger] t[j]).0 implies t[i] == t[j] by {
        assert(t.contains(t[i]) && t.contains(t[j]));
        vstd::seq_lib::to_multiset_contains(t, t[i]);
        vstd::seq_lib::to_multiset_contains(t, t[j]);
        vstd::seq_lib::to_multiset_contains(s, t[i]);
        vstd::seq_lib::to_multiset_contains(s, t[j]);
        let p = choose|p: int| 0 <= p < s.len() && s[p] == t[i];
        let q = choose|q: int| 0 <= q < s.len() && s[q] == t[j];
        assert(s[p].0 == s[q].0);
    }
    lemma_sorted_unique(t, k);
}

/// Where a stable insertion puts `e` into `s`: before the first entry whose key is above
/// its, after every other.
pub open spec fn stable_insert_pos(s: Seq<EntryView>, e: EntryView) -> int
    decreases s.len(),
{
    if s.len() == 0 {
        0
    } else if ikey_lt(e.0, s[0].0) {
        0
    } else {
        1 + stable_insert_pos(s.drop_first(), e)
    }
}

/// The entries of `s` in internal-key order, entries with equal keys in their order in
/// `s`: each entry in turn is put after every earlier one whose key is not above its.
pub open spec fn stable_sort(s: Seq<EntryView>) -> Seq<EntryView>
    decreases s.len(),
{
    if s.len() == 0 {
        s
    } else {
        let t = stable_sort(s.drop_last());
        t.insert(stable_insert_pos(t, s.last()), s.last())
    }
}

proof fn lemma_stable_insert_pos(s: Seq<EntryView>, e: EntryView, p: int)
    requires
        0 <= p <= s.len(),
        forall|j: int| 0 <= j < p ==> !ikey_lt(e.0, #[trigger] s[j].0),
        p < s.len() ==> ikey_lt(e.0, s[p].0),
    ensures
        stable_insert_pos(s, e) == p,
    decreases s.len(),
{
    if s.len() > 0 && p > 0 {
        let t = s.drop_first();
        assert forall|j: int| 0 <= j < p - 1 implies !ikey_lt(e.0, #[trigger] t[j].0) by {
            assert(t[j] == s[j + 1]);
        }
        if p < s.len() {
            assert(t[p - 1] == s[p]);
        }
        assert(!ikey_lt(e.0, s[0].0));
        lemma_stable_insert_pos(t, e, p - 1);
    }
}

/// Sorts entries by internal key (insertion sort; entries with equal keys keep their
/// relative order).
pub fn sort_entries(entries: Vec<(InternalKey, ValueRecord)>) -> (r: Vec<(InternalKey, ValueRecord)>)
    ensures
        sorted_nonstrict(entries_view(r@)),
        entries_view(r@).to_multiset() == entries_view(entries@).to_multiset(),
        entries_view(r@) == stable_sort(entries_view(entries@)),
{
    broadcast use vstd::seq_lib::group_to_multiset_ensures, vstd::multiset::group_multiset_axioms, vstd::multiset::group_multiset_properties;

    let ghost src = entries_view(entries@);
    let mut input = entries;
    let mut out: Vec<(InternalKey, ValueRecord)> = Vec::new();
    let ghost mut k: int = 0;
    proof {
        assert(entries_view(out@) =~= Seq::<EntryView>::empty());
        assert(src.subrange(0, 0) =~= Seq::<EntryView>::empty());
        assert(entries_view(input@) =~= src.subrange(0, src.len() as int));
    }
    while input.len() > 0
        invariant
            sorted_nonstrict(entries_view(out@)),
            entries_view(out@).to_multiset().add(entries_view(input@).to_multiset()) == src.to_multiset(),
            0 <= k <= src.len(),
            entries_view(input@) == src.subrange(k, src.len() as int),
            entries_view(out@) == stable_sort(src.subrange(0, k)),
        decreases input@.len(),
    {
        let ghost before_in = entries_view(input@);
        let e = input.remove(0);
        proof {
            assert(entries_view(input@) =~= before_in.drop_first());
            assert(before_in =~= seq![before_in[0]] + before_in.drop_first());
            vstd::seq_lib::lemma_multiset_commutative(seq![before_in[0]], before_in.drop_first());
            assert(seq![before_in[0]].to_multiset() =~= Multiset::singleton(before_in[0])) by {
                assert(seq![before_in[0]] =~= Seq::<EntryView>::empty().push(before_in[0]));
                vstd::seq_lib::to_multiset_build(Seq::<EntryView>::empty(), before_in[0]);
                vstd::seq_lib::to_multiset_len(Seq::<EntryView>::empty());
            }
        }
        let ghost s = entries_view(out@);
        let mut p: usize = 0;
        while p < out.len() && !internal_key_less(&e.0, &out[p].0)
            invariant
                s == entries_view(out@),
                p <= s.len(),
                forall|j: int| 0 <= j < p ==> !ikey_lt(e.0@, #[trigger] s[j].0),
            decreases s.len() - p,
        {
            p = p + 1;
        }
        let ghost ev: EntryView = (e.0@, e.1@);
        proof {
            assert(ev == before_in[0]);
            assert(before_in[0] == src[k]);
            lemma_stable_insert_pos(s, ev, p as int);
            let pre = src.subrange(0, k + 1);
            assert(pre.drop_last() =~= src.subrange(0, k));
            assert(pre.last() == ev);
            assert(entries_view(input@) =~= src.subrange(k + 1, src.len() as int));
        }
        out.insert(p, e);
        proof {
            k = k + 1;
            assert(entries_view(out@) =~= s.insert(p as int, ev));
            vstd::seq_lib::to_multiset_insert(s, p as int, ev);
            let t = entries_view(out@);
            assert forall|i: int, j: int| 0 <= i < j < t.len() implies !ikey_lt(#[trigger] t[j].0, #[trigger] t[i].0) by {
                if j == p {
                    assert(!ikey_lt(e.0@, s[i].0));
                } else if i == p {
                    // e < s[p] <= s[j - 1]
                    if p < s.len() {
                        assert(ikey_lt(e.0@, s[p as int].0));
                        if ikey_lt(s[j - 1].0, e.0@) {
                            if j - 1 > p {
                                assert(!ikey_lt(s[j - 1].0, s[p as int].0));
                            }
                            crate::key::lemma_ikey_lt_asymmetric(e.0@, s[p as int].0);
                            crate::key::lemma_ikey_lt_transitive(s[j - 1].0, e.0@, s[p as int].0);
                        }
                    }
                } else if i < p && j > p {
                    assert(!ikey_lt(s[j - 1].0, s[i].0));
                } else if i > p {
                    assert(!ikey_lt(s[j - 1].0, s[i - 1].0));
                }
            }
        }
    }
    proof {
        assert(entries_view(input@) =~= Seq::<EntryView>::empty());
        assert(Seq::<EntryView>::empty().to_multiset() =~= Multiset::empty());
        assert(src.subrange(0, k) =~= src);
    }
    out
}

impl StorageIterator for EntryIterator {
    closed spec fn remaining(&self) -> Seq<EntryView> {
        self.all().skip(self.index as int)
    }

    closed spec fn after_seek(&self, key: InternalKeyView) -> Seq<EntryView> {
        self.all().skip(lower_bound(self.all(), key) as int)
    }

    closed spec fn inv(&self) -> bool {
        self.index <= self.entries@.len()
    }

    closed spec fn infallible(&self) -> bool {
        true
    }

    fn is_valid(&self) -> (r: bool) {
        self.index < self.entries.len()
    }

    fn key(&self) -> (r: &InternalKey) {
        &self.entries[self.index].0
    }

    fn value(&self) -> (r: &ValueRecord) {
        &self.entries[self.index].1
    }

    fn next(&mut self) -> (r: Result<()>) {
        if self.index < self.entries.len() {
            self.index = self.index + 1;
            assert(self.remaining() =~= old(self).remaining().drop_first());
        }
        Ok(())
    }

    fn seek(&mut self, key: &InternalKey) -> (r: Result<()>) {
        let ghost s = self.all();
        let mut i: usize = 0;
        assert(s.skip(0) =~= s);
        while i < self.entries.len() && internal_key_less(&self.entries[i].0, key)
            invariant
                s == self.all(),
                i <= s.len(),
                lower_bound(s, key@) == i + lower_bound(s.skip(i as int), key@),
            decreases s.len() - i,
        {
            proof {
                assert(s.skip(i as int).drop_first() =~= s.skip(i + 1));
            }
            i = i + 1;
        }
        proof {
            if i < s.len() {
                assert(s.skip(i as int)[0] == s[i as int]);
            }
        }
        self.index = i;
        Ok(())
    }
}

} // verus!
