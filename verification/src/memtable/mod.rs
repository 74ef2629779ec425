//! Memtables: the in-memory, mutable layer of the tree. Two representations share one
//! visible behaviour: a sorted vector and a concurrent skip list.
use vstd::prelude::*;

use crate::bound::{in_range, within_bounds, BoundView, KeyBound};
use crate::key::{
    bytes_equal, ikey_lt, lemma_ikey_lt_asymmetric, lemma_ikey_lt_irreflexive,
    lemma_ikey_lt_transitive, InternalKey, InternalKeyView, SequenceNumber, ValueType,
};

pub mod arena;
pub mod btree;
pub mod kinds;
pub mod skiplist;

pub use btree::ValueRecord;
pub use kinds::{MemTable, MemTableKind};

verus! {

/// One entry: an internal key and its record.
pub type EntryView = (InternalKeyView, Option<Seq<u8>>);

/// The abstract value of a list of entries.
pub open spec fn entries_view(es: Seq<(InternalKey, ValueRecord)>) -> Seq<EntryView> {
    es.map_values(|e: (InternalKey, ValueRecord)| (e.0@, e.1@))
}

/// Entries sorted strictly by internal key.
pub open spec fn sorted_entries(s: Seq<EntryView>) -> bool {
    forall|i: int, j: int| 0 <= i < j < s.len() ==> ikey_lt(#[trigger] s[i].0, #[trigger] s[j].0)
}

/// The number of leading entries whose key sorts before `k`.
pub open spec fn lower_bound(s: Seq<EntryView>, k: InternalKeyView) -> nat
    decreases s.len(),
{
    if s.len() == 0 {
        0
    } else if ikey_lt(s[0].0, k) {
        1 + lower_bound(s.drop_first(), k)
    } else {
        0
    }
}

/// `s` with entry `e` placed at its sorted position, replacing an entry with the same
/// internal key.
pub open spec fn spec_upsert(s: Seq<EntryView>, e: EntryView) -> Seq<EntryView> {
    let p = lower_bound(s, e.0);
    if p < s.len() && s[p as int].0 == e.0 {
        s.update(p as int, e)
    } else {
        s.insert(p as int, e)
    }
}

/// The record of the first entry for `key` whose sequence is at most `read_seq`.
pub open spec fn first_visible(s: Seq<EntryView>, key: Seq<u8>, read_seq: u64) -> Option<Option<Seq<u8>>>
    decreases s.len(),
{
    if s.len() == 0 {
        None
    } else if s[0].0.0 == key && s[0].0.1 <= read_seq {
        Some(s[0].1)
    } else {
        first_visible(s.drop_first(), key, read_seq)
    }
}

/// One step of a visible scan: an entry newer than `read_seq`, outside the range, or of
/// a user key already decided is skipped; otherwise it decides its user key, yielding a
/// row for a put and nothing for a tombstone. Gives the keys decided so far and the
/// rows this entry yields.
pub open spec fn scan_step(seen: Seq<Seq<u8>>, e: EntryView, lower: BoundView, upper: BoundView, read_seq: u64) -> (Seq<Seq<u8>>, Seq<(Seq<u8>, Seq<u8>)>) {
    let uk = e.0.0;
    if e.0.1 > read_seq || !in_range(uk, lower, upper) || seen.contains(uk) {
        (seen, Seq::empty())
    } else {
        match e.1 {
            Some(v) => (seen.push(uk), seq![(uk, v)]),
            None => (seen.push(uk), Seq::empty()),
        }
    }
}

/// The rows a visible scan yields over `s`, with the keys in `seen` already decided.
pub open spec fn scan_rows(seen: Seq<Seq<u8>>, s: Seq<EntryView>, lower: BoundView, upper: BoundView, read_seq: u64) -> Seq<(Seq<u8>, Seq<u8>)>
    decreases s.len(),
{
    if s.len() == 0 {
        Seq::empty()
    } else {
        let (seen1, out) = scan_step(seen, s[0], lower, upper, read_seq);
        out + scan_rows(seen1, s.drop_first(), lower, upper, read_seq)
    }
}

/// The rows of a visible scan over `s`: for each user key in range, in the order the
/// keys first appear, the first version visible at `read_seq` when it is a put.
pub open spec fn visible_rows(s: Seq<EntryView>, lower: BoundView, upper: BoundView, read_seq: u64) -> Seq<(Seq<u8>, Seq<u8>)> {
    scan_rows(Seq::empty(), s, lower, upper, read_seq)
}

/// The abstract value of a list of rows.
pub open spec fn rows_view(rows: Seq<(Vec<u8>, Vec<u8>)>) -> Seq<(Seq<u8>, Seq<u8>)> {
    rows.map_values(|r: (Vec<u8>, Vec<u8>)| (r.0@, r.1@))
}

/// The abstract value of a list of byte strings.
pub open spec fn keys_view(keys: Seq<Vec<u8>>) -> Seq<Seq<u8>> {
    keys.map_values(|k: Vec<u8>| k@)
}

/// Inserting at the sorted position keeps entries sorted.
pub proof fn lemma_upsert_sorted(s: Seq<EntryView>, e: EntryView)
    requires
        sorted_entries(s),
    ensures
        sorted_entries(spec_upsert(s, e)),
        lower_bound(s, e.0) <= s.len(),
        forall|i: int| 0 <= i < lower_bound(s, e.0) ==> ikey_lt(#[trigger] s[i].0, e.0),
        lower_bound(s, e.0) < s.len() ==> !ikey_lt(s[lower_bound(s, e.0) as int].0, e.0),
{
    lemma_lower_bound(s, e.0);
    let p = lower_bound(s, e.0) as int;
    let r = spec_upsert(s, e);
    if p < s.len() && s[p].0 == e.0 {
        assert forall|i: int, j: int| 0 <= i < j < r.len() implies ikey_lt(#[trigger] r[i].0, #[trigger] r[j].0) by {
            if i == p {
                assert(ikey_lt(s[i].0, s[j].0));
            } else if j == p {
                assert(ikey_lt(s[i].0, s[j].0));
            }
        }
    } else {
        assert forall|i: int, j: int| 0 <= i < j < r.len() implies ikey_lt(#[trigger] r[i].0, #[trigger] r[j].0) by {
            if i < p && j == p {
            } else if i == p {
                // e < s[p] <= s[j-1]
                assert(!ikey_lt(s[p].0, e.0));
                crate::key::lemma_ikey_lt_total(s[p].0, e.0);
                assert(ikey_lt(e.0, s[p].0));
                if j - 1 > p {
                    assert(ikey_lt(s[p].0, s[j - 1].0));
                    lemma_ikey_lt_transitive(e.0, s[p].0, s[j - 1].0);
                }
            } else if i < p && j > p {
                assert(ikey_lt(s[i].0, s[j - 1].0));
            } else if i > p {
                assert(ikey_lt(s[i - 1].0, s[j - 1].0));
            }
        }
    }
}

/// `lower_bound` counts a prefix of keys below `k`, followed (if anything follows) by a
/// key that is not below `k`.
pub proof fn lemma_lower_bound(s: Seq<EntryView>, k: InternalKeyView)
    ensures
        lower_bound(s, k) <= s.len(),
        forall|i: int| 0 <= i < lower_bound(s, k) ==> ikey_lt(#[trigger] s[i].0, k),
        lower_bound(s, k) < s.len() ==> !ikey_lt(s[lower_bound(s, k) as int].0, k),
    decreases s.len(),
{
    if s.len() > 0 && ikey_lt(s[0].0, k) {
        lemma_lower_bound(s.drop_first(), k);
        assert forall|i: int| 0 <= i < lower_bound(s, k) implies ikey_lt(#[trigger] s[i].0, k) by {
            if i > 0 {
                assert(s[i] == s.drop_first()[i - 1]);
            }
        }
    }
}

/// Whether entry `e` is a version of `key` visible at `read_seq`.
pub open spec fn visible_version(e: EntryView, key: Seq<u8>, read_seq: u64) -> bool {
    e.0.0 == key && e.0.1 <= read_seq
}

/// `first_visible` picks the record at the first index holding a visible version.
pub proof fn lemma_first_visible_index(s: Seq<EntryView>, key: Seq<u8>, read_seq: u64)
    ensures
        match first_visible(s, key, read_seq) {
            Some(v) => exists|j: int|
                0 <= j < s.len() && visible_version(#[trigger] s[j], key, read_seq) && s[j].1 == v
                    && forall|i: int| 0 <= i < j ==> !visible_version(#[trigger] s[i], key, read_seq),
            None => forall|i: int| 0 <= i < s.len() ==> !visible_version(#[trigger] s[i], key, read_seq),
        },
    decreases s.len(),
{
    if s.len() > 0 {
        lemma_first_visible_index(s.drop_first(), key, read_seq);
        let t = s.drop_first();
        if visible_version(s[0], key, read_seq) {
            assert(visible_version(s[0], key, read_seq) && s[0].1 == s[0].1);
        } else {
            match first_visible(t, key, read_seq) {
                Some(v) => {
                    let j = choose|j: int|
                        0 <= j < t.len() && visible_version(#[trigger] t[j], key, read_seq) && t[j].1 == v
                            && forall|i: int| 0 <= i < j ==> !visible_version(#[trigger] t[i], key, read_seq);
                    assert(s[j + 1] == t[j]);
                    assert forall|i: int| 0 <= i < j + 1 implies !visible_version(#[trigger] s[i], key, read_seq) by {
                        if i > 0 {
                            assert(s[i] == t[i - 1]);
                        }
                    }
                },
                None => {
                    assert forall|i: int| 0 <= i < s.len() implies !visible_version(#[trigger] s[i], key, read_seq) by {
                        if i > 0 {
                            assert(s[i] == t[i - 1]);
                        }
                    }
                },
            }
        }
    }
}

/// A point read returns the newest version visible at its sequence number: in sorted
/// entries the record found belongs to a visible version of the key, no visible version
/// of the key is newer, and when nothing is found no version is visible.
/// Reading from entries laid one after another finds the first sequence's record if it
/// has one, else the second's.
pub proof fn lemma_first_visible_concat(a: Seq<EntryView>, b: Seq<EntryView>, key: Seq<u8>, read_seq: u64)
    ensures
        first_visible(a + b, key, read_seq) == match first_visible(a, key, read_seq) {
            Some(r) => Some(r),
            None => first_visible(b, key, read_seq),
        },
    decreases a.len(),
{
    if a.len() == 0 {
        assert(a + b =~= b);
    } else {
        assert((a + b).drop_first() =~= a.drop_first() + b);
        assert((a + b)[0] == a[0]);
        lemma_first_visible_concat(a.drop_first(), b, key, read_seq);
    }
}

/// Entries none of which has user key `key` hold nothing visible for it.
pub proof fn lemma_first_visible_absent(a: Seq<EntryView>, key: Seq<u8>, read_seq: u64)
    requires
        forall|j: int| 0 <= j < a.len() ==> (#[trigger] a[j]).0.0 != key,
    ensures
        first_visible(a, key, read_seq) is None,
    decreases a.len(),
{
    if a.len() > 0 {
        assert forall|j: int| 0 <= j < a.drop_first().len() implies (#[trigger] a.drop_first()[j]).0.0 != key by {
            assert(a.drop_first()[j] == a[j + 1]);
        }
        assert(a[0].0.0 != key);
        lemma_first_visible_absent(a.drop_first(), key, read_seq);
    }
}

pub proof fn lemma_newest_visible_wins(s: Seq<EntryView>, key: Seq<u8>, read_seq: u64)
    requires
        sorted_entries(s),
    ensures
        match first_visible(s, key, read_seq) {
            Some(v) => exists|j: int|
                0 <= j < s.len() && visible_version(#[trigger] s[j], key, read_seq) && s[j].1 == v
                    && forall|i: int|
                    0 <= i < s.len() && visible_version(#[trigger] s[i], key, read_seq) ==> s[i].0.1
                        <= s[j].0.1,
            None => forall|i: int| 0 <= i < s.len() ==> !visible_version(#[trigger] s[i], key, read_seq),
        },
{
    lemma_first_visible_index(s, key, read_seq);
    if let Some(v) = first_visible(s, key, read_seq) {
        let j = choose|j: int|
            0 <= j < s.len() && visible_version(#[trigger] s[j], key, read_seq) && s[j].1 == v
                && forall|i: int| 0 <= i < j ==> !visible_version(#[trigger] s[i], key, read_seq);
        assert forall|i: int| 0 <= i < s.len() && visible_version(#[trigger] s[i], key, read_seq) implies s[i].0.1
            <= s[j].0.1 by {
            if i > j {
                assert(ikey_lt(s[j].0, s[i].0));
                crate::key::lemma_bytes_lt_irreflexive(key);
            } else if i < j {
                assert(!visible_version(s[i], key, read_seq));
            }
        }
    }
}

/// Read-your-write: after a put of `value` for `key` at `seq`, newer than or as new as
/// every version of `key` already present, a read at any `read_seq >= seq` sees `value`.
pub proof fn lemma_read_after_put(s: Seq<EntryView>, key: Seq<u8>, seq: u64, value: Seq<u8>, read_seq: u64)
    requires
        sorted_entries(s),
        forall|i: int| 0 <= i < s.len() && #[trigger] s[i].0.0 == key ==> s[i].0.1 <= seq,
        seq <= read_seq,
    ensures
        first_visible(spec_upsert(s, ((key, seq, ValueType::Put), Some(value))), key, read_seq) == Some(
            Some(value),
        ),
{
    lemma_read_after_write(s, ((key, seq, ValueType::Put), Some(value)), read_seq);
}

/// After a delete of `key` at `seq`, newer than every version of `key` already present,
/// a read at any `read_seq >= seq` finds the tombstone.
pub proof fn lemma_read_after_delete(s: Seq<EntryView>, key: Seq<u8>, seq: u64, read_seq: u64)
    requires
        sorted_entries(s),
        forall|i: int| 0 <= i < s.len() && #[trigger] s[i].0.0 == key ==> s[i].0.1 < seq,
        seq <= read_seq,
    ensures
        first_visible(spec_upsert(s, ((key, seq, ValueType::Delete), None)), key, read_seq) == Some(
            None::<Seq<u8>>,
        ),
{
    lemma_read_after_write(s, ((key, seq, ValueType::Delete), None), read_seq);
}

proof fn lemma_read_after_write(s: Seq<EntryView>, e: EntryView, read_seq: u64)
    requires
        sorted_entries(s),
        forall|i: int| 0 <= i < s.len() && #[trigger] s[i].0.0 == e.0.0 ==> (s[i].0.1 < e.0.1
            || (s[i].0.1 == e.0.1 && (e.0.2 == ValueType::Put || s[i].0.2 == ValueType::Delete))),
        e.0.1 <= read_seq,
    ensures
        first_visible(spec_upsert(s, e), e.0.0, read_seq) == Some(e.1),
{
    let key = e.0.0;
    lemma_upsert_sorted(s, e);
    let u = spec_upsert(s, e);
    let p = lower_bound(s, e.0) as int;
    assert(u[p] == e);
    lemma_first_visible_index(u, key, read_seq);
    assert forall|i: int| 0 <= i < p implies !visible_version(#[trigger] u[i], key, read_seq) by {
        assert(u[i] == s[i]);
        assert(ikey_lt(s[i].0, e.0));
        if s[i].0.0 == key {
            crate::key::lemma_bytes_lt_irreflexive(key);
        }
    }
    assert(visible_version(u[p], key, read_seq));
    match first_visible(u, key, read_seq) {
        Some(v) => {
            let j = choose|j: int|
                0 <= j < u.len() && visible_version(#[trigger] u[j], key, read_seq) && u[j].1 == v
                    && forall|i: int| 0 <= i < j ==> !visible_version(#[trigger] u[i], key, read_seq);
            if j > p {
                assert(!visible_version(u[p], key, read_seq));
            }
        },
        None => {
            assert(!visible_version(u[p], key, read_seq));
        },
    }
}

/// A write newer than a snapshot is invisible to reads at that snapshot: adding an
/// entry with a sequence above `read_seq` leaves every read at `read_seq` unchanged.
pub proof fn lemma_newer_write_invisible(s: Seq<EntryView>, e: EntryView, key: Seq<u8>, read_seq: u64)
    requires
        sorted_entries(s),
        e.0.1 > read_seq,
    ensures
        first_visible(spec_upsert(s, e), key, read_seq) == first_visible(s, key, read_seq),
{
    lemma_invisible_write(s, e, key, read_seq);
}

/// A write that is not a version of `key` visible at `read_seq` leaves every read of
/// `key` at `read_seq` unchanged.
pub proof fn lemma_invisible_write(s: Seq<EntryView>, e: EntryView, key: Seq<u8>, read_seq: u64)
    requires
        sorted_entries(s),
        !visible_version(e, key, read_seq),
    ensures
        first_visible(spec_upsert(s, e), key, read_seq) == first_visible(s, key, read_seq),
{
    lemma_upsert_sorted(s, e);
    let u = spec_upsert(s, e);
    let p = lower_bound(s, e.0) as int;
    lemma_first_visible_index(u, key, read_seq);
    lemma_first_visible_index(s, key, read_seq);
    let replaced = p < s.len() && s[p].0 == e.0;
    // index maps between s and u, skipping position p where only non-visible entries stand
    assert(!visible_version(u[p], key, read_seq));
    if replaced {
        assert(!visible_version(s[p], key, read_seq));
    }
    match first_visible(s, key, read_seq) {
        Some(v) => {
            let j = choose|j: int|
                0 <= j < s.len() && visible_version(#[trigger] s[j], key, read_seq) && s[j].1 == v
                    && forall|i: int| 0 <= i < j ==> !visible_version(#[trigger] s[i], key, read_seq);
            let ju = if replaced || j < p { j } else { j + 1 };
            assert(u[ju] == s[j]);
            assert forall|i: int| 0 <= i < ju implies !visible_version(#[trigger] u[i], key, read_seq) by {
                if i == p {
                } else if replaced || i < p {
                    assert(u[i] == s[i]);
                } else {
                    assert(u[i] == s[i - 1]);
                }
            }
            match first_visible(u, key, read_seq) {
                Some(w) => {
                    let k = choose|k: int|
                        0 <= k < u.len() && visible_version(#[trigger] u[k], key, read_seq) && u[k].1 == w
                            && forall|i: int| 0 <= i < k ==> !visible_version(#[trigger] u[i], key, read_seq);
                    if k < ju {
                        assert(!visible_version(u[k], key, read_seq));
                    } else if k > ju {
                        assert(!visible_version(u[ju], key, read_seq));
                    }
                },
                None => {
                    assert(!visible_version(u[ju], key, read_seq));
                },
            }
        },
        None => {
            match first_visible(u, key, read_seq) {
                Some(w) => {
                    let k = choose|k: int|
                        0 <= k < u.len() && visible_version(#[trigger] u[k], key, read_seq) && u[k].1 == w
                            && forall|i: int| 0 <= i < k ==> !visible_version(#[trigger] u[i], key, read_seq);
                    if k == p {
                    } else if replaced || k < p {
                        assert(u[k] == s[k]);
                        assert(!visible_version(s[k], key, read_seq));
                    } else {
                        assert(u[k] == s[k - 1]);
                        assert(!visible_version(s[k - 1], key, read_seq));
                    }
                },
                None => {},
            }
        },
    }
}

/// A copy of a list of entries.
pub fn copy_entries(es: &[(InternalKey, ValueRecord)]) -> (r: Vec<(InternalKey, ValueRecord)>)
    ensures
        entries_view(r@) == entries_view(es@),
{
    let mut out: Vec<(InternalKey, ValueRecord)> = Vec::new();
    let mut i: usize = 0;
    while i < es.len()
        invariant
            i <= es@.len(),
            entries_view(out@) == entries_view(es@.subrange(0, i as int)),
        decreases es@.len() - i,
    {
        let e = &es[i];
        let k = e.0.duplicate();
        let v = e.1.duplicate();
        let ghost before = out@;
        out.push((k, v));
        proof {
            assert(out@ == before.push((k, v)));
            assert(entries_view(out@) =~= entries_view(before).push((k@, v@)));
            assert(entries_view(es@.subrange(0, i + 1)) =~= entries_view(es@.subrange(0, i as int)).push((es@[i as int].0@, es@[i as int].1@)));
        }
        i = i + 1;
    }
    assert(es@.subrange(0, es@.len() as int) =~= es@);
    out
}

/// Whether `key` occurs in `seen`.
pub fn seen_contains(seen: &Vec<Vec<u8>>, key: &[u8]) -> (r: bool)
    ensures
        r == keys_view(seen@).contains(key@),
{
    let mut i: usize = 0;
    while i < seen.len()
        invariant
            i <= seen@.len(),
            forall|j: int| 0 <= j < i ==> seen@[j]@ != key@,
        decreases seen@.len() - i,
    {
        if bytes_equal(seen[i].as_slice(), key) {
            assert(keys_view(seen@)[i as int] == key@);
            return true;
        }
        i = i + 1;
    }
    proof {
        if keys_view(seen@).contains(key@) {
            let j = choose|j: int| 0 <= j < keys_view(seen@).len() && keys_view(seen@)[j] == key@;
            assert(seen@[j]@ == key@);
        }
    }
    false
}

/// The rows of a visible scan over `entries`, in the order the entries come.
pub fn visible_rows_of(entries: &[(InternalKey, ValueRecord)], lower: &KeyBound, upper: &KeyBound, read_seq: SequenceNumber) -> (r: Vec<(Vec<u8>, Vec<u8>)>)
    ensures
        rows_view(r@) == visible_rows(entries_view(entries@), lower@, upper@, read_seq),
{
    let ghost s = entries_view(entries@);
    let mut seen: Vec<Vec<u8>> = Vec::new();
    let mut rows: Vec<(Vec<u8>, Vec<u8>)> = Vec::new();
    let mut i: usize = 0;
    proof {
        assert(s.skip(0) =~= s);
        assert(keys_view(seen@) =~= Seq::<Seq<u8>>::empty());
        assert(rows_view(rows@) =~= Seq::<(Seq<u8>, Seq<u8>)>::empty());
    }
    while i < entries.len()
        invariant
            s == entries_view(entries@),
            i <= s.len(),
            rows_view(rows@) + scan_rows(keys_view(seen@), s.skip(i as int), lower@, upper@, read_seq)
                == visible_rows(s, lower@, upper@, read_seq),
        decreases s.len() - i,
    {
        let ghost old_seen = seen@;
        let ghost old_rows = rows@;
        let ghost step = scan_step(keys_view(seen@), s[i as int], lower@, upper@, read_seq);
        proof {
            assert(s.skip(i as int)[0] == s[i as int]);
            assert(s.skip(i as int).drop_first() =~= s.skip(i + 1));
        }
        let (key, value) = &entries[i];
        let user_key = key.user_key();
        if key.sequence() <= read_seq && within_bounds(user_key, lower, upper) && !seen_contains(&seen, user_key) {
            seen.push(slice_to_vec_bytes(user_key));
            proof {
                assert(keys_view(seen@) =~= keys_view(old_seen).push(user_key@));
            }
            match value {
                ValueRecord::Put(v) => {
                    rows.push((slice_to_vec_bytes(user_key), v.clone()));
                    proof {
                        assert(rows_view(rows@) =~= rows_view(old_rows) + step.1);
                    }
                },
                ValueRecord::Delete => {
                    assert(rows_view(rows@) =~= rows_view(old_rows) + step.1);
                },
            }
        } else {
            assert(rows_view(rows@) =~= rows_view(old_rows) + step.1);
        }
        proof {
            assert(keys_view(seen@) == step.0);
        }
        i = i + 1;
    }
    assert(s.skip(s.len() as int) =~= Seq::<EntryView>::empty());
    assert(rows_view(rows@) + Seq::<(Seq<u8>, Seq<u8>)>::empty() =~= rows_view(rows@));
    rows
}

/// An owned copy of a byte slice.
pub fn slice_to_vec_bytes(b: &[u8]) -> (r: Vec<u8>)
    ensures
        r@ == b@,
{
    vstd::slice::slice_to_vec(b)
}

/// The rows of a visible scan over `entries`.
pub fn visible_scan(entries: Vec<(InternalKey, ValueRecord)>, lower: KeyBound, upper: KeyBound, read_seq: SequenceNumber) -> (r: Vec<(Vec<u8>, Vec<u8>)>)
    ensures
        rows_view(r@) == visible_rows(entries_view(entries@), lower@, upper@, read_seq),
{
    visible_rows_of(entries.as_slice(), &lower, &upper, read_seq)
}

} // verus!
