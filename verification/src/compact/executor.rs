//! Rewriting a compaction's entries: versions above the garbage-collection watermark
//! are all kept; at or below it only the newest version of each user key survives, and
//! a surviving tombstone is dropped when nothing below can be shadowed by it.
use vstd::prelude::*;

use crate::iterator::storage_iterator::{key_sorted, keys_determine_records, lemma_key_sorted, sort_entries, sorted_nonstrict, stable_sort};
use crate::key::{InternalKey, SequenceNumber};
use crate::memtable::btree::ValueRecord;
use crate::memtable::{entries_view, first_visible, seen_contains, EntryView};

verus! {

/// One step of a compaction pass over sorted entries: gives the user keys already
/// decided at or below the watermark and what this entry contributes to the output.
pub open spec fn compact_step(seen: Seq<Seq<u8>>, e: EntryView, gc_watermark: u64, drop_tombstones: bool) -> (Seq<Seq<u8>>, Seq<EntryView>) {
    if e.0.1 > gc_watermark {
        (seen, seq![e])
    } else if seen.contains(e.0.0) {
        (seen, Seq::empty())
    } else if e.1 is None && drop_tombstones {
        (seen.push(e.0.0), Seq::empty())
    } else {
        (seen.push(e.0.0), seq![e])
    }
}

/// The output of a compaction pass over `s`, given the user keys already decided.
pub open spec fn compact_rows(seen: Seq<Seq<u8>>, s: Seq<EntryView>, gc_watermark: u64, drop_tombstones: bool) -> Seq<EntryView>
    decreases s.len(),
{
    if s.len() == 0 {
        Seq::empty()
    } else {
        let (seen2, out) = compact_step(seen, s[0], gc_watermark, drop_tombstones);
        out + compact_rows(seen2, s.drop_first(), gc_watermark, drop_tombstones)
    }
}

/// The value a read finds: a deleted key and an absent one read alike.
pub open spec fn read_value(r: Option<Option<Seq<u8>>>) -> Option<Seq<u8>> {
    match r {
        Some(Some(v)) => Some(v),
        _ => None,
    }
}

proof fn lemma_compact_reads(seen: Seq<Seq<u8>>, s: Seq<EntryView>, gc_watermark: u64, drop_tombstones: bool, key: Seq<u8>, read_seq: u64)
    requires
        sorted_nonstrict(s),
        gc_watermark <= read_seq,
        forall|i: int| 0 <= i < s.len() && seen.contains(#[trigger] s[i].0.0) ==> s[i].0.1 <= gc_watermark,
    ensures
        !seen.contains(key) ==> read_value(first_visible(compact_rows(seen, s, gc_watermark, drop_tombstones), key, read_seq))
            == read_value(first_visible(s, key, read_seq)),
        seen.contains(key) ==> first_visible(compact_rows(seen, s, gc_watermark, drop_tombstones), key, read_seq) is None,
    decreases s.len(),
{
    if s.len() > 0 {
        let e = s[0];
        let t = s.drop_first();
        let (seen2, out) = compact_step(seen, e, gc_watermark, drop_tombstones);
        assert forall|i: int, j: int| 0 <= i < j < t.len() implies !crate::key::ikey_lt(#[trigger] t[j].0, #[trigger] t[i].0) by {
            assert(t[i] == s[i + 1] && t[j] == s[j + 1]);
        }
        assert forall|i: int| 0 <= i < t.len() && seen2.contains(#[trigger] t[i].0.0) implies t[i].0.1 <= gc_watermark by {
            assert(t[i] == s[i + 1]);
            if !seen.contains(t[i].0.0) {
                // the key was decided by `e`, which sorts before `t[i]`
                assert(seen2 == seen.push(e.0.0));
                assert(seen2.last() == e.0.0);
                assert(t[i].0.0 == e.0.0) by {
                    if t[i].0.0 != e.0.0 {
                        assert(seen2.contains(t[i].0.0));
                        let w = choose|w: int| 0 <= w < seen2.len() && seen2[w] == t[i].0.0;
                        if w < seen.len() {
                            assert(seen[w] == seen2[w]);
                        }
                    }
                }
                assert(!crate::key::ikey_lt(s[i + 1].0, s[0].0));
            }
        }
        lemma_compact_reads(seen2, t, gc_watermark, drop_tombstones, key, read_seq);
        let rest = compact_rows(seen2, t, gc_watermark, drop_tombstones);
        assert(compact_rows(seen, s, gc_watermark, drop_tombstones) == out + rest);
        if out.len() > 0 {
            assert(out == seq![e]);
            assert((out + rest)[0] == e);
            assert((out + rest).drop_first() =~= rest);
        } else {
            assert(out + rest =~= rest);
        }
        if seen.contains(key) {
            assert(seen2.contains(key)) by {
                if seen2 != seen {
                    let w = choose|w: int| 0 <= w < seen.len() && seen[w] == key;
                    assert(seen2[w] == seen[w]);
                }
            }
            if e.0.0 == key {
                assert(seen.contains(s[0].0.0));
            }
        } else if e.0.0 != key {
            assert(!seen2.contains(key)) by {
                if seen2.contains(key) {
                    let w = choose|w: int| 0 <= w < seen2.len() && seen2[w] == key;
                    if seen2 != seen {
                        if w < seen.len() {
                            assert(seen[w] == seen2[w]);
                        }
                    }
                }
            }
        } else if e.0.1 > gc_watermark {
            assert(seen2 == seen);
        } else {
            assert(seen2 == seen.push(e.0.0));
            assert(seen2.contains(key)) by {
                assert(seen2[seen.len() as int] == key);
            }
        }
    }
}

/// Compaction keeps every read at or above its watermark: for entries sorted by internal
/// key, reading any key at any sequence at or above `gc_watermark` from the compacted
/// entries finds the same value (a deleted key and an absent one read alike) as reading
/// it from the entries themselves.
pub proof fn lemma_compaction_preserves_reads(s: Seq<EntryView>, gc_watermark: u64, drop_tombstones: bool, key: Seq<u8>, read_seq: u64)
    requires
        sorted_nonstrict(s),
        gc_watermark <= read_seq,
    ensures
        read_value(first_visible(compact_rows(Seq::empty(), s, gc_watermark, drop_tombstones), key, read_seq))
            == read_value(first_visible(s, key, read_seq)),
{
    lemma_compact_reads(Seq::empty(), s, gc_watermark, drop_tombstones, key, read_seq);
}

/// What a compaction pass keeps is drawn from its input, and keeps the input's order.
pub proof fn lemma_compact_rows_sorted(seen: Seq<Seq<u8>>, s: Seq<EntryView>, gc_watermark: u64, drop_tombstones: bool)
    requires
        sorted_nonstrict(s),
    ensures
        sorted_nonstrict(compact_rows(seen, s, gc_watermark, drop_tombstones)),
        forall|x: EntryView| compact_rows(seen, s, gc_watermark, drop_tombstones).contains(x) ==> s.contains(x),
    decreases s.len(),
{
    if s.len() > 0 {
        let (seen2, out) = compact_step(seen, s[0], gc_watermark, drop_tombstones);
        let t = s.drop_first();
        assert forall|i: int, j: int| 0 <= i < j < t.len() implies !crate::key::ikey_lt(#[trigger] t[j].0, #[trigger] t[i].0) by {
            assert(t[i] == s[i + 1] && t[j] == s[j + 1]);
        }
        lemma_compact_rows_sorted(seen2, t, gc_watermark, drop_tombstones);
        let tail = compact_rows(seen2, t, gc_watermark, drop_tombstones);
        let all = out + tail;
        assert(compact_rows(seen, s, gc_watermark, drop_tombstones) == all);
        assert forall|x: EntryView| all.contains(x) implies s.contains(x) by {
            let k = choose|k: int| 0 <= k < all.len() && all[k] == x;
            if k < out.len() {
                assert(x == s[0]);
            } else {
                assert(tail[k - out.len()] == x);
                assert(tail.contains(x));
                assert(t.contains(x));
                let m = choose|m: int| 0 <= m < t.len() && t[m] == x;
                assert(s[m + 1] == x);
            }
        }
        assert forall|i: int, j: int| 0 <= i < j < all.len() implies !crate::key::ikey_lt(#[trigger] all[j].0, #[trigger] all[i].0) by {
            if i >= out.len() {
                assert(all[i] == tail[i - out.len()] && all[j] == tail[j - out.len()]);
            } else {
                assert(all[i] == s[0]);
                assert(all[j] == tail[j - out.len()]);
                assert(tail.contains(all[j]));
                assert(t.contains(all[j]));
                let m = choose|m: int| 0 <= m < t.len() && t[m] == all[j];
                assert(s[m + 1] == all[j]);
            }
        }
    }
}

/// Sorts `entries` by internal key, stably, and compacts them: every version newer than
/// `gc_watermark` is kept; of the rest, only the newest version of each user key is
/// kept, and that only if it is a put or `drop_tombstones` is false.
pub fn compact_entries(entries: Vec<(InternalKey, ValueRecord)>, gc_watermark: SequenceNumber, drop_tombstones: bool) -> (r: Vec<(InternalKey, ValueRecord)>)
    ensures
        exists|s: Seq<EntryView>| #![trigger sorted_nonstrict(s)]
            sorted_nonstrict(s) && s.to_multiset() == entries_view(entries@).to_multiset()
            && entries_view(r@) == compact_rows(Seq::empty(), s, gc_watermark, drop_tombstones),
        entries_view(r@) == compact_rows(Seq::empty(), stable_sort(entries_view(entries@)), gc_watermark, drop_tombstones),
        sorted_nonstrict(entries_view(r@)),
        keys_determine_records(entries_view(entries@)) ==> entries_view(r@)
            == compact_rows(Seq::empty(), key_sorted(entries_view(entries@)), gc_watermark, drop_tombstones),
{
    let sorted = sort_entries(entries);
    let ghost s = entries_view(sorted@);
    let mut seen: Vec<Vec<u8>> = Vec::new();
    let mut output: Vec<(InternalKey, ValueRecord)> = Vec::new();
    let mut i: usize = 0;
    proof {
        assert(s.skip(0) =~= s);
        assert(entries_view(output@) =~= Seq::<EntryView>::empty());
        assert(crate::memtable::keys_view(seen@) =~= Seq::<Seq<u8>>::empty());
    }
    while i < sorted.len()
        invariant
            s == entries_view(sorted@),
            i <= s.len(),
            entries_view(output@) + compact_rows(crate::memtable::keys_view(seen@), s.skip(i as int), gc_watermark, drop_tombstones)
                == compact_rows(Seq::empty(), s, gc_watermark, drop_tombstones),
        decreases s.len() - i,
    {
        let (key, value) = &sorted[i];
        let ghost e = s[i as int];
        let ghost seen_before = crate::memtable::keys_view(seen@);
        proof {
            assert(s.skip(i as int)[0] == e);
            assert(s.skip(i as int).drop_first() =~= s.skip(i + 1));
        }
        if key.sequence() > gc_watermark {
            output.push((key.duplicate(), value.duplicate()));
            proof {
                assert(entries_view(output@) =~= entries_view(output@).drop_last().push(e));
            }
        } else if !seen_contains(&seen, key.user_key()) {
            seen.push(crate::memtable::slice_to_vec_bytes(key.user_key()));
            proof {
                assert(crate::memtable::keys_view(seen@) =~= seen_before.push(e.0.0));
            }
            match value {
                ValueRecord::Put(_) => {
                    output.push((key.duplicate(), value.duplicate()));
                },
                ValueRecord::Delete => {
                    if !drop_tombstones {
                        output.push((key.duplicate(), value.duplicate()));
                    }
                },
            }
        }
        i = i + 1;
    }
    proof {
        lemma_compact_rows_sorted(Seq::empty(), s, gc_watermark, drop_tombstones);
        if keys_determine_records(entries_view(entries@)) {
            lemma_key_sorted(entries_view(entries@), s);
        }
    }
    output
}

} // verus!
