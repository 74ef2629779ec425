//! Accounting on the write and compaction paths: which keys a batch writes, how many
//! bytes it carries, what a log record costs, and how compaction output is cut into
//! files.
use vstd::prelude::*;

use crate::batch::{records_view, BatchRecord, RecordView, WriteBatch};
use crate::db_state::records_bytes;
use crate::key::{bytes_less, bytes_lt, InternalKey};
use crate::memtable::btree::ValueRecord;
use crate::memtable::{entries_view, EntryView};

verus! {

/// Whether `s` is strictly increasing in byte order.
pub open spec fn strictly_sorted_keys(s: Seq<Seq<u8>>) -> bool {
    forall|i: int, j: int| 0 <= i < j < s.len() ==> bytes_lt(#[trigger] s[i], #[trigger] s[j])
}

/// The keys a batch writes, as a set.
pub open spec fn batch_key_set(rs: Seq<RecordView>) -> Set<Seq<u8>> {
    Set::new(|k: Seq<u8>| exists|i: int| 0 <= i < rs.len() && (#[trigger] rs[i]).0 == k)
}

/// The distinct keys a batch writes, in ascending byte order.
pub fn batch_write_keys(batch: &WriteBatch) -> (r: Vec<Vec<u8>>)
    ensures
        strictly_sorted_keys(r@.map_values(|k: Vec<u8>| k@)),
        r@.map_values(|k: Vec<u8>| k@).to_set() == batch_key_set(batch@),
{
    let records = batch.records();
    let ghost rs = records_view(records@);
    let mut keys: Vec<Vec<u8>> = Vec::new();
    let mut i: usize = 0;
    while i < records.len()
        invariant
            rs == batch@,
            rs == records_view(records@),
            i <= rs.len(),
            strictly_sorted_keys(keys@.map_values(|k: Vec<u8>| k@)),
            keys@.map_values(|k: Vec<u8>| k@).to_set() == batch_key_set(rs.subrange(0, i as int)),
        decreases rs.len() - i,
    {
        let key: &Vec<u8> = match &records[i] {
            BatchRecord::Put { key, value: _ } => key,
            BatchRecord::Delete { key } => key,
        };
        assert(key@ == rs[i as int].0);
        let ghost kv = keys@.map_values(|k: Vec<u8>| k@);
        let mut p: usize = 0;
        while p < keys.len() && bytes_less(keys[p].as_slice(), key.as_slice())
            invariant
                p <= keys@.len(),
                kv == keys@.map_values(|k: Vec<u8>| k@),
                forall|q: int| 0 <= q < p ==> bytes_lt(#[trigger] kv[q], key@),
            decreases keys@.len() - p,
        {
            p = p + 1;
        }
        let ghost next = rs.subrange(0, i + 1);
        proof {
            assert(batch_key_set(next) =~= batch_key_set(rs.subrange(0, i as int)).insert(key@)) by {
                assert forall|k: Seq<u8>| batch_key_set(next).contains(k) <==> batch_key_set(rs.subrange(0, i as int)).insert(key@).contains(k) by {
                    if batch_key_set(next).contains(k) {
                        let m = choose|m: int| 0 <= m < next.len() && (#[trigger] next[m]).0 == k;
                        if m < i {
                            assert(rs.subrange(0, i as int)[m] == next[m]);
                        }
                    }
                    if batch_key_set(rs.subrange(0, i as int)).contains(k) {
                        let m = choose|m: int| 0 <= m < i && (#[trigger] rs.subrange(0, i as int)[m]).0 == k;
                        assert(next[m] == rs.subrange(0, i as int)[m]);
                    }
                    if k == key@ {
                        assert(next[i as int].0 == k);
                    }
                }
            }
        }
        if p < keys.len() && crate::key::bytes_equal(keys[p].as_slice(), key.as_slice()) {
            proof {
                assert(kv.to_set().contains(key@)) by {
                    assert(kv[p as int] == key@);
                }
                assert(kv.to_set().insert(key@) =~= kv.to_set());
            }
        } else {
            let copy = key.clone();
            keys.insert(p, copy);
            proof {
                let nv = keys@.map_values(|k: Vec<u8>| k@);
                assert(nv =~= kv.insert(p as int, key@));
                if p < kv.len() {
                    crate::key::lemma_bytes_lt_total(kv[p as int], key@);
                }
                assert forall|a: int, b: int| 0 <= a < b < nv.len() implies bytes_lt(#[trigger] nv[a], #[trigger] nv[b]) by {
                    if a < p && b == p {
                    } else if a == p {
                        if b - 1 > p {
                            crate::key::lemma_bytes_lt_transitive(key@, kv[p as int], kv[b - 1]);
                        }
                    } else if a < p && b > p {
                    } else {
                    }
                }
                assert(nv.to_set() =~= kv.to_set().insert(key@)) by {
                    assert forall|k: Seq<u8>| nv.to_set().contains(k) <==> kv.to_set().insert(key@).contains(k) by {
                        if nv.to_set().contains(k) {
                            let m = choose|m: int| 0 <= m < nv.len() && nv[m] == k;
                            if m < p {
                                assert(kv[m] == k);
                            } else if m > p {
                                assert(kv[m - 1] == k);
                            }
                        }
                        if kv.to_set().contains(k) {
                            let m = choose|m: int| 0 <= m < kv.len() && kv[m] == k;
                            if m < p {
                                assert(nv[m] == k);
                            } else {
                                assert(nv[m + 1] == k);
                            }
                        }
                        if k == key@ {
                            assert(nv[p as int] == k);
                        }
                    }
                }
            }
        }
        i = i + 1;
    }
    assert(rs.subrange(0, i as int) =~= rs);
    keys
}

/// The bytes of the keys and values of a batch.
pub fn batch_user_write_bytes(batch: &WriteBatch) -> (r: u64)
    requires
        records_bytes(batch@) <= u64::MAX,
    ensures
        r == records_bytes(batch@),
{
    let records = batch.records();
    let ghost rs = records_view(records@);
    let mut total: u64 = 0;
    let mut i: usize = 0;
    assert(rs.subrange(0, 0) =~= Seq::<RecordView>::empty());
    while i < records.len()
        invariant
            rs == batch@,
            rs == records_view(records@),
            i <= rs.len(),
            total == records_bytes(rs.subrange(0, i as int)),
            records_bytes(rs) <= u64::MAX,
        decreases rs.len() - i,
    {
        proof {
            crate::db_state::lemma_records_bytes_prefix(rs, i as int);
        }
        let n = match &records[i] {
            BatchRecord::Put { key, value } => key.len() as u64 + value.len() as u64,
            BatchRecord::Delete { key } => key.len() as u64,
        };
        total = total + n;
        i = i + 1;
    }
    assert(rs.subrange(0, i as int) =~= rs);
    total
}

/// The bytes a log record takes: its payload plus a nine-byte frame.
pub fn wal_record_bytes(payload: &[u8]) -> (r: u64)
    requires
        payload@.len() + 9 <= u64::MAX,
    ensures
        r == payload@.len() + 9,
{
    payload.len() as u64 + 9
}

/// The size an entry is counted at: its user key, a fixed cost for the key, and its
/// value.
pub open spec fn entry_size(e: EntryView) -> nat {
    e.0.0.len() + vstd::layout::size_of::<InternalKey>() + match e.1 {
        Some(v) => v.len(),
        None => 0,
    }
}

pub fn estimate_entry_size(entry: &(InternalKey, ValueRecord)) -> (r: usize)
    requires
        entry_size((entry.0@, entry.1@)) <= usize::MAX,
    ensures
        r == entry_size((entry.0@, entry.1@)),
{
    let value_len = match &entry.1 {
        ValueRecord::Put(v) => v.len(),
        ValueRecord::Delete => 0,
    };
    entry.0.user_key().len() + core::mem::size_of::<InternalKey>() + value_len
}

/// Cutting sorted compaction output into files: chunks so far, the chunk being filled,
/// its size, and the user key of the last entry.
pub type SplitState = (Seq<Seq<EntryView>>, Seq<EntryView>, nat, Seq<u8>);

/// One step: a new chunk starts at a change of user key once the current chunk has
/// reached `target` and fewer than `max_outputs - 1` chunks are finished.
pub open spec fn split_step(st: SplitState, e: EntryView, target: nat, max_outputs: nat) -> SplitState {
    let (chunks, current, size, previous) = st;
    let changed = previous.len() == 0 || previous != e.0.0;
    if current.len() > 0 && changed && size >= target && chunks.len() + 1 < max_outputs {
        (chunks.push(current), seq![e], entry_size(e), e.0.0)
    } else {
        (chunks, current.push(e), size + entry_size(e), e.0.0)
    }
}

pub open spec fn split_fold(es: Seq<EntryView>, target: nat, max_outputs: nat) -> SplitState
    decreases es.len(),
{
    if es.len() == 0 {
        (Seq::empty(), Seq::empty(), 0, Seq::empty())
    } else {
        split_step(split_fold(es.drop_last(), target, max_outputs), es.last(), target, max_outputs)
    }
}

/// The chunks compaction output is cut into, with `target` and `max_outputs` at least 1.
pub open spec fn spec_split(es: Seq<EntryView>, target: nat, max_outputs: nat) -> Seq<Seq<EntryView>> {
    let st = split_fold(es, if target >= 1 { target } else { 1 }, if max_outputs >= 1 { max_outputs } else { 1 });
    if st.1.len() > 0 {
        st.0.push(st.1)
    } else {
        st.0
    }
}

/// The sizes of `es` added up.
pub open spec fn sizes_total(es: Seq<EntryView>) -> nat
    decreases es.len(),
{
    if es.len() == 0 {
        0
    } else {
        sizes_total(es.drop_last()) + entry_size(es.last())
    }
}

/// Whether the estimated sizes of `entries` add up within a word, as cutting them into
/// output files needs.
pub fn entries_size_fits(entries: &Vec<(InternalKey, ValueRecord)>) -> (r: bool)
    ensures
        r == (sizes_total(entries_view(entries@)) <= usize::MAX),
{
    let ghost es = entries_view(entries@);
    let mut total: usize = 0;
    let mut i: usize = 0;
    assert(es.subrange(0, 0) =~= Seq::<EntryView>::empty());
    while i < entries.len()
        invariant
            es == entries_view(entries@),
            i <= es.len(),
            total == sizes_total(es.subrange(0, i as int)),
        decreases es.len() - i,
    {
        let ghost pre = es.subrange(0, i + 1);
        proof {
            assert(pre.drop_last() =~= es.subrange(0, i as int));
            assert(pre.last() == es[i as int]);
            assert(es[i as int] == (entries@[i as int].0@, entries@[i as int].1@));
            lemma_sizes_total_prefix(es, i + 1);
        }
        let key_len = entries[i].0.user_key().len();
        let value_len = match &entries[i].1 {
            ValueRecord::Put(v) => v.len(),
            ValueRecord::Delete => 0,
        };
        let n = match key_len.checked_add(core::mem::size_of::<InternalKey>()) {
            Some(a) => match a.checked_add(value_len) {
                Some(b) => b,
                None => return false,
            },
            None => return false,
        };
        total = match total.checked_add(n) {
            Some(t) => t,
            None => return false,
        };
        i = i + 1;
    }
    assert(es.subrange(0, i as int) =~= es);
    true
}

proof fn lemma_split_fold_size(es: Seq<EntryView>, target: nat, max_outputs: nat)
    ensures
        split_fold(es, target, max_outputs).2 <= sizes_total(es),
    decreases es.len(),
{
    if es.len() > 0 {
        lemma_split_fold_size(es.drop_last(), target, max_outputs);
    }
}

/// Cuts sorted compaction output into chunks of about `target_file_size` bytes, never
/// splitting the versions of one user key, and into at most `max_outputs` chunks.
pub fn split_compaction_entries(entries: Vec<(InternalKey, ValueRecord)>, target_file_size: usize, max_outputs: usize) -> (r: Vec<Vec<(InternalKey, ValueRecord)>>)
    requires
        sizes_total(entries_view(entries@)) <= usize::MAX,
    ensures
        r@.map_values(|c: Vec<(InternalKey, ValueRecord)>| entries_view(c@)) == spec_split(entries_view(entries@), target_file_size as nat, max_outputs as nat),
{
    let max_outputs = if max_outputs >= 1 { max_outputs } else { 1 };
    let target_file_size = if target_file_size >= 1 { target_file_size } else { 1 };
    let ghost es = entries_view(entries@);
    let mut chunks: Vec<Vec<(InternalKey, ValueRecord)>> = Vec::new();
    let mut current: Vec<(InternalKey, ValueRecord)> = Vec::new();
    let mut current_size: usize = 0;
    let mut previous_user_key: Vec<u8> = Vec::new();
    let mut i: usize = 0;
    assert(es.subrange(0, 0) =~= Seq::<EntryView>::empty());
    assert(chunks@.map_values(|c: Vec<(InternalKey, ValueRecord)>| entries_view(c@)) =~= Seq::<Seq<EntryView>>::empty());
    assert(entries_view(current@) =~= Seq::<EntryView>::empty());
    while i < entries.len()
        invariant
            es == entries_view(entries@),
            i <= es.len(),
            sizes_total(es) <= usize::MAX,
            max_outputs >= 1,
            target_file_size >= 1,
            ({
                let st = split_fold(es.subrange(0, i as int), target_file_size as nat, max_outputs as nat);
                &&& chunks@.map_values(|c: Vec<(InternalKey, ValueRecord)>| entries_view(c@)) == st.0
                &&& entries_view(current@) == st.1
                &&& current_size == st.2
                &&& previous_user_key@ == st.3
            }),
            chunks@.len() < max_outputs,
        decreases es.len() - i,
    {
        let ghost prefix = es.subrange(0, i as int);
        let ghost next = es.subrange(0, i + 1);
        proof {
            assert(next.drop_last() =~= prefix);
            assert(next.last() == es[i as int]);
            lemma_split_fold_size(next, target_file_size as nat, max_outputs as nat);
            lemma_sizes_total_prefix(es, i + 1);
        }
        let entry = &entries[i];
        let ghost e = es[i as int];
        assert(e == (entry.0@, entry.1@));
        proof {
            let st = split_fold(prefix, target_file_size as nat, max_outputs as nat);
            assert(st.2 + entry_size(e) <= sizes_total(next)) by {
                lemma_split_fold_size(prefix, target_file_size as nat, max_outputs as nat);
                assert(sizes_total(next) == sizes_total(prefix) + entry_size(e));
            }
        }
        let entry_size_now = estimate_entry_size(entry);
        let user_key_changed = previous_user_key.len() == 0 || !crate::key::bytes_equal(previous_user_key.as_slice(), entry.0.user_key());
        if current.len() > 0 && user_key_changed && current_size >= target_file_size && chunks.len() + 1 < max_outputs {
            let mut finished: Vec<(InternalKey, ValueRecord)> = Vec::new();
            std::mem::swap(&mut finished, &mut current);
            let ghost before = chunks@;
            chunks.push(finished);
            current_size = 0;
            proof {
                assert(chunks@.map_values(|c: Vec<(InternalKey, ValueRecord)>| entries_view(c@))
                    =~= before.map_values(|c: Vec<(InternalKey, ValueRecord)>| entries_view(c@)).push(entries_view(finished@)));
                assert(entries_view(current@) =~= Seq::<EntryView>::empty());
            }
        }
        previous_user_key = crate::memtable::slice_to_vec_bytes(entry.0.user_key());
        current_size = current_size + entry_size_now;
        let ghost cur_before = current@;
        current.push((entry.0.duplicate(), entry.1.duplicate()));
        proof {
            assert(entries_view(current@) =~= entries_view(cur_before).push(e));
        }
        i = i + 1;
    }
    assert(es.subrange(0, i as int) =~= es);
    if current.len() > 0 {
        let ghost before = chunks@;
        chunks.push(current);
        assert(chunks@.map_values(|c: Vec<(InternalKey, ValueRecord)>| entries_view(c@))
            =~= before.map_values(|c: Vec<(InternalKey, ValueRecord)>| entries_view(c@)).push(entries_view(current@)));
    }
    chunks
}

proof fn lemma_sizes_total_prefix(es: Seq<EntryView>, n: int)
    requires
        0 <= n <= es.len(),
    ensures
        sizes_total(es.subrange(0, n)) <= sizes_total(es),
    decreases es.len(),
{
    if n < es.len() {
        assert(es.drop_last().subrange(0, n) =~= es.subrange(0, n));
        lemma_sizes_total_prefix(es.drop_last(), n);
    } else {
        assert(es.subrange(0, n) =~= es);
    }
}

} // verus!

verus! {

proof fn lemma_split_fold_keeps(es: Seq<EntryView>, target: nat, max_outputs: nat)
    requires
        max_outputs >= 1,
    ensures
        split_fold(es, target, max_outputs).0.flatten() + split_fold(es, target, max_outputs).1 == es,
        split_fold(es, target, max_outputs).0.len() < max_outputs,
        forall|k: int| 0 <= k < split_fold(es, target, max_outputs).0.len()
            ==> (#[trigger] split_fold(es, target, max_outputs).0[k]).len() > 0,
    decreases es.len(),
{
    if es.len() > 0 {
        let prev = es.drop_last();
        lemma_split_fold_keeps(prev, target, max_outputs);
        let st = split_fold(prev, target, max_outputs);
        let e = es.last();
        let changed = st.3.len() == 0 || st.3 != e.0.0;
        if st.1.len() > 0 && changed && st.2 >= target && st.0.len() + 1 < max_outputs {
            st.0.lemma_flatten_push(st.1);
            assert(st.0.push(st.1).flatten() + seq![e] =~= st.0.flatten() + st.1 + seq![e]);
            assert(prev.push(e) =~= es);
        } else {
            assert(st.0.flatten() + st.1.push(e) =~= st.0.flatten() + st.1 + seq![e]);
            assert(prev.push(e) =~= es);
        }
    } else {
        assert(Seq::<Seq<EntryView>>::empty().flatten() =~= Seq::<EntryView>::empty());
        assert(Seq::<EntryView>::empty() + Seq::<EntryView>::empty() =~= es);
    }
}

/// Cutting compaction output into files loses, duplicates and reorders nothing, makes
/// no empty file, and makes at most `max_outputs` files (at least one is allowed).
pub proof fn lemma_split_keeps_entries(es: Seq<EntryView>, target: nat, max_outputs: nat)
    ensures
        spec_split(es, target, max_outputs).flatten() == es,
        spec_split(es, target, max_outputs).len() <= if max_outputs >= 1 { max_outputs } else { 1 },
        forall|k: int| 0 <= k < spec_split(es, target, max_outputs).len() ==> (#[trigger] spec_split(es, target, max_outputs)[k]).len() > 0,
{
    let t = if target >= 1 { target } else { 1 };
    let m = if max_outputs >= 1 { max_outputs } else { 1 };
    lemma_split_fold_keeps(es, t, m);
    let st = split_fold(es, t, m);
    if st.1.len() > 0 {
        st.0.lemma_flatten_push(st.1);
        assert forall|k: int| 0 <= k < st.0.push(st.1).len() implies (#[trigger] st.0.push(st.1)[k]).len() > 0 by {
            if k < st.0.len() {
                assert(st.0.push(st.1)[k] == st.0[k]);
            }
        }
    } else {
        assert(st.0.flatten() + st.1 =~= st.0.flatten());
    }
}

/// Whether the last entry of chunk `a` and the first of chunk `b` have different user
/// keys, or the same empty one.
pub open spec fn keys_apart(a: Seq<EntryView>, b: Seq<EntryView>) -> bool {
    a.last().0.0 != b[0].0.0 || a.last().0.0.len() == 0
}

spec fn split_inv(st: SplitState, target: nat) -> bool {
    &&& st.2 == sizes_total(st.1)
    &&& forall|k: int| 0 <= k < st.0.len() ==> sizes_total(#[trigger] st.0[k]) >= target
    &&& forall|k: int| 0 <= k < st.0.len() ==> (#[trigger] st.0[k]).len() > 0
    &&& forall|k: int| 0 <= k < st.0.len() - 1 ==> keys_apart(#[trigger] st.0[k], st.0[k + 1])
    &&& st.0.len() > 0 ==> st.1.len() > 0 && keys_apart(st.0.last(), st.1)
    &&& st.1.len() > 0 ==> st.3 == st.1.last().0.0
}

proof fn lemma_split_fold_inv(es: Seq<EntryView>, target: nat, max_outputs: nat)
    ensures
        split_inv(split_fold(es, target, max_outputs), target),
    decreases es.len(),
{
    if es.len() > 0 {
        lemma_split_fold_inv(es.drop_last(), target, max_outputs);
        let st = split_fold(es.drop_last(), target, max_outputs);
        let e = es.last();
        let n = split_step(st, e, target, max_outputs);
        let changed = st.3.len() == 0 || st.3 != e.0.0;
        if st.1.len() > 0 && changed && st.2 >= target && st.0.len() + 1 < max_outputs {
            assert forall|k: int| 0 <= k < n.0.len() implies (#[trigger] n.0[k]).len() > 0 by {
                if k < st.0.len() {
                    assert(n.0[k] == st.0[k]);
                }
            }
            assert forall|k: int| 0 <= k < n.0.len() - 1 implies keys_apart(#[trigger] n.0[k], n.0[k + 1]) by {
                assert(n.0[k] == st.0[k]);
                if k + 1 < st.0.len() {
                    assert(n.0[k + 1] == st.0[k + 1]);
                } else {
                    assert(n.0[k + 1] == st.1);
                }
            }
            assert(n.0.last() == st.1);
            assert(n.1[0] == e);
            assert(n.1.drop_last() =~= Seq::<EntryView>::empty());
            assert(sizes_total(Seq::<EntryView>::empty()) == 0);
            assert(n.1.last() == e);
            assert(sizes_total(n.1) == entry_size(e));
            assert forall|k: int| 0 <= k < n.0.len() implies sizes_total(#[trigger] n.0[k]) >= target by {
                if k < st.0.len() {
                    assert(n.0[k] == st.0[k]);
                }
            }
        } else {
            assert(n.1.drop_last() =~= st.1);
            assert(n.1.last() == e);
            assert(sizes_total(n.1) == sizes_total(st.1) + entry_size(e));
            if st.1.len() > 0 {
                assert(n.1[0] == st.1[0]);
            }
        }
    }
}

/// Cutting compaction output makes files of at least the target size: every chunk but
/// the last has entries whose estimated sizes add up to `target` (or 1, for a target of
/// 0) or more.
pub proof fn lemma_split_chunks_reach_target(es: Seq<EntryView>, target: nat, max_outputs: nat)
    ensures
        forall|k: int| 0 <= k < spec_split(es, target, max_outputs).len() - 1
            ==> sizes_total(#[trigger] spec_split(es, target, max_outputs)[k]) >= if target >= 1 { target } else { 1 },
{
    let t = if target >= 1 { target } else { 1 };
    let m = if max_outputs >= 1 { max_outputs } else { 1 };
    lemma_split_fold_inv(es, t, m);
    let st = split_fold(es, t, m);
    let cs = spec_split(es, target, max_outputs);
    assert forall|k: int| 0 <= k < cs.len() - 1 implies sizes_total(#[trigger] cs[k]) >= t by {
        assert(cs[k] == st.0[k]);
    }
}

/// Cutting compaction output never splits the versions of a user key between two
/// files: the last entry of each chunk and the first of the next have different user
/// keys. The one exception is the empty user key, for which the cut test counts every
/// entry as a new key (it treats an empty previous key as no previous key).
pub proof fn lemma_split_keeps_keys_together(es: Seq<EntryView>, target: nat, max_outputs: nat)
    ensures
        forall|k: int| 0 <= k < spec_split(es, target, max_outputs).len() - 1
            ==> #[trigger] spec_split(es, target, max_outputs)[k].last().0.0 != spec_split(es, target, max_outputs)[k + 1][0].0.0
            || spec_split(es, target, max_outputs)[k].last().0.0.len() == 0,
{
    let t = if target >= 1 { target } else { 1 };
    let m = if max_outputs >= 1 { max_outputs } else { 1 };
    lemma_split_fold_inv(es, t, m);
    let st = split_fold(es, t, m);
    let cs = spec_split(es, target, max_outputs);
    assert forall|k: int| 0 <= k < cs.len() - 1 implies keys_apart(#[trigger] cs[k], cs[k + 1]) by {
        if st.1.len() > 0 {
            assert(cs[k] == st.0[k]);
            if k + 1 < st.0.len() {
                assert(cs[k + 1] == st.0[k + 1]);
                assert(keys_apart(st.0[k], st.0[k + 1]));
            } else {
                assert(cs[k + 1] == st.1);
            }
        } else {
            assert(keys_apart(st.0[k], st.0[k + 1]));
        }
    }
}

} // verus!
