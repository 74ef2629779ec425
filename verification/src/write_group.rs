//! Group commit: the writes queued together get consecutive sequence numbers, are
//! logged (those that do not skip the log) and applied to the memtable in order, and
//! share one outcome.
use vstd::prelude::*;

use crate::batch::{RecordView, WriteBatch};
use crate::db_state::{apply_batch, apply_records, freeze_mutable_if_needed, records_basis, records_bytes, DbState};
use crate::error::{io_error_text, Error, Result};
use crate::memtable::kinds::size_from_basis;
use crate::memtable::MemTableKind;
use crate::options::{WalSyncMode, WriteOptions};
use crate::write_path::batch_user_write_bytes;

verus! {

/// One write of a group: its batch and options, the bytes of keys and values it writes,
/// and the sequence number its first record takes.
#[derive(Debug)]
pub struct GroupWriteItem {
    pub batch: WriteBatch,
    pub opts: WriteOptions,
    pub user_write_bytes: u64,
    pub start_sequence: u64,
}

/// A group item for `batch`, its sequence not yet assigned.
pub fn new_group_item(batch: WriteBatch, opts: WriteOptions) -> (it: GroupWriteItem)
    requires
        records_bytes(batch@) <= u64::MAX,
    ensures
        it.batch@ == batch@,
        it.opts == opts,
        it.user_write_bytes == records_bytes(batch@),
        it.start_sequence == 0,
{
    let user_write_bytes = batch_user_write_bytes(&batch);
    GroupWriteItem { batch, opts, user_write_bytes, start_sequence: 0 }
}

/// The bytes the items of a group write, added up.
pub open spec fn group_bytes(items: Seq<GroupWriteItem>) -> nat
    decreases items.len(),
{
    if items.len() == 0 {
        0
    } else {
        group_bytes(items.drop_last()) + items.last().user_write_bytes as nat
    }
}

/// The bytes a group writes, added up.
pub fn group_user_write_bytes(items: &[GroupWriteItem]) -> (r: u64)
    requires
        group_bytes(items@) <= u64::MAX,
    ensures
        r == group_bytes(items@),
{
    let mut total: u64 = 0;
    let mut i: usize = 0;
    assert(items@.subrange(0, 0) =~= Seq::<GroupWriteItem>::empty());
    while i < items.len()
        invariant
            i <= items@.len(),
            total == group_bytes(items@.subrange(0, i as int)),
            group_bytes(items@) <= u64::MAX,
        decreases items@.len() - i,
    {
        proof {
            lemma_group_bytes_prefix(items@, i as int);
        }
        total = total + items[i].user_write_bytes;
        i = i + 1;
    }
    assert(items@.subrange(0, i as int) =~= items@);
    total
}

proof fn lemma_group_bytes_prefix(items: Seq<GroupWriteItem>, i: int)
    requires
        0 <= i < items.len(),
    ensures
        group_bytes(items.subrange(0, i + 1)) == group_bytes(items.subrange(0, i)) + items[i].user_write_bytes,
        group_bytes(items.subrange(0, i + 1)) <= group_bytes(items),
    decreases items.len(),
{
    assert(items.subrange(0, i + 1).drop_last() =~= items.subrange(0, i));
    if i + 1 < items.len() {
        lemma_group_bytes_prefix(items.drop_last(), i);
        assert(items.drop_last().subrange(0, i + 1) =~= items.subrange(0, i + 1));
        assert(items.drop_last().subrange(0, i) =~= items.subrange(0, i));
    } else {
        assert(items.subrange(0, i + 1) =~= items);
    }
}

/// The number of records of the first `i` items.
pub open spec fn records_before(items: Seq<GroupWriteItem>, i: int) -> nat
    decreases i,
{
    if i <= 0 {
        0
    } else {
        records_before(items, i - 1) + items[i - 1].batch@.len()
    }
}

/// Gives the items consecutive sequence numbers after `last_sequence`, in order: each
/// item starts where the records of the items before it end.
pub fn assign_start_sequences(items: Vec<GroupWriteItem>, last_sequence: u64) -> (r: Vec<GroupWriteItem>)
    requires
        last_sequence + 1 + records_before(items@, items@.len() as int) <= u64::MAX,
    ensures
        r@.len() == items@.len(),
        forall|i: int| 0 <= i < r@.len() ==> {
            &&& (#[trigger] r@[i]).batch@ == items@[i].batch@
            &&& r@[i].opts == items@[i].opts
            &&& r@[i].user_write_bytes == items@[i].user_write_bytes
            &&& r@[i].start_sequence == last_sequence + 1 + records_before(items@, i)
        },
{
    let ghost orig = items@;
    let mut rest = items;
    let mut out: Vec<GroupWriteItem> = Vec::new();
    let mut next: u64 = last_sequence + 1;
    while rest.len() > 0
        invariant
            out@.len() + rest@.len() == orig.len(),
            rest@ == orig.subrange(out@.len() as int, orig.len() as int),
            next == last_sequence + 1 + records_before(orig, out@.len() as int),
            last_sequence + 1 + records_before(orig, orig.len() as int) <= u64::MAX,
            forall|i: int| 0 <= i < out@.len() ==> {
                &&& (#[trigger] out@[i]).batch@ == orig[i].batch@
                &&& out@[i].opts == orig[i].opts
                &&& out@[i].user_write_bytes == orig[i].user_write_bytes
                &&& out@[i].start_sequence == last_sequence + 1 + records_before(orig, i)
            },
        decreases rest@.len(),
    {
        let ghost k = out@.len() as int;
        let mut it = rest.remove(0);
        assert(it == orig[k]);
        proof {
            lemma_records_before_mono(orig, k + 1, orig.len() as int);
        }
        it.start_sequence = next;
        next = next + it.batch.len() as u64;
        out.push(it);
        assert(rest@ =~= orig.subrange(k + 1, orig.len() as int));
    }
    out
}

proof fn lemma_records_before_mono(items: Seq<GroupWriteItem>, i: int, j: int)
    requires
        0 <= i <= j,
    ensures
        records_before(items, i) <= records_before(items, j),
    decreases j - i,
{
    if i < j {
        lemma_records_before_mono(items, i, j - 1);
    }
}

/// Whether an item's batch goes to the log.
pub open spec fn logged(it: GroupWriteItem) -> bool {
    !it.opts.disable_wal
}

/// The log payloads of the items that are logged, in order.
pub open spec fn logged_payloads(items: Seq<GroupWriteItem>) -> Seq<Seq<u8>>
    decreases items.len(),
{
    if items.len() == 0 {
        Seq::empty()
    } else if logged(items.last()) {
        logged_payloads(items.drop_last()).push(crate::batch::spec_encode_batch(items.last().batch@, items.last().start_sequence))
    } else {
        logged_payloads(items.drop_last())
    }
}

/// Whether the log must be synced after the group: some logged item asks for it, or the
/// log syncs after every write.
pub open spec fn group_needs_sync(items: Seq<GroupWriteItem>, wal_sync: WalSyncMode) -> bool {
    exists|i: int| 0 <= i < items.len() && logged(#[trigger] items[i]) && (items[i].opts.sync || wal_sync == WalSyncMode::PerWrite)
}

/// What the group writes to the log: nothing when the log is off; otherwise each logged
/// item's batch encoded with its start sequence, and whether to sync afterwards.
pub fn wal_plan(items: &[GroupWriteItem], wal_enabled: bool, wal_sync: WalSyncMode) -> (r: (Vec<Vec<u8>>, bool))
    ensures
        !wal_enabled ==> r.0@.len() == 0 && !r.1,
        wal_enabled ==> r.0@.map_values(|p: Vec<u8>| p@) == logged_payloads(items@) && r.1 == group_needs_sync(items@, wal_sync),
{
    let mut payloads: Vec<Vec<u8>> = Vec::new();
    if !wal_enabled {
        return (payloads, false);
    }
    let per_write = match wal_sync {
        WalSyncMode::PerWrite => true,
        WalSyncMode::Never => false,
    };
    let mut sync = false;
    let mut i: usize = 0;
    assert(items@.subrange(0, 0) =~= Seq::<GroupWriteItem>::empty());
    assert(payloads@.map_values(|p: Vec<u8>| p@) =~= Seq::<Seq<u8>>::empty());
    while i < items.len()
        invariant
            i <= items@.len(),
            per_write == (wal_sync == WalSyncMode::PerWrite),
            payloads@.map_values(|p: Vec<u8>| p@) == logged_payloads(items@.subrange(0, i as int)),
            sync == exists|j: int| 0 <= j < i && logged(#[trigger] items@[j]) && (items@[j].opts.sync || wal_sync == WalSyncMode::PerWrite),
        decreases items@.len() - i,
    {
        let ghost pre = items@.subrange(0, i + 1);
        assert(pre.drop_last() =~= items@.subrange(0, i as int));
        assert(pre.last() == items@[i as int]);
        let it = &items[i];
        if !it.opts.disable_wal {
            let payload = it.batch.encode_with_sequence(it.start_sequence);
            let ghost before = payloads@;
            payloads.push(payload);
            assert(payloads@.map_values(|p: Vec<u8>| p@) =~= before.map_values(|p: Vec<u8>| p@).push(payload@));
            if it.opts.sync || per_write {
                sync = true;
            }
        }
        i = i + 1;
    }
    assert(items@.subrange(0, i as int) =~= items@);
    (payloads, sync)
}

/// The first step of applying a group: `Err(Closed)` once the engine is closed;
/// otherwise the items with their sequence numbers assigned after the last one used, what
/// to log, and whether to sync the log.
pub fn prepare_write_group(
    state: &DbState,
    items: Vec<GroupWriteItem>,
    wal_enabled: bool,
    wal_sync: WalSyncMode,
) -> (r: Result<(Vec<GroupWriteItem>, Vec<Vec<u8>>, bool)>)
    requires
        state.last_sequence + 1 + records_before(items@, items@.len() as int) <= u64::MAX,
    ensures
        state.closed ==> r matches Err(Error::Closed),
        !state.closed ==> (r matches Ok((assigned, payloads, sync)) && {
            &&& assigned@.len() == items@.len()
            &&& forall|i: int| 0 <= i < assigned@.len() ==> {
                &&& (#[trigger] assigned@[i]).batch@ == items@[i].batch@
                &&& assigned@[i].opts == items@[i].opts
                &&& assigned@[i].user_write_bytes == items@[i].user_write_bytes
                &&& assigned@[i].start_sequence == state.last_sequence + 1 + records_before(items@, i)
            }
            &&& !wal_enabled ==> payloads@.len() == 0 && !sync
            &&& wal_enabled ==> payloads@.map_values(|p: Vec<u8>| p@) == logged_payloads(assigned@)
                && sync == group_needs_sync(assigned@, wal_sync)
        }),
{
    if state.closed {
        return Err(Error::Closed);
    }
    let assigned = assign_start_sequences(items, state.last_sequence);
    let (payloads, sync) = wal_plan(assigned.as_slice(), wal_enabled, wal_sync);
    Ok((assigned, payloads, sync))
}

/// The bytes of keys and values of the items' batches, added up.
pub open spec fn group_records_bytes(items: Seq<GroupWriteItem>) -> nat
    decreases items.len(),
{
    if items.len() == 0 {
        0
    } else {
        group_records_bytes(items.drop_last()) + records_bytes(items.last().batch@)
    }
}

/// `s` after applying each item's batch at its start sequence, in order.
pub open spec fn apply_group_records(s: Seq<crate::memtable::EntryView>, items: Seq<GroupWriteItem>) -> Seq<crate::memtable::EntryView>
    decreases items.len(),
{
    if items.len() == 0 {
        s
    } else {
        apply_records(apply_group_records(s, items.drop_last()), items.last().batch@, items.last().start_sequence)
    }
}

/// The last sequence number after applying the items from `last`.
pub open spec fn group_last_sequence(last: u64, items: Seq<GroupWriteItem>) -> u64
    decreases items.len(),
{
    if items.len() == 0 {
        last
    } else {
        let before = group_last_sequence(last, items.drop_last());
        let it = items.last();
        if it.batch@.len() > 0 && it.start_sequence + it.batch@.len() - 1 > before {
            (it.start_sequence + it.batch@.len() - 1) as u64
        } else {
            before
        }
    }
}

/// What the memtable that starts the `t`-th segment of a group holds: the old mutable
/// memtable's entries for the first, nothing for those that follow a freeze.
pub open spec fn segment_base(base: Seq<crate::memtable::EntryView>, t: int) -> Seq<crate::memtable::EntryView> {
    if t == 0 {
        base
    } else {
        Seq::empty()
    }
}

/// The index of the first item of the `t`-th segment.
pub open spec fn segment_start(cuts: Seq<int>, t: int) -> int {
    if t == 0 {
        0
    } else {
        cuts[t - 1]
    }
}

/// How the first `n` items were spread over memtables: the mutable memtable was frozen
/// after item `cuts[t] - 1` for each `t`, the cuts increasing; `frozen[t]` holds the
/// items of its segment applied over its starting memtable, and `mutable` those after
/// the last cut.
pub open spec fn group_split(
    base: Seq<crate::memtable::EntryView>,
    items: Seq<GroupWriteItem>,
    n: int,
    cuts: Seq<int>,
    frozen: Seq<Seq<crate::memtable::EntryView>>,
    mutable: Seq<crate::memtable::EntryView>,
) -> bool {
    &&& frozen.len() == cuts.len()
    &&& forall|t: int| 0 <= t < cuts.len() ==> 0 < #[trigger] cuts[t] <= n
    &&& forall|t: int| 0 < t < cuts.len() ==> cuts[t - 1] < #[trigger] cuts[t]
    &&& forall|t: int| 0 <= t < cuts.len() ==> #[trigger] frozen[t] == apply_group_records(
        segment_base(base, t),
        items.subrange(segment_start(cuts, t), cuts[t]),
    )
    &&& mutable == apply_group_records(
        segment_base(base, cuts.len() as int),
        items.subrange(segment_start(cuts, cuts.len() as int), n),
    )
}

/// Applying one more item extends the split: its batch lands in the mutable memtable.
proof fn lemma_group_split_apply(
    base: Seq<crate::memtable::EntryView>,
    items: Seq<GroupWriteItem>,
    n: int,
    cuts: Seq<int>,
    frozen: Seq<Seq<crate::memtable::EntryView>>,
    mutable: Seq<crate::memtable::EntryView>,
)
    requires
        0 <= n < items.len(),
        group_split(base, items, n, cuts, frozen, mutable),
    ensures
        group_split(base, items, n + 1, cuts, frozen, apply_records(mutable, items[n].batch@, items[n].start_sequence)),
{
    let c = segment_start(cuts, cuts.len() as int);
    assert(0 <= c <= n) by {
        if cuts.len() > 0 {
            assert(0 < cuts[cuts.len() - 1] <= n);
        }
    }
    let seg = items.subrange(c, n + 1);
    assert(seg.drop_last() =~= items.subrange(c, n));
    assert(seg.last() == items[n]);
}

/// Freezing after `n` items closes the current segment with a cut at `n`.
proof fn lemma_group_split_freeze(
    base: Seq<crate::memtable::EntryView>,
    items: Seq<GroupWriteItem>,
    n: int,
    cuts: Seq<int>,
    frozen: Seq<Seq<crate::memtable::EntryView>>,
    mutable: Seq<crate::memtable::EntryView>,
)
    requires
        0 < n <= items.len(),
        group_split(base, items, n, cuts, frozen, mutable),
        cuts.len() > 0 ==> cuts[cuts.len() - 1] < n,
    ensures
        group_split(base, items, n, cuts.push(n), frozen.push(mutable), Seq::empty()),
{
    let cs = cuts.push(n);
    let fs = frozen.push(mutable);
    assert forall|t: int| 0 <= t < cs.len() implies 0 < #[trigger] cs[t] <= n by {
        if t < cuts.len() {
            assert(cs[t] == cuts[t]);
        }
    }
    assert forall|t: int| 0 < t < cs.len() implies cs[t - 1] < #[trigger] cs[t] by {
        if t < cuts.len() {
            assert(cs[t] == cuts[t] && cs[t - 1] == cuts[t - 1]);
        }
    }
    assert forall|t: int| 0 <= t < cs.len() implies #[trigger] fs[t] == apply_group_records(
        segment_base(base, t),
        items.subrange(segment_start(cs, t), cs[t]),
    ) by {
        if t < cuts.len() {
            assert(fs[t] == frozen[t]);
            assert(cs[t] == cuts[t]);
            assert(segment_start(cs, t) == segment_start(cuts, t));
        } else {
            assert(segment_start(cs, t) == segment_start(cuts, t));
        }
    }
    assert(items.subrange(n, n) =~= Seq::<GroupWriteItem>::empty());
}

/// The size basis of a memtable of `kind` whose basis was `basis` once the items'
/// batches are recorded in it.
pub open spec fn group_basis(kind: MemTableKind, basis: int, items: Seq<GroupWriteItem>) -> int
    decreases items.len(),
{
    if items.len() == 0 {
        basis
    } else {
        records_basis(kind, group_basis(kind, basis, items.drop_last()), items.last().batch@)
    }
}

/// The kind of the memtable that starts the `t`-th segment: the old mutable memtable's
/// for the first, the kind new memtables are made of for the others.
pub open spec fn segment_kind(kind0: MemTableKind, kind: MemTableKind, t: int) -> MemTableKind {
    if t == 0 {
        kind0
    } else {
        kind
    }
}

/// The size basis of the memtable that starts the `t`-th segment.
pub open spec fn segment_basis(basis0: int, t: int) -> int {
    if t == 0 {
        basis0
    } else {
        0
    }
}

/// Whether the memtable of segment `t`, which starts at item `c`, is due to be frozen
/// once items up to `k` are applied: it is non-empty and its size estimate has reached
/// `size`.
pub open spec fn segment_full(
    base: Seq<crate::memtable::EntryView>,
    kind0: MemTableKind,
    basis0: int,
    kind: MemTableKind,
    size: int,
    items: Seq<GroupWriteItem>,
    t: int,
    c: int,
    k: int,
) -> bool {
    let seg = items.subrange(c, k);
    let es = apply_group_records(segment_base(base, t), seg);
    let sk = segment_kind(kind0, kind, t);
    es.len() > 0 && size_from_basis(sk, group_basis(sk, segment_basis(basis0, t), seg), es.len() as int) >= size
}

/// The cuts of a split of the first `n` items are exactly where a memtable was due to be
/// frozen: inside each segment, the memtable is due after an item exactly when that item
/// ends a closed segment, and never inside the last, open one.
pub open spec fn cuts_exact(
    base: Seq<crate::memtable::EntryView>,
    kind0: MemTableKind,
    basis0: int,
    kind: MemTableKind,
    size: int,
    items: Seq<GroupWriteItem>,
    n: int,
    cuts: Seq<int>,
) -> bool {
    forall|t: int, k: int|
        0 <= t <= cuts.len() && segment_start(cuts, t) < k && k <= (if t < cuts.len() { cuts[t] } else { n })
            ==> (#[trigger] segment_full(base, kind0, basis0, kind, size, items, t, segment_start(cuts, t), k)
            <==> (t < cuts.len() && k == cuts[t]))
}

/// One more item: the split stays exact, with a cut after it when its memtable became due.
proof fn lemma_cuts_step(
    base: Seq<crate::memtable::EntryView>,
    kind0: MemTableKind,
    basis0: int,
    kind: MemTableKind,
    size: int,
    items: Seq<GroupWriteItem>,
    i: int,
    cuts: Seq<int>,
    froze: bool,
)
    requires
        0 <= i < items.len(),
        cuts_exact(base, kind0, basis0, kind, size, items, i, cuts),
        forall|t: int| 0 <= t < cuts.len() ==> 0 < #[trigger] cuts[t] <= i,
        froze == segment_full(base, kind0, basis0, kind, size, items, cuts.len() as int, segment_start(cuts, cuts.len() as int), i + 1),
    ensures
        cuts_exact(base, kind0, basis0, kind, size, items, i + 1, if froze { cuts.push(i + 1) } else { cuts }),
{
    let cs = if froze { cuts.push(i + 1) } else { cuts };
    assert forall|t: int, k: int|
        0 <= t <= cs.len() && segment_start(cs, t) < k && k <= (if t < cs.len() { cs[t] } else { i + 1 })
            implies (#[trigger] segment_full(base, kind0, basis0, kind, size, items, t, segment_start(cs, t), k)
            <==> (t < cs.len() && k == cs[t])) by {
        if t <= cuts.len() {
            assert(segment_start(cs, t) == segment_start(cuts, t));
            if t < cuts.len() {
                assert(cs[t] == cuts[t]);
            }
            if t < cuts.len() || k <= i {
                assert(segment_full(base, kind0, basis0, kind, size, items, t, segment_start(cuts, t), k)
                    <==> (t < cuts.len() && k == cuts[t]));
            }
            if t == cuts.len() && froze {
                assert(cs[t] == i + 1);
            }
        } else {
            assert(segment_start(cs, t) == i + 1);
        }
    }
}

proof fn lemma_group_records_bytes_prefix(items: Seq<GroupWriteItem>, i: int)
    requires
        0 <= i < items.len(),
    ensures
        group_records_bytes(items.subrange(0, i + 1)) == group_records_bytes(items.subrange(0, i)) + records_bytes(items[i].batch@),
        group_records_bytes(items.subrange(0, i + 1)) <= group_records_bytes(items),
    decreases items.len(),
{
    assert(items.subrange(0, i + 1).drop_last() =~= items.subrange(0, i));
    if i + 1 < items.len() {
        lemma_group_records_bytes_prefix(items.drop_last(), i);
        assert(items.drop_last().subrange(0, i + 1) =~= items.subrange(0, i + 1));
        assert(items.drop_last().subrange(0, i) =~= items.subrange(0, i));
    } else {
        assert(items.subrange(0, i + 1) =~= items);
    }
}

/// The last step of applying a group: each batch goes into the mutable memtable at its
/// start sequence, and after each the mutable memtable is frozen if it has grown to
/// `memtable_size`. Says whether any froze, so that a flush should follow. The batches
/// are spread over the memtables frozen on the way, in order, and the mutable one
/// (`group_split`), and the cuts fall exactly after the items at which the mutable
/// memtable was non-empty and had reached `memtable_size` (`cuts_exact`), so that
/// afterwards it is empty or below that size. When none froze, the mutable memtable holds
/// its old entries with every batch applied in order.
pub fn apply_group_to_state(state: &mut DbState, items: &[GroupWriteItem], memtable_size: usize, memtable_kind: MemTableKind) -> (r: bool)
    requires
        old(state).wf(),
        forall|i: int| 0 <= i < items@.len() ==> (#[trigger] items@[i]).start_sequence + items@[i].batch@.len() <= u64::MAX,
        group_records_bytes(items@) <= usize::MAX,
        old(state).mutable.room_for(group_records_bytes(items@)),
    ensures
        final(state).wf(),
        final(state).last_sequence == group_last_sequence(old(state).last_sequence, items@),
        final(state).immutables@.len() >= old(state).immutables@.len(),
        final(state).immutables@.subrange(0, old(state).immutables@.len() as int) == old(state).immutables@,
        r == (final(state).immutables@.len() > old(state).immutables@.len()),
        !r ==> final(state).mutable.entries_view() == apply_group_records(old(state).mutable.entries_view(), items@)
            && final(state).mutable.spec_kind() == old(state).mutable.spec_kind(),
        r ==> final(state).mutable.spec_kind() == memtable_kind,
        exists|cuts: Seq<int>| #[trigger] group_split(
            old(state).mutable.entries_view(),
            items@,
            items@.len() as int,
            cuts,
            final(state).immutables_view().subrange(old(state).immutables@.len() as int, final(state).immutables@.len() as int),
            final(state).mutable.entries_view(),
        ) && cuts_exact(
            old(state).mutable.entries_view(),
            old(state).mutable.spec_kind(),
            old(state).mutable.size_basis(),
            memtable_kind,
            memtable_size as int,
            items@,
            items@.len() as int,
            cuts,
        ),
        forall|t: int| old(state).immutables@.len() <= t < final(state).immutables@.len()
            ==> (#[trigger] final(state).immutables@[t]).entries_view().len() > 0
            && final(state).immutables@[t].spec_approximate_size() >= memtable_size,
        items@.len() > 0 ==> final(state).mutable.entries_view().len() == 0
            || final(state).mutable.spec_approximate_size() < memtable_size,
        forall|n: nat| old(state).mutable.room_for(n + group_records_bytes(items@)) && n + group_records_bytes(items@) <= usize::MAX
            ==> #[trigger] final(state).mutable.room_for(n),
        final(state).l0_tables@ == old(state).l0_tables@,
        final(state).level_tables@ == old(state).level_tables@,
        final(state).closed == old(state).closed,
{
    let ghost s = items@;
    let ghost base = old(state).mutable.entries_view();
    let ghost kind0 = old(state).mutable.spec_kind();
    let ghost basis0 = old(state).mutable.size_basis();
    let ghost size = memtable_size as int;
    let ghost g = group_records_bytes(items@);
    let ghost n0 = old(state).immutables@.len() as int;
    let ghost mut cuts: Seq<int> = Seq::empty();
    let mut should_flush = false;
    let mut i: usize = 0;
    assert(s.subrange(0, 0) =~= Seq::<GroupWriteItem>::empty());
    assert(state.immutables_view().subrange(n0, n0) =~= Seq::<Seq<crate::memtable::EntryView>>::empty());
    while i < items.len()
        invariant
            s == items@,
            i <= s.len(),
            state.wf(),
            forall|k: int| 0 <= k < s.len() ==> (#[trigger] s[k]).start_sequence + s[k].batch@.len() <= u64::MAX,
            g == group_records_bytes(s),
            g <= usize::MAX,
            state.mutable.room_for((g - group_records_bytes(s.subrange(0, i as int))) as nat),
            forall|n: nat| old(state).mutable.room_for(n + g) && n + g <= usize::MAX
                ==> #[trigger] state.mutable.room_for((n + g - group_records_bytes(s.subrange(0, i as int))) as nat),
            group_records_bytes(s.subrange(0, i as int)) <= g,
            state.last_sequence == group_last_sequence(old(state).last_sequence, s.subrange(0, i as int)),
            state.immutables@.len() >= old(state).immutables@.len(),
            state.immutables@.subrange(0, old(state).immutables@.len() as int) == old(state).immutables@,
            should_flush == (state.immutables@.len() > old(state).immutables@.len()),
            should_flush == (cuts.len() > 0),
            !should_flush ==> state.mutable.entries_view() == apply_group_records(old(state).mutable.entries_view(), s.subrange(0, i as int)),
            base == old(state).mutable.entries_view(),
            kind0 == old(state).mutable.spec_kind(),
            basis0 == old(state).mutable.size_basis(),
            size == memtable_size as int,
            n0 == old(state).immutables@.len(),
            group_split(base, s, i as int, cuts, state.immutables_view().subrange(n0, state.immutables@.len() as int), state.mutable.entries_view()),
            cuts_exact(base, kind0, basis0, memtable_kind, size, s, i as int, cuts),
            state.mutable.spec_kind() == segment_kind(kind0, memtable_kind, cuts.len() as int),
            state.mutable.size_basis() == group_basis(
                segment_kind(kind0, memtable_kind, cuts.len() as int),
                segment_basis(basis0, cuts.len() as int),
                s.subrange(segment_start(cuts, cuts.len() as int), i as int),
            ),
            cuts.len() > 0 ==> cuts[cuts.len() - 1] <= i,
            forall|t: int| n0 <= t < state.immutables@.len()
                ==> (#[trigger] state.immutables@[t]).entries_view().len() > 0
                && state.immutables@[t].spec_approximate_size() >= memtable_size,
            state.l0_tables@ == old(state).l0_tables@,
            state.level_tables@ == old(state).level_tables@,
            state.closed == old(state).closed,
        decreases s.len() - i,
    {
        let ghost pre = s.subrange(0, i + 1);
        let ghost c = segment_start(cuts, cuts.len() as int);
        proof {
            assert(pre.drop_last() =~= s.subrange(0, i as int));
            assert(pre.last() == s[i as int]);
            lemma_group_records_bytes_prefix(s, i as int);
            assert(0 <= c <= i) by {
                if cuts.len() > 0 {
                    assert(0 < cuts[cuts.len() - 1] <= i);
                }
            }
            let seg = s.subrange(c, i + 1);
            assert(seg.drop_last() =~= s.subrange(c, i as int));
            assert(seg.last() == s[i as int]);
        }
        let ghost rest = (g - group_records_bytes(pre)) as nat;
        assert(state.mutable.room_for(rest + records_bytes(s[i as int].batch@)));
        let ghost imm_before = state.immutables@;
        let ghost room_before = state.mutable;
        proof {
            lemma_group_split_apply(base, s, i as int, cuts, state.immutables_view().subrange(n0, state.immutables@.len() as int), state.mutable.entries_view());
        }
        apply_batch(state, items[i].start_sequence, &items[i].batch);
        assert(state.mutable.room_for(rest));
        let ghost frozen_before = state.immutables_view().subrange(n0, state.immutables@.len() as int);
        let ghost mut_before = state.mutable.entries_view();
        let ghost mem_before = state.mutable;
        proof {
            mem_before.lemma_size_from_basis();
            assert(mem_before.size_basis() == group_basis(
                segment_kind(kind0, memtable_kind, cuts.len() as int),
                segment_basis(basis0, cuts.len() as int),
                s.subrange(c, i + 1),
            ));
            assert(segment_full(base, kind0, basis0, memtable_kind, size, s, cuts.len() as int, c, i + 1)
                == (mem_before.entries_view().len() > 0 && mem_before.spec_approximate_size() >= memtable_size));
        }
        let froze = freeze_mutable_if_needed(state, memtable_size, memtable_kind);
        proof {
            lemma_cuts_step(base, kind0, basis0, memtable_kind, size, s, i as int, cuts, froze);
            assert forall|n: nat| old(state).mutable.room_for(n + g) && n + g <= usize::MAX
                implies #[trigger] state.mutable.room_for((n + g - group_records_bytes(pre)) as nat) by {
                let m = (n + g - group_records_bytes(pre)) as nat;
                assert(room_before.room_for((n + g - group_records_bytes(s.subrange(0, i as int))) as nat));
                assert(room_before.room_for(m + records_bytes(s[i as int].batch@)));
                assert(mem_before.room_for(m));
            }
            if froze {
                assert(state.mutable.room_for(rest));
                assert(state.immutables@.subrange(0, old(state).immutables@.len() as int) =~= imm_before.subrange(0, old(state).immutables@.len() as int));
                lemma_group_split_freeze(base, s, i + 1, cuts, frozen_before, mut_before);
                assert(state.immutables_view().subrange(n0, state.immutables@.len() as int) =~= frozen_before.push(mut_before));
                assert(state.mutable.entries_view() =~= Seq::<crate::memtable::EntryView>::empty());
                cuts = cuts.push(i + 1);
                assert(s.subrange(i + 1, i + 1) =~= Seq::<GroupWriteItem>::empty());
                assert forall|t: int| n0 <= t < state.immutables@.len()
                    implies (#[trigger] state.immutables@[t]).entries_view().len() > 0
                    && state.immutables@[t].spec_approximate_size() >= memtable_size by {
                    if t < imm_before.len() {
                        assert(state.immutables@[t] == imm_before[t]);
                    }
                }
            }
        }
        if froze {
            should_flush = true;
        }
        i = i + 1;
    }
    proof {
        assert(s.subrange(0, i as int) =~= s);
        let n = s.len() as int;
        if n > 0 {
            state.mutable.lemma_size_from_basis();
            if cuts.len() > 0 && cuts[cuts.len() - 1] == n {
                assert(s.subrange(n, n) =~= Seq::<GroupWriteItem>::empty());
            } else {
                let t = cuts.len() as int;
                let c = segment_start(cuts, t);
                assert(c < n) by {
                    if cuts.len() > 0 {
                        assert(0 < cuts[cuts.len() - 1] <= n);
                    }
                }
                assert(!segment_full(base, kind0, basis0, memtable_kind, size, s, t, c, n));
            }
        }
        assert forall|m: nat| old(state).mutable.room_for(m + g) && m + g <= usize::MAX
            implies #[trigger] state.mutable.room_for(m) by {
            assert(state.mutable.room_for((m + g - group_records_bytes(s.subrange(0, i as int))) as nat));
        }
    }
    assert(group_split(base, items@, items@.len() as int, cuts, state.immutables_view().subrange(n0, state.immutables@.len() as int), state.mutable.entries_view()));
    should_flush
}

/// The outcome every write of a group gets when the group fails with `err`: `count`
/// copies of it, except that an I/O error becomes a `Corruption` error carrying its
/// message.
pub fn repeat_group_error(err: Error, count: usize) -> (r: Vec<Result<()>>)
    ensures
        r@.len() == count,
        forall|i: int| 0 <= i < count ==> match err {
            Error::Closed => r@[i] matches Err(Error::Closed),
            Error::InvalidArgument(m) => (#[trigger] r@[i] matches Err(Error::InvalidArgument(m2)) && m2@ == m@),
            Error::Corruption(m) => (r@[i] matches Err(Error::Corruption(m2)) && m2@ == m@),
            Error::Unsupported(f) => (r@[i] matches Err(Error::Unsupported(f2)) && f2@ == f@),
            Error::TransactionConflict(m) => (r@[i] matches Err(Error::TransactionConflict(m2)) && m2@ == m@),
            Error::Io(_) => r@[i] matches Err(Error::Corruption(_)),
        },
{
    let mut out: Vec<Result<()>> = Vec::new();
    match err {
        Error::Io(e) => {
            let message = io_error_text(&e);
            while out.len() < count
                invariant
                    out@.len() <= count,
                    forall|i: int| 0 <= i < out@.len() ==> #[trigger] out@[i] matches Err(Error::Corruption(_)),
                decreases count - out@.len(),
            {
                out.push(Err(Error::Corruption(message.clone())));
            }
        },
        Error::Closed => {
            while out.len() < count
                invariant
                    out@.len() <= count,
                    forall|i: int| 0 <= i < out@.len() ==> #[trigger] out@[i] matches Err(Error::Closed),
                decreases count - out@.len(),
            {
                out.push(Err(Error::Closed));
            }
        },
        Error::InvalidArgument(m) => {
            while out.len() < count
                invariant
                    out@.len() <= count,
                    forall|i: int| 0 <= i < out@.len() ==> (#[trigger] out@[i] matches Err(Error::InvalidArgument(m2)) && m2@ == m@),
                decreases count - out@.len(),
            {
                out.push(Err(Error::InvalidArgument(m.clone())));
            }
        },
        Error::Corruption(m) => {
            while out.len() < count
                invariant
                    out@.len() <= count,
                    forall|i: int| 0 <= i < out@.len() ==> (#[trigger] out@[i] matches Err(Error::Corruption(m2)) && m2@ == m@),
                decreases count - out@.len(),
            {
                out.push(Err(Error::Corruption(m.clone())));
            }
        },
        Error::Unsupported(f) => {
            while out.len() < count
                invariant
                    out@.len() <= count,
                    forall|i: int| 0 <= i < out@.len() ==> (#[trigger] out@[i] matches Err(Error::Unsupported(f2)) && f2@ == f@),
                decreases count - out@.len(),
            {
                out.push(Err(Error::Unsupported(f)));
            }
        },
        Error::TransactionConflict(m) => {
            while out.len() < count
                invariant
                    out@.len() <= count,
                    forall|i: int| 0 <= i < out@.len() ==> (#[trigger] out@[i] matches Err(Error::TransactionConflict(m2)) && m2@ == m@),
                decreases count - out@.len(),
            {
                out.push(Err(Error::TransactionConflict(m.clone())));
            }
        },
    }
    out
}

} // verus!

verus! {

/// What a transaction's commit logs: nothing when the log is off; otherwise its batch
/// encoded with its start sequence, and whether to sync after it (when the log syncs
/// after every write).
pub fn commit_wal_plan(batch: &WriteBatch, start_sequence: u64, wal_enabled: bool, wal_sync: WalSyncMode) -> (r: Option<(Vec<u8>, bool)>)
    ensures
        !wal_enabled ==> r is None,
        wal_enabled ==> (r matches Some((payload, sync)) && payload@ == crate::batch::spec_encode_batch(batch@, start_sequence)
            && sync == (wal_sync == WalSyncMode::PerWrite)),
{
    if !wal_enabled {
        return None;
    }
    let sync = match wal_sync {
        WalSyncMode::PerWrite => true,
        WalSyncMode::Never => false,
    };
    Some((batch.encode_with_sequence(start_sequence), sync))
}

/// Whether a write waits for others to join its group before the group is applied: it
/// asks for a sync, or the log syncs after every write.
pub fn should_wait_for_group(opts: WriteOptions, wal_sync: WalSyncMode) -> (r: bool)
    ensures
        r == (opts.sync || wal_sync == WalSyncMode::PerWrite),
{
    opts.sync || match wal_sync {
        WalSyncMode::PerWrite => true,
        WalSyncMode::Never => false,
    }
}

/// What writes do about level-0 pressure.
#[derive(Debug, Clone, Copy, PartialEq, Eq, Structural)]
pub enum WritePressure {
    /// Nothing: few enough level-0 tables.
    Proceed,
    /// Pause briefly before writing.
    Slowdown,
    /// Compact everything before writing.
    Stop,
}

/// The response to `l0_count` level-0 tables: stop writes (compacting) at the stop
/// trigger, slow them down at the slowdown trigger, otherwise proceed.
pub fn write_pressure(l0_count: usize, slowdown_trigger: usize, stop_trigger: usize) -> (r: WritePressure)
    ensures
        l0_count >= stop_trigger ==> r == WritePressure::Stop,
        l0_count < stop_trigger && l0_count >= slowdown_trigger ==> r == WritePressure::Slowdown,
        l0_count < stop_trigger && l0_count < slowdown_trigger ==> r == WritePressure::Proceed,
{
    if l0_count >= stop_trigger {
        WritePressure::Stop
    } else if l0_count >= slowdown_trigger {
        WritePressure::Slowdown
    } else {
        WritePressure::Proceed
    }
}

} // verus!
