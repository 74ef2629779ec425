//! Opening an engine: whether a directory may be opened, and replaying the write-ahead
//! log into the memtable.
use vstd::prelude::*;

use crate::batch::{records_view, spec_decode_batch, BatchRecord, WriteBatch};
use crate::db_state::{apply_batch, apply_records, lemma_records_bytes_prefix, records_bytes, DbState};
use crate::error::{corruption, invalid_argument, Error, Result};
use crate::memtable::EntryView;

verus! {

/// Whether a database may be opened: refused when it exists and `error_if_exists` is
/// set, or when it is missing and `create_if_missing` is not set.
pub fn check_open(db_exists: bool, error_if_exists: bool, create_if_missing: bool) -> (r: Result<()>)
    ensures
        r is Ok <==> (!(db_exists && error_if_exists) && (db_exists || create_if_missing)),
        r is Err ==> r matches Err(Error::InvalidArgument(_)),
{
    if db_exists && error_if_exists {
        return Err(invalid_argument("database already exists"));
    }
    if !db_exists && !create_if_missing {
        return Err(invalid_argument("database does not exist"));
    }
    Ok(())
}

/// Every one of the first `n` payloads decodes as a batch.
pub open spec fn decodable_prefix(payloads: Seq<Seq<u8>>, n: int) -> bool {
    forall|k: int| 0 <= k < n ==> (#[trigger] spec_decode_batch(payloads[k])) is Some
}

/// The memtable entries `s` after the decodable payloads, in order, are applied at
/// their start sequences.
pub open spec fn replay_entries(s: Seq<EntryView>, payloads: Seq<Seq<u8>>) -> Seq<EntryView>
    decreases payloads.len(),
{
    if payloads.len() == 0 {
        s
    } else {
        let before = replay_entries(s, payloads.drop_last());
        match spec_decode_batch(payloads.last()) {
            Some((start, rs)) => apply_records(before, rs, start),
            None => before,
        }
    }
}

/// The last sequence number from `last` after the decodable payloads are applied, raised
/// as applying a batch raises it.
pub open spec fn replay_last(last: u64, payloads: Seq<Seq<u8>>) -> u64
    decreases payloads.len(),
{
    if payloads.len() == 0 {
        last
    } else {
        let before = replay_last(last, payloads.drop_last());
        match spec_decode_batch(payloads.last()) {
            Some((start, rs)) => if rs.len() > 0 && start + rs.len() - 1 > before {
                (start + rs.len() - 1) as u64
            } else {
                before
            },
            None => before,
        }
    }
}

/// The key and value bytes of the decodable payloads.
pub open spec fn replay_bytes(payloads: Seq<Seq<u8>>) -> nat
    decreases payloads.len(),
{
    if payloads.len() == 0 {
        0
    } else {
        replay_bytes(payloads.drop_last()) + match spec_decode_batch(payloads.last()) {
            Some((start, rs)) => records_bytes(rs),
            None => 0,
        }
    }
}

proof fn lemma_replay_bytes_prefix(payloads: Seq<Seq<u8>>, i: int)
    requires
        0 <= i <= payloads.len(),
    ensures
        replay_bytes(payloads.subrange(0, i)) <= replay_bytes(payloads),
    decreases payloads.len() - i,
{
    if i < payloads.len() {
        let t = payloads.subrange(0, i + 1);
        assert(t.drop_last() =~= payloads.subrange(0, i));
        lemma_replay_bytes_prefix(payloads, i + 1);
    } else {
        assert(payloads.subrange(0, i) =~= payloads);
    }
}

/// Replays logged batch payloads into the mutable memtable, in order, as reopening an
/// engine does. At the first payload that does not decode it stops with `Corruption`,
/// the payloads before it applied; otherwise every payload is applied.
pub fn replay_wal(state: &mut DbState, payloads: &Vec<Vec<u8>>) -> (r: Result<()>)
    requires
        old(state).wf(),
        forall|k: int| 0 <= k < payloads@.len() ==> match #[trigger] spec_decode_batch(payloads@[k]@) {
            Some((start, rs)) => start + rs.len() <= u64::MAX,
            None => true,
        },
        old(state).mutable.room_for(replay_bytes(payloads@.map_values(|p: Vec<u8>| p@))),
    ensures
        final(state).wf(),
        ({
            let ps = payloads@.map_values(|p: Vec<u8>| p@);
            match r {
                Ok(()) => decodable_prefix(ps, ps.len() as int)
                    && final(state).mutable.entries_view() == replay_entries(old(state).mutable.entries_view(), ps)
                    && final(state).last_sequence == replay_last(old(state).last_sequence, ps),
                Err(e) => e is Corruption && exists|j: int| 0 <= j < ps.len() && decodable_prefix(ps, j)
                    && (#[trigger] spec_decode_batch(ps[j])) is None
                    && final(state).mutable.entries_view() == replay_entries(old(state).mutable.entries_view(), ps.subrange(0, j))
                    && final(state).last_sequence == replay_last(old(state).last_sequence, ps.subrange(0, j)),
            }
        }),
        final(state).mutable.spec_kind() == old(state).mutable.spec_kind(),
        final(state).immutables@ == old(state).immutables@,
        final(state).l0_tables@ == old(state).l0_tables@,
        final(state).level_tables@ == old(state).level_tables@,
        final(state).closed == old(state).closed,
{
    let ghost ps = payloads@.map_values(|p: Vec<u8>| p@);
    let ghost total = replay_bytes(ps);
    let mut i: usize = 0;
    assert(ps.subrange(0, 0) =~= Seq::<Seq<u8>>::empty());
    while i < payloads.len()
        invariant
            ps == payloads@.map_values(|p: Vec<u8>| p@),
            total == replay_bytes(ps),
            i <= ps.len(),
            state.wf(),
            decodable_prefix(ps, i as int),
            forall|k: int| 0 <= k < ps.len() ==> match #[trigger] spec_decode_batch(ps[k]) {
                Some((start, rs)) => start + rs.len() <= u64::MAX,
                None => true,
            },
            state.mutable.room_for((total - replay_bytes(ps.subrange(0, i as int))) as nat),
            replay_bytes(ps.subrange(0, i as int)) <= total,
            state.mutable.entries_view() == replay_entries(old(state).mutable.entries_view(), ps.subrange(0, i as int)),
            state.last_sequence == replay_last(old(state).last_sequence, ps.subrange(0, i as int)),
            state.mutable.spec_kind() == old(state).mutable.spec_kind(),
            state.immutables@ == old(state).immutables@,
            state.l0_tables@ == old(state).l0_tables@,
            state.level_tables@ == old(state).level_tables@,
            state.closed == old(state).closed,
        decreases ps.len() - i,
    {
        let ghost pre = ps.subrange(0, i + 1);
        proof {
            assert(pre.drop_last() =~= ps.subrange(0, i as int));
            assert(pre.last() == ps[i as int]);
            assert(payloads@[i as int]@ == ps[i as int]);
            lemma_replay_bytes_prefix(ps, i + 1);
        }
        match WriteBatch::decode_payload(payloads[i].as_slice()) {
            Err(e) => {
                assert(spec_decode_batch(ps[i as int]) is None);
                return Err(e);
            },
            Ok((start, batch)) => {
                let ghost rest = (total - replay_bytes(pre)) as nat;
                assert(state.mutable.room_for(rest + records_bytes(batch@)));
                apply_batch(state, start, &batch);
                assert(state.mutable.room_for(rest));
                proof {
                    assert forall|k: int| 0 <= k < i + 1 implies (#[trigger] spec_decode_batch(ps[k])) is Some by {
                        if k < i {
                            assert(decodable_prefix(ps, i as int));
                        }
                    }
                }
            },
        }
        i = i + 1;
    }
    assert(ps.subrange(0, i as int) =~= ps);
    Ok(())
}

/// The key and value bytes of a batch, or `None` when they do not fit a word.
fn batch_bytes_checked(batch: &WriteBatch) -> (r: Option<usize>)
    ensures
        match r {
            Some(n) => n == records_bytes(batch@),
            None => records_bytes(batch@) > usize::MAX,
        },
{
    let records = batch.records();
    let ghost rs = records_view(records@);
    let mut total: usize = 0;
    let mut i: usize = 0;
    assert(rs.subrange(0, 0) =~= Seq::<crate::batch::RecordView>::empty());
    while i < records.len()
        invariant
            rs == batch@,
            rs == records_view(records@),
            i <= rs.len(),
            total == records_bytes(rs.subrange(0, i as int)),
        decreases rs.len() - i,
    {
        proof {
            lemma_records_bytes_prefix(rs, i as int);
            assert(rs[i as int] == records@[i as int]@);
        }
        let n = match &records[i] {
            BatchRecord::Put { key, value } => match key.len().checked_add(value.len()) {
                Some(n) => n,
                None => return None,
            },
            BatchRecord::Delete { key } => key.len(),
        };
        total = match total.checked_add(n) {
            Some(t) => t,
            None => return None,
        };
        i = i + 1;
    }
    assert(rs.subrange(0, i as int) =~= rs);
    Some(total)
}

/// Whether replaying `payloads` stays within the machine's limits: no decodable batch
/// runs its sequence numbers past `u64::MAX`, and the bytes of the decodable batches fit
/// a word and the memtable's byte count.
pub open spec fn replay_fits(state: DbState, ps: Seq<Seq<u8>>) -> bool {
    &&& forall|k: int| 0 <= k < ps.len() ==> match #[trigger] spec_decode_batch(ps[k]) {
        Some((start, rs)) => start + rs.len() <= u64::MAX,
        None => true,
    }
    &&& replay_bytes(ps) <= usize::MAX
    &&& state.mutable.room_for(replay_bytes(ps))
}

/// Replays logged batch payloads as reopening an engine does, after checking that the
/// replay stays within the machine's limits: when it would not, `Corruption` and the
/// state unchanged; otherwise as [`replay_wal`].
pub fn replay_log(state: &mut DbState, payloads: &Vec<Vec<u8>>) -> (r: Result<()>)
    requires
        old(state).wf(),
    ensures
        final(state).wf(),
        ({
            let ps = payloads@.map_values(|p: Vec<u8>| p@);
            if !replay_fits(*old(state), ps) {
                r matches Err(Error::Corruption(_)) && *final(state) == *old(state)
            } else {
                match r {
                    Ok(()) => decodable_prefix(ps, ps.len() as int)
                        && final(state).mutable.entries_view() == replay_entries(old(state).mutable.entries_view(), ps)
                        && final(state).last_sequence == replay_last(old(state).last_sequence, ps),
                    Err(e) => e is Corruption && exists|j: int| 0 <= j < ps.len() && decodable_prefix(ps, j)
                        && (#[trigger] spec_decode_batch(ps[j])) is None
                        && final(state).mutable.entries_view() == replay_entries(old(state).mutable.entries_view(), ps.subrange(0, j))
                        && final(state).last_sequence == replay_last(old(state).last_sequence, ps.subrange(0, j)),
                }
            }
        }),
        final(state).mutable.spec_kind() == old(state).mutable.spec_kind(),
        final(state).immutables@ == old(state).immutables@,
        final(state).l0_tables@ == old(state).l0_tables@,
        final(state).level_tables@ == old(state).level_tables@,
        final(state).closed == old(state).closed,
{
    let ghost ps = payloads@.map_values(|p: Vec<u8>| p@);
    let mut total: usize = 0;
    let mut i: usize = 0;
    assert(ps.subrange(0, 0) =~= Seq::<Seq<u8>>::empty());
    while i < payloads.len()
        invariant
            ps == payloads@.map_values(|p: Vec<u8>| p@),
            i <= ps.len(),
            *state == *old(state),
            state.wf(),
            total == replay_bytes(ps.subrange(0, i as int)),
            forall|k: int| 0 <= k < i ==> match #[trigger] spec_decode_batch(ps[k]) {
                Some((start, rs)) => start + rs.len() <= u64::MAX,
                None => true,
            },
        decreases ps.len() - i,
    {
        let ghost pre = ps.subrange(0, i + 1);
        proof {
            assert(pre.drop_last() =~= ps.subrange(0, i as int));
            assert(pre.last() == ps[i as int]);
            assert(payloads@[i as int]@ == ps[i as int]);
            lemma_replay_bytes_prefix(ps, i + 1);
        }
        match WriteBatch::decode_payload(payloads[i].as_slice()) {
            Err(_) => {},
            Ok((start, batch)) => {
                if batch.len() as u64 > u64::MAX - start {
                    return Err(corruption("log replay overflows"));
                }
                let n = match batch_bytes_checked(&batch) {
                    Some(n) => n,
                    None => return Err(corruption("log replay overflows")),
                };
                total = match total.checked_add(n) {
                    Some(t) => t,
                    None => return Err(corruption("log replay overflows")),
                };
            },
        }
        i = i + 1;
    }
    assert(ps.subrange(0, i as int) =~= ps);
    if !state.mutable.has_room_for(total) {
        return Err(corruption("log replay overflows"));
    }
    assert forall|k: int| 0 <= k < payloads@.len() implies match #[trigger] spec_decode_batch(payloads@[k]@) {
        Some((start, rs)) => start + rs.len() <= u64::MAX,
        None => true,
    } by {
        assert(payloads@[k]@ == ps[k]);
    }
    replay_wal(state, payloads)
}

} // verus!
