//! Decoding data blocks.
use vstd::prelude::*;

use crate::batch::low32;
use crate::error::{corruption, Error, Result};
use crate::key::{InternalKey, ValueType};
use crate::memtable::{entries_view, EntryView, ValueRecord};
use crate::table::block_builder::{
    common_prefix_len, lemma_common_prefix, record_bytes, record_type, shared_for,
    spec_block_data, spec_encode_block_entry, spec_finish_block, spec_restart_bytes,
    spec_restarts,
};
use crate::table::format::{decode_value_type, spec_value_type};
use crate::util::coding::{
    get_fixed, get_var_u32, get_var_u64, le_bytes, le_value, lemma_get_var_u32_roundtrip,
    lemma_get_var_u64_roundtrip, lemma_le_roundtrip, lemma_parse_varint_bound, max_u32, max_u64,
    pow256, spec_get_var, spec_varint, take_bytes, var_error,
};

verus! {

/// The fixed part of a block entry at `pos`: shared length, unshared length, value
/// length, value type, sequence, and the position of the key bytes.
pub open spec fn spec_decode_block_header(d: Seq<u8>, pos: nat) -> Option<(nat, nat, nat, ValueType, nat, nat)> {
    match spec_get_var(d, pos, 5, max_u32()) {
        None => None,
        Some((shared, p1)) => match spec_get_var(d, p1, 5, max_u32()) {
            None => None,
            Some((unshared, p2)) => match spec_get_var(d, p2, 5, max_u32()) {
                None => None,
                Some((vlen, p3)) => if p3 >= d.len() {
                    None
                } else {
                    match spec_value_type(d[p3 as int]) {
                        None => None,
                        Some(t) => match spec_get_var(d, p3 + 1, 10, max_u64()) {
                            None => None,
                            Some((seq, p4)) => Some((shared, unshared, vlen, t, seq, p4)),
                        },
                    }
                },
            },
        },
    }
}

/// Reads one block entry at `pos` of `d`, given the previous user key.
pub open spec fn spec_decode_block_entry(d: Seq<u8>, pos: nat, last: Seq<u8>) -> Option<(EntryView, nat)> {
    match spec_decode_block_header(d, pos) {
        None => None,
        Some((shared, unshared, vlen, t, seq, p4)) => if shared > last.len() || p4 + unshared > d.len()
            || p4 + unshared + vlen > d.len() {
            None
        } else {
            let uk = last.take(shared as int) + d.subrange(p4 as int, (p4 + unshared) as int);
            let p5 = p4 + unshared;
            let v = d.subrange(p5 as int, (p5 + vlen) as int);
            if t == ValueType::Put {
                Some((((uk, seq as u64, t), Some(v)), p5 + vlen))
            } else if vlen == 0 {
                Some((((uk, seq as u64, t), None), p5 + vlen))
            } else {
                None
            }
        },
    }
}

/// Reads the entries of `d` from `pos` to the end, given the previous user key.
pub open spec fn spec_decode_block_entries(d: Seq<u8>, pos: nat, last: Seq<u8>) -> Option<Seq<EntryView>>
    decreases d.len() - pos,
{
    if pos >= d.len() {
        Some(Seq::empty())
    } else {
        match spec_decode_block_entry(d, pos, last) {
            None => None,
            Some((e, p2)) => if p2 <= pos {
                None
            } else {
                match spec_decode_block_entries(d, p2, e.0.0) {
                    None => None,
                    Some(rest) => Some(seq![e] + rest),
                }
            },
        }
    }
}

/// The message of the error reading the block entry at `pos` fails with, checked in
/// order: the three length varints, the value type, the sequence varint, then the
/// shared prefix, key and value lengths, and a value on a tombstone.
pub open spec fn spec_block_entry_error(d: Seq<u8>, pos: nat, last: Seq<u8>) -> Seq<char> {
    match spec_get_var(d, pos, 5, max_u32()) {
        None => var_error(d, pos, 5, "varint overflows u32"@),
        Some((shared, p1)) => match spec_get_var(d, p1, 5, max_u32()) {
            None => var_error(d, p1, 5, "varint overflows u32"@),
            Some((unshared, p2)) => match spec_get_var(d, p2, 5, max_u32()) {
                None => var_error(d, p2, 5, "varint overflows u32"@),
                Some((vlen, p3)) => if p3 >= d.len() {
                    "missing block entry type"@
                } else {
                    match spec_value_type(d[p3 as int]) {
                        None => "unknown value type"@,
                        Some(t) => match spec_get_var(d, p3 + 1, 10, max_u64()) {
                            None => var_error(d, p3 + 1, 10, "varint overflows u64"@),
                            Some((seq, p4)) => if shared > last.len() {
                                "block entry shared prefix is too long"@
                            } else if p4 + unshared > d.len() {
                                "block entry key is truncated"@
                            } else if p4 + unshared + vlen > d.len() {
                                "block entry value is truncated"@
                            } else {
                                "delete block entry carries value bytes"@
                            },
                        },
                    }
                },
            },
        },
    }
}

/// The message of the error reading the entries from `pos` on fails with: that of the
/// first entry that cannot be read.
pub open spec fn spec_block_entries_error(d: Seq<u8>, pos: nat, last: Seq<u8>) -> Seq<char>
    decreases d.len() - pos,
{
    if pos >= d.len() {
        Seq::empty()
    } else {
        match spec_decode_block_entry(d, pos, last) {
            None => spec_block_entry_error(d, pos, last),
            Some((e, p2)) => if p2 <= pos {
                Seq::empty()
            } else {
                spec_block_entries_error(d, p2, e.0.0)
            },
        }
    }
}

/// The message of the error decoding a block fails with.
pub open spec fn spec_block_error(b: Seq<u8>) -> Seq<char> {
    if b.len() < 4 {
        "block missing restart count"@
    } else {
        let cpos = (b.len() - 4) as nat;
        let count = le_value(b.subrange(cpos as int, b.len() as int));
        if count * 4 > usize::MAX {
            "restart count overflow"@
        } else if cpos < count * 4 {
            "invalid restart section"@
        } else {
            spec_block_entries_error(b.subrange(0, cpos - count * 4), 0, Seq::empty())
        }
    }
}

/// The entries of a finished block: the last four bytes count the restart offsets,
/// which precede them; the entries fill what comes before.
pub open spec fn spec_decode_block(b: Seq<u8>) -> Option<Seq<EntryView>> {
    if b.len() < 4 {
        None
    } else {
        let cpos = (b.len() - 4) as nat;
        let count = le_value(b.subrange(cpos as int, b.len() as int));
        if count * 4 > usize::MAX || cpos < count * 4 {
            None
        } else {
            spec_decode_block_entries(b.subrange(0, cpos - count * 4), 0, Seq::empty())
        }
    }
}

/// A decoded data block.
#[derive(Debug, Clone)]
pub struct Block {
    entries: Vec<(InternalKey, ValueRecord)>,
}

impl View for Block {
    type V = Seq<EntryView>;

    closed spec fn view(&self) -> Seq<EntryView> {
        entries_view(self.entries@)
    }
}

/// Reads one block entry at `pos`.
fn decode_block_entry(d: &[u8], pos: usize, last: &[u8]) -> (r: Result<((InternalKey, ValueRecord), usize)>)
    ensures
        match spec_decode_block_entry(d@, pos as nat, last@) {
            Some((e, p)) => r matches Ok((entry, q)) && (entry.0@, entry.1@) == e && q == p,
            None => r matches Err(Error::Corruption(m)) && m@ == spec_block_entry_error(d@, pos as nat, last@),
        },
{
    let len = d.len();
    let (shared, p1) = match get_var_u32(d, pos) {
        Ok(x) => x,
        Err(e) => return Err(e),
    };
    let (unshared, p2) = match get_var_u32(d, p1) {
        Ok(x) => x,
        Err(e) => return Err(e),
    };
    let (value_len, p3) = match get_var_u32(d, p2) {
        Ok(x) => x,
        Err(e) => return Err(e),
    };
    if p3 >= len {
        return Err(corruption("missing block entry type"));
    }
    let value_type = match decode_value_type(d[p3]) {
        Ok(t) => t,
        Err(e) => return Err(e),
    };
    let (sequence, p4) = match get_var_u64(d, p3 + 1) {
        Ok(x) => x,
        Err(e) => return Err(e),
    };
    if shared as usize > last.len() {
        return Err(corruption("block entry shared prefix is too long"));
    }
    if unshared as usize > len - p4 {
        return Err(corruption("block entry key is truncated"));
    }
    let p5 = p4 + unshared as usize;
    if value_len as usize > len - p5 {
        return Err(corruption("block entry value is truncated"));
    }
    let mut user_key = vstd::slice::slice_to_vec(vstd::slice::slice_subrange(last, 0, shared as usize));
    user_key.extend_from_slice(vstd::slice::slice_subrange(d, p4, p5));
    let value = vstd::slice::slice_to_vec(vstd::slice::slice_subrange(d, p5, p5 + value_len as usize));
    let ghost uk = last@.take(shared as int) + d@.subrange(p4 as int, p5 as int);
    assert(user_key@ =~= uk);
    let record = match value_type {
        ValueType::Put => ValueRecord::Put(value),
        ValueType::Delete => {
            if value.len() != 0 {
                return Err(corruption("delete block entry carries value bytes"));
            }
            ValueRecord::Delete
        },
    };
    Ok(((InternalKey::new(user_key, sequence, value_type), record), p5 + value_len as usize))
}

impl Block {
    pub fn decode(bytes: &[u8]) -> (r: Result<Self>)
        ensures
            match spec_decode_block(bytes@) {
                Some(es) => r matches Ok(b) && b@ == es,
                None => r matches Err(Error::Corruption(m)) && m@ == spec_block_error(bytes@),
            },
    {
        if bytes.len() < 4 {
            return Err(corruption("block missing restart count"));
        }
        let restart_count_pos = bytes.len() - 4;
        let restart_count = get_fixed(bytes, restart_count_pos, 4);
        proof {
            crate::util::coding::lemma_le_value_bound(bytes@.subrange(restart_count_pos as int, bytes@.len() as int));
            assert(pow256(4) == 0x1_0000_0000) by {
                reveal_with_fuel(pow256, 5);
            }
        }
        let restart_count = restart_count as usize;
        let restart_bytes = match restart_count.checked_mul(4) {
            Some(n) => n,
            None => return Err(corruption("restart count overflow")),
        };
        if restart_count_pos < restart_bytes {
            return Err(corruption("invalid restart section"));
        }
        let data_end = restart_count_pos - restart_bytes;
        let d = vstd::slice::slice_subrange(bytes, 0, data_end);
        let ghost dv = d@;
        let mut pos: usize = 0;
        let mut last: Vec<u8> = Vec::new();
        let mut entries: Vec<(InternalKey, ValueRecord)> = Vec::new();
        proof {
            assert(entries_view(entries@) =~= Seq::<EntryView>::empty());
            assert(Seq::<EntryView>::empty() + Seq::<EntryView>::empty() =~= Seq::<EntryView>::empty());
        }
        while pos < d.len()
            invariant
                dv == d@,
                pos <= d@.len(),
                spec_decode_block(bytes@) == spec_decode_block_entries(dv, 0, Seq::empty()),
                spec_decode_block(bytes@) is None ==> spec_block_error(bytes@) == spec_block_entries_error(dv, pos as nat, last@),
                spec_decode_block_entries(dv, 0, Seq::empty()) == match spec_decode_block_entries(dv, pos as nat, last@) {
                    Some(rest) => Some(entries_view(entries@) + rest),
                    None => None::<Seq<EntryView>>,
                },
            decreases d@.len() - pos,
        {
            match decode_block_entry(d, pos, last.as_slice()) {
                Ok((entry, next)) => {
                    proof {
                        lemma_entry_advances(dv, pos as nat, last@);
                    }
                    let ghost ev: EntryView = (entry.0@, entry.1@);
                    last = vstd::slice::slice_to_vec(entry.0.user_key());
                    let ghost old_entries = entries_view(entries@);
                    entries.push(entry);
                    proof {
                        assert(entries_view(entries@) =~= old_entries.push(ev));
                        match spec_decode_block_entries(dv, next as nat, ev.0.0) {
                            Some(rest) => {
                                assert(old_entries + (seq![ev] + rest) =~= old_entries.push(ev) + rest);
                            },
                            None => {},
                        }
                    }
                    pos = next;
                },
                Err(e) => {
                    return Err(e);
                },
            }
        }
        proof {
            assert(entries_view(entries@) + Seq::<EntryView>::empty() =~= entries_view(entries@));
        }
        Ok(Block { entries })
    }

    pub fn entries(&self) -> (r: &[(InternalKey, ValueRecord)])
        ensures
            entries_view(r@) == self@,
    {
        self.entries.as_slice()
    }
}

/// The entry as a block stores it: its value type is that of its record.
pub open spec fn stored_entry(e: EntryView) -> EntryView {
    ((e.0.0, e.0.1, record_type(e.1)), e.1)
}

/// Whether every user key and value of `es` fits the 32-bit length fields.
pub open spec fn block_entries_fit(es: Seq<EntryView>) -> bool {
    forall|i: int|
        0 <= i < es.len() ==> #[trigger] es[i].0.0.len() <= max_u32() && record_bytes(es[i].1).len()
            <= max_u32()
}

/// The fixed part of an entry's encoding.
pub open spec fn spec_block_header_bytes(shared: nat, e: EntryView) -> Seq<u8> {
    spec_varint(low32(shared)) + spec_varint(low32((e.0.0.len() - shared) as nat)) + spec_varint(
        low32(record_bytes(e.1).len()),
    ) + seq![crate::key::value_type_code(record_type(e.1))] + spec_varint(e.0.1 as nat)
}

#[verifier::rlimit(60)]
proof fn lemma_block_header_roundtrip(q: Seq<u8>, shared: nat, e: EntryView, rest: Seq<u8>)
    requires
        shared <= e.0.0.len(),
        e.0.0.len() <= max_u32(),
        record_bytes(e.1).len() <= max_u32(),
    ensures
        spec_decode_block_header(q + spec_block_header_bytes(shared, e) + rest, q.len()) == Some(
            (
                shared,
                (e.0.0.len() - shared) as nat,
                record_bytes(e.1).len(),
                record_type(e.1),
                e.0.1 as nat,
                q.len() + spec_block_header_bytes(shared, e).len(),
            ),
        ),
{
    let v = record_bytes(e.1);
    let t = record_type(e.1);
    let un = (e.0.0.len() - shared) as nat;
    let code = crate::key::value_type_code(t);
    let h = spec_block_header_bytes(shared, e);
    let s = q + h + rest;
    let r3 = seq![code] + spec_varint(e.0.1 as nat) + rest;
    let r2 = spec_varint(v.len()) + r3;
    let r1 = spec_varint(un) + r2;
    assert(s =~= q + spec_varint(shared) + r1);
    lemma_get_var_u32_roundtrip(q, shared, r1);
    let q1 = q + spec_varint(shared);
    assert(s =~= q1 + spec_varint(un) + r2);
    lemma_get_var_u32_roundtrip(q1, un, r2);
    let q2 = q1 + spec_varint(un);
    assert(s =~= q2 + spec_varint(v.len()) + r3);
    lemma_get_var_u32_roundtrip(q2, v.len(), r3);
    let q3 = q2 + spec_varint(v.len());
    assert(s[q3.len() as int] == code);
    let q4 = q3 + seq![code];
    assert(s =~= q4 + spec_varint(e.0.1 as nat) + rest);
    lemma_get_var_u64_roundtrip(q4, e.0.1 as nat, rest);
}

/// One serialized entry, wherever it stands, reads back as the stored entry, given the
/// previous user key it was prefix-compressed against.
#[verifier::rlimit(60)]
pub proof fn lemma_block_entry_roundtrip(q: Seq<u8>, shared: nat, e: EntryView, last: Seq<u8>, rest: Seq<u8>)
    requires
        shared <= last.len(),
        shared <= e.0.0.len(),
        last.take(shared as int) == e.0.0.take(shared as int),
        e.0.0.len() <= max_u32(),
        record_bytes(e.1).len() <= max_u32(),
    ensures
        spec_decode_block_entry(q + spec_encode_block_entry(shared, e) + rest, q.len(), last) == Some(
            (stored_entry(e), q.len() + spec_encode_block_entry(shared, e).len()),
        ),
{
    let uk = e.0.0;
    let v = record_bytes(e.1);
    let tail = uk.skip(shared as int);
    let h = spec_block_header_bytes(shared, e);
    assert(spec_encode_block_entry(shared, e) =~= h + tail + v);
    let s = q + spec_encode_block_entry(shared, e) + rest;
    assert(s =~= q + h + (tail + v + rest));
    lemma_block_header_roundtrip(q, shared, e, tail + v + rest);
    let p4 = q.len() + h.len();
    let un = (uk.len() - shared) as nat;
    assert(s.subrange(p4 as int, (p4 + un) as int) =~= tail);
    assert(s.subrange((p4 + un) as int, (p4 + un + v.len()) as int) =~= v);
    assert(last.take(shared as int) + tail =~= uk) by {
        assert(uk =~= uk.take(shared as int) + tail);
    }
}

/// The data of a prefix of the entries is a prefix of the data.
pub proof fn lemma_block_data_prefix(es: Seq<EntryView>, m: int, r: nat)
    requires
        0 <= m <= es.len(),
    ensures
        spec_block_data(es.take(m), r) == spec_block_data(es, r).take(spec_block_data(es.take(m), r).len() as int),
        spec_block_data(es.take(m), r).len() <= spec_block_data(es, r).len(),
    decreases es.len(),
{
    if m == es.len() {
        assert(es.take(m) =~= es);
    } else {
        lemma_block_data_prefix(es.drop_last(), m, r);
        assert(es.drop_last().take(m) =~= es.take(m));
    }
}

/// The entry at the start of entry `k`'s bytes decodes to entry `k` as stored.
#[verifier::rlimit(60)]
proof fn lemma_block_entry_at(es: Seq<EntryView>, k: int, r: nat)
    requires
        0 <= k < es.len(),
        r >= 1,
        block_entries_fit(es),
    ensures
        spec_decode_block_entry(
            spec_block_data(es, r),
            spec_block_data(es.take(k), r).len(),
            if k == 0 { Seq::empty() } else { es[k - 1].0.0 },
        ) == Some((stored_entry(es[k]), spec_block_data(es.take(k + 1), r).len())),
        spec_block_data(es.take(k), r).len() < spec_block_data(es.take(k + 1), r).len(),
{
    let d = spec_block_data(es, r);
    let last: Seq<u8> = if k == 0 { Seq::empty() } else { es[k - 1].0.0 };
    lemma_block_data_prefix(es, k + 1, r);
    let pre = es.take(k + 1);
    assert(pre.drop_last() =~= es.take(k));
    assert(pre.last() == es[k]);
    let shared = shared_for(pre, r);
    let enc = spec_encode_block_entry(shared, es[k]);
    let base = spec_block_data(es.take(k), r);
    assert(spec_block_data(pre, r) == base + enc);
    let next = spec_block_data(pre, r).len();
    let rest = d.skip(next as int);
    assert(d =~= base + enc + rest);
    assert(es[k].0.0.len() <= max_u32() && record_bytes(es[k].1).len() <= max_u32());
    if k % (r as int) == 0 {
        assert(last.take(0) =~= es[k].0.0.take(0));
    } else {
        assert(k > 0) by {
            if k == 0 {
                vstd::arithmetic::div_mod::lemma_small_mod(0, r);
            }
        }
        assert(pre.drop_last().last() == es[k - 1]);
        lemma_common_prefix(es[k - 1].0.0, es[k].0.0);
    }
    lemma_block_entry_roundtrip(base, shared, es[k], last, rest);
}

/// Decoding the data from the start of entry `k` gives back entries `k..` as stored.
pub proof fn lemma_block_entries_from(es: Seq<EntryView>, k: int, r: nat)
    requires
        0 <= k <= es.len(),
        r >= 1,
        block_entries_fit(es),
    ensures
        spec_decode_block_entries(
            spec_block_data(es, r),
            spec_block_data(es.take(k), r).len(),
            if k == 0 { Seq::empty() } else { es[k - 1].0.0 },
        ) == Some(es.skip(k).map_values(|e: EntryView| stored_entry(e))),
    decreases es.len() - k,
{
    lemma_block_data_prefix(es, k, r);
    if k == es.len() {
        assert(es.take(k) =~= es);
        assert(es.skip(k).map_values(|e: EntryView| stored_entry(e)) =~= Seq::<EntryView>::empty());
    } else {
        lemma_block_data_prefix(es, k + 1, r);
        lemma_block_entry_at(es, k, r);
        lemma_block_entries_from(es, k + 1, r);
        assert(es.skip(k).map_values(|e: EntryView| stored_entry(e)) =~= seq![stored_entry(es[k])]
            + es.skip(k + 1).map_values(|e: EntryView| stored_entry(e)));
    }
}

/// The restart section holds four bytes per offset.
pub proof fn lemma_restart_bytes_len(rs: Seq<u32>)
    ensures
        spec_restart_bytes(rs).len() == 4 * rs.len(),
    decreases rs.len(),
{
    if rs.len() > 0 {
        lemma_restart_bytes_len(rs.drop_last());
        crate::util::coding::lemma_le_bytes_len(rs.last() as nat, 4);
    }
}

pub proof fn lemma_restarts_len(es: Seq<EntryView>, r: nat)
    ensures
        spec_restarts(es, r).len() <= es.len(),
    decreases es.len(),
{
    if es.len() > 0 {
        lemma_restarts_len(es.drop_last(), r);
    }
}

/// A finished block decodes to the entries it was built from, each with the value type
/// of its record, provided keys, values and the entry count fit their length fields.
pub proof fn lemma_block_roundtrip(es: Seq<EntryView>, r: nat)
    requires
        r >= 1,
        block_entries_fit(es),
        ({
            let n = spec_restarts(es, r).len();
            let count = if n == 0 { 1 } else { n };
            count <= max_u32() && count * 4 <= usize::MAX
        }),
    ensures
        spec_decode_block(spec_finish_block(es, r)) == Some(es.map_values(|e: EntryView| stored_entry(e))),
{
    let rs0 = spec_restarts(es, r);
    let rs = if rs0.len() == 0 { seq![0u32] } else { rs0 };
    let cnt = rs.len();
    let d = spec_block_data(es, r);
    let rb = spec_restart_bytes(rs);
    lemma_restart_bytes_len(rs);
    let tail = le_bytes(low32(cnt), 4);
    assert(pow256(4) == 0x1_0000_0000) by {
        reveal_with_fuel(pow256, 5);
    }
    lemma_le_roundtrip(low32(cnt), 4);
    let b = spec_finish_block(es, r);
    assert(b == d + rb + tail);
    let cpos = (b.len() - 4) as nat;
    assert(b.subrange(cpos as int, b.len() as int) =~= tail);
    assert(low32(cnt) == cnt);
    assert(b.subrange(0, cpos - cnt * 4) =~= d);
    lemma_block_entries_from(es, 0, r);
    assert(es.take(0) =~= Seq::<EntryView>::empty());
    assert(es.skip(0) =~= es);
}

/// A decoded entry always moves the position forward.
proof fn lemma_entry_advances(d: Seq<u8>, pos: nat, last: Seq<u8>)
    ensures
        spec_decode_block_entry(d, pos, last) matches Some((e, p)) ==> p > pos,
{
    if pos <= d.len() {
        lemma_parse_varint_bound(d.skip(pos as int), 5);
    }
}

} // verus!
