//! Write batches: an ordered list of puts and deletes applied atomically, and their
//! serialized form (the payload of a write-ahead-log record).
use vstd::prelude::*;

use crate::bytes::Bytes;
use crate::util::coding::{
    lemma_get_var_u32_roundtrip, lemma_get_var_u64_roundtrip, get_var_u32, get_var_u64, max_u32, max_u64, put_var_u32, put_var_u64, spec_get_var, spec_varint,
    take_bytes,
};
use crate::error::{corruption, Error, Result};

verus! {

/// One write: `(key, Some(value))` for a put, `(key, None)` for a delete.
pub type RecordView = (Seq<u8>, Option<Seq<u8>>);

#[derive(Debug, Clone, PartialEq, Eq)]
pub enum BatchRecord {
    Put { key: Bytes, value: Bytes },
    Delete { key: Bytes },
}

impl View for BatchRecord {
    type V = RecordView;

    open spec fn view(&self) -> RecordView {
        match self {
            BatchRecord::Put { key, value } => (key@, Some(value@)),
            BatchRecord::Delete { key } => (key@, None),
        }
    }
}

/// The abstract value of a list of records.
pub open spec fn records_view(records: Seq<BatchRecord>) -> Seq<RecordView> {
    records.map_values(|r: BatchRecord| r@)
}

/// `n` reduced to its low 32 bits, as a `u32` cast does.
pub open spec fn low32(n: nat) -> nat {
    n % 0x1_0000_0000
}

/// Serialized form of one record: a type byte (1 put, 2 delete), then the key and the
/// value (empty for a delete), each prefixed by its length as a varint.
pub open spec fn spec_encode_record(r: RecordView) -> Seq<u8> {
    match r.1 {
        Some(v) => seq![1u8] + spec_varint(low32(r.0.len())) + r.0 + spec_varint(low32(v.len())) + v,
        None => seq![2u8] + spec_varint(low32(r.0.len())) + r.0 + spec_varint(0),
    }
}

/// Serialized form of a list of records, one after the other.
pub open spec fn spec_encode_records(rs: Seq<RecordView>) -> Seq<u8>
    decreases rs.len(),
{
    if rs.len() == 0 {
        Seq::empty()
    } else {
        spec_encode_records(rs.drop_last()) + spec_encode_record(rs.last())
    }
}

/// Serialized batch: record count, start sequence, then the records.
pub open spec fn spec_encode_batch(rs: Seq<RecordView>, start_sequence: u64) -> Seq<u8> {
    spec_varint(low32(rs.len())) + spec_varint(start_sequence as nat) + spec_encode_records(rs)
}

/// Reads one record at `pos`; gives the record and the position after it.
pub open spec fn spec_decode_record(s: Seq<u8>, pos: nat) -> Option<(RecordView, nat)> {
    if pos >= s.len() {
        None
    } else {
        let t = s[pos as int];
        match spec_get_var(s, pos + 1, 5, max_u32()) {
            None => None,
            Some((klen, p1)) => if p1 + klen > s.len() {
                None
            } else {
                let key = s.subrange(p1 as int, (p1 + klen) as int);
                match spec_get_var(s, p1 + klen, 5, max_u32()) {
                    None => None,
                    Some((vlen, p2)) => if p2 + vlen > s.len() {
                        None
                    } else {
                        let value = s.subrange(p2 as int, (p2 + vlen) as int);
                        if t == 1 {
                            Some(((key, Some(value)), p2 + vlen))
                        } else if t == 2 && vlen == 0 {
                            Some(((key, None), p2 + vlen))
                        } else {
                            None
                        }
                    },
                }
            },
        }
    }
}

/// Reads `n` records one after the other starting at `pos`.
pub open spec fn spec_decode_records(s: Seq<u8>, pos: nat, n: nat) -> Option<(Seq<RecordView>, nat)>
    decreases n,
{
    if n == 0 {
        Some((Seq::empty(), pos))
    } else {
        match spec_decode_records(s, pos, (n - 1) as nat) {
            Some((rs, p)) => match spec_decode_record(s, p) {
                Some((r, p2)) => Some((rs.push(r), p2)),
                None => None,
            },
            None => None,
        }
    }
}

/// A whole payload: count, start sequence, exactly `count` records and nothing after.
pub open spec fn spec_decode_batch(s: Seq<u8>) -> Option<(u64, Seq<RecordView>)> {
    match spec_get_var(s, 0, 5, max_u32()) {
        None => None,
        Some((count, p1)) => match spec_get_var(s, p1, 10, max_u64()) {
            None => None,
            Some((start, p2)) => match spec_decode_records(s, p2, count) {
                None => None,
                Some((rs, p3)) => if p3 == s.len() {
                    Some((start as u64, rs))
                } else {
                    None
                },
            },
        },
    }
}

#[derive(Debug, Clone, Default, PartialEq, Eq)]
pub struct WriteBatch {
    records: Vec<BatchRecord>,
}

impl View for WriteBatch {
    type V = Seq<RecordView>;

    closed spec fn view(&self) -> Seq<RecordView> {
        records_view(self.records@)
    }
}

impl WriteBatch {
    pub fn new() -> (b: Self)
        ensures
            b@ == Seq::<RecordView>::empty(),
    {
        let b = WriteBatch { records: Vec::new() };
        assert(b@ =~= Seq::<RecordView>::empty());
        b
    }

    pub fn put(&mut self, key: Bytes, value: Bytes)
        ensures
            final(self)@ == old(self)@.push((key@, Some(value@))),
    {
        self.records.push(BatchRecord::Put { key, value });
        assert(self@ =~= old(self)@.push((key@, Some(value@))));
    }

    pub fn delete(&mut self, key: Bytes)
        ensures
            final(self)@ == old(self)@.push((key@, None)),
    {
        self.records.push(BatchRecord::Delete { key });
        assert(self@ =~= old(self)@.push((key@, None)));
    }

    pub fn records(&self) -> (r: &[BatchRecord])
        ensures
            records_view(r@) == self@,
    {
        self.records.as_slice()
    }

    pub fn is_empty(&self) -> (r: bool)
        ensures
            r == (self@.len() == 0),
    {
        self.records.len() == 0
    }

    pub fn len(&self) -> (r: usize)
        ensures
            r == self@.len(),
    {
        self.records.len()
    }

    pub fn encode_with_sequence(&self, start_sequence: u64) -> (dst: Vec<u8>)
        ensures
            dst@ == spec_encode_batch(self@, start_sequence),
    {
        let mut dst: Vec<u8> = Vec::new();
        put_var_u32(&mut dst, low32_of(self.records.len()));
        put_var_u64(&mut dst, start_sequence);
        let ghost header = dst@;
        assert(header =~= spec_varint(low32(self@.len())) + spec_varint(start_sequence as nat));

        let mut i: usize = 0;
        while i < self.records.len()
            invariant
                i <= self.records@.len(),
                dst@ == header + spec_encode_records(self@.subrange(0, i as int)),
                self@ == records_view(self.records@),
            decreases self.records@.len() - i,
        {
            encode_record(&mut dst, &self.records[i]);
            proof {
                assert(self@.subrange(0, i + 1).drop_last() =~= self@.subrange(0, i as int));
                assert(self@.subrange(0, i + 1).last() == self.records@[i as int]@);
            }
            i = i + 1;
        }
        assert(self@.subrange(0, self@.len() as int) =~= self@);
        dst
    }

    /// Parses a payload made by `encode_with_sequence`.
    pub fn decode_payload(payload: &[u8]) -> (r: Result<(u64, WriteBatch)>)
        ensures
            match spec_decode_batch(payload@) {
                Some((start, rs)) => r matches Ok((s, b)) && s == start && b@ == rs,
                None => r matches Err(Error::Corruption(_)),
            },
    {
        let len = payload.len();
        let (count, p1) = match get_var_u32(payload, 0) {
            Ok(x) => x,
            Err(e) => return Err(e),
        };
        assert(spec_get_var(payload@, 0, 5, max_u32()) == Some((count as nat, p1 as nat)));
        let (start_sequence, p2) = match get_var_u64(payload, p1) {
            Ok(x) => x,
            Err(e) => return Err(e),
        };
        let mut batch = WriteBatch::new();
        let mut pos = p2;
        let mut i: u32 = 0;
        while i < count
            invariant
                i <= count,
                spec_get_var(payload@, 0, 5, max_u32()) == Some((count as nat, p1 as nat)),
                spec_get_var(payload@, p1 as nat, 10, max_u64()) == Some((start_sequence as nat, p2 as nat)),
                spec_decode_records(payload@, p2 as nat, i as nat) == Some((batch@, pos as nat)),
            decreases count - i,
        {
            let rec = decode_record(payload, pos);
            match rec {
                Ok((record, next)) => {
                    proof {
                        assert(spec_decode_records(payload@, p2 as nat, (i + 1) as nat) == Some(
                            (batch@.push(record@), next as nat),
                        ));
                    }
                    match record {
                        BatchRecord::Put { key, value } => batch.put(key, value),
                        BatchRecord::Delete { key } => batch.delete(key),
                    }
                    pos = next;
                },
                Err(e) => {
                    proof {
                        lemma_decode_records_none_propagates(payload@, p2 as nat, (i + 1) as nat, count as nat);
                    }
                    return Err(e);
                },
            }
            i = i + 1;
        }
        if pos != payload.len() {
            return Err(corruption("trailing batch payload bytes"));
        }
        Ok((start_sequence, batch))
    }
}

/// Whether every length in `rs` (and the count itself) fits the 32-bit length fields.
pub open spec fn records_fit(rs: Seq<RecordView>) -> bool {
    &&& rs.len() <= max_u32()
    &&& forall|i: int|
        0 <= i < rs.len() ==> #[trigger] rs[i].0.len() <= max_u32() && (rs[i].1 matches Some(v)
            ==> v.len() <= max_u32())
}

/// Decoding a serialized record, wherever it stands, gives the record back.
#[verifier::rlimit(60)]
pub proof fn lemma_record_roundtrip(q: Seq<u8>, r: RecordView, rest: Seq<u8>)
    requires
        r.0.len() <= max_u32(),
        r.1 matches Some(v) ==> v.len() <= max_u32(),
    ensures
        spec_decode_record(q + spec_encode_record(r) + rest, q.len()) == Some(
            (r, q.len() + spec_encode_record(r).len()),
        ),
{
    let s = q + spec_encode_record(r) + rest;
    let k = r.0;
    let klen = k.len();
    let (t, v): (u8, Seq<u8>) = match r.1 {
        Some(v) => (1u8, v),
        None => (2u8, Seq::empty()),
    };
    let vlen = v.len();
    assert(spec_encode_record(r) =~= seq![t] + spec_varint(klen) + k + spec_varint(vlen) + v);
    assert(s[q.len() as int] == t);
    let pre1 = q + seq![t];
    assert(s =~= pre1 + spec_varint(klen) + (k + spec_varint(vlen) + v + rest));
    lemma_get_var_u32_roundtrip(pre1, klen, k + spec_varint(vlen) + v + rest);
    let p1 = pre1.len() + spec_varint(klen).len();
    assert(s.subrange(p1 as int, (p1 + klen) as int) =~= k);
    let pre2 = pre1 + spec_varint(klen) + k;
    assert(s =~= pre2 + spec_varint(vlen) + (v + rest));
    lemma_get_var_u32_roundtrip(pre2, vlen, v + rest);
    let p2 = pre2.len() + spec_varint(vlen).len();
    assert(s.subrange(p2 as int, (p2 + vlen) as int) =~= v);
    assert(p2 + vlen == q.len() + spec_encode_record(r).len());
}

/// Decoding the first `k` serialized records gives them back.
#[verifier::spinoff_prover]
pub proof fn lemma_records_roundtrip(p: Seq<u8>, rs: Seq<RecordView>, rest: Seq<u8>, k: nat)
    requires
        records_fit(rs),
        k <= rs.len(),
    ensures
        spec_decode_records(p + spec_encode_records(rs.subrange(0, k as int)) + rest, p.len(), k)
            == Some((rs.subrange(0, k as int), p.len() + spec_encode_records(rs.subrange(0, k as int)).len())),
    decreases k,
{
    let pre = rs.subrange(0, k as int);
    let s = p + spec_encode_records(pre) + rest;
    if k > 0 {
        let prev = rs.subrange(0, k - 1);
        let r = rs[k - 1];
        assert(pre.drop_last() =~= prev);
        assert(pre.last() == r);
        assert(spec_encode_records(pre) == spec_encode_records(prev) + spec_encode_record(r));
        assert(s =~= p + spec_encode_records(prev) + (spec_encode_record(r) + rest));
        lemma_records_roundtrip(p, rs, spec_encode_record(r) + rest, (k - 1) as nat);
        assert(s =~= (p + spec_encode_records(prev)) + spec_encode_record(r) + rest);
        assert(rs[k - 1].0.len() <= max_u32());
        lemma_record_roundtrip(p + spec_encode_records(prev), r, rest);
        assert(prev.push(r) =~= pre);
    } else {
        assert(pre =~= Seq::<RecordView>::empty());
    }
}

/// Decoding an encoded batch gives back its start sequence and its records, provided
/// the count and every key and value length fit in 32 bits.
pub proof fn lemma_batch_roundtrip(rs: Seq<RecordView>, start_sequence: u64)
    requires
        records_fit(rs),
    ensures
        spec_decode_batch(spec_encode_batch(rs, start_sequence)) == Some((start_sequence, rs)),
{
    let n = rs.len();
    let s = spec_encode_batch(rs, start_sequence);
    let body = spec_encode_records(rs);
    assert(s =~= Seq::<u8>::empty() + spec_varint(n) + (spec_varint(start_sequence as nat) + body));
    lemma_get_var_u32_roundtrip(Seq::empty(), n, spec_varint(start_sequence as nat) + body);
    let h = spec_varint(n);
    assert(s =~= h + spec_varint(start_sequence as nat) + body);
    lemma_get_var_u64_roundtrip(h, start_sequence as nat, body);
    let hdr = h + spec_varint(start_sequence as nat);
    assert(rs.subrange(0, n as int) =~= rs);
    assert(s =~= hdr + spec_encode_records(rs.subrange(0, n as int)) + Seq::<u8>::empty());
    lemma_records_roundtrip(hdr, rs, Seq::empty(), n);
}

/// Once reading `n` records fails, reading more fails too.
pub proof fn lemma_decode_records_none_propagates(s: Seq<u8>, pos: nat, n: nat, m: nat)
    requires
        spec_decode_records(s, pos, n) is None,
        n <= m,
    ensures
        spec_decode_records(s, pos, m) is None,
    decreases m,
{
    if n < m {
        lemma_decode_records_none_propagates(s, pos, n, (m - 1) as nat);
    }
}

/// The low 32 bits of a length.
pub fn low32_of(n: usize) -> (r: u32)
    ensures
        r as nat == low32(n as nat),
{
    ((n as u64) % 0x1_0000_0000) as u32
}

/// Appends the serialized form of one record.
fn encode_record(dst: &mut Vec<u8>, record: &BatchRecord)
    ensures
        final(dst)@ == old(dst)@ + spec_encode_record(record@),
{
    match record {
        BatchRecord::Put { key, value } => {
            dst.push(1);
            put_var_u32(dst, low32_of(key.len()));
            dst.extend_from_slice(key.as_slice());
            put_var_u32(dst, low32_of(value.len()));
            dst.extend_from_slice(value.as_slice());
        },
        BatchRecord::Delete { key } => {
            dst.push(2);
            put_var_u32(dst, low32_of(key.len()));
            dst.extend_from_slice(key.as_slice());
            put_var_u32(dst, 0);
        },
    }
    assert(final(dst)@ =~= old(dst)@ + spec_encode_record(record@));
}

/// Reads one record at `pos`.
fn decode_record(src: &[u8], pos: usize) -> (r: Result<(BatchRecord, usize)>)
    ensures
        match spec_decode_record(src@, pos as nat) {
            Some((rec, p)) => r matches Ok((b, q)) && b@ == rec && q == p,
            None => r matches Err(Error::Corruption(_)),
        },
{
    if pos >= src.len() {
        return Err(corruption("missing value type"));
    }
    let value_type = src[pos];
    let (key_len, p1) = get_var_u32(src, pos + 1)?;
    let key = take_bytes(src, p1, key_len as usize)?;
    let key = vstd::slice::slice_to_vec(key);
    let (value_len, p2) = get_var_u32(src, p1 + key_len as usize)?;
    let value = take_bytes(src, p2, value_len as usize)?;
    let value = vstd::slice::slice_to_vec(value);
    if value_type == 1 {
        Ok((BatchRecord::Put { key, value }, p2 + value_len as usize))
    } else if value_type == 2 {
        if value.len() != 0 {
            return Err(corruption("delete record must not carry a value"));
        }
        Ok((BatchRecord::Delete { key }, p2 + value_len as usize))
    } else {
        Err(corruption("unknown batch record type"))
    }
}

} // verus!
