//! Building data blocks: entries with user keys prefix-compressed against the previous
//! key, a full key every `restart_interval` entries, then the restart offsets and their
//! count.
use vstd::prelude::*;

use crate::batch::{low32, low32_of};
use crate::key::{value_type_code, InternalKey, ValueType};
use crate::memtable::{EntryView, ValueRecord};
use crate::util::coding::{le_bytes, put_fixed, put_var_u32, put_var_u64, spec_varint};

verus! {

/// The length of the longest common prefix of `a` and `b`.
pub open spec fn common_prefix_len(a: Seq<u8>, b: Seq<u8>) -> nat
    decreases a.len(),
{
    if a.len() == 0 || b.len() == 0 || a[0] != b[0] {
        0
    } else {
        1 + common_prefix_len(a.drop_first(), b.drop_first())
    }
}

pub proof fn lemma_common_prefix(a: Seq<u8>, b: Seq<u8>)
    ensures
        common_prefix_len(a, b) <= a.len(),
        common_prefix_len(a, b) <= b.len(),
        a.take(common_prefix_len(a, b) as int) == b.take(common_prefix_len(a, b) as int),
    decreases a.len(),
{
    let n = common_prefix_len(a, b);
    if a.len() == 0 || b.len() == 0 || a[0] != b[0] {
        assert(a.take(0) =~= b.take(0));
    } else {
        lemma_common_prefix(a.drop_first(), b.drop_first());
        assert(a.take(n as int) =~= seq![a[0]] + a.drop_first().take(n - 1));
        assert(b.take(n as int) =~= seq![b[0]] + b.drop_first().take(n - 1));
    }
}

/// The value type a record is stored with.
pub open spec fn record_type(rec: Option<Seq<u8>>) -> ValueType {
    match rec {
        Some(_) => ValueType::Put,
        None => ValueType::Delete,
    }
}

/// The value bytes a record is stored with (none for a tombstone).
pub open spec fn record_bytes(rec: Option<Seq<u8>>) -> Seq<u8> {
    match rec {
        Some(v) => v,
        None => Seq::empty(),
    }
}

/// One block entry sharing `shared` bytes with the previous user key: shared length,
/// unshared length, value length, type byte, sequence, unshared key bytes, value bytes.
pub open spec fn spec_encode_block_entry(shared: nat, e: EntryView) -> Seq<u8> {
    let uk = e.0.0;
    let v = record_bytes(e.1);
    spec_varint(low32(shared)) + spec_varint(low32((uk.len() - shared) as nat)) + spec_varint(low32(v.len()))
        + seq![value_type_code(record_type(e.1))] + spec_varint(e.0.1 as nat) + uk.skip(shared as int) + v
}

/// The shared-prefix length the builder uses for the last of `es`: none at a restart
/// point, otherwise the common prefix with the previous user key.
pub open spec fn shared_for(es: Seq<EntryView>, interval: nat) -> nat {
    let prev = es.drop_last();
    if prev.len() % interval == 0 {
        0
    } else {
        common_prefix_len(prev.last().0.0, es.last().0.0)
    }
}

/// The entry bytes of a block holding `es`.
pub open spec fn spec_block_data(es: Seq<EntryView>, interval: nat) -> Seq<u8>
    decreases es.len(),
{
    if es.len() == 0 {
        Seq::empty()
    } else {
        spec_block_data(es.drop_last(), interval) + spec_encode_block_entry(shared_for(es, interval), es.last())
    }
}

/// The restart offsets of a block holding `es` (each truncated to 32 bits).
pub open spec fn spec_restarts(es: Seq<EntryView>, interval: nat) -> Seq<u32>
    decreases es.len(),
{
    if es.len() == 0 {
        Seq::empty()
    } else {
        let prev = es.drop_last();
        if prev.len() % interval == 0 {
            spec_restarts(prev, interval).push(low32(spec_block_data(prev, interval).len()) as u32)
        } else {
            spec_restarts(prev, interval)
        }
    }
}

/// Restart offsets as 4-byte little-endian words.
pub open spec fn spec_restart_bytes(rs: Seq<u32>) -> Seq<u8>
    decreases rs.len(),
{
    if rs.len() == 0 {
        Seq::empty()
    } else {
        spec_restart_bytes(rs.drop_last()) + le_bytes(rs.last() as nat, 4)
    }
}

/// A finished block: entry bytes, restart offsets (a single 0 when there are none), and
/// the offset count.
pub open spec fn spec_finish_block(es: Seq<EntryView>, interval: nat) -> Seq<u8> {
    let rs0 = spec_restarts(es, interval);
    let rs = if rs0.len() == 0 { seq![0u32] } else { rs0 };
    spec_block_data(es, interval) + spec_restart_bytes(rs) + le_bytes(low32(rs.len()), 4)
}

/// Builds one data block.
pub struct BlockBuilder {
    data: Vec<u8>,
    restarts: Vec<u32>,
    last_user_key: Vec<u8>,
    entry_count: usize,
    restart_interval: usize,
    added: Ghost<Seq<EntryView>>,
}

/// The length of the longest common prefix of two byte strings.
pub fn shared_prefix_len(left: &[u8], right: &[u8]) -> (r: usize)
    ensures
        r == common_prefix_len(left@, right@),
{
    let mut i: usize = 0;
    assert(left@.skip(0) =~= left@);
    assert(right@.skip(0) =~= right@);
    while i < left.len() && i < right.len() && left[i] == right[i]
        invariant
            i <= left@.len(),
            i <= right@.len(),
            common_prefix_len(left@, right@) == i + common_prefix_len(left@.skip(i as int), right@.skip(i as int)),
        decreases left@.len() - i,
    {
        proof {
            assert(left@.skip(i as int).drop_first() =~= left@.skip(i + 1));
            assert(right@.skip(i as int).drop_first() =~= right@.skip(i + 1));
        }
        i = i + 1;
    }
    proof {
        if i < left@.len() && i < right@.len() {
            assert(left@.skip(i as int)[0] == left@[i as int]);
            assert(right@.skip(i as int)[0] == right@[i as int]);
        }
    }
    i
}

/// Every entry takes at least five bytes.
proof fn lemma_block_data_len(es: Seq<EntryView>, interval: nat)
    ensures
        spec_block_data(es, interval).len() >= 5 * es.len(),
        spec_restarts(es, interval).len() <= es.len(),
    decreases es.len(),
{
    if es.len() > 0 {
        lemma_block_data_len(es.drop_last(), interval);
    }
}

/// Appends one entry sharing `shared` bytes with the previous user key.
fn encode_block_entry(data: &mut Vec<u8>, shared: usize, key: &InternalKey, value: &ValueRecord)
    requires
        shared <= key@.0.len(),
    ensures
        final(data)@ == old(data)@ + spec_encode_block_entry(shared as nat, (key@, value@)),
{
    let user_key = key.user_key();
    let unshared = vstd::slice::slice_subrange(user_key, shared, user_key.len());
    let value_bytes: &[u8] = match value {
        ValueRecord::Put(v) => v.as_slice(),
        ValueRecord::Delete => &[],
    };
    let value_type = match value {
        ValueRecord::Put(_) => ValueType::Put,
        ValueRecord::Delete => ValueType::Delete,
    };
    assert(value_bytes@ == record_bytes(value@));
    put_var_u32(data, low32_of(shared));
    put_var_u32(data, low32_of(unshared.len()));
    put_var_u32(data, low32_of(value_bytes.len()));
    data.push(value_type.code());
    put_var_u64(data, key.sequence());
    data.extend_from_slice(unshared);
    data.extend_from_slice(value_bytes);
    assert(unshared@ =~= user_key@.skip(shared as int));
    assert(final(data)@ =~= old(data)@ + spec_encode_block_entry(shared as nat, (key@, value@)));
}

impl BlockBuilder {
    /// The entries added so far.
    pub closed spec fn added(&self) -> Seq<EntryView> {
        self.added@
    }

    /// The restart interval in use.
    pub closed spec fn interval(&self) -> nat {
        self.restart_interval as nat
    }

    pub closed spec fn wf(&self) -> bool {
        &&& self.restart_interval >= 1
        &&& self.data@ == spec_block_data(self.added@, self.restart_interval as nat)
        &&& self.restarts@ == spec_restarts(self.added@, self.restart_interval as nat)
        &&& self.entry_count == self.added@.len()
        &&& self.last_user_key@ == if self.added@.len() == 0 {
            Seq::<u8>::empty()
        } else {
            self.added@.last().0.0
        }
    }

    pub fn new(restart_interval: usize) -> (b: Self)
        ensures
            b.wf(),
            b.added() == Seq::<EntryView>::empty(),
            b.interval() == if restart_interval == 0 { 1 } else { restart_interval },
    {
        let b = BlockBuilder {
            data: Vec::new(),
            restarts: Vec::new(),
            last_user_key: Vec::new(),
            entry_count: 0,
            restart_interval: if restart_interval == 0 { 1 } else { restart_interval },
            added: Ghost(Seq::empty()),
        };
        assert(b.data@ =~= Seq::<u8>::empty());
        assert(b.restarts@ =~= Seq::<u32>::empty());
        b
    }

    /// Appends one entry; its stored value type is that of the record.
    pub fn add(&mut self, key: InternalKey, value: &ValueRecord)
        requires
            old(self).wf(),
        ensures
            final(self).wf(),
            final(self).interval() == old(self).interval(),
            final(self).added() == old(self).added().push((key@, value@)),
    {
        let ghost e: EntryView = (key@, value@);
        let ghost es = self.added@.push(e);
        proof {
            lemma_block_data_len(self.added@, self.restart_interval as nat);
            assert(es.drop_last() =~= self.added@);
            assert(es.last() == e);
        }
        let data_len = self.data.len();
        let user_key = key.user_key();
        let ghost prev = self.added@;
        let shared_len: usize = if self.entry_count % self.restart_interval == 0 {
            self.restarts.push(low32_of(self.data.len()));
            assert(prev.len() % (self.restart_interval as nat) == 0);
            0
        } else {
            assert(prev.len() % (self.restart_interval as nat) != 0);
            assert(prev.len() > 0) by {
                if prev.len() == 0 {
                    vstd::arithmetic::div_mod::lemma_small_mod(0, self.restart_interval as nat);
                }
            }
            assert(self.last_user_key@ == prev.last().0.0);
            shared_prefix_len(self.last_user_key.as_slice(), user_key)
        };
        proof {
            lemma_common_prefix(self.last_user_key@, user_key@);
            assert(shared_len == shared_for(es, self.restart_interval as nat));
        }
        let ghost before = self.data@;
        encode_block_entry(&mut self.data, shared_len, &key, value);
        proof {
            assert(self.data@ == before + spec_encode_block_entry(shared_len as nat, e));
            assert(es.drop_last() == prev);
        }
        self.last_user_key = vstd::slice::slice_to_vec(user_key);
        self.entry_count = self.entry_count + 1;
        self.added = Ghost(es);
        proof {
            assert(self.restarts@ =~= spec_restarts(es, self.restart_interval as nat));
        }
    }

    pub fn is_empty(&self) -> (r: bool)
        requires
            self.wf(),
        ensures
            r == (self.added().len() == 0),
    {
        self.entry_count == 0
    }

    /// The size the finished block would have (wrapping on overflow).
    pub fn approximate_size(&self) -> (r: usize)
        requires
            self.wf(),
        ensures
            r as int == ((spec_block_data(self.added(), self.interval()).len() + 4 * spec_restarts(self.added(), self.interval()).len() + 4) as int) % (usize::MAX as int + 1),
    {
        proof {
            lemma_block_data_len(self.added@, self.restart_interval as nat);
        }
        let a = self.data.len();
        let b = self.restarts.len() * 4;
        let s1 = a.wrapping_add(b);
        let s2 = s1.wrapping_add(4);
        proof {
            crate::memtable::btree::lemma_wrapping_add3(a as int, b as int, 4, 0);
        }
        s2
    }

    /// The finished block bytes.
    pub fn finish(self) -> (r: Vec<u8>)
        requires
            self.wf(),
        ensures
            r@ == spec_finish_block(self.added(), self.interval()),
    {
        let mut data = self.data;
        let mut restarts = self.restarts;
        if restarts.len() == 0 {
            restarts.push(0);
        }
        let ghost rs = restarts@;
        let ghost base = data@;
        let mut i: usize = 0;
        while i < restarts.len()
            invariant
                rs == restarts@,
                i <= rs.len(),
                data@ == base + spec_restart_bytes(rs.take(i as int)),
            decreases rs.len() - i,
        {
            put_fixed(&mut data, restarts[i] as u64, 4);
            proof {
                assert(rs.take(i + 1).drop_last() =~= rs.take(i as int));
            }
            i = i + 1;
        }
        let count = low32_of(restarts.len());
        put_fixed(&mut data, count as u64, 4);
        proof {
            assert(rs.take(rs.len() as int) =~= rs);
            if self.restarts@.len() == 0 {
                assert(rs =~= seq![0u32]);
            }
        }
        data
    }
}

} // verus!
