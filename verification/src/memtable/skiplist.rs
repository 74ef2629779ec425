//! A memtable kept in a concurrent skip list (`crossbeam_skiplist::SkipMap`), with the
//! key and value bytes allocated from an arena.
use vstd::prelude::*;

use crossbeam_skiplist::SkipMap;

use crate::bound::KeyBound;
use crate::key::{bytes_lt, ikey_lt, value_type_code, InternalKey, InternalKeyView, SequenceNumber, ValueType};
use crate::memtable::arena::{Arena, ArenaBytes};
use crate::memtable::btree::ValueRecord;
use crate::memtable::{
    entries_view, first_visible, lower_bound, rows_view, sorted_entries, spec_upsert, visible_rows, visible_scan, EntryView,
};
use crate::util::shared::share;

verus! {

#[verifier::external_type_specification]
#[verifier::external_body]
#[verifier::reject_recursive_types(K)]
#[verifier::reject_recursive_types(V)]
pub struct ExSkipMap<K, V>(SkipMap<K, V>);

/// A skip-list key: the user key, the complemented sequence number
/// (`u64::MAX - sequence`) and the value-type code. Tuples order lexicographically, so
/// this is the internal-key order.
pub type SkipKey = (ArenaBytes, u64, u8);

/// A skip-list value: the bytes of a put, nothing for a tombstone.
pub type SkipValue = Option<ArenaBytes>;

/// The abstract value of a skip-list key.
pub type SkipKeyView = (Seq<u8>, u64, u8);

/// The abstract value of a skip-list entry.
pub type SkipEntryView = (SkipKeyView, Option<Seq<u8>>);

pub open spec fn skip_key_view(k: SkipKey) -> SkipKeyView {
    (k.0@, k.1, k.2)
}

pub open spec fn skip_value_view(v: SkipValue) -> Option<Seq<u8>> {
    match v {
        Some(b) => Some(b@),
        None => None,
    }
}

/// The lexicographic order of skip-list keys.
pub open spec fn skey_lt(a: SkipKeyView, b: SkipKeyView) -> bool {
    ||| bytes_lt(a.0, b.0)
    ||| (a.0 == b.0 && a.1 < b.1)
    ||| (a.0 == b.0 && a.1 == b.1 && a.2 < b.2)
}

/// How many leading entries of `s` have keys below `k`.
pub open spec fn skip_lower_bound(s: Seq<SkipEntryView>, k: SkipKeyView) -> nat
    decreases s.len(),
{
    if s.len() == 0 {
        0
    } else if skey_lt(s[0].0, k) {
        1 + skip_lower_bound(s.drop_first(), k)
    } else {
        0
    }
}

/// `s` with `e` placed at its sorted position, replacing an entry with the same key.
pub open spec fn skip_upsert(s: Seq<SkipEntryView>, e: SkipEntryView) -> Seq<SkipEntryView> {
    let p = skip_lower_bound(s, e.0);
    if p < s.len() && s[p as int].0 == e.0 {
        s.update(p as int, e)
    } else {
        s.insert(p as int, e)
    }
}

/// The entries of a skip map in iteration order, which is ascending key order.
pub uninterp spec fn skip_contents(m: SkipMap<SkipKey, SkipValue>) -> Seq<SkipEntryView>;

/// `SkipMap::new`: an empty map.
#[verifier::external_body]
fn skipmap_new() -> (m: SkipMap<SkipKey, SkipValue>)
    ensures
        skip_contents(m) == Seq::<SkipEntryView>::empty(),
{
    SkipMap::new()
}

/// `SkipMap::insert`: the crate removes an entry with an equal key, if any, and links
/// the new entry at its place in key order. The contract claims the iteration order after
/// the call is the old one with the entry put at its sorted place.
#[verifier::external_body]
fn skipmap_insert(m: &mut SkipMap<SkipKey, SkipValue>, key: SkipKey, value: SkipValue)
    ensures
        skip_contents(*final(m)) == skip_upsert(skip_contents(*old(m)), (skip_key_view(key), skip_value_view(value))),
{
    m.insert(key, value);
}

/// `SkipMap::len`: the number of entries (exact here, since nothing else mutates the
/// map during the call).
#[verifier::external_body]
fn skipmap_len(m: &SkipMap<SkipKey, SkipValue>) -> (r: usize)
    ensures
        r == skip_contents(*m).len(),
{
    m.len()
}

/// `SkipMap::is_empty`.
#[verifier::external_body]
fn skipmap_is_empty(m: &SkipMap<SkipKey, SkipValue>) -> (r: bool)
    ensures
        r == (skip_contents(*m).len() == 0),
{
    m.is_empty()
}

/// `SkipMap::iter`, each entry copied out as a key and value pair, in iteration order.
#[verifier::external_body]
fn skipmap_entries(m: &SkipMap<SkipKey, SkipValue>) -> (r: Vec<(SkipKey, SkipValue)>)
    ensures
        r@.map_values(|e: (SkipKey, SkipValue)| (skip_key_view(e.0), skip_value_view(e.1))) == skip_contents(*m),
{
    m.iter().map(|e| (e.key().clone(), e.value().clone())).collect()
}

/// The internal key a skip-list key stands for.
pub open spec fn ikey_of(k: SkipKeyView) -> InternalKeyView {
    (k.0, (u64::MAX - k.1) as u64, if k.2 == 1 { ValueType::Put } else { ValueType::Delete })
}

/// The skip-list key of an internal key.
pub open spec fn skey_of(k: InternalKeyView) -> SkipKeyView {
    (k.0, (u64::MAX - k.1) as u64, value_type_code(k.2))
}

/// The memtable entry a skip-list entry stands for.
pub open spec fn entry_of(e: SkipEntryView) -> EntryView {
    (ikey_of(e.0), e.1)
}

/// The memtable entries a list of skip-list entries stands for.
pub open spec fn entries_of(s: Seq<SkipEntryView>) -> Seq<EntryView> {
    s.map_values(|e: SkipEntryView| entry_of(e))
}

/// Every key carries a value-type code of 1 or 2.
pub open spec fn codes_valid(s: Seq<SkipEntryView>) -> bool {
    forall|i: int| 0 <= i < s.len() ==> (#[trigger] s[i]).0.2 == 1 || s[i].0.2 == 2
}

proof fn lemma_key_roundtrip(k: InternalKeyView)
    ensures
        ikey_of(skey_of(k)) == k,
{
    match k.2 {
        ValueType::Put => {},
        ValueType::Delete => {},
    }
}

proof fn lemma_order_matches(a: SkipKeyView, b: SkipKeyView)
    requires
        a.2 == 1 || a.2 == 2,
        b.2 == 1 || b.2 == 2,
    ensures
        skey_lt(a, b) == ikey_lt(ikey_of(a), ikey_of(b)),
        ikey_of(a) == ikey_of(b) ==> a == b,
{
}

proof fn lemma_lower_bound_matches(s: Seq<SkipEntryView>, k: SkipKeyView)
    requires
        codes_valid(s),
        k.2 == 1 || k.2 == 2,
    ensures
        skip_lower_bound(s, k) == lower_bound(entries_of(s), ikey_of(k)),
    decreases s.len(),
{
    if s.len() > 0 {
        let t = s.drop_first();
        assert(codes_valid(t)) by {
            assert forall|i: int| 0 <= i < t.len() implies (#[trigger] t[i]).0.2 == 1 || t[i].0.2 == 2 by {
                assert(t[i] == s[i + 1]);
            }
        }
        lemma_lower_bound_matches(t, k);
        assert(entries_of(s).drop_first() =~= entries_of(t));
        assert(entries_of(s)[0] == entry_of(s[0]));
        lemma_order_matches(s[0].0, k);
    }
}

/// Upserting a skip-list entry is upserting the memtable entry it stands for.
proof fn lemma_upsert_matches(s: Seq<SkipEntryView>, e: SkipEntryView)
    requires
        codes_valid(s),
        e.0.2 == 1 || e.0.2 == 2,
    ensures
        codes_valid(skip_upsert(s, e)),
        entries_of(skip_upsert(s, e)) == spec_upsert(entries_of(s), entry_of(e)),
{
    lemma_lower_bound_matches(s, e.0);
    let p = skip_lower_bound(s, e.0);
    crate::memtable::lemma_lower_bound(entries_of(s), ikey_of(e.0));
    if p < s.len() {
        assert(entries_of(s)[p as int] == entry_of(s[p as int]));
        lemma_order_matches(s[p as int].0, e.0);
    }
    let r = skip_upsert(s, e);
    if p < s.len() && s[p as int].0 == e.0 {
        assert(entries_of(r) =~= entries_of(s).update(p as int, entry_of(e)));
    } else {
        assert(entries_of(r) =~= entries_of(s).insert(p as int, entry_of(e)));
    }
    assert forall|i: int| 0 <= i < r.len() implies (#[trigger] r[i]).0.2 == 1 || r[i].0.2 == 2 by {
        if p < s.len() && s[p as int].0 == e.0 {
            if i != p {
                assert(r[i] == s[i]);
            }
        } else if i < p {
            assert(r[i] == s[i]);
        } else if i > p {
            assert(r[i] == s[i - 1]);
        }
    }
}

/// A memtable in a skip list, its bytes allocated from an arena.
#[derive(Debug)]
pub struct SkipListMemTable {
    map: SkipMap<SkipKey, SkipValue>,
    arena: Arena,
}

impl SkipListMemTable {
    /// The entries in internal-key order.
    pub closed spec fn entries_view(&self) -> Seq<EntryView> {
        entries_of(skip_contents(self.map))
    }

    pub closed spec fn wf(&self) -> bool {
        &&& codes_valid(skip_contents(self.map))
        &&& sorted_entries(self.entries_view())
    }

    /// A well-formed memtable's entries are sorted strictly by internal key.
    pub proof fn lemma_wf_sorted(&self)
        requires
            self.wf(),
        ensures
            sorted_entries(self.entries_view()),
    {
    }

    /// The bytes allocated from the arena so far.
    pub closed spec fn arena_bytes(&self) -> nat {
        self.arena.spec_bytes()
    }

    /// The size estimate: arena bytes plus a fixed cost per entry, modulo the word size.
    pub open spec fn spec_approximate_size(&self) -> int {
        ((self.arena_bytes() + self.entries_view().len() * vstd::layout::size_of::<InternalKey>()) as int) % (usize::MAX as int + 1)
    }

    pub fn new() -> (t: Self)
        ensures
            t.wf(),
            t.entries_view() == Seq::<EntryView>::empty(),
            t.arena_bytes() == 0,
    {
        let t = SkipListMemTable { map: skipmap_new(), arena: Arena::new() };
        assert(t.entries_view() =~= Seq::<EntryView>::empty());
        t
    }

    fn insert_entry(&mut self, key: SkipKey, value: SkipValue)
        requires
            old(self).wf(),
            key.2 == 1 || key.2 == 2,
        ensures
            final(self).wf(),
            final(self).entries_view() == spec_upsert(old(self).entries_view(), entry_of((skip_key_view(key), skip_value_view(value)))),
            final(self).arena_bytes() == old(self).arena_bytes(),
    {
        let ghost s = skip_contents(self.map);
        let ghost e = (skip_key_view(key), skip_value_view(value));
        skipmap_insert(&mut self.map, key, value);
        proof {
            lemma_upsert_matches(s, e);
            crate::memtable::lemma_upsert_sorted(entries_of(s), entry_of(e));
        }
    }

    /// Whether `n` more bytes fit the arena's byte count.
    pub fn has_room_for(&self, n: usize) -> (r: bool)
        ensures
            r == (self.arena_bytes() + n <= usize::MAX),
    {
        n <= usize::MAX - self.arena.bytes()
    }

    /// Records a put of `value` under `key` at sequence `seq`.
    pub fn put(&mut self, seq: SequenceNumber, key: Vec<u8>, value: Vec<u8>)
        requires
            old(self).wf(),
            old(self).arena_bytes() + key@.len() + value@.len() <= usize::MAX,
        ensures
            final(self).wf(),
            final(self).entries_view() == spec_upsert(old(self).entries_view(), ((key@, seq, ValueType::Put), Some(value@))),
            final(self).arena_bytes() == old(self).arena_bytes() + key@.len() + value@.len(),
    {
        let k = self.arena.allocate(key.as_slice());
        let v = self.arena.allocate(value.as_slice());
        proof {
            lemma_key_roundtrip((key@, seq, ValueType::Put));
        }
        self.insert_entry((k, u64::MAX - seq, 1), Some(v));
    }

    /// Records a tombstone for `key` at sequence `seq`.
    pub fn delete(&mut self, seq: SequenceNumber, key: Vec<u8>)
        requires
            old(self).wf(),
            old(self).arena_bytes() + key@.len() <= usize::MAX,
        ensures
            final(self).wf(),
            final(self).entries_view() == spec_upsert(old(self).entries_view(), ((key@, seq, ValueType::Delete), None)),
            final(self).arena_bytes() == old(self).arena_bytes() + key@.len(),
    {
        let k = self.arena.allocate(key.as_slice());
        proof {
            lemma_key_roundtrip((key@, seq, ValueType::Delete));
        }
        self.insert_entry((k, u64::MAX - seq, 2), None);
    }

    /// The entries in internal-key order.
    pub fn entries(&self) -> (r: Vec<(InternalKey, ValueRecord)>)
        requires
            self.wf(),
        ensures
            entries_view(r@) == self.entries_view(),
    {
        let raw = skipmap_entries(&self.map);
        let ghost c = skip_contents(self.map);
        let mut out: Vec<(InternalKey, ValueRecord)> = Vec::new();
        let mut i: usize = 0;
        while i < raw.len()
            invariant
                i <= raw@.len(),
                raw@.map_values(|e: (SkipKey, SkipValue)| (skip_key_view(e.0), skip_value_view(e.1))) == c,
                codes_valid(c),
                entries_view(out@) == entries_of(c).subrange(0, i as int),
            decreases raw@.len() - i,
        {
            let (k, v) = &raw[i];
            assert(c[i as int] == (skip_key_view(*k), skip_value_view(*v)));
            let ty = if k.2 == 1 { ValueType::Put } else { ValueType::Delete };
            let key = InternalKey::new(vstd::slice::slice_to_vec(k.0.as_slice()), u64::MAX - k.1, ty);
            let value = match v {
                Some(b) => ValueRecord::Put(vstd::slice::slice_to_vec(b.as_slice())),
                None => ValueRecord::Delete,
            };
            let ghost before = out@;
            out.push((key, value));
            i = i + 1;
            proof {
                assert(entries_view(out@) =~= entries_view(before).push((key@, value@)));
                assert(entries_of(c)[i - 1] == entry_of(c[i - 1]));
                assert(entries_of(c).subrange(0, i as int) =~= entries_of(c).subrange(0, i - 1).push(entries_of(c)[i - 1]));
            }
        }
        assert(entries_of(c).subrange(0, i as int) =~= entries_of(c));
        out
    }

    /// The record of the newest version of `key` visible at `read_seq`.
    pub fn get(&self, key: &[u8], read_seq: SequenceNumber) -> (r: Option<ValueRecord>)
        requires
            self.wf(),
        ensures
            crate::memtable::btree::opt_record_view(r) == first_visible(self.entries_view(), key@, read_seq),
    {
        let entries = self.entries();
        let ghost s = entries_view(entries@);
        let mut i: usize = 0;
        assert(s.skip(0) =~= s);
        while i < entries.len()
            invariant
                s == entries_view(entries@),
                s == self.entries_view(),
                i <= s.len(),
                first_visible(s, key@, read_seq) == first_visible(s.skip(i as int), key@, read_seq),
            decreases s.len() - i,
        {
            let entry = &entries[i];
            if crate::key::bytes_equal(entry.0.user_key(), key) && entry.0.sequence() <= read_seq {
                return Some(entry.1.duplicate());
            }
            proof {
                assert(s.skip(i as int).drop_first() =~= s.skip(i + 1));
            }
            i = i + 1;
        }
        None
    }

    /// The newest visible value of each user key in range, in key order.
    pub fn scan(&self, lower: &KeyBound, upper: &KeyBound, read_seq: SequenceNumber) -> (r: Vec<(Vec<u8>, Vec<u8>)>)
        requires
            self.wf(),
        ensures
            rows_view(r@) == visible_rows(self.entries_view(), lower@, upper@, read_seq),
    {
        visible_scan(self.entries(), lower.duplicate(), upper.duplicate(), read_seq)
    }

    /// Arena bytes plus a fixed cost per entry, wrapping at the word size.
    pub fn approximate_size(&self) -> (r: usize)
        ensures
            r == self.spec_approximate_size(),
    {
        let n = skipmap_len(&self.map);
        let per = core::mem::size_of::<InternalKey>();
        let bytes = self.arena.bytes();
        proof {
            assert(self.entries_view().len() == n);
        }
        let product = mul_wrapping(n, per);
        let r = bytes.wrapping_add(product);
        proof {
            lemma_wrapping_sum(bytes as int, n as int, per as int);
            crate::memtable::btree::lemma_wrap_once(bytes + product, usize::MAX + 1);
            assert(per == vstd::layout::size_of::<InternalKey>());
        }
        r
    }

    pub fn is_empty(&self) -> (r: bool)
        ensures
            r == (self.entries_view().len() == 0),
    {
        skipmap_is_empty(&self.map)
    }
}

/// `a * b` modulo the word size.
fn mul_wrapping(a: usize, b: usize) -> (r: usize)
    ensures
        r == (a * b) % (usize::MAX + 1),
{
    a.wrapping_mul(b)
}

proof fn lemma_wrapping_sum(x: int, n: int, p: int)
    requires
        0 <= x <= usize::MAX,
        0 <= n,
        0 <= p,
    ensures
        ((x + (n * p) % (usize::MAX + 1)) % (usize::MAX + 1)) == (x + n * p) % (usize::MAX + 1),
{
    let m = usize::MAX + 1;
    vstd::arithmetic::div_mod::lemma_add_mod_noop(x, n * p, m);
    vstd::arithmetic::div_mod::lemma_small_mod(x as nat, m as nat);
    vstd::arithmetic::div_mod::lemma_mod_twice(n * p, m);
    vstd::arithmetic::div_mod::lemma_add_mod_noop(x, (n * p) % m, m);
}

} // verus!
