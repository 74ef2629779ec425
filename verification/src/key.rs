//! Internal keys: a user key tagged with the sequence number of the write and the kind
//! of write. Internal keys order by user key ascending, then sequence descending (the
//! newest version first), then value type.
use vstd::prelude::*;

use std::cmp::Ordering;

verus! {

pub type SequenceNumber = u64;

/// The kind of write an internal key records.
#[derive(Debug, Clone, Copy, PartialEq, Eq, Structural, PartialOrd, Ord, Hash)]
pub enum ValueType {
    Put,
    Delete,
}

/// The byte a value type is stored as: 1 for a put, 2 for a delete.
pub open spec fn value_type_code(t: ValueType) -> u8 {
    match t {
        ValueType::Put => 1,
        ValueType::Delete => 2,
    }
}

impl ValueType {
    /// The byte this value type is stored as.
    pub fn code(self) -> (r: u8)
        ensures
            r == value_type_code(self),
    {
        match self {
            ValueType::Put => 1,
            ValueType::Delete => 2,
        }
    }
}

/// Lexicographic order on byte strings: a proper prefix comes first, otherwise the
/// first differing byte decides.
pub open spec fn bytes_lt(a: Seq<u8>, b: Seq<u8>) -> bool
    decreases a.len(),
{
    if a.len() == 0 {
        b.len() > 0
    } else if b.len() == 0 {
        false
    } else if a[0] != b[0] {
        a[0] < b[0]
    } else {
        bytes_lt(a.drop_first(), b.drop_first())
    }
}

/// `a <= b` in byte-string order.
pub open spec fn bytes_le(a: Seq<u8>, b: Seq<u8>) -> bool {
    a == b || bytes_lt(a, b)
}

pub proof fn lemma_bytes_lt_irreflexive(a: Seq<u8>)
    ensures
        !bytes_lt(a, a),
    decreases a.len(),
{
    if a.len() > 0 {
        lemma_bytes_lt_irreflexive(a.drop_first());
    }
}

pub proof fn lemma_bytes_lt_asymmetric(a: Seq<u8>, b: Seq<u8>)
    ensures
        !(bytes_lt(a, b) && bytes_lt(b, a)),
    decreases a.len(),
{
    if a.len() > 0 && b.len() > 0 && a[0] == b[0] {
        lemma_bytes_lt_asymmetric(a.drop_first(), b.drop_first());
    }
}

pub proof fn lemma_bytes_lt_transitive(a: Seq<u8>, b: Seq<u8>, c: Seq<u8>)
    requires
        bytes_lt(a, b),
        bytes_lt(b, c),
    ensures
        bytes_lt(a, c),
    decreases a.len(),
{
    if a.len() > 0 && b.len() > 0 && c.len() > 0 && a[0] == b[0] && b[0] == c[0] {
        lemma_bytes_lt_transitive(a.drop_first(), b.drop_first(), c.drop_first());
    }
}

pub proof fn lemma_bytes_lt_total(a: Seq<u8>, b: Seq<u8>)
    ensures
        bytes_lt(a, b) || a == b || bytes_lt(b, a),
    decreases a.len(),
{
    if a.len() > 0 && b.len() > 0 && a[0] == b[0] {
        lemma_bytes_lt_total(a.drop_first(), b.drop_first());
        if a.drop_first() == b.drop_first() {
            assert(a =~= seq![a[0]] + a.drop_first());
            assert(b =~= seq![b[0]] + b.drop_first());
        }
    } else if a.len() == 0 && b.len() == 0 {
        assert(a =~= b);
    }
}

pub proof fn lemma_bytes_le_transitive(a: Seq<u8>, b: Seq<u8>, c: Seq<u8>)
    requires
        bytes_le(a, b),
        bytes_le(b, c),
    ensures
        bytes_le(a, c),
{
    if bytes_lt(a, b) && bytes_lt(b, c) {
        lemma_bytes_lt_transitive(a, b, c);
    }
}

/// The abstract value of an internal key: user key, sequence number, value type.
pub type InternalKeyView = (Seq<u8>, u64, ValueType);

/// Order on internal keys: user key ascending, then sequence descending, then put
/// before delete.
pub open spec fn ikey_lt(a: InternalKeyView, b: InternalKeyView) -> bool {
    ||| bytes_lt(a.0, b.0)
    ||| (a.0 == b.0 && a.1 > b.1)
    ||| (a.0 == b.0 && a.1 == b.1 && value_type_code(a.2) < value_type_code(b.2))
}

pub proof fn lemma_ikey_lt_irreflexive(a: InternalKeyView)
    ensures
        !ikey_lt(a, a),
{
    lemma_bytes_lt_irreflexive(a.0);
}

pub proof fn lemma_ikey_lt_transitive(a: InternalKeyView, b: InternalKeyView, c: InternalKeyView)
    requires
        ikey_lt(a, b),
        ikey_lt(b, c),
    ensures
        ikey_lt(a, c),
{
    if bytes_lt(a.0, b.0) && bytes_lt(b.0, c.0) {
        lemma_bytes_lt_transitive(a.0, b.0, c.0);
    }
}

pub proof fn lemma_ikey_lt_total(a: InternalKeyView, b: InternalKeyView)
    ensures
        ikey_lt(a, b) || a == b || ikey_lt(b, a),
{
    lemma_bytes_lt_total(a.0, b.0);
    if a.0 == b.0 && a.1 == b.1 && value_type_code(a.2) == value_type_code(b.2) {
        assert(a.2 == b.2);
    }
}

pub proof fn lemma_ikey_lt_asymmetric(a: InternalKeyView, b: InternalKeyView)
    ensures
        !(ikey_lt(a, b) && ikey_lt(b, a)),
{
    lemma_bytes_lt_asymmetric(a.0, b.0);
    lemma_bytes_lt_irreflexive(a.0);
}

/// An internal key. The sequence number is stored complemented (`u64::MAX - sequence`)
/// so that the derived order is exactly the internal-key order: user key ascending,
/// sequence descending, then value type.
#[derive(Debug, Clone, PartialEq, Eq, PartialOrd, Ord, Hash)]
pub struct InternalKey {
    user_key: Vec<u8>,
    complemented_sequence: u64,
    value_type: ValueType,
}

impl View for InternalKey {
    type V = InternalKeyView;

    closed spec fn view(&self) -> InternalKeyView {
        (self.user_key@, (u64::MAX - self.complemented_sequence) as u64, self.value_type)
    }
}

impl InternalKey {
    pub fn new(user_key: Vec<u8>, sequence: SequenceNumber, value_type: ValueType) -> (k: Self)
        ensures
            k@ == (user_key@, sequence, value_type),
    {
        InternalKey { user_key, complemented_sequence: u64::MAX - sequence, value_type }
    }

    pub fn user_key(&self) -> (r: &[u8])
        ensures
            r@ == self@.0,
    {
        self.user_key.as_slice()
    }

    pub fn sequence(&self) -> (r: SequenceNumber)
        ensures
            r == self@.1,
    {
        u64::MAX - self.complemented_sequence
    }

    pub fn value_type(&self) -> (r: ValueType)
        ensures
            r == self@.2,
    {
        self.value_type
    }

    /// A copy of this key.
    pub fn duplicate(&self) -> (r: Self)
        ensures
            r@ == self@,
    {
        InternalKey {
            user_key: self.user_key.clone(),
            complemented_sequence: self.complemented_sequence,
            value_type: self.value_type,
        }
    }
}

/// Whether two byte strings are equal.
pub fn bytes_equal(a: &[u8], b: &[u8]) -> (r: bool)
    ensures
        r == (a@ == b@),
{
    if a.len() != b.len() {
        return false;
    }
    let mut i: usize = 0;
    while i < a.len()
        invariant
            a@.len() == b@.len(),
            i <= a@.len(),
            forall|j: int| 0 <= j < i ==> a@[j] == b@[j],
        decreases a@.len() - i,
    {
        if a[i] != b[i] {
            return false;
        }
        i = i + 1;
    }
    assert(a@ =~= b@);
    true
}

/// Whether `a` sorts strictly before `b` in byte-string order.
pub fn bytes_less(a: &[u8], b: &[u8]) -> (r: bool)
    ensures
        r == bytes_lt(a@, b@),
{
    let mut i: usize = 0;
    assert(a@.skip(0) =~= a@);
    assert(b@.skip(0) =~= b@);
    while i < a.len() && i < b.len()
        invariant
            i <= a@.len(),
            i <= b@.len(),
            bytes_lt(a@, b@) == bytes_lt(a@.skip(i as int), b@.skip(i as int)),
        decreases a@.len() - i,
    {
        if a[i] != b[i] {
            return a[i] < b[i];
        }
        proof {
            assert(a@.skip(i as int).drop_first() =~= a@.skip(i + 1));
            assert(b@.skip(i as int).drop_first() =~= b@.skip(i + 1));
        }
        i = i + 1;
    }
    i < b.len()
}

/// Orders two user keys lexicographically.
pub fn compare_user_key(left: &[u8], right: &[u8]) -> (r: Ordering)
    ensures
        (r == Ordering::Less) == bytes_lt(left@, right@),
        (r == Ordering::Equal) == (left@ == right@),
        (r == Ordering::Greater) == bytes_lt(right@, left@),
{
    proof {
        lemma_bytes_lt_total(left@, right@);
        lemma_bytes_lt_asymmetric(left@, right@);
        lemma_bytes_lt_irreflexive(left@);
    }
    if bytes_less(left, right) {
        Ordering::Less
    } else if bytes_equal(left, right) {
        Ordering::Equal
    } else {
        Ordering::Greater
    }
}

/// Whether internal key `a` sorts strictly before `b`.
pub fn internal_key_less(a: &InternalKey, b: &InternalKey) -> (r: bool)
    ensures
        r == ikey_lt(a@, b@),
{
    if bytes_less(a.user_key(), b.user_key()) {
        return true;
    }
    if !bytes_equal(a.user_key(), b.user_key()) {
        return false;
    }
    let sa = a.sequence();
    let sb = b.sequence();
    if sa != sb {
        return sa > sb;
    }
    a.value_type().code() < b.value_type().code()
}

} // verus!
