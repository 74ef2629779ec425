//! The per-table key filter.
use vstd::prelude::*;

use crate::util::bloom::{
    build_bloom_filter, filter_bytes, lemma_bloom_no_false_negatives, spec_bloom_filter, spec_may_contain,
    BloomFilter,
};

verus! {

/// A table's filter, read from the bytes stored in its properties. Bytes too short to
/// hold a filter give none, which passes every key.
#[derive(Debug, Clone)]
pub struct TableFilter {
    bloom: Option<BloomFilter>,
}

impl TableFilter {
    /// The bytes of the filter (empty when there is none).
    pub closed spec fn bytes(&self) -> Seq<u8> {
        match self.bloom {
            Some(b) => b.bytes(),
            None => Seq::empty(),
        }
    }

    pub closed spec fn wf(&self) -> bool {
        match self.bloom {
            Some(b) => b.bytes().len() >= 2,
            None => true,
        }
    }

    /// Filter bytes for `keys`.
    pub fn from_keys(keys: &[Vec<u8>]) -> (f: Vec<u8>)
        ensures
            f@ == spec_bloom_filter(keys@.map_values(|k: Vec<u8>| k@)),
            forall|i: int| 0 <= i < keys@.len() ==> #[trigger] spec_may_contain(f@, keys@[i]@),
    {
        let f = build_bloom_filter(keys);
        proof {
            let kv = keys@.map_values(|k: Vec<u8>| k@);
            assert forall|i: int| 0 <= i < keys@.len() implies #[trigger] spec_may_contain(f@, keys@[i]@) by {
                assert(kv[i] == keys@[i]@);
                assert(kv.contains(keys@[i]@));
                lemma_bloom_no_false_negatives(kv, f@, keys@[i]@);
            }
        }
        f
    }

    pub fn decode(bytes: &[u8]) -> (f: Self)
        ensures
            f.wf(),
            bytes@.len() >= 2 ==> f.bytes() == bytes@,
            bytes@.len() < 2 ==> f.bytes().len() == 0,
    {
        TableFilter { bloom: BloomFilter::from_bytes(bytes) }
    }

    /// Whether `key` may be in the table; a `false` answer is definite.
    pub fn may_contain(&self, key: &[u8]) -> (r: bool)
        requires
            self.wf(),
        ensures
            r == spec_may_contain(self.bytes(), key@),
    {
        match &self.bloom {
            Some(b) => b.may_contain(key),
            None => true,
        }
    }
}

} // verus!
