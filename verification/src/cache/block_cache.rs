//! A bounded cache of decoded blocks, keyed by table number and block offset.
use vstd::prelude::*;

use std::collections::HashMap;
use std::sync::Arc;

use crate::memtable::EntryView;
use crate::table::block::Block;
use crate::util::shared::share;

verus! {

broadcast use vstd::std_specs::hash::group_hash_axioms;

/// Hit and miss counts of a cache.
#[derive(Debug, Clone, Copy, Default, PartialEq, Eq, Structural)]
pub struct CacheStats {
    pub hits: u64,
    pub misses: u64,
}

/// Decoded blocks by `(table number, block offset)`, at most `max_entries` of them.
/// When full, an insert first evicts one cached block. The map is keyed by the pair
/// packed into one integer: the table number in the high 64 bits, the offset in the low.
#[derive(Debug)]
pub struct BlockCache {
    blocks: HashMap<u128, Arc<Block>>,
    max_entries: usize,
    stats: CacheStats,
}

/// The map key of `(table_number, block_offset)`.
pub open spec fn block_key(table_number: u64, block_offset: u64) -> u128 {
    (table_number * 0x1_0000_0000_0000_0000 + block_offset) as u128
}

/// The `(table number, block offset)` a map key stands for.
pub open spec fn key_pair(k: u128) -> (u64, u64) {
    ((k / 0x1_0000_0000_0000_0000) as u64, (k % 0x1_0000_0000_0000_0000) as u64)
}

proof fn lemma_block_key(t: u64, o: u64)
    ensures
        key_pair(block_key(t, o)) == (t, o),
{
    assert(t * 0x1_0000_0000_0000_0000 + o <= u128::MAX) by (nonlinear_arith);
    assert((t * 0x1_0000_0000_0000_0000 + o) / 0x1_0000_0000_0000_0000 == t
        && (t * 0x1_0000_0000_0000_0000 + o) % 0x1_0000_0000_0000_0000 == o) by (nonlinear_arith)
        requires o < 0x1_0000_0000_0000_0000int;
}

proof fn lemma_key_pair(k: u128)
    ensures
        block_key(key_pair(k).0, key_pair(k).1) == k,
{
    assert((k / 0x1_0000_0000_0000_0000) * 0x1_0000_0000_0000_0000 + k % 0x1_0000_0000_0000_0000 == k) by (nonlinear_arith);
    assert(k / 0x1_0000_0000_0000_0000 < 0x1_0000_0000_0000_0000) by (nonlinear_arith)
        requires k <= u128::MAX;
}

/// The map key of `(table_number, block_offset)`.
fn exec_block_key(table_number: u64, block_offset: u64) -> (k: u128)
    ensures
        k == block_key(table_number, block_offset),
{
    assert(table_number * 0x1_0000_0000_0000_0000 + block_offset <= u128::MAX) by (nonlinear_arith);
    (table_number as u128) * 0x1_0000_0000_0000_0000 + (block_offset as u128)
}

/// Some key of `m`, the first its key iterator yields, if it has any.
fn first_key(m: &HashMap<u128, Arc<Block>>) -> (r: Option<u128>)
    ensures
        match r {
            Some(k) => m@.contains_key(k),
            None => m@.dom().is_empty(),
        },
{
    for k in it: m.keys()
        invariant
            it.index() == 0,
    {
        proof {
            assert(it.seq()[0] == k);
        }
        return Some(*k);
    }
    None
}

impl BlockCache {
    /// The cached blocks.
    pub closed spec fn cached(&self) -> Map<(u64, u64), Seq<EntryView>> {
        Map::new(
            |p: (u64, u64)| self.blocks@.contains_key(block_key(p.0, p.1)),
            |p: (u64, u64)| self.blocks@[block_key(p.0, p.1)]@,
        )
    }

    pub closed spec fn capacity(&self) -> nat {
        self.max_entries as nat
    }

    pub closed spec fn spec_stats(&self) -> CacheStats {
        self.stats
    }

    pub closed spec fn wf(&self) -> bool {
        &&& self.blocks@.len() <= self.max_entries
        &&& self.max_entries >= 1
    }

    /// The cached pairs are the map's keys unpacked, as many as there are keys.
    proof fn lemma_cached_dom(&self)
        ensures
            self.cached().dom() == self.blocks@.dom().map(|k: u128| key_pair(k)),
            self.cached().dom().finite(),
            self.cached().dom().len() == self.blocks@.len(),
    {
        let f = |k: u128| key_pair(k);
        let d = self.blocks@.dom();
        assert(self.cached().dom() =~= d.map(f)) by {
            assert forall|p: (u64, u64)| #[trigger] self.cached().dom().contains(p) <==> d.map(f).contains(p) by {
                lemma_block_key(p.0, p.1);
                if d.map(f).contains(p) {
                    let k = choose|k: u128| d.contains(k) && f(k) == p;
                    lemma_key_pair(k);
                }
                if self.cached().dom().contains(p) {
                    assert(d.contains(block_key(p.0, p.1)) && f(block_key(p.0, p.1)) == p);
                }
            }
        }
        assert(vstd::relations::injective_on(f, d)) by {
            assert forall|a: u128, b: u128| d.contains(a) && d.contains(b) && #[trigger] f(a) == #[trigger] f(b) implies a == b by {
                lemma_key_pair(a);
                lemma_key_pair(b);
            }
        }
        vstd::set_lib::lemma_map_size(d, d.map(f), f);
    }

    /// A cache never holds more blocks than its capacity.
    pub proof fn lemma_within_capacity(&self)
        requires
            self.wf(),
        ensures
            self.cached().dom().finite(),
            self.cached().dom().len() <= self.capacity(),
    {
        self.lemma_cached_dom();
    }

    /// An empty cache holding one block per 4096 bytes of `capacity_bytes`, and at least one.
    pub fn new(capacity_bytes: usize) -> (c: Self)
        ensures
            c.wf(),
            c.cached() == Map::<(u64, u64), Seq<EntryView>>::empty(),
            c.capacity() == if capacity_bytes / 4096 >= 1 { capacity_bytes / 4096 } else { 1 },
            c.spec_stats() == (CacheStats { hits: 0, misses: 0 }),
    {
        let per_block = capacity_bytes / 4096;
        let max_entries = if per_block >= 1 { per_block } else { 1 };
        let c = BlockCache { blocks: HashMap::new(), max_entries, stats: CacheStats { hits: 0, misses: 0 } };
        assert(c.cached() =~= Map::<(u64, u64), Seq<EntryView>>::empty());
        c
    }

    /// The cached block at `(table_number, block_offset)`, counting a hit or a miss.
    pub fn get(&mut self, table_number: u64, block_offset: u64) -> (r: Option<Arc<Block>>)
        requires
            old(self).wf(),
            old(self).spec_stats().hits < u64::MAX,
            old(self).spec_stats().misses < u64::MAX,
        ensures
            final(self).wf(),
            final(self).cached() == old(self).cached(),
            final(self).capacity() == old(self).capacity(),
            match r {
                Some(b) => old(self).cached().dom().contains((table_number, block_offset))
                    && b@ == old(self).cached()[(table_number, block_offset)]
                    && final(self).spec_stats() == (CacheStats { hits: (old(self).spec_stats().hits + 1) as u64, ..old(self).spec_stats() }),
                None => !old(self).cached().dom().contains((table_number, block_offset))
                    && final(self).spec_stats() == (CacheStats { misses: (old(self).spec_stats().misses + 1) as u64, ..old(self).spec_stats() }),
            },
    {
        let key = exec_block_key(table_number, block_offset);
        let found = match self.blocks.get(&key) {
            Some(b) => Some(share(b)),
            None => None,
        };
        match found {
            Some(b) => {
                self.stats.hits = self.stats.hits + 1;
                Some(b)
            },
            None => {
                self.stats.misses = self.stats.misses + 1;
                None
            },
        }
    }

    /// Caches `block` at `(table_number, block_offset)`, first evicting one cached block
    /// when the cache is full.
    pub fn insert(&mut self, table_number: u64, block_offset: u64, block: Arc<Block>)
        requires
            old(self).wf(),
        ensures
            final(self).wf(),
            final(self).capacity() == old(self).capacity(),
            final(self).spec_stats() == old(self).spec_stats(),
            old(self).cached().dom().len() < old(self).capacity() ==> final(self).cached() == old(self).cached().insert((table_number, block_offset), block@),
            old(self).cached().dom().len() >= old(self).capacity() ==> exists|e: (u64, u64)| #[trigger] old(self).cached().dom().contains(e)
                && final(self).cached() == old(self).cached().remove(e).insert((table_number, block_offset), block@),
    {
        proof {
            old(self).lemma_cached_dom();
        }
        let ghost mut evicted: (u64, u64) = (table_number, block_offset);
        if self.blocks.len() >= self.max_entries {
            match first_key(&self.blocks) {
                Some(k) => {
                    let ghost before = *self;
                    self.blocks.remove(&k);
                    proof {
                        evicted = key_pair(k);
                        lemma_key_pair(k);
                        assert(self.cached() =~= before.cached().remove(evicted)) by {
                            assert forall|p: (u64, u64)| #[trigger] self.cached().dom().contains(p) <==> before.cached().remove(evicted).dom().contains(p) by {
                                lemma_block_key(p.0, p.1);
                            }
                        }
                        assert(before.cached().dom().contains(evicted));
                    }
                },
                None => {},
            }
        }
        let ghost mid = *self;
        let key = exec_block_key(table_number, block_offset);
        self.blocks.insert(key, block);
        proof {
            assert(self.cached() =~= mid.cached().insert((table_number, block_offset), block@)) by {
                assert forall|p: (u64, u64)| #[trigger] self.cached().dom().contains(p) <==> mid.cached().insert((table_number, block_offset), block@).dom().contains(p) by {
                    lemma_block_key(p.0, p.1);
                    lemma_block_key(table_number, block_offset);
                }
                assert forall|p: (u64, u64)| #[trigger] self.cached().dom().contains(p) implies self.cached()[p] == mid.cached().insert((table_number, block_offset), block@)[p] by {
                    lemma_block_key(p.0, p.1);
                    lemma_block_key(table_number, block_offset);
                }
            }
            if old(self).cached().dom().len() < old(self).capacity() {
                assert(mid.cached() == old(self).cached());
            }
        }
    }

    /// The hit and miss counts so far.
    pub fn stats(&self) -> (r: CacheStats)
        ensures
            r == self.spec_stats(),
    {
        self.stats
    }
}

} // verus!
