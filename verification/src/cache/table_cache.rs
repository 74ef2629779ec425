//! A bounded cache of opened tables, keyed by file number.
use vstd::prelude::*;

use std::collections::HashMap;
use std::sync::Arc;

use crate::error::Result;
use crate::table::reader::{spec_open_table, SSTableReader};
use crate::util::shared::share;

verus! {

broadcast use vstd::std_specs::hash::group_hash_axioms;

/// Opened tables by file number, at most `max_entries` of them. When full, caching a
/// newly opened table first evicts one cached table.
#[derive(Debug)]
pub struct TableCache {
    tables: HashMap<u64, Arc<SSTableReader>>,
    max_entries: usize,
}

/// Some key of `m`, the first its key iterator yields, if it has any.
fn first_key(m: &HashMap<u64, Arc<SSTableReader>>) -> (r: Option<u64>)
    ensures
        match r {
            Some(k) => m@.contains_key(k),
            None => m@.dom().is_empty(),
        },
{
    for k in it: m.keys()
        invariant
            it.index() == 0,
    {
        proof {
            assert(it.seq()[0] == k);
        }
        return Some(*k);
    }
    None
}

impl TableCache {
    /// The images of the cached tables.
    pub closed spec fn cached(&self) -> Map<u64, Seq<u8>> {
        self.tables@.map_values(|t: Arc<SSTableReader>| t.image())
    }

    pub closed spec fn capacity(&self) -> nat {
        self.max_entries as nat
    }

    pub closed spec fn wf(&self) -> bool {
        &&& self.tables@.len() <= self.max_entries
        &&& self.max_entries >= 1
        &&& forall|k: u64| #[trigger] self.tables@.contains_key(k) ==> self.tables@[k].opened()
    }

    /// A cache never holds more tables than its capacity.
    pub proof fn lemma_within_capacity(&self)
        requires
            self.wf(),
        ensures
            self.cached().dom().finite(),
            self.cached().dom().len() <= self.capacity(),
    {
        assert(self.cached().dom() =~= self.tables@.dom());
    }

    /// An empty cache of at most `max_entries` tables, and at least one.
    pub fn new(max_entries: usize) -> (c: Self)
        ensures
            c.wf(),
            c.cached() == Map::<u64, Seq<u8>>::empty(),
            c.capacity() == if max_entries >= 1 { max_entries } else { 1 },
    {
        let c = TableCache { tables: HashMap::new(), max_entries: if max_entries >= 1 { max_entries } else { 1 } };
        assert(c.cached() =~= Map::<u64, Seq<u8>>::empty());
        c
    }

    /// The cached table with file number `number`, if any.
    pub fn lookup(&self, number: u64) -> (r: Option<Arc<SSTableReader>>)
        requires
            self.wf(),
        ensures
            match r {
                Some(t) => self.cached().dom().contains(number) && t.image() == self.cached()[number] && t.opened(),
                None => !self.cached().dom().contains(number),
            },
    {
        match self.tables.get(&number) {
            Some(t) => Some(share(t)),
            None => None,
        }
    }

    /// The cached table with file number `number`, or else the table opened from `image`,
    /// which is then cached, first evicting one cached table when the cache is full.
    pub fn get_or_open(&mut self, number: u64, image: Vec<u8>) -> (r: Result<Arc<SSTableReader>>)
        requires
            old(self).wf(),
        ensures
            final(self).wf(),
            final(self).capacity() == old(self).capacity(),
            old(self).cached().dom().contains(number) ==> final(self).cached() == old(self).cached()
                && (r matches Ok(t) && t.image() == old(self).cached()[number] && t.opened()),
            !old(self).cached().dom().contains(number) ==> match spec_open_table(image@) {
                None => r is Err && final(self).cached() == old(self).cached(),
                Some(_) => (r matches Ok(t) && t.image() == image@ && t.opened()) && {
                    ||| old(self).cached().dom().len() < old(self).capacity()
                        && final(self).cached() == old(self).cached().insert(number, image@)
                    ||| old(self).cached().dom().len() >= old(self).capacity() && exists|e: u64| #[trigger] old(self).cached().dom().contains(e)
                        && final(self).cached() == old(self).cached().remove(e).insert(number, image@)
                },
            },
    {
        proof {
            assert(self.cached().dom() =~= self.tables@.dom());
        }
        match self.lookup(number) {
            Some(t) => return Ok(t),
            None => {},
        }
        let table = match SSTableReader::open(image) {
            Ok(t) => t,
            Err(e) => return Err(e),
        };
        let table = Arc::new(table);
        if self.tables.len() >= self.max_entries {
            match first_key(&self.tables) {
                Some(key) => {
                    let ghost before = self.tables@;
                    self.tables.remove(&key);
                    proof {
                        assert(self.tables@ == before.remove(key));
                        assert(self.cached() =~= old(self).cached().remove(key));
                        assert(old(self).cached().dom().contains(key));
                    }
                },
                None => {},
            }
        }
        let ghost mid = self.tables@;
        let r = share(&table);
        self.tables.insert(number, table);
        proof {
            assert(self.tables@ == mid.insert(number, r));
            assert(self.cached() =~= mid.map_values(|t: Arc<SSTableReader>| t.image()).insert(number, image@));
            if old(self).tables@.len() < old(self).max_entries {
                assert(mid == old(self).tables@);
            }
            assert(self.tables@.dom() =~= mid.dom().insert(number));
        }
        Ok(r)
    }
}

} // verus!
