//! The set of sequence numbers that live snapshots read at, counted with multiplicity.
use vstd::prelude::*;

use std::collections::BTreeMap;

verus! {

broadcast use {
    vstd::std_specs::btree::group_btree_axioms,
    vstd::laws_cmp::group_laws_cmp,
};

/// The smallest key of a map: `BTreeMap::first_key_value`, which the standard library
/// documents as returning the entry whose key is the minimum in the map, or `None` for
/// an empty map. The contract claims exactly that, of the key.
#[verifier::external_body]
fn first_key(m: &BTreeMap<u64, usize>) -> (r: Option<u64>)
    ensures
        match r {
            Some(k) => m@.contains_key(k) && forall|t: u64| #[trigger] m@.contains_key(t) ==> k <= t,
            None => m@.dom().is_empty(),
        },
{
    m.first_key_value().map(|(k, _)| *k)
}

/// Active read sequences, each with how many snapshots hold it.
#[derive(Debug)]
pub struct Watermark {
    active: BTreeMap<u64, usize>,
}

impl Watermark {
    /// How many snapshots hold each active read sequence.
    pub closed spec fn counts(&self) -> Map<u64, nat> {
        self.active@.map_values(|c: usize| c as nat)
    }

    /// Every registered sequence has at least one holder.
    pub closed spec fn wf(&self) -> bool {
        forall|k: u64| #[trigger] self.active@.contains_key(k) ==> self.active@[k] > 0
    }

    pub fn new() -> (w: Self)
        ensures
            w.wf(),
            w.counts() == Map::<u64, nat>::empty(),
    {
        let w = Watermark { active: BTreeMap::new() };
        assert(w.counts() =~= Map::<u64, nat>::empty());
        w
    }

    /// Registers one more holder of `sequence`.
    pub fn add(&mut self, sequence: u64)
        requires
            old(self).wf(),
            old(self).counts().dom().contains(sequence) ==> old(self).counts()[sequence] < usize::MAX,
        ensures
            final(self).wf(),
            final(self).counts() == old(self).counts().insert(
                sequence,
                if old(self).counts().dom().contains(sequence) { old(self).counts()[sequence] + 1 } else { 1 },
            ),
    {
        let count: usize = match self.active.get(&sequence) {
            Some(c) => *c,
            None => 0,
        };
        assert(count > 0 ==> self.counts()[sequence] == count);
        self.active.insert(sequence, count + 1);
        assert(self.counts() =~= old(self).counts().insert(
            sequence,
            if old(self).counts().dom().contains(sequence) { old(self).counts()[sequence] + 1 } else { 1 },
        ));
    }

    /// Releases one holder of `sequence`; a sequence nobody holds is left alone.
    pub fn remove(&mut self, sequence: u64)
        requires
            old(self).wf(),
        ensures
            final(self).wf(),
            final(self).counts() == if !old(self).counts().dom().contains(sequence) {
                old(self).counts()
            } else if old(self).counts()[sequence] == 1 {
                old(self).counts().remove(sequence)
            } else {
                old(self).counts().insert(sequence, (old(self).counts()[sequence] - 1) as nat)
            },
    {
        let count: usize = match self.active.get(&sequence) {
            Some(c) => *c,
            None => return,
        };
        if count == 1 {
            self.active.remove(&sequence);
            assert(self.counts() =~= old(self).counts().remove(sequence));
        } else {
            self.active.insert(sequence, count - 1);
            assert(self.counts() =~= old(self).counts().insert(sequence, (old(self).counts()[sequence] - 1) as nat));
        }
    }

    /// The smallest active read sequence, if any snapshot is live.
    pub fn oldest(&self) -> (r: Option<u64>)
        requires
            self.wf(),
        ensures
            match r {
                Some(s) => self.counts().dom().contains(s) && forall|t: u64| #[trigger] self.counts().dom().contains(t) ==> s <= t,
                None => self.counts().dom().is_empty(),
            },
    {
        let r = first_key(&self.active);
        assert(self.counts().dom() =~= self.active@.dom());
        r
    }
}

} // verus!
