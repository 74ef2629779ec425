use vstd::prelude::*;

use crate::error::Result;
use crate::key::{ikey_lt, internal_key_less, InternalKey, InternalKeyView};
use crate::memtable::{EntryView, ValueRecord};

use super::storage_iterator::StorageIterator;

verus! {

/// Among the first `n` sequences, the index of the non-empty one with the least first
/// key, the earliest on ties.
pub open spec fn heads_min(cs: Seq<Seq<EntryView>>, n: nat) -> Option<int>
    decreases n,
{
    if n == 0 || n > cs.len() {
        None
    } else {
        let b = heads_min(cs, (n - 1) as nat);
        if cs[n - 1].len() == 0 {
            b
        } else {
            match b {
                None => Some(n - 1),
                Some(i) => if ikey_lt(cs[n - 1][0].0, cs[i][0].0) {
                    Some(n - 1)
                } else {
                    Some(i)
                },
            }
        }
    }
}

/// The index of the sequence whose first entry comes next in a merge.
pub open spec fn min_child(cs: Seq<Seq<EntryView>>) -> Option<int> {
    heads_min(cs, cs.len())
}

/// The total number of entries in all sequences.
pub open spec fn total_len(cs: Seq<Seq<EntryView>>) -> nat
    decreases cs.len(),
{
    if cs.len() == 0 {
        0
    } else {
        total_len(cs.drop_last()) + cs.last().len()
    }
}

pub proof fn lemma_heads_min(cs: Seq<Seq<EntryView>>, n: nat)
    requires
        n <= cs.len(),
    ensures
        match heads_min(cs, n) {
            Some(i) => 0 <= i < n && cs[i].len() > 0,
            None => forall|j: int| 0 <= j < n ==> #[trigger] cs[j].len() == 0,
        },
    decreases n,
{
    if n > 0 {
        lemma_heads_min(cs, (n - 1) as nat);
    }
}

pub proof fn lemma_total_len_update(cs: Seq<Seq<EntryView>>, m: int, t: Seq<EntryView>)
    requires
        0 <= m < cs.len(),
    ensures
        total_len(cs.update(m, t)) + cs[m].len() == total_len(cs) + t.len(),
    decreases cs.len(),
{
    let u = cs.update(m, t);
    if m == cs.len() - 1 {
        assert(u.drop_last() =~= cs.drop_last());
    } else {
        assert(u.drop_last() =~= cs.drop_last().update(m, t));
        lemma_total_len_update(cs.drop_last(), m, t);
    }
}

/// The entries of all sequences merged: repeatedly the least first entry, the earliest
/// sequence on ties.
pub open spec fn merged(cs: Seq<Seq<EntryView>>) -> Seq<EntryView>
    decreases total_len(cs),
{
    match min_child(cs) {
        None => Seq::empty(),
        Some(m) => {
            proof {
                lemma_heads_min(cs, cs.len());
                lemma_total_len_update(cs, m, cs[m].drop_first());
            }
            seq![cs[m][0]] + merged(cs.update(m, cs[m].drop_first()))
        },
    }
}

/// Merges several iterators into one ordered stream.
pub struct MergeIterator<I: StorageIterator> {
    children: Vec<I>,
    current: Option<usize>,
}

/// The entries each iterator has still to give.
pub open spec fn children_remaining<I: StorageIterator>(cs: Seq<I>) -> Seq<Seq<EntryView>> {
    Seq::new(cs.len(), |i: int| cs[i].remaining())
}

/// What each iterator would give after `seek(key)`.
pub open spec fn children_after_seek<I: StorageIterator>(cs: Seq<I>, key: InternalKeyView) -> Seq<Seq<EntryView>> {
    Seq::new(cs.len(), |i: int| cs[i].after_seek(key))
}

impl<I: StorageIterator> MergeIterator<I> {
    pub fn new(children: Vec<I>) -> (it: Self)
        requires
            forall|i: int| 0 <= i < children@.len() ==> #[trigger] children@[i].inv(),
        ensures
            it.inv(),
            it.remaining() == merged(children_remaining(children@)),
            (forall|i: int| 0 <= i < children@.len() ==> #[trigger] children@[i].infallible())
                ==> it.infallible(),
    {
        let mut it = MergeIterator { children, current: None };
        it.pick_current();
        it
    }

    fn pick_current(&mut self)
        requires
            forall|i: int| 0 <= i < old(self).children@.len() ==> #[trigger] old(self).children@[i].inv(),
        ensures
            final(self).children@ == old(self).children@,
            final(self).inv(),
    {
        let ghost cs = children_remaining(self.children@);
        let mut best: Option<usize> = None;
        let mut i: usize = 0;
        while i < self.children.len()
            invariant
                cs == children_remaining(self.children@),
                i <= self.children@.len(),
                forall|j: int| 0 <= j < self.children@.len() ==> #[trigger] self.children@[j].inv(),
                match best {
                    Some(b) => heads_min(cs, i as nat) == Some(b as int),
                    None => heads_min(cs, i as nat) is None,
                },
            decreases self.children@.len() - i,
        {
            if self.children[i].is_valid() {
                match best {
                    None => {
                        best = Some(i);
                    },
                    Some(b) => {
                        proof {
                            lemma_heads_min(cs, i as nat);
                        }
                        if internal_key_less(self.children[i].key(), self.children[b].key()) {
                            best = Some(i);
                        }
                    },
                }
            }
            i = i + 1;
        }
        self.current = best;
    }
}

impl<I: StorageIterator> StorageIterator for MergeIterator<I> {
    closed spec fn remaining(&self) -> Seq<EntryView> {
        merged(children_remaining(self.children@))
    }

    closed spec fn after_seek(&self, key: InternalKeyView) -> Seq<EntryView> {
        merged(children_after_seek(self.children@, key))
    }

    closed spec fn inv(&self) -> bool {
        &&& forall|i: int| 0 <= i < self.children@.len() ==> #[trigger] self.children@[i].inv()
        &&& match self.current {
            Some(c) => min_child(children_remaining(self.children@)) == Some(c as int),
            None => min_child(children_remaining(self.children@)) is None,
        }
    }

    closed spec fn infallible(&self) -> bool {
        forall|i: int| 0 <= i < self.children@.len() ==> #[trigger] self.children@[i].infallible()
    }

    fn is_valid(&self) -> (r: bool) {
        self.current.is_some()
    }

    fn key(&self) -> (r: &InternalKey) {
        proof {
            lemma_heads_min(children_remaining(self.children@), self.children@.len() as nat);
        }
        let c = self.current.unwrap();
        self.children[c].key()
    }

    fn value(&self) -> (r: &ValueRecord) {
        proof {
            lemma_heads_min(children_remaining(self.children@), self.children@.len() as nat);
        }
        let c = self.current.unwrap();
        self.children[c].value()
    }

    fn next(&mut self) -> (r: Result<()>) {
        proof {
            lemma_heads_min(children_remaining(self.children@), self.children@.len() as nat);
        }
        if let Some(c) = self.current {
            let ghost cs = children_remaining(self.children@);
            let r = self.children[c].next();
            if r.is_err() {
                self.pick_current();
                return r;
            }
            proof {
                assert(children_remaining(self.children@) =~= cs.update(c as int, cs[c as int].drop_first()));
            }
        }
        self.pick_current();
        Ok(())
    }

    fn seek(&mut self, key: &InternalKey) -> (r: Result<()>) {
        let ghost orig = self.children@;
        assert(orig == old(self).children@);
        let ghost target = children_after_seek(orig, key@);
        assert(target.len() == orig.len());
        let mut i: usize = 0;
        while i < self.children.len()
            invariant
                i <= self.children@.len(),
                self.children@.len() == orig.len(),
                target == children_after_seek(orig, key@),
                orig == old(self).children@,
                forall|j: int| 0 <= j < self.children@.len() ==> #[trigger] self.children@[j].inv(),
                forall|j: int| 0 <= j < i ==> #[trigger] self.children@[j].remaining() == target[j],
                forall|j: int| i <= j < self.children@.len() ==> #[trigger] self.children@[j] == orig[j],
                (forall|j: int| 0 <= j < orig.len() ==> #[trigger] orig[j].infallible()) ==> forall|j: int| 0 <= j < self.children@.len() ==> #[trigger] self.children@[j].infallible(),
            decreases self.children@.len() - i,
        {
            let ghost before = self.children@;
            let r = self.children[i].seek(key);
            if r.is_err() {
                proof {
                    assert(!before[i as int].infallible());
                    assert(!old(self).infallible());
                }
                self.pick_current();
                return r;
            }
            proof {
                assert(self.children@[i as int].remaining() == before[i as int].after_seek(key@));
                assert(before[i as int] == orig[i as int]);
                assert(target[i as int] == orig[i as int].after_seek(key@));
            }
            i = i + 1;
        }
        proof {
            assert(children_remaining(self.children@) =~= target);
        }
        self.pick_current();
        Ok(())
    }
}

} // verus!
