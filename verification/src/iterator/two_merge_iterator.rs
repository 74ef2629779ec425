use vstd::prelude::*;

use crate::error::Result;
use crate::key::{InternalKey, InternalKeyView};
use crate::memtable::{EntryView, ValueRecord};

use super::merge_iterator::{children_remaining, merged, MergeIterator};
use super::storage_iterator::StorageIterator;

verus! {

/// Merges two iterators; on equal keys the left one's entry comes first.
pub struct TwoMergeIterator<I: StorageIterator> {
    inner: MergeIterator<I>,
}

impl<I: StorageIterator> TwoMergeIterator<I> {
    pub fn new(left: I, right: I) -> (it: Self)
        requires
            left.inv(),
            right.inv(),
        ensures
            it.inv(),
            it.remaining() == merged(seq![left.remaining(), right.remaining()]),
            left.infallible() && right.infallible() ==> it.infallible(),
    {
        let ghost l = left;
        let ghost r = right;
        let mut children: Vec<I> = Vec::new();
        children.push(left);
        children.push(right);
        proof {
            assert(children@ =~= seq![l, r]);
            assert(children_remaining(children@) =~= seq![l.remaining(), r.remaining()]);
        }
        TwoMergeIterator { inner: MergeIterator::new(children) }
    }
}

impl<I: StorageIterator> StorageIterator for TwoMergeIterator<I> {
    closed spec fn remaining(&self) -> Seq<EntryView> {
        self.inner.remaining()
    }

    closed spec fn after_seek(&self, key: InternalKeyView) -> Seq<EntryView> {
        self.inner.after_seek(key)
    }

    closed spec fn inv(&self) -> bool {
        self.inner.inv()
    }

    closed spec fn infallible(&self) -> bool {
        self.inner.infallible()
    }

    fn is_valid(&self) -> (r: bool) {
        self.inner.is_valid()
    }

    fn key(&self) -> (r: &InternalKey) {
        self.inner.key()
    }

    fn value(&self) -> (r: &ValueRecord) {
        self.inner.value()
    }

    fn next(&mut self) -> (r: Result<()>) {
        self.inner.next()
    }

    fn seek(&mut self, key: &InternalKey) -> (r: Result<()>) {
        self.inner.seek(key)
    }
}

} // verus!
