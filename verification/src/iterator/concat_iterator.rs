use vstd::prelude::*;

use crate::error::Result;
use crate::key::{InternalKey, InternalKeyView};
use crate::memtable::{EntryView, ValueRecord};

use super::merge_iterator::children_remaining;
use super::storage_iterator::StorageIterator;

verus! {

/// Chains iterators: all of the first, then all of the second, and so on.
pub struct ConcatIterator<I: StorageIterator> {
    children: Vec<I>,
    current: usize,
}

/// What a concatenation gives after `seek(key)`: children are sought in order until one
/// has something left; that one's remainder is followed by the later children as they
/// stand.
pub open spec fn concat_after_seek<I: StorageIterator>(cs: Seq<I>, i: int, key: InternalKeyView) -> Seq<EntryView>
    decreases cs.len() - i,
{
    if i < 0 || i >= cs.len() {
        Seq::empty()
    } else if cs[i].after_seek(key).len() > 0 {
        cs[i].after_seek(key) + children_remaining(cs).skip(i + 1).flatten()
    } else {
        concat_after_seek(cs, i + 1, key)
    }
}

proof fn lemma_flatten_skip_front(cs: Seq<Seq<EntryView>>, c: int)
    requires
        0 <= c < cs.len(),
    ensures
        cs.skip(c).flatten() == cs[c] + cs.skip(c + 1).flatten(),
{
    assert(cs.skip(c).drop_first() =~= cs.skip(c + 1));
    assert(cs.skip(c).first() == cs[c]);
}

impl<I: StorageIterator> ConcatIterator<I> {
    pub fn new(children: Vec<I>) -> (it: Self)
        requires
            forall|i: int| 0 <= i < children@.len() ==> #[trigger] children@[i].inv(),
        ensures
            it.inv(),
            it.remaining() == children_remaining(children@).flatten(),
            (forall|i: int| 0 <= i < children@.len() ==> #[trigger] children@[i].infallible())
                ==> it.infallible(),
    {
        let mut it = ConcatIterator { children, current: 0 };
        assert(children_remaining(it.children@).skip(0) =~= children_remaining(it.children@));
        it.skip_empty();
        it
    }

    /// Moves past exhausted children.
    fn skip_empty(&mut self)
        requires
            forall|i: int| 0 <= i < old(self).children@.len() ==> #[trigger] old(self).children@[i].inv(),
            old(self).current <= old(self).children@.len(),
        ensures
            final(self).children@ == old(self).children@,
            final(self).inv(),
            children_remaining(final(self).children@).skip(final(self).current as int).flatten()
                == children_remaining(old(self).children@).skip(old(self).current as int).flatten(),
    {
        let ghost cs = children_remaining(self.children@);
        let ghost start = self.current;
        while self.current < self.children.len() && !self.children[self.current].is_valid()
            invariant
                cs == children_remaining(self.children@),
                self.children@ == old(self).children@,
                start <= self.current <= self.children@.len(),
                forall|i: int| 0 <= i < self.children@.len() ==> #[trigger] self.children@[i].inv(),
                cs.skip(self.current as int).flatten() == cs.skip(start as int).flatten(),
            decreases self.children@.len() - self.current,
        {
            proof {
                lemma_flatten_skip_front(cs, self.current as int);
                assert(cs[self.current as int] =~= Seq::<EntryView>::empty());
                assert(cs.skip(self.current as int).flatten() =~= cs.skip(self.current + 1).flatten());
            }
            self.current = self.current + 1;
        }
    }
}

impl<I: StorageIterator> StorageIterator for ConcatIterator<I> {
    closed spec fn remaining(&self) -> Seq<EntryView> {
        children_remaining(self.children@).skip(self.current as int).flatten()
    }

    closed spec fn after_seek(&self, key: InternalKeyView) -> Seq<EntryView> {
        concat_after_seek(self.children@, 0, key)
    }

    closed spec fn inv(&self) -> bool {
        &&& forall|i: int| 0 <= i < self.children@.len() ==> #[trigger] self.children@[i].inv()
        &&& self.current <= self.children@.len()
        &&& self.current < self.children@.len() ==> self.children@[self.current as int].remaining().len() > 0
    }

    closed spec fn infallible(&self) -> bool {
        forall|i: int| 0 <= i < self.children@.len() ==> #[trigger] self.children@[i].infallible()
    }

    fn is_valid(&self) -> (r: bool) {
        proof {
            let cs = children_remaining(self.children@);
            if self.current < self.children@.len() {
                lemma_flatten_skip_front(cs, self.current as int);
            } else {
                assert(cs.skip(self.current as int) =~= Seq::<Seq<EntryView>>::empty());
            }
        }
        self.current < self.children.len() && self.children[self.current].is_valid()
    }

    fn key(&self) -> (r: &InternalKey) {
        proof {
            let cs = children_remaining(self.children@);
            if self.current < self.children@.len() {
                lemma_flatten_skip_front(cs, self.current as int);
            } else {
                assert(cs.skip(self.current as int) =~= Seq::<Seq<EntryView>>::empty());
            }
        }
        self.children[self.current].key()
    }

    fn value(&self) -> (r: &ValueRecord) {
        proof {
            let cs = children_remaining(self.children@);
            if self.current < self.children@.len() {
                lemma_flatten_skip_front(cs, self.current as int);
            } else {
                assert(cs.skip(self.current as int) =~= Seq::<Seq<EntryView>>::empty());
            }
        }
        self.children[self.current].value()
    }

    fn next(&mut self) -> (r: Result<()>) {
        let ghost cs = children_remaining(self.children@);
        if self.current < self.children.len() {
            let c = self.current;
            let r = self.children[c].next();
            if r.is_err() {
                self.skip_empty();
                return r;
            }
            proof {
                lemma_flatten_skip_front(cs, c as int);
                let cs2 = children_remaining(self.children@);
                assert(cs2 =~= cs.update(c as int, cs[c as int].drop_first()));
                lemma_flatten_skip_front(cs2, c as int);
                assert(cs2.skip(c + 1) =~= cs.skip(c + 1));
                assert(cs[c as int] =~= seq![cs[c as int][0]] + cs[c as int].drop_first());
                assert(cs2.skip(c as int).flatten() =~= cs.skip(c as int).flatten().drop_first());
            }
            self.skip_empty();
        } else {
            assert(cs.skip(self.current as int) =~= Seq::<Seq<EntryView>>::empty());
        }
        Ok(())
    }

    fn seek(&mut self, key: &InternalKey) -> (r: Result<()>) {
        let ghost orig = self.children@;
        let mut i: usize = 0;
        assert(orig == old(self).children@);
        while i < self.children.len()
            invariant
                orig == old(self).children@,
                i <= self.children@.len(),
                self.children@.len() == orig.len(),
                forall|j: int| 0 <= j < self.children@.len() ==> #[trigger] self.children@[j].inv(),
                forall|j: int| 0 <= j < i ==> #[trigger] self.children@[j].remaining().len() == 0,
                forall|j: int| i <= j < self.children@.len() ==> #[trigger] self.children@[j] == orig[j],
                concat_after_seek(orig, 0, key@) == concat_after_seek(orig, i as int, key@),
                (forall|j: int| 0 <= j < orig.len() ==> #[trigger] orig[j].infallible()) ==> forall|j: int|
                    0 <= j < self.children@.len() ==> #[trigger] self.children@[j].infallible(),
            decreases self.children@.len() - i,
        {
            let ghost before = self.children@;
            let r = self.children[i].seek(key);
            if r.is_err() {
                proof {
                    assert(!before[i as int].infallible());
                }
                self.current = i;
                self.skip_empty();
                return r;
            }
            if self.children[i].is_valid() {
                self.current = i;
                proof {
                    let cs = children_remaining(self.children@);
                    lemma_flatten_skip_front(cs, i as int);
                    assert(cs.skip(i + 1) =~= children_remaining(orig).skip(i + 1));
                }
                return Ok(());
            }
            i = i + 1;
        }
        self.current = i;
        assert(children_remaining(self.children@).skip(i as int) =~= Seq::<Seq<EntryView>>::empty());
        Ok(())
    }
}

} // verus!
