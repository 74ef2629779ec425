//! A cursor over a table that reads one block at a time.
use vstd::prelude::*;

use std::sync::Arc;

use crate::error::Result;
use crate::iterator::storage_iterator::StorageIterator;
use crate::key::{ikey_lt, internal_key_less, InternalKey, InternalKeyView};
use crate::memtable::{entries_view, lower_bound, EntryView};
use crate::memtable::btree::ValueRecord;
use crate::table::block::Block;
use crate::table::builder::{index_view, IndexEntry, IndexEntryView};
use crate::table::reader::{read_decoded_block, spec_block_entries, spec_table_entries_from, SSTableReader};
use crate::util::shared::share;

verus! {

/// The entries of the blocks of `idx` from the `i`-th on, up to the first block that
/// cannot be read: what a block-by-block cursor hands out before it fails.
pub open spec fn entries_until_error(file: Seq<u8>, idx: Seq<IndexEntryView>, i: int) -> Seq<EntryView>
    decreases idx.len() - i,
{
    if i < 0 || i >= idx.len() {
        Seq::empty()
    } else {
        match spec_block_entries(file, idx[i].2) {
            None => Seq::empty(),
            Some(es) => es + entries_until_error(file, idx, i + 1),
        }
    }
}

/// The first block from the `i`-th on that holds entries, with its entries; `None` when
/// the blocks run out, or a block that cannot be read comes first.
pub open spec fn first_nonempty_block(file: Seq<u8>, idx: Seq<IndexEntryView>, i: int) -> Option<(int, Seq<EntryView>)>
    decreases idx.len() - i,
{
    if i < 0 || i >= idx.len() {
        None
    } else {
        match spec_block_entries(file, idx[i].2) {
            None => None,
            Some(es) => if es.len() > 0 {
                Some((i, es))
            } else {
                first_nonempty_block(file, idx, i + 1)
            },
        }
    }
}

/// The first index entry from the `i`-th on whose last key is not below `key`.
pub open spec fn first_block_reaching(idx: Seq<IndexEntryView>, key: InternalKeyView, i: int) -> int
    decreases idx.len() - i,
{
    if i < 0 || i >= idx.len() {
        idx.len() as int
    } else if ikey_lt(idx[i].1, key) {
        first_block_reaching(idx, key, i + 1)
    } else {
        i
    }
}

proof fn lemma_until_error_unfold(file: Seq<u8>, idx: Seq<IndexEntryView>, i: int)
    requires
        0 <= i,
    ensures
        entries_until_error(file, idx, i) == match first_nonempty_block(file, idx, i) {
            None => Seq::<EntryView>::empty(),
            Some((j, es)) => es + entries_until_error(file, idx, j + 1),
        },
        first_nonempty_block(file, idx, i) matches Some((j, es)) ==> i <= j < idx.len()
            && spec_block_entries(file, idx[j].2) == Some(es) && es.len() > 0,
    decreases idx.len() - i,
{
    if i < idx.len() {
        match spec_block_entries(file, idx[i].2) {
            None => {},
            Some(es) => {
                if es.len() == 0 {
                    lemma_until_error_unfold(file, idx, i + 1);
                    assert(es + entries_until_error(file, idx, i + 1) =~= entries_until_error(file, idx, i + 1));
                }
            },
        }
    }
}

proof fn lemma_readable_from(file: Seq<u8>, idx: Seq<IndexEntryView>, i: int)
    requires
        0 <= i,
        spec_table_entries_from(file, idx, 0) is Some,
    ensures
        spec_table_entries_from(file, idx, i) is Some,
        entries_until_error(file, idx, i) == spec_table_entries_from(file, idx, i).unwrap(),
        i < idx.len() ==> spec_block_entries(file, idx[i].2) is Some,
    decreases i, idx.len() - i,
{
    if i > 0 {
        lemma_readable_from(file, idx, i - 1);
    }
    lemma_until_error_matches(file, idx, i);
}

proof fn lemma_until_error_matches(file: Seq<u8>, idx: Seq<IndexEntryView>, i: int)
    requires
        0 <= i,
        spec_table_entries_from(file, idx, i) is Some,
    ensures
        entries_until_error(file, idx, i) == spec_table_entries_from(file, idx, i).unwrap(),
        i < idx.len() ==> spec_block_entries(file, idx[i].2) is Some,
    decreases idx.len() - i,
{
    if i < idx.len() {
        lemma_until_error_matches(file, idx, i + 1);
    }
}

proof fn lemma_first_block_reaching_bound(idx: Seq<IndexEntryView>, key: InternalKeyView, i: int)
    requires
        0 <= i <= idx.len(),
    ensures
        i <= first_block_reaching(idx, key, i) <= idx.len(),
    decreases idx.len() - i,
{
    if i < idx.len() {
        lemma_first_block_reaching_bound(idx, key, i + 1);
    }
}

/// The first index entry whose last key is not below `key`.
fn first_reaching(idx: &[IndexEntry], key: &InternalKey) -> (r: usize)
    ensures
        r == first_block_reaching(index_view(idx@), key@, 0),
        r <= idx@.len(),
{
    let ghost v = index_view(idx@);
    let mut b: usize = 0;
    while b < idx.len() && internal_key_less(&idx[b].last_key, key)
        invariant
            v == index_view(idx@),
            b <= idx@.len(),
            first_block_reaching(v, key@, 0) == first_block_reaching(v, key@, b as int),
        decreases idx@.len() - b,
    {
        assert(v[b as int].1 == idx@[b as int].last_key@);
        b = b + 1;
    }
    proof {
        if b < idx@.len() {
            assert(v[b as int].1 == idx@[b as int].last_key@);
        }
    }
    b
}

/// The position of the first entry not below `key`.
fn position_of(es: &[(InternalKey, ValueRecord)], key: &InternalKey) -> (r: usize)
    ensures
        r == lower_bound(entries_view(es@), key@),
        r <= es@.len(),
{
    let ghost s = entries_view(es@);
    let mut i: usize = 0;
    assert(s.skip(0) =~= s);
    while i < es.len() && internal_key_less(&es[i].0, key)
        invariant
            s == entries_view(es@),
            i <= s.len(),
            lower_bound(s, key@) == i + lower_bound(s.skip(i as int), key@),
        decreases s.len() - i,
    {
        proof {
            assert(s.skip(i as int).drop_first() =~= s.skip(i + 1));
            assert(s.skip(i as int)[0] == s[i as int]);
        }
        i = i + 1;
    }
    proof {
        if i < s.len() {
            assert(s.skip(i as int)[0] == s[i as int]);
        }
    }
    i
}

/// A cursor over the entries of a table that reads one block at a time.
#[derive(Debug)]
pub struct SSTableStorageIterator {
    table: Arc<SSTableReader>,
    block_index: usize,
    current_block: Option<Block>,
    entry_index: usize,
}

impl SSTableStorageIterator {
    /// The table the cursor reads.
    pub closed spec fn table(&self) -> SSTableReader {
        *self.table
    }

    /// Loads the first block from `index` on that holds entries, or ends the cursor when
    /// there is none.
    fn load_block_at(&mut self, index: usize) -> (r: Result<()>)
        requires
            old(self).table.wf(),
        ensures
            final(self).table == old(self).table,
            final(self).inv(),
            r is Ok ==> final(self).remaining() == entries_until_error(old(self).table.image(), old(self).table.index_entries(), index as int),
            r is Ok ==> match first_nonempty_block(old(self).table.image(), old(self).table.index_entries(), index as int) {
                None => final(self).current_block is None,
                Some((j, es)) => final(self).current_block matches Some(b) && b@ == es && final(self).block_index == j
                    && final(self).entry_index == 0,
            },
            spec_table_entries_from(old(self).table.image(), old(self).table.index_entries(), 0) is Some ==> r is Ok,
    {
        let ghost file = self.table.image();
        let ghost idx = self.table.index_entries();
        self.block_index = index;
        self.current_block = None;
        self.entry_index = 0;
        proof {
            if spec_table_entries_from(file, idx, 0) is Some {
                lemma_readable_from(file, idx, index as int);
            }
        }
        while self.block_index < self.table.index_list().len()
            invariant
                self.table == old(self).table,
                self.table.wf(),
                file == self.table.image(),
                idx == self.table.index_entries(),
                index <= self.block_index,
                self.current_block is None,
                self.entry_index == 0,
                first_nonempty_block(file, idx, index as int) == first_nonempty_block(file, idx, self.block_index as int),
                spec_table_entries_from(file, idx, 0) is Some ==> spec_table_entries_from(file, idx, self.block_index as int) is Some,
            decreases idx.len() - self.block_index,
        {
            let handle = self.table.index_list()[self.block_index].handle;
            assert(idx[self.block_index as int].2 == handle);
            proof {
                if spec_table_entries_from(file, idx, 0) is Some {
                    lemma_readable_from(file, idx, self.block_index as int);
                    lemma_readable_from(file, idx, self.block_index + 1);
                }
            }
            let block = read_decoded_block(self.table.image_bytes(), handle)?;
            if block.entries().len() > 0 {
                self.current_block = Some(block);
                proof {
                    let b = self.block_index as int;
                    assert(first_nonempty_block(file, idx, b) == Some((b, block@)));
                    lemma_until_error_unfold(file, idx, index as int);
                    assert(block@.skip(0) =~= block@);
                }
                return Ok(());
            }
            self.block_index = self.block_index + 1;
        }
        proof {
            lemma_until_error_unfold(file, idx, index as int);
        }
        Ok(())
    }
}

impl StorageIterator for SSTableStorageIterator {
    closed spec fn remaining(&self) -> Seq<EntryView> {
        match self.current_block {
            Some(b) => b@.skip(self.entry_index as int) + entries_until_error(self.table.image(), self.table.index_entries(), self.block_index + 1),
            None => Seq::empty(),
        }
    }

    closed spec fn after_seek(&self, key: InternalKeyView) -> Seq<EntryView> {
        let file = self.table.image();
        let idx = self.table.index_entries();
        match first_nonempty_block(file, idx, first_block_reaching(idx, key, 0)) {
            None => Seq::empty(),
            Some((j, es)) => es.skip(lower_bound(es, key) as int) + entries_until_error(file, idx, j + 1),
        }
    }

    closed spec fn inv(&self) -> bool {
        &&& self.table.wf()
        &&& self.current_block matches Some(b) ==> {
            &&& self.block_index < self.table.index_entries().len()
            &&& spec_block_entries(self.table.image(), self.table.index_entries()[self.block_index as int].2) == Some(b@)
            &&& self.entry_index < b@.len()
        }
    }

    closed spec fn infallible(&self) -> bool {
        spec_table_entries_from(self.table.image(), self.table.index_entries(), 0) is Some
    }

    fn is_valid(&self) -> (r: bool) {
        match &self.current_block {
            Some(b) => self.entry_index < b.entries().len(),
            None => false,
        }
    }

    fn key(&self) -> (r: &InternalKey) {
        match &self.current_block {
            Some(b) => &b.entries()[self.entry_index].0,
            None => vstd::pervasive::unreached(),
        }
    }

    fn value(&self) -> (r: &ValueRecord) {
        match &self.current_block {
            Some(b) => &b.entries()[self.entry_index].1,
            None => vstd::pervasive::unreached(),
        }
    }

    fn next(&mut self) -> (r: Result<()>) {
        if !self.is_valid() {
            return Ok(());
        }
        // The index fits in memory, so the next block number does too.
        let _index_len = self.table.index_list().len();
        let len = match &self.current_block {
            Some(b) => b.entries().len(),
            None => 0,
        };
        let ghost b = self.current_block.unwrap()@;
        let ghost rest = entries_until_error(self.table.image(), self.table.index_entries(), self.block_index + 1);
        self.entry_index = self.entry_index + 1;
        if self.entry_index >= len {
            let next_block = self.block_index + 1;
            proof {
                assert(old(self).remaining() == b.skip(b.len() - 1) + rest);
                assert(b.skip(b.len() - 1) =~= seq![b[b.len() - 1]]);
                assert((seq![b[b.len() - 1]] + rest).drop_first() =~= rest);
            }
            return self.load_block_at(next_block);
        }
        proof {
            assert(b.skip(self.entry_index - 1).drop_first() =~= b.skip(self.entry_index as int));
            assert(old(self).remaining().drop_first() =~= self.remaining());
        }
        Ok(())
    }

    fn seek(&mut self, key: &InternalKey) -> (r: Result<()>) {
        let ghost file = self.table.image();
        let ghost idx = self.table.index_entries();
        let _index_len = self.table.index_list().len();
        let b = first_reaching(self.table.index_list(), key);
        match self.load_block_at(b) {
            Err(e) => return Err(e),
            Ok(()) => {},
        }
        let (i, len) = match &self.current_block {
            None => {
                return Ok(());
            },
            Some(block) => (position_of(block.entries(), key), block.entries().len()),
        };
        let ghost s = self.current_block.unwrap()@;
        let ghost j = self.block_index as int;
        assert(first_nonempty_block(file, idx, b as int) == Some((j, s)));
        if i >= len {
            let next_block = self.block_index + 1;
            let r = self.load_block_at(next_block);
            proof {
                let rest = entries_until_error(file, idx, next_block as int);
                assert(s.skip(i as int) + rest =~= rest);
            }
            return r;
        }
        self.entry_index = i;
        Ok(())
    }
}

impl SSTableReader {
    /// A cursor over `table`'s entries that reads one block at a time; it holds all of
    /// them when every block of the table can be read.
    pub fn storage_iter(table: &Arc<SSTableReader>) -> (r: Result<SSTableStorageIterator>)
        requires
            table.wf(),
        ensures
            r matches Ok(it) ==> it.inv() && it.table() == **table
                && it.remaining() == entries_until_error(table.image(), table.index_entries(), 0),
            spec_table_entries_from(table.image(), table.index_entries(), 0) matches Some(es) ==> (r matches Ok(it)
                && it.infallible() && it.remaining() == es),
    {
        let mut it = SSTableStorageIterator { table: share(table), block_index: 0, current_block: None, entry_index: 0 };
        proof {
            if spec_table_entries_from(table.image(), table.index_entries(), 0) is Some {
                lemma_readable_from(table.image(), table.index_entries(), 0);
            }
        }
        match it.load_block_at(0) {
            Err(e) => Err(e),
            Ok(()) => Ok(it),
        }
    }
}

} // verus!
