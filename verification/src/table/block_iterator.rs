use vstd::prelude::*;

use crate::error::{Error, Result};
use crate::key::{internal_key_less, InternalKey};
use crate::memtable::{copy_entries, entries_view, lower_bound, EntryView, ValueRecord};
use crate::table::block::{spec_block_error, spec_decode_block, Block};

verus! {

/// A cursor over the entries of one decoded block.
#[derive(Debug)]
pub struct BlockIterator {
    entries: Vec<(InternalKey, ValueRecord)>,
    index: usize,
}

impl BlockIterator {
    /// The entries of the block.
    pub closed spec fn all(&self) -> Seq<EntryView> {
        entries_view(self.entries@)
    }

    /// The position of the cursor.
    pub closed spec fn position(&self) -> nat {
        self.index as nat
    }

    pub closed spec fn wf(&self) -> bool {
        self.index <= self.entries@.len()
    }

    pub fn new(bytes: Vec<u8>) -> (r: Result<Self>)
        ensures
            match spec_decode_block(bytes@) {
                Some(es) => r matches Ok(it) && it.wf() && it.all() == es && it.position() == 0,
                None => r matches Err(Error::Corruption(m)) && m@ == spec_block_error(bytes@),
            },
    {
        let block = match Block::decode(bytes.as_slice()) {
            Ok(b) => b,
            Err(e) => return Err(e),
        };
        Ok(BlockIterator { entries: copy_entries(block.entries()), index: 0 })
    }

    pub fn seek_to_first(&mut self)
        ensures
            final(self).all() == old(self).all(),
            final(self).wf(),
            final(self).position() == 0,
    {
        self.index = 0;
    }

    /// Moves to the first entry whose key is not below `target`.
    pub fn seek(&mut self, target: &InternalKey) -> (r: Result<()>)
        ensures
            r is Ok,
            final(self).all() == old(self).all(),
            final(self).wf(),
            final(self).position() == lower_bound(old(self).all(), target@),
    {
        let ghost s = self.all();
        let mut i: usize = 0;
        assert(s.skip(0) =~= s);
        while i < self.entries.len() && internal_key_less(&self.entries[i].0, target)
            invariant
                s == self.all(),
                i <= s.len(),
                lower_bound(s, target@) == i + lower_bound(s.skip(i as int), target@),
            decreases s.len() - i,
        {
            proof {
                assert(s.skip(i as int).drop_first() =~= s.skip(i + 1));
            }
            i = i + 1;
        }
        proof {
            if i < s.len() {
                assert(s.skip(i as int)[0] == s[i as int]);
            }
        }
        self.index = i;
        Ok(())
    }

    pub fn next(&mut self) -> (r: Result<()>)
        requires
            old(self).wf(),
        ensures
            r is Ok,
            final(self).all() == old(self).all(),
            final(self).wf(),
            final(self).position() == if old(self).position() < old(self).all().len() {
                old(self).position() + 1
            } else {
                old(self).position()
            },
    {
        if self.index < self.entries.len() {
            self.index = self.index + 1;
        }
        Ok(())
    }

    pub fn is_valid(&self) -> (r: bool)
        ensures
            r == (self.position() < self.all().len()),
    {
        self.index < self.entries.len()
    }

    pub fn key(&self) -> (r: Option<&InternalKey>)
        ensures
            match r {
                Some(k) => self.position() < self.all().len() && k@ == self.all()[self.position() as int].0,
                None => self.position() >= self.all().len(),
            },
    {
        if self.index < self.entries.len() {
            Some(&self.entries[self.index].0)
        } else {
            None
        }
    }

    pub fn value(&self) -> (r: Option<&ValueRecord>)
        ensures
            match r {
                Some(v) => self.position() < self.all().len() && v@ == self.all()[self.position() as int].1,
                None => self.position() >= self.all().len(),
            },
    {
        if self.index < self.entries.len() {
            Some(&self.entries[self.index].1)
        } else {
            None
        }
    }
}

} // verus!
