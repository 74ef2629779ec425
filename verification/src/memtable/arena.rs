//! Shared byte buffers whose total size is tracked.
use vstd::prelude::*;

use std::sync::Arc;

use crate::util::shared::share;

verus! {

/// Bytes handed out by an [`Arena`], shared between the arena and the caller.
pub type ArenaBytes = Arc<Vec<u8>>;

/// Keeps every buffer it hands out and counts their bytes.
#[derive(Debug)]
pub struct Arena {
    chunks: Vec<ArenaBytes>,
    bytes: usize,
}

impl Arena {
    /// The buffers handed out so far, in order.
    pub closed spec fn chunks(&self) -> Seq<Seq<u8>> {
        self.chunks@.map_values(|c: ArenaBytes| c@)
    }

    /// The total size of the buffers handed out.
    pub closed spec fn spec_bytes(&self) -> nat {
        self.bytes as nat
    }

    pub fn new() -> (a: Self)
        ensures
            a.chunks() == Seq::<Seq<u8>>::empty(),
            a.spec_bytes() == 0,
    {
        let a = Arena { chunks: Vec::new(), bytes: 0 };
        assert(a.chunks() =~= Seq::<Seq<u8>>::empty());
        a
    }

    /// A shared copy of `bytes`, which the arena keeps too.
    pub fn allocate(&mut self, bytes: &[u8]) -> (r: ArenaBytes)
        requires
            old(self).spec_bytes() + bytes@.len() <= usize::MAX,
        ensures
            r@ == bytes@,
            final(self).chunks() == old(self).chunks().push(bytes@),
            final(self).spec_bytes() == old(self).spec_bytes() + bytes@.len(),
    {
        let owned: ArenaBytes = Arc::new(vstd::slice::slice_to_vec(bytes));
        self.bytes = self.bytes + owned.len();
        self.chunks.push(share(&owned));
        assert(self.chunks() =~= old(self).chunks().push(bytes@));
        owned
    }

    /// The total size of the buffers handed out.
    pub fn bytes(&self) -> (r: usize)
        ensures
            r == self.spec_bytes(),
    {
        self.bytes
    }
}

} // verus!
