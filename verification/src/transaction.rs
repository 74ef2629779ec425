//! Transaction handles as seen by callers of the engine.
use vstd::prelude::*;

verus! {

/// Options for a transaction.
#[derive(Debug, Clone, Copy, PartialEq, Eq, Structural)]
pub struct TransactionOptions {
    pub read_only: bool,
}

impl Default for TransactionOptions {
    fn default() -> (r: Self)
        ensures
            !r.read_only,
    {
        TransactionOptions { read_only: false }
    }
}

/// A transaction reading at a fixed sequence.
#[derive(Debug)]
pub struct Transaction {
    read_seq: u64,
}

impl Transaction {
    pub(crate) fn new(read_seq: u64) -> (t: Self)
        ensures
            t.spec_read_seq() == read_seq,
    {
        Transaction { read_seq }
    }

    pub closed spec fn spec_read_seq(&self) -> u64 {
        self.read_seq
    }

    pub fn read_seq(&self) -> (r: u64)
        ensures
            r == self.spec_read_seq(),
    {
        self.read_seq
    }
}

} // verus!
