//! A read view fixed at one sequence number.
use vstd::prelude::*;

verus! {

/// Reads through a snapshot see exactly the writes with sequence numbers up to `read_seq`.
#[derive(Debug, Clone, Copy, PartialEq, Eq, Structural)]
pub struct Snapshot {
    read_seq: u64,
}

impl Snapshot {
    pub(crate) fn new(read_seq: u64) -> (s: Self)
        ensures
            s.spec_read_seq() == read_seq,
    {
        Snapshot { read_seq }
    }

    pub closed spec fn spec_read_seq(&self) -> u64 {
        self.read_seq
    }

    pub fn read_seq(&self) -> (r: u64)
        ensures
            r == self.spec_read_seq(),
    {
        self.read_seq
    }
}

} // verus!
