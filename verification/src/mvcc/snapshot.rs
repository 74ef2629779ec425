//! A snapshot registered with a watermark for as long as it is held.
use vstd::prelude::*;

use crate::mvcc::watermark::Watermark;

verus! {

/// A read sequence held in a [`Watermark`]: creating or duplicating one adds a holder,
/// releasing it removes one.
#[derive(Debug)]
pub struct Snapshot {
    read_seq: u64,
}

impl Snapshot {
    pub closed spec fn spec_read_seq(&self) -> u64 {
        self.read_seq
    }

    /// Takes a snapshot at `read_seq` and registers it.
    pub fn new(read_seq: u64, watermark: &mut Watermark) -> (s: Self)
        requires
            old(watermark).wf(),
            old(watermark).counts().dom().contains(read_seq) ==> old(watermark).counts()[read_seq] < usize::MAX,
        ensures
            s.spec_read_seq() == read_seq,
            final(watermark).wf(),
            final(watermark).counts() == old(watermark).counts().insert(
                read_seq,
                if old(watermark).counts().dom().contains(read_seq) { old(watermark).counts()[read_seq] + 1 } else { 1 },
            ),
    {
        watermark.add(read_seq);
        Snapshot { read_seq }
    }

    pub fn read_seq(&self) -> (r: u64)
        ensures
            r == self.spec_read_seq(),
    {
        self.read_seq
    }

    /// A second snapshot at the same sequence, registered in its own right.
    pub fn duplicate(&self, watermark: &mut Watermark) -> (s: Self)
        requires
            old(watermark).wf(),
            old(watermark).counts().dom().contains(self.spec_read_seq()) ==> old(watermark).counts()[self.spec_read_seq()] < usize::MAX,
        ensures
            s.spec_read_seq() == self.spec_read_seq(),
            final(watermark).wf(),
            final(watermark).counts() == old(watermark).counts().insert(
                self.spec_read_seq(),
                if old(watermark).counts().dom().contains(self.spec_read_seq()) {
                    old(watermark).counts()[self.spec_read_seq()] + 1
                } else {
                    1
                },
            ),
    {
        Snapshot::new(self.read_seq, watermark)
    }

    /// Gives the snapshot up, removing its holder from the watermark.
    pub fn release(self, watermark: &mut Watermark)
        requires
            old(watermark).wf(),
        ensures
            final(watermark).wf(),
            final(watermark).counts() == if !old(watermark).counts().dom().contains(self.spec_read_seq()) {
                old(watermark).counts()
            } else if old(watermark).counts()[self.spec_read_seq()] == 1 {
                old(watermark).counts().remove(self.spec_read_seq())
            } else {
                old(watermark).counts().insert(self.spec_read_seq(), (old(watermark).counts()[self.spec_read_seq()] - 1) as nat)
            },
    {
        watermark.remove(self.read_seq);
    }
}

} // verus!
