//! A compaction job: input files of one level and the overlapping files of the next.
use vstd::prelude::*;

use crate::version::{duplicate_metas, metas_view, FileMeta};

verus! {

/// Files of `input_level` to merge into `output_level`, with the files of the output
/// level that overlap them and the user-key range they span.
#[derive(Debug, Clone)]
pub struct CompactionTask {
    pub input_level: usize,
    pub output_level: usize,
    pub input_files: Vec<FileMeta>,
    pub overlap_files: Vec<FileMeta>,
    pub smallest_user_key: Vec<u8>,
    pub largest_user_key: Vec<u8>,
    pub is_manual: bool,
}

impl CompactionTask {
    /// The input files, then the overlapping files.
    pub fn all_input_files(&self) -> (r: Vec<FileMeta>)
        ensures
            metas_view(r@) == metas_view(self.input_files@) + metas_view(self.overlap_files@),
    {
        let mut out = duplicate_metas(self.input_files.as_slice());
        let mut rest = duplicate_metas(self.overlap_files.as_slice());
        let ghost a = out@;
        let ghost b = rest@;
        out.append(&mut rest);
        assert(metas_view(out@) =~= metas_view(a) + metas_view(b));
        out
    }

    /// A task that can move its single input file down a level without rewriting it.
    pub fn is_trivial_move(&self) -> (r: bool)
        ensures
            r == (self.input_level > 0 && self.input_files@.len() == 1 && self.overlap_files@.len() == 0),
    {
        self.input_level > 0 && self.input_files.len() == 1 && self.overlap_files.len() == 0
    }
}

} // verus!
