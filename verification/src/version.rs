//! What the engine records about each table file.
use vstd::prelude::*;

use crate::key::{bytes_le, bytes_less, bytes_lt, lemma_bytes_lt_total, lemma_bytes_lt_irreflexive, lemma_bytes_lt_asymmetric, InternalKey, InternalKeyView};

verus! {

/// A table file: its number and size, its smallest and largest internal keys, and the
/// range of sequence numbers it holds.
#[derive(Debug, Clone)]
pub struct FileMeta {
    pub number: u64,
    pub file_size: u64,
    pub smallest: InternalKey,
    pub largest: InternalKey,
    pub smallest_seq: u64,
    pub largest_seq: u64,
}

/// The abstract value of a [`FileMeta`].
pub type FileMetaView = (u64, u64, InternalKeyView, InternalKeyView, u64, u64);

impl View for FileMeta {
    type V = FileMetaView;

    open spec fn view(&self) -> FileMetaView {
        (self.number, self.file_size, self.smallest@, self.largest@, self.smallest_seq, self.largest_seq)
    }
}

/// The abstract values of a list of file descriptions.
pub open spec fn metas_view(s: Seq<FileMeta>) -> Seq<FileMetaView> {
    s.map_values(|m: FileMeta| m@)
}

/// Whether the user keys of a file overlap `[smallest, largest]`.
pub open spec fn spec_user_key_overlaps(m: FileMetaView, smallest: Seq<u8>, largest: Seq<u8>) -> bool {
    bytes_le(m.2.0, largest) && bytes_le(smallest, m.3.0)
}

/// `a <= b` exactly when not `b < a`.
pub proof fn lemma_le_iff_not_lt(a: Seq<u8>, b: Seq<u8>)
    ensures
        bytes_le(a, b) <==> !bytes_lt(b, a),
{
    lemma_bytes_lt_total(a, b);
    lemma_bytes_lt_irreflexive(a);
    if bytes_lt(a, b) {
        lemma_bytes_lt_asymmetric(a, b);
    }
}

impl FileMeta {
    /// A copy of this description.
    pub fn duplicate(&self) -> (r: Self)
        ensures
            r@ == self@,
    {
        FileMeta {
            number: self.number,
            file_size: self.file_size,
            smallest: self.smallest.duplicate(),
            largest: self.largest.duplicate(),
            smallest_seq: self.smallest_seq,
            largest_seq: self.largest_seq,
        }
    }

    /// Whether the file's user keys overlap `[smallest, largest]`.
    pub fn user_key_overlaps_range(&self, smallest: &[u8], largest: &[u8]) -> (r: bool)
        ensures
            r == spec_user_key_overlaps(self@, smallest@, largest@),
    {
        proof {
            lemma_le_iff_not_lt(self@.2.0, largest@);
            lemma_le_iff_not_lt(smallest@, self@.3.0);
        }
        !bytes_less(largest, self.smallest.user_key()) && !bytes_less(self.largest.user_key(), smallest)
    }

    /// Whether `user_key` lies between the file's smallest and largest user keys.
    pub fn overlaps_user_key(&self, user_key: &[u8]) -> (r: bool)
        ensures
            r == (bytes_le(self@.2.0, user_key@) && bytes_le(user_key@, self@.3.0)),
    {
        proof {
            lemma_le_iff_not_lt(self@.2.0, user_key@);
            lemma_le_iff_not_lt(user_key@, self@.3.0);
        }
        !bytes_less(user_key, self.smallest.user_key()) && !bytes_less(self.largest.user_key(), user_key)
    }
}

/// Copies a list of file descriptions.
pub fn duplicate_metas(s: &[FileMeta]) -> (r: Vec<FileMeta>)
    ensures
        metas_view(r@) == metas_view(s@),
{
    let mut out: Vec<FileMeta> = Vec::new();
    let mut i: usize = 0;
    while i < s.len()
        invariant
            i <= s@.len(),
            out@.len() == i,
            metas_view(out@) == metas_view(s@).subrange(0, i as int),
        decreases s@.len() - i,
    {
        let m = s[i].duplicate();
        let ghost before = out@;
        out.push(m);
        assert(out@ == before.push(m));
        i = i + 1;
        assert forall|k: int| 0 <= k < i implies #[trigger] metas_view(out@)[k] == metas_view(s@).subrange(0, i as int)[k] by {
            if k < i - 1 {
                assert(out@[k] == before[k]);
                assert(metas_view(before)[k] == metas_view(s@).subrange(0, i - 1)[k]);
            }
        }
        assert(metas_view(out@) =~= metas_view(s@).subrange(0, i as int));
    }
    assert(metas_view(s@).subrange(0, s@.len() as int) =~= metas_view(s@));
    out
}

} // verus!
