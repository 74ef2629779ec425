//! Choosing what to compact: the files a manual compaction of a key range takes, the
//! files a level compaction takes, and the files of the next level they overlap.
use vstd::prelude::*;

use crate::bound::{above_lower, below_upper, BoundView, KeyBound};
use crate::compact::task::CompactionTask;
use crate::key::{bytes_le, bytes_less, lemma_bytes_le_transitive, lemma_bytes_lt_total};
use crate::version::{duplicate_metas, metas_view, spec_user_key_overlaps, FileMeta, FileMetaView};

verus! {

/// Whether a file's user keys reach into `[lower, upper]`: its largest key is above the
/// lower bound and its smallest below the upper one.
pub open spec fn spec_file_overlaps_range(m: FileMetaView, lower: BoundView, upper: BoundView) -> bool {
    above_lower(m.3.0, lower) && below_upper(m.2.0, upper)
}

/// Whether `file` overlaps the user-key range `[lower, upper]`.
pub fn file_overlaps_range(file: &FileMeta, lower: &KeyBound, upper: &KeyBound) -> (r: bool)
    ensures
        r == spec_file_overlaps_range(file@, lower@, upper@),
{
    let lower_ok = match lower {
        KeyBound::Included(b) => !bytes_less(file.largest.user_key(), b.as_slice()),
        KeyBound::Excluded(b) => bytes_less(b.as_slice(), file.largest.user_key()),
        KeyBound::Unbounded => true,
    };
    let upper_ok = match upper {
        KeyBound::Included(b) => !bytes_less(b.as_slice(), file.smallest.user_key()),
        KeyBound::Excluded(b) => bytes_less(file.smallest.user_key(), b.as_slice()),
        KeyBound::Unbounded => true,
    };
    lower_ok && upper_ok
}

/// `k` is the least of the smallest user keys of `files`.
pub open spec fn is_least_smallest(files: Seq<FileMetaView>, k: Seq<u8>) -> bool {
    &&& exists|i: int| 0 <= i < files.len() && (#[trigger] files[i]).2.0 == k
    &&& forall|i: int| 0 <= i < files.len() ==> bytes_le(k, (#[trigger] files[i]).2.0)
}

/// `k` is the greatest of the largest user keys of `files`.
pub open spec fn is_greatest_largest(files: Seq<FileMetaView>, k: Seq<u8>) -> bool {
    &&& exists|i: int| 0 <= i < files.len() && (#[trigger] files[i]).3.0 == k
    &&& forall|i: int| 0 <= i < files.len() ==> bytes_le((#[trigger] files[i]).3.0, k)
}

/// The user-key range a set of files spans: the least smallest key and the greatest
/// largest key.
pub fn user_key_range(files: &[FileMeta]) -> (r: (Vec<u8>, Vec<u8>))
    requires
        files@.len() > 0,
    ensures
        is_least_smallest(metas_view(files@), r.0@),
        is_greatest_largest(metas_view(files@), r.1@),
{
    let ghost ms = metas_view(files@);
    let mut lo: &[u8] = files[0].smallest.user_key();
    let mut hi: &[u8] = files[0].largest.user_key();
    assert(ms[0].2.0 == lo@);
    assert(ms[0].3.0 == hi@);
    let mut i: usize = 1;
    while i < files.len()
        invariant
            1 <= i <= files@.len(),
            ms == metas_view(files@),
            exists|j: int| 0 <= j < i && (#[trigger] ms[j]).2.0 == lo@,
            forall|j: int| 0 <= j < i ==> bytes_le(lo@, (#[trigger] ms[j]).2.0),
            exists|j: int| 0 <= j < i && (#[trigger] ms[j]).3.0 == hi@,
            forall|j: int| 0 <= j < i ==> bytes_le((#[trigger] ms[j]).3.0, hi@),
        decreases files@.len() - i,
    {
        let s = files[i].smallest.user_key();
        let l = files[i].largest.user_key();
        assert(ms[i as int].2.0 == s@ && ms[i as int].3.0 == l@);
        if bytes_less(s, lo) {
            proof {
                assert forall|j: int| 0 <= j < i + 1 implies bytes_le(s@, (#[trigger] ms[j]).2.0) by {
                    if j < i {
                        lemma_bytes_le_transitive(s@, lo@, ms[j].2.0);
                    }
                }
            }
            lo = s;
        } else {
            proof {
                lemma_bytes_lt_total(lo@, s@);
            }
        }
        if bytes_less(hi, l) {
            proof {
                assert forall|j: int| 0 <= j < i + 1 implies bytes_le((#[trigger] ms[j]).3.0, l@) by {
                    if j < i {
                        lemma_bytes_le_transitive(ms[j].3.0, hi@, l@);
                    }
                }
            }
            hi = l;
        } else {
            proof {
                lemma_bytes_lt_total(hi@, l@);
            }
        }
        i = i + 1;
    }
    (vstd::slice::slice_to_vec(lo), vstd::slice::slice_to_vec(hi))
}

/// The files of `s` whose user keys overlap `[lo, hi]`, in order.
pub open spec fn overlapping(s: Seq<FileMetaView>, lo: Seq<u8>, hi: Seq<u8>) -> Seq<FileMetaView>
    decreases s.len(),
{
    if s.len() == 0 {
        Seq::empty()
    } else if spec_user_key_overlaps(s.last(), lo, hi) {
        overlapping(s.drop_last(), lo, hi).push(s.last())
    } else {
        overlapping(s.drop_last(), lo, hi)
    }
}

/// The files of `s` that overlap the range `[lower, upper]`, in order.
pub open spec fn files_in_range(s: Seq<FileMetaView>, lower: BoundView, upper: BoundView) -> Seq<FileMetaView>
    decreases s.len(),
{
    if s.len() == 0 {
        Seq::empty()
    } else if spec_file_overlaps_range(s.last(), lower, upper) {
        files_in_range(s.drop_last(), lower, upper).push(s.last())
    } else {
        files_in_range(s.drop_last(), lower, upper)
    }
}

/// The abstract value of the files of each level.
pub open spec fn levels_view(levels: Seq<Vec<FileMeta>>) -> Seq<Seq<FileMetaView>> {
    levels.map_values(|l: Vec<FileMeta>| metas_view(l@))
}

/// The level a compaction of `input_level` writes to: the next one, but no deeper than
/// the last level.
pub open spec fn output_level_for(input_level: nat, n_levels: nat) -> nat {
    let last = if n_levels >= 1 { (n_levels - 1) as nat } else { 0 };
    if input_level + 1 <= last { input_level + 1 } else { last }
}

/// `t` compacts `inputs` of `input_level` into the output level, together with the files
/// of the output level that overlap the inputs' user-key range.
pub open spec fn is_task_for(
    t: CompactionTask,
    levels: Seq<Seq<FileMetaView>>,
    input_level: nat,
    inputs: Seq<FileMetaView>,
    is_manual: bool,
) -> bool {
    &&& t.input_level == input_level
    &&& t.output_level == output_level_for(input_level, levels.len())
    &&& metas_view(t.input_files@) == inputs
    &&& is_least_smallest(inputs, t.smallest_user_key@)
    &&& is_greatest_largest(inputs, t.largest_user_key@)
    &&& metas_view(t.overlap_files@) == if t.output_level < levels.len() {
        overlapping(levels[t.output_level as int], t.smallest_user_key@, t.largest_user_key@)
    } else {
        Seq::empty()
    }
    &&& t.is_manual == is_manual
}

/// The files of `s` that overlap `[lo, hi]`.
fn collect_overlapping(s: &[FileMeta], lo: &[u8], hi: &[u8]) -> (r: Vec<FileMeta>)
    ensures
        metas_view(r@) == overlapping(metas_view(s@), lo@, hi@),
{
    let ghost ms = metas_view(s@);
    let mut out: Vec<FileMeta> = Vec::new();
    let mut i: usize = 0;
    assert(ms.subrange(0, 0) =~= Seq::<FileMetaView>::empty());
    assert(metas_view(out@) =~= Seq::<FileMetaView>::empty());
    while i < s.len()
        invariant
            i <= s@.len(),
            ms == metas_view(s@),
            metas_view(out@) == overlapping(ms.subrange(0, i as int), lo@, hi@),
        decreases s@.len() - i,
    {
        let ghost pre = ms.subrange(0, i + 1);
        assert(pre.drop_last() =~= ms.subrange(0, i as int));
        assert(pre.last() == s@[i as int]@);
        if s[i].user_key_overlaps_range(lo, hi) {
            let ghost before = out@;
            out.push(s[i].duplicate());
            assert(metas_view(out@) =~= metas_view(before).push(s@[i as int]@));
        }
        i = i + 1;
    }
    assert(ms.subrange(0, s@.len() as int) =~= ms);
    out
}

/// The task that compacts `input_files` of `input_level` into the next level.
pub fn task_for_files(levels: &[Vec<FileMeta>], input_level: usize, input_files: Vec<FileMeta>, is_manual: bool) -> (t: CompactionTask)
    requires
        input_files@.len() > 0,
        input_level < usize::MAX,
    ensures
        is_task_for(t, levels_view(levels@), input_level as nat, metas_view(input_files@), is_manual),
{
    let last = if levels.len() >= 1 { levels.len() - 1 } else { 0 };
    let output_level = if input_level + 1 <= last { input_level + 1 } else { last };
    let (smallest_user_key, largest_user_key) = user_key_range(input_files.as_slice());
    let overlap_files = if output_level < levels.len() {
        collect_overlapping(levels[output_level].as_slice(), smallest_user_key.as_slice(), largest_user_key.as_slice())
    } else {
        Vec::new()
    };
    let t = CompactionTask {
        input_level,
        output_level,
        input_files,
        overlap_files,
        smallest_user_key,
        largest_user_key,
        is_manual,
    };
    proof {
        if output_level < levels@.len() {
            assert(levels_view(levels@)[output_level as int] == metas_view(levels@[output_level as int]@));
        } else {
            assert(metas_view(t.overlap_files@) =~= Seq::<FileMetaView>::empty());
        }
    }
    t
}

/// The files of `s` that overlap `[lower, upper]`.
fn collect_in_range(s: &[FileMeta], lower: &KeyBound, upper: &KeyBound) -> (r: Vec<FileMeta>)
    ensures
        metas_view(r@) == files_in_range(metas_view(s@), lower@, upper@),
{
    let ghost ms = metas_view(s@);
    let mut out: Vec<FileMeta> = Vec::new();
    let mut i: usize = 0;
    assert(ms.subrange(0, 0) =~= Seq::<FileMetaView>::empty());
    assert(metas_view(out@) =~= Seq::<FileMetaView>::empty());
    while i < s.len()
        invariant
            i <= s@.len(),
            ms == metas_view(s@),
            metas_view(out@) == files_in_range(ms.subrange(0, i as int), lower@, upper@),
        decreases s@.len() - i,
    {
        let ghost pre = ms.subrange(0, i + 1);
        assert(pre.drop_last() =~= ms.subrange(0, i as int));
        assert(pre.last() == s@[i as int]@);
        if file_overlaps_range(&s[i], lower, upper) {
            let ghost before = out@;
            out.push(s[i].duplicate());
            assert(metas_view(out@) =~= metas_view(before).push(s@[i as int]@));
        }
        i = i + 1;
    }
    assert(ms.subrange(0, s@.len() as int) =~= ms);
    out
}

/// A manual compaction of level 0: every level-0 file overlapping `[lower, upper]`, if
/// there is one.
pub fn pick_l0_manual(l0_files: &[FileMeta], levels: &[Vec<FileMeta>], lower: &KeyBound, upper: &KeyBound) -> (r: Option<CompactionTask>)
    ensures
        ({
            let files = files_in_range(metas_view(l0_files@), lower@, upper@);
            if files.len() == 0 {
                r is None
            } else {
                r matches Some(t) && is_task_for(t, levels_view(levels@), 0, files, true)
            }
        }),
{
    let files = collect_in_range(l0_files, lower, upper);
    if files.len() == 0 {
        return None;
    }
    Some(task_for_files(levels, 0, files, true))
}

/// The first file of `s` that overlaps `[lower, upper]`.
pub open spec fn first_in_range(s: Seq<FileMetaView>, lower: BoundView, upper: BoundView) -> Option<FileMetaView>
    decreases s.len(),
{
    if s.len() == 0 {
        None
    } else if spec_file_overlaps_range(s[0], lower, upper) {
        Some(s[0])
    } else {
        first_in_range(s.drop_first(), lower, upper)
    }
}

/// The first level from `level` on, before the last level, with a file overlapping
/// `[lower, upper]`, and that level's first such file.
pub open spec fn manual_pick_from(levels: Seq<Seq<FileMetaView>>, level: nat, lower: BoundView, upper: BoundView) -> Option<(nat, FileMetaView)>
    decreases levels.len() - level,
{
    if level + 1 >= levels.len() {
        None
    } else {
        match first_in_range(levels[level as int], lower, upper) {
            Some(f) => Some((level, f)),
            None => manual_pick_from(levels, level + 1, lower, upper),
        }
    }
}

/// The first file of `s` that overlaps `[lower, upper]`.
fn find_in_range(s: &[FileMeta], lower: &KeyBound, upper: &KeyBound) -> (r: Option<FileMeta>)
    ensures
        match first_in_range(metas_view(s@), lower@, upper@) {
            Some(f) => r matches Some(m) && m@ == f,
            None => r is None,
        },
{
    let ghost ms = metas_view(s@);
    let mut i: usize = 0;
    assert(ms.skip(0) =~= ms);
    while i < s.len()
        invariant
            i <= s@.len(),
            ms == metas_view(s@),
            first_in_range(ms, lower@, upper@) == first_in_range(ms.skip(i as int), lower@, upper@),
        decreases s@.len() - i,
    {
        assert(ms.skip(i as int)[0] == s@[i as int]@);
        if file_overlaps_range(&s[i], lower, upper) {
            return Some(s[i].duplicate());
        }
        assert(ms.skip(i as int).drop_first() =~= ms.skip(i + 1));
        i = i + 1;
    }
    None
}

/// A manual compaction of `[lower, upper]`: the overlapping level-0 files if any;
/// otherwise the first overlapping file of the first level, from level 1 and before the
/// last, that has one.
pub fn pick_manual(l0_files: &[FileMeta], levels: &[Vec<FileMeta>], lower: &KeyBound, upper: &KeyBound) -> (r: Option<CompactionTask>)
    ensures
        ({
            let files = files_in_range(metas_view(l0_files@), lower@, upper@);
            if files.len() > 0 {
                r matches Some(t) && is_task_for(t, levels_view(levels@), 0, files, true)
            } else {
                match manual_pick_from(levels_view(levels@), 1, lower@, upper@) {
                    Some((level, f)) => r matches Some(t) && is_task_for(t, levels_view(levels@), level, seq![f], true),
                    None => r is None,
                }
            }
        }),
{
    match pick_l0_manual(l0_files, levels, lower, upper) {
        Some(t) => return Some(t),
        None => {},
    }
    let ghost lv = levels_view(levels@);
    let mut level: usize = 1;
    while levels.len() > 0 && level < levels.len() - 1
        invariant
            1 <= level,
            lv == levels_view(levels@),
            levels@.len() > 0 ==> level <= levels@.len(),
            files_in_range(metas_view(l0_files@), lower@, upper@).len() == 0,
            manual_pick_from(lv, 1, lower@, upper@) == manual_pick_from(lv, level as nat, lower@, upper@),
        decreases levels@.len() - level,
    {
        assert(lv[level as int] == metas_view(levels@[level as int]@));
        match find_in_range(levels[level].as_slice(), lower, upper) {
            Some(file) => {
                let ghost f = file@;
                assert(first_in_range(lv[level as int], lower@, upper@) == Some(f));
                assert(manual_pick_from(lv, level as nat, lower@, upper@) == Some((level as nat, f)));
                let inputs = vec![file];
                assert(metas_view(inputs@) =~= seq![f]);
                let t = task_for_files(levels, level, inputs, true);
                return Some(t);
            },
            None => {},
        }
        level = level + 1;
    }
    None
}

/// The task of a level compaction of `level`: all level-0 files for level 0, otherwise
/// the level's first file; `None` when there is no such file.
pub fn pick_level(l0_files: &[FileMeta], levels: &[Vec<FileMeta>], level: usize, is_manual: bool) -> (r: Option<CompactionTask>)
    requires
        level < usize::MAX,
    ensures
        level == 0 ==> if l0_files@.len() == 0 {
            r is None
        } else {
            r matches Some(t) && is_task_for(t, levels_view(levels@), 0, metas_view(l0_files@), is_manual)
        },
        level > 0 ==> if level < levels@.len() && levels@[level as int]@.len() > 0 {
            r matches Some(t) && is_task_for(t, levels_view(levels@), level as nat, seq![levels@[level as int]@[0]@], is_manual)
        } else {
            r is None
        },
{
    if level == 0 {
        if l0_files.len() == 0 {
            return None;
        }
        let files = duplicate_metas(l0_files);
        assert(metas_view(files@).len() == files@.len());
        return Some(task_for_files(levels, 0, files, is_manual));
    }
    if level >= levels.len() || levels[level].len() == 0 {
        return None;
    }
    let inputs = vec![levels[level][0].duplicate()];
    assert(metas_view(inputs@) =~= seq![levels@[level as int]@[0]@]);
    Some(task_for_files(levels, level, inputs, is_manual))
}

} // verus!
