//! How files are opened for writing, and what the `CURRENT` file holds: the name of the
//! live manifest and a newline.
use vstd::prelude::*;
use vstd::string::StrSliceExecFns;
use vstd::string::StringExecFns;

use crate::error::{corruption, Error, Result};

verus! {

/// How a file is opened for writing.
#[derive(Debug, Clone, Copy, PartialEq, Eq, Structural)]
pub struct WritableFileOptions {
    pub create: bool,
    pub truncate: bool,
    pub append: bool,
    pub read: bool,
}

impl WritableFileOptions {
    /// Create the file, or truncate it if it exists.
    pub fn create() -> (r: Self)
        ensures
            r == (WritableFileOptions { create: true, truncate: true, append: false, read: false }),
    {
        WritableFileOptions { create: true, truncate: true, append: false, read: false }
    }

    /// Create the file if needed and append to it, readable as well.
    pub fn append() -> (r: Self)
        ensures
            r == (WritableFileOptions { create: true, truncate: false, append: true, read: true }),
    {
        WritableFileOptions { create: true, truncate: false, append: true, read: true }
    }
}

/// The contents `CURRENT` gets when it names `manifest_name`.
pub fn current_file_contents(manifest_name: &str) -> (r: String)
    ensures
        r@ == manifest_name@ + "\n"@,
{
    let mut s = String::from_str(manifest_name);
    s.append("\n");
    s
}

/// The number of line-break characters (`\r` or `\n`) that `s` ends with.
pub open spec fn trailing_breaks(s: Seq<char>) -> nat
    decreases s.len(),
{
    if s.len() > 0 && (s.last() == '\r' || s.last() == '\n') {
        1 + trailing_breaks(s.drop_last())
    } else {
        0
    }
}

/// `s` without the line-break characters it ends with.
pub open spec fn trim_breaks(s: Seq<char>) -> Seq<char> {
    s.subrange(0, s.len() - trailing_breaks(s))
}

proof fn lemma_trailing_breaks_len(s: Seq<char>)
    ensures
        trailing_breaks(s) <= s.len(),
    decreases s.len(),
{
    if s.len() > 0 {
        lemma_trailing_breaks_len(s.drop_last());
    }
}

/// What `CURRENT` is written with reads back as the manifest name it names, when that
/// name is not empty and does not end in a line break.
pub proof fn lemma_current_roundtrip(name: Seq<char>)
    requires
        name.len() > 0,
        name.last() != '\r',
        name.last() != '\n',
    ensures
        trim_breaks(name + "\n"@) == name,
{
    reveal_strlit("\n");
    let c = name + "\n"@;
    assert(c.drop_last() =~= name);
    assert(trailing_breaks(name) == 0);
    assert(c.subrange(0, c.len() - 1) =~= name);
}

/// The manifest name `CURRENT` holds: its contents without trailing line breaks,
/// which must leave something.
pub fn manifest_name_from_current(contents: &str) -> (r: Result<String>)
    ensures
        trim_breaks(contents@).len() == 0 ==> r matches Err(Error::Corruption(_)),
        trim_breaks(contents@).len() > 0 ==> (r matches Ok(name) && name@ == trim_breaks(contents@)),
{
    let len = contents.unicode_len();
    let mut end: usize = len;
    proof {
        assert(contents@.subrange(0, len as int) =~= contents@);
    }
    while end > 0 && (contents.get_char(end - 1) == '\r' || contents.get_char(end - 1) == '\n')
        invariant
            len == contents@.len(),
            end <= len,
            trailing_breaks(contents@) == (len - end) + trailing_breaks(contents@.subrange(0, end as int)),
        decreases end,
    {
        let ghost pre = contents@.subrange(0, end as int);
        assert(pre.drop_last() =~= contents@.subrange(0, end - 1));
        end = end - 1;
    }
    proof {
        lemma_trailing_breaks_len(contents@);
        let pre = contents@.subrange(0, end as int);
        if end > 0 {
            assert(pre.last() == contents@[end - 1]);
        }
        assert(trailing_breaks(pre) == 0);
    }
    if end == 0 {
        return Err(corruption("CURRENT is empty"));
    }
    let name = contents.substring_char(0, end);
    Ok(String::from_str(name))
}

} // verus!
