//! Classification of directory entries: hidden names, the reserved
//! (ignored) directory name, and the book marker file.

use vstd::prelude::*;
use vstd::string::*;

use crate::Dir;
use crate::FileEntry;
use crate::text::eq_icase;
use crate::text::stem_of;
use crate::text::str_eq;

verus! {

/// A name is hidden when it starts with the hidden-entry marker `.`.
pub open spec fn is_hidden_name(name: Seq<char>) -> bool {
    name.len() > 0 && name[0] == '.'
}

/// True iff the entry name starts with `.`.
pub fn is_hidden(name: &str) -> (b: bool)
    ensures
        b == is_hidden_name(name@),
{
    if name.unicode_len() == 0 {
        false
    } else {
        name.get_char(0) == '.'
    }
}

/// True iff `name` is the reserved directory name for non-content
/// assets; such directories never become tree nodes.
pub fn is_ignored_name(name: &str) -> (b: bool)
    ensures
        b == (name@ == "assets"@),
{
    str_eq(name, "assets")
}

/// `name` is the marker file name whose presence makes a directory a
/// book.
pub open spec fn is_marker_name(name: Seq<char>) -> bool {
    name == "README.md"@
}

/// A directory is a book iff one of its files is the marker file.
pub open spec fn dir_is_book(d: Dir) -> bool {
    exists|i: int| 0 <= i < d.files@.len() && is_marker_name((#[trigger] d.files@[i]).name@)
}

/// True iff `dir` directly contains the book marker file.
pub fn is_book_marker(dir: &Dir) -> (b: bool)
    ensures
        b == dir_is_book(*dir),
{
    let n = dir.files.len();
    let mut i: usize = 0;
    while i < n
        invariant
            i <= n,
            n == dir.files@.len(),
            forall|j: int| 0 <= j < i ==> !is_marker_name((#[trigger] dir.files@[j]).name@),
        decreases n - i,
    {
        if str_eq(dir.files[i].name.as_str(), "README.md") {
            return true;
        }
        i = i + 1;
    }
    false
}

/// A directory entry survives the summary walk: it is not hidden and
/// its name is not the reserved assets name.
pub open spec fn keep_dir(d: Dir) -> bool {
    !is_hidden_name(d.name@) && d.name@ != "assets"@
}

/// A file of a book directory becomes a chapter: it is not hidden and
/// its stem is not the marker stem (compared without regard to ASCII
/// letter case).
pub open spec fn chapter_file(f: FileEntry) -> bool {
    !is_hidden_name(f.name@) && !eq_icase(stem_of(f.name@), "readme"@)
}

} // verus!
