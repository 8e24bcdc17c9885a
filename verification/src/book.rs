//! Loading a single book: the immediate files of a book directory
//! become its chapters, in directory-listing order, leaving out
//! hidden files and the marker file.

use vstd::prelude::*;
use vstd::string::*;

use crate::Dir;
use crate::FileEntry;
use crate::classify::chapter_file;
use crate::classify::is_hidden;
use crate::classify::is_hidden_name;
use crate::classify::is_marker_name;
use crate::text::base_name;
use crate::text::basename_of;
use crate::text::eq_icase;
use crate::text::file_stem;
use crate::text::join_path;
use crate::text::joined;
use crate::text::last_dot_pos;
use crate::text::lemma_last_dot_pos_range;
use crate::text::stem_of;
use crate::text::str_eq;
use crate::text::str_eq_icase;

verus! {

/// One content file of a book: the file's stem and its path.
#[derive(Debug, Clone, PartialEq)]
pub struct Chapter {
    /// The chapter's name, the stem of its file's name.
    pub name: String,
    /// The chapter's location, rooted as the book's root is.
    pub path: String,
}

/// A loaded book: its name, the path of its directory, and its
/// chapters in directory-listing order.
#[derive(Debug, Clone, PartialEq)]
pub struct Book {
    pub name: String,
    pub root: String,
    pub chapters: Vec<Chapter>,
}

/// The files of a listing that become chapters, in order.
pub open spec fn kept_files(files: Seq<FileEntry>) -> Seq<FileEntry>
    decreases files.len(),
{
    if files.len() == 0 {
        Seq::empty()
    } else if chapter_file(files[0]) {
        seq![files[0]] + kept_files(files.drop_first())
    } else {
        kept_files(files.drop_first())
    }
}

/// What one chapter record must say about the file it stands for.
pub open spec fn chapter_ok(f: FileEntry, dir_path: Seq<char>, c: Chapter) -> bool {
    c.name@ == stem_of(f.name@) && c.path@ == joined(dir_path, f.name@)
}

/// The chapters `cs` are exactly the surviving files of `files`, one
/// each and in directory-listing order.
pub open spec fn chapters_ok(files: Seq<FileEntry>, dir_path: Seq<char>, cs: Seq<Chapter>) -> bool {
    &&& cs.len() == kept_files(files).len()
    &&& forall|i: int|
        0 <= i < cs.len() ==> chapter_ok(kept_files(files)[i], dir_path, #[trigger] cs[i])
}

proof fn lemma_kept_files_snoc(files: Seq<FileEntry>, f: FileEntry)
    ensures
        kept_files(files.push(f)) == if chapter_file(f) {
            kept_files(files).push(f)
        } else {
            kept_files(files)
        },
    decreases files.len(),
{
    if files.len() == 0 {
        assert(files.push(f)[0] == f);
        assert(files.push(f).drop_first() =~= Seq::<FileEntry>::empty());
        assert(kept_files(Seq::<FileEntry>::empty()) =~= Seq::<FileEntry>::empty());
        assert(kept_files(files) =~= Seq::<FileEntry>::empty());
        if chapter_file(f) {
            assert(kept_files(files.push(f)) =~= kept_files(files).push(f));
        } else {
            assert(kept_files(files.push(f)) =~= kept_files(files));
        }
    } else {
        lemma_kept_files_snoc(files.drop_first(), f);
        assert(files.push(f)[0] == files[0]);
        assert(files.push(f).drop_first() =~= files.drop_first().push(f));
        if chapter_file(f) {
            if chapter_file(files[0]) {
                assert(kept_files(files.push(f)) =~= kept_files(files).push(f));
            }
        }
    }
}

/// Loads the book whose directory sits at `src_dir` and whose
/// immediate listing is `listing`: every file that is not hidden and
/// whose stem is not the marker stem becomes a chapter.
pub fn load_book(src_dir: &str, listing: &Dir) -> (b: Book)
    ensures
        b.root@ == src_dir@,
        b.name@ == stem_of(basename_of(src_dir@)),
        chapters_ok(listing.files@, src_dir@, b.chapters@),
{
    let mut chapters: Vec<Chapter> = Vec::new();
    let n = listing.files.len();
    let mut i: usize = 0;
    proof {
        assert(listing.files@.subrange(0, 0) =~= Seq::<FileEntry>::empty());
    }
    while i < n
        invariant
            i <= n,
            n == listing.files@.len(),
            chapters_ok(listing.files@.subrange(0, i as int), src_dir@, chapters@),
        decreases n - i,
    {
        let fname = listing.files[i].name.as_str();
        let stem = file_stem(fname);
        if !is_hidden(fname) && !str_eq_icase(stem, "readme") {
            let c = Chapter { name: stem.to_owned(), path: join_path(src_dir, fname) };
            proof {
                lemma_kept_files_snoc(listing.files@.subrange(0, i as int), listing.files@[i as int]);
                assert(listing.files@.subrange(0, i + 1 as int) =~= listing.files@.subrange(
                    0,
                    i as int,
                ).push(listing.files@[i as int]));
            }
            chapters.push(c);
        } else {
            proof {
                lemma_kept_files_snoc(listing.files@.subrange(0, i as int), listing.files@[i as int]);
                assert(listing.files@.subrange(0, i + 1 as int) =~= listing.files@.subrange(
                    0,
                    i as int,
                ).push(listing.files@[i as int]));
            }
        }
        i = i + 1;
    }
    proof {
        assert(listing.files@.subrange(0, n as int) =~= listing.files@);
    }
    let name = file_stem(base_name(src_dir)).to_owned();
    Book { name, root: src_dir.to_owned(), chapters }
}

/// Every surviving file really is a chapter file.
proof fn lemma_kept_files_all(files: Seq<FileEntry>)
    ensures
        forall|i: int| 0 <= i < kept_files(files).len() ==> chapter_file(#[trigger] kept_files(files)[i]),
    decreases files.len(),
{
    if files.len() > 0 {
        lemma_kept_files_all(files.drop_first());
        if chapter_file(files[0]) {
            assert forall|i: int| 0 <= i < kept_files(files).len() implies chapter_file(
                #[trigger] kept_files(files)[i],
            ) by {
                if i > 0 {
                    assert(kept_files(files)[i] == kept_files(files.drop_first())[i - 1]);
                }
            }
        }
    }
}

/// A nonempty stem starts as its name does, so the stem of a
/// non-hidden name is not hidden-looking.
proof fn lemma_stem_keeps_hidden(s: Seq<char>)
    requires
        is_hidden_name(stem_of(s)),
    ensures
        is_hidden_name(s),
{
    lemma_last_dot_pos_range(s);
    match last_dot_pos(s) {
        Some(i) => {
            if i > 0 {
                assert(stem_of(s) == s.subrange(0, i));
                assert(s.subrange(0, i)[0] == s[0]);
            }
        },
        None => {},
    }
}

/// No chapter of a loaded book stands for a hidden file or for the
/// marker file: a chapter's name never looks hidden and never matches
/// the marker stem, in any ASCII letter case.
pub proof fn lemma_chapters_clean(files: Seq<FileEntry>, dir_path: Seq<char>, cs: Seq<Chapter>)
    requires
        chapters_ok(files, dir_path, cs),
    ensures
        forall|i: int|
            0 <= i < cs.len() ==> !is_hidden_name((#[trigger] cs[i]).name@) && !eq_icase(
                cs[i].name@,
                "readme"@,
            ),
{
    lemma_kept_files_all(files);
    assert forall|i: int| 0 <= i < cs.len() implies !is_hidden_name((#[trigger] cs[i]).name@)
        && !eq_icase(cs[i].name@, "readme"@) by {
        let f = kept_files(files)[i];
        assert(chapter_file(f));
        assert(cs[i].name@ == stem_of(f.name@));
        if is_hidden_name(cs[i].name@) {
            lemma_stem_keeps_hidden(f.name@);
        }
    }
}

/// The text of the marker file of a listing, if one is there: the
/// content of the first file named exactly as the marker.
pub open spec fn marker_text(files: Seq<FileEntry>) -> Option<Seq<char>>
    decreases files.len(),
{
    if files.len() == 0 {
        None
    } else if is_marker_name(files[0].name@) {
        Some(files[0].content@)
    } else {
        marker_text(files.drop_first())
    }
}

/// Finds the marker file's text in a book directory's listing.
pub fn find_marker_text(listing: &Dir) -> (r: Option<String>)
    ensures
        match r {
            Some(t) => marker_text(listing.files@) == Some(t@),
            None => marker_text(listing.files@) is None,
        },
{
    let n = listing.files.len();
    let mut i: usize = 0;
    proof {
        assert(listing.files@.skip(0) =~= listing.files@);
    }
    while i < n
        invariant
            i <= n,
            n == listing.files@.len(),
            marker_text(listing.files@) == marker_text(listing.files@.skip(i as int)),
        decreases n - i,
    {
        proof {
            assert(listing.files@.skip(i as int)[0] == listing.files@[i as int]);
            assert(listing.files@.skip(i as int).drop_first() =~= listing.files@.skip(i + 1 as int));
        }
        if str_eq(listing.files[i].name.as_str(), "README.md") {
            return Some(listing.files[i].content.clone());
        }
        i = i + 1;
    }
    None
}

/// The chapters' texts of a book directory's listing: the content of
/// each surviving file, in order.
pub fn chapter_texts(listing: &Dir) -> (ts: Vec<String>)
    ensures
        ts@.len() == kept_files(listing.files@).len(),
        forall|i: int|
            0 <= i < ts@.len() ==> (#[trigger] ts@[i])@ == kept_files(listing.files@)[i].content@,
{
    let mut ts: Vec<String> = Vec::new();
    let n = listing.files.len();
    let mut i: usize = 0;
    proof {
        assert(listing.files@.subrange(0, 0) =~= Seq::<FileEntry>::empty());
    }
    while i < n
        invariant
            i <= n,
            n == listing.files@.len(),
            ts@.len() == kept_files(listing.files@.subrange(0, i as int)).len(),
            forall|j: int|
                0 <= j < ts@.len() ==> (#[trigger] ts@[j])@ == kept_files(
                    listing.files@.subrange(0, i as int),
                )[j].content@,
        decreases n - i,
    {
        let fname = listing.files[i].name.as_str();
        if !is_hidden(fname) && !str_eq_icase(file_stem(fname), "readme") {
            ts.push(listing.files[i].content.clone());
        }
        proof {
            lemma_kept_files_snoc(listing.files@.subrange(0, i as int), listing.files@[i as int]);
            assert(listing.files@.subrange(0, i + 1 as int) =~= listing.files@.subrange(
                0,
                i as int,
            ).push(listing.files@[i as int]));
        }
        i = i + 1;
    }
    proof {
        assert(listing.files@.subrange(0, n as int) =~= listing.files@);
    }
    ts
}

impl Chapter {
    /// Creates a chapter record from its parts.
    pub fn new(name: &str, path: String) -> (c: Chapter)
        ensures
            c.name@ == name@,
            c.path == path,
    {
        Chapter { name: name.to_owned(), path }
    }
}

/// An iterator over the chapters of a book, in order.
pub struct BookItems<'a> {
    items: Vec<&'a Chapter>,
}

impl<'a> BookItems<'a> {
    /// The chapters still to be yielded, in order.
    pub closed spec fn remaining(&self) -> Seq<Chapter> {
        self.items@.map_values(|c: &Chapter| *c)
    }

    /// Yields the next chapter.
    pub fn next(&mut self) -> (r: Option<&'a Chapter>)
        ensures
            match r {
                Some(c) => {
                    &&& old(self).remaining().len() > 0
                    &&& *c == old(self).remaining()[0]
                    &&& final(self).remaining() == old(self).remaining().drop_first()
                },
                None => old(self).remaining().len() == 0 && final(self).remaining().len() == 0,
            },
    {
        if self.items.len() == 0 {
            return None;
        }
        let c = self.items.remove(0);
        proof {
            assert(self.items@ =~= old(self).items@.drop_first());
            assert(self.remaining() =~= old(self).remaining().drop_first());
        }
        Some(c)
    }
}

impl Book {
    /// Creates an empty book.
    pub fn new() -> (b: Book)
        ensures
            b.name@.len() == 0,
            b.root@.len() == 0,
            b.chapters@.len() == 0,
    {
        Book { name: String::new(), root: String::new(), chapters: Vec::new() }
    }

    /// An iterator over the book's chapters, in order.
    pub fn iter(&self) -> (it: BookItems)
        ensures
            it.remaining() == self.chapters@,
    {
        let mut v: Vec<&Chapter> = Vec::new();
        let n = self.chapters.len();
        let mut i: usize = 0;
        while i < n
            invariant
                i <= n,
                n == self.chapters@.len(),
                v@.len() == i,
                forall|j: int| 0 <= j < i ==> *(#[trigger] v@[j]) == self.chapters@[j],
            decreases n - i,
        {
            v.push(&self.chapters[i]);
            i = i + 1;
        }
        let it = BookItems { items: v };
        proof {
            assert(it.remaining() =~= self.chapters@);
        }
        it
    }
}

} // verus!
