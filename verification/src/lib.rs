//! A small static-site builder for trees of markdown "books".
//!
//! A book is a directory that directly contains a marker file
//! (`README.md`); the builder discovers a tree of such directories,
//! loads each book's chapters, maps every source path to an output
//! path, and renders markdown and templates into HTML pages.
//!
//! All filesystem reading and writing lives outside this library: the
//! directory tree and the file contents are handed in as values, and
//! the pages to write come back as values.

use vstd::prelude::*;

pub mod book;
pub mod classify;
pub mod errors;
pub mod paths;
pub mod render;
pub mod summary;
pub mod text;

verus! {

/// A file of the source tree, as a value: its base name and its text.
#[derive(Debug, Clone, PartialEq)]
pub struct FileEntry {
    pub name: String,
    pub content: String,
}

/// A directory of the source tree, as a value: its base name, its
/// files and its subdirectories, each in directory-listing order.
#[derive(Debug, PartialEq)]
pub struct Dir {
    pub name: String,
    pub files: Vec<FileEntry>,
    pub dirs: Vec<Dir>,
}

/// The nesting depth of a sequence of directories: 0 when empty, else
/// one more than the deepest subdirectory tree.
pub open spec fn dirs_height(dirs: Seq<Dir>) -> nat
    decreases dirs,
{
    if dirs.len() == 0 {
        0
    } else {
        let h0 = 1 + dirs_height(dirs[0].dirs@);
        let hr = dirs_height(dirs.drop_first());
        if h0 > hr {
            h0
        } else {
            hr
        }
    }
}

} // verus!
