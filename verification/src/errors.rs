//! The failures a build can end in. Template failures come from the
//! templating collaborator; path failures mark an internal invariant
//! violation (a path claimed to lie under a root does not).

use vstd::prelude::*;

verus! {

/// Why a build step failed.
#[derive(Debug)]
pub enum BuildError {
    /// The templating collaborator refused the template or the data;
    /// the text is its report.
    Template(String),
    /// A source path was not rooted where its caller claimed; the
    /// text is that path.
    Path(String),
}

} // verus!
