//! Output-path derivation: the fixed books and build directories
//! under a root, and the mapper from a source-relative path to the
//! output path that mirrors it.

use vstd::prelude::*;
use vstd::string::*;

use crate::errors::BuildError;
use crate::text::has_prefix;
use crate::text::join_path;
use crate::text::joined;
use crate::text::has_suffix;
use crate::text::basename_of;
use crate::text::lemma_basename_of_concat;
use crate::text::lemma_last_dot_at;
use crate::text::lemma_last_dot_pos_range;
use crate::text::lemma_last_slash_pos_range;
use crate::text::lemma_stem_nonempty;
use crate::text::lemma_stem_of_html;
use crate::text::rewrite_to_html;
use crate::text::stem_of;
use crate::text::to_html_name;
use crate::text::str_has_prefix;

verus! {

/// The fixed books subdirectory under a root.
pub fn get_books_dir(root: &str) -> (r: String)
    ensures
        r@ == joined(root@, "src"@),
{
    join_path(root, "src")
}

/// The fixed build-output directory under a root.
pub fn get_build_dir(root: &str) -> (r: String)
    ensures
        r@ == joined(root@, "build"@),
{
    join_path(root, "build")
}

/// Where a source path rooted under `src_root` is written under
/// `out_root`: the same relative structure, with the final
/// component's extension turned into `.html`. `None` iff the path is
/// not rooted under `src_root`.
pub open spec fn mapped_path(p: Seq<char>, src_root: Seq<char>, out_root: Seq<char>) -> Option<
    Seq<char>,
> {
    if has_prefix(p, src_root + "/"@) {
        Some(out_root + to_html_name(p.skip(src_root.len() as int)))
    } else {
        None
    }
}

/// The output path a rooted source path is referenced by; an unrooted
/// path, which no well-formed tree produces, stands for itself.
pub open spec fn href_of(p: Seq<char>, src_root: Seq<char>, out_root: Seq<char>) -> Seq<char> {
    match mapped_path(p, src_root, out_root) {
        Some(q) => q,
        None => p,
    }
}

/// Maps `source_path`, which must lie under `source_root`, to the
/// mirrored path under `output_root`, changing the file's extension
/// to `.html`. A path not rooted under `source_root` is refused with
/// a path error naming it.
pub fn map_source_to_output(source_path: &str, source_root: &str, output_root: &str) -> (r: Result<
    String,
    BuildError,
>)
    ensures
        match r {
            Ok(q) => mapped_path(source_path@, source_root@, output_root@) == Some(q@),
            Err(e) => {
                &&& mapped_path(source_path@, source_root@, output_root@) is None
                &&& e matches BuildError::Path(p) && p@ == source_path@
            },
        },
{
    let mut prefix = source_root.to_owned();
    prefix.append("/");
    if str_has_prefix(source_path, prefix.as_str()) {
        let n = source_root.unicode_len();
        let m = source_path.unicode_len();
        let rest = source_path.substring_char(n, m);
        proof {
            assert(rest@ =~= source_path@.skip(source_root@.len() as int));
        }
        let mapped_rest = rewrite_to_html(rest);
        let mut out = output_root.to_owned();
        out.append(mapped_rest.as_str());
        Ok(out)
    } else {
        Err(BuildError::Path(source_path.to_owned()))
    }
}

/// On every source path rooted under `src_root` the mapper is total
/// and structure preserving: the result lies under `out_root`, its
/// relative part is the source's relative part with only the final
/// component's extension rewritten, and it always carries the HTML
/// extension.
pub proof fn lemma_mapper_total(p: Seq<char>, s: Seq<char>, o: Seq<char>)
    requires
        has_prefix(p, s + "/"@),
    ensures
        mapped_path(p, s, o) == Some(href_of(p, s, o)),
        has_prefix(href_of(p, s, o), o + "/"@),
        href_of(p, s, o).skip(o.len() as int) == to_html_name(p.skip(s.len() as int)),
        has_suffix(href_of(p, s, o), ".html"@),
{
    reveal_strlit("/");
    reveal_strlit(".html");
    let rest = p.skip(s.len() as int);
    assert(rest[0] == (s + "/"@)[s.len() as int]);
    assert(rest[0] == '/');
    let bn = basename_of(rest);
    lemma_last_slash_pos_range(rest);
    assert(bn.len() < rest.len());
    let q = o + to_html_name(rest);
    assert(href_of(p, s, o) == q);
    assert(to_html_name(rest)[0] == rest.subrange(0, rest.len() - bn.len())[0]);
    assert(to_html_name(rest)[0] == '/');
    assert(q.subrange(0, (o + "/"@).len() as int) =~= o + "/"@);
    assert(q.skip(o.len() as int) =~= to_html_name(rest));
    assert(q.subrange(q.len() - 5, q.len() as int) =~= ".html"@);
}

/// The mapper is idempotent on its own output: a mapped path,
/// re-mapped from the output root onto itself, comes back unchanged.
/// A source path naming a directory rather than a file (one ending in
/// the separator) is left out: its empty final component gains a bare
/// `.html` component instead.
pub proof fn lemma_mapper_idempotent(p: Seq<char>, s: Seq<char>, o: Seq<char>)
    requires
        has_prefix(p, s + "/"@),
        basename_of(p.skip(s.len() as int)).len() > 0,
    ensures
        mapped_path(href_of(p, s, o), o, o) == Some(href_of(p, s, o)),
{
    reveal_strlit("/");
    reveal_strlit(".html");
    lemma_mapper_total(p, s, o);
    let rest = p.skip(s.len() as int);
    let bn = basename_of(rest);
    let q = href_of(p, s, o);
    assert(rest[0] == (s + "/"@)[s.len() as int]);
    assert(rest[0] == '/');
    lemma_last_slash_pos_range(rest);
    assert(bn.len() < rest.len());
    let dir = rest.subrange(0, rest.len() - bn.len());
    assert(dir.len() > 0);
    assert(dir[dir.len() - 1] == '/');
    lemma_stem_nonempty(bn);
    let t = stem_of(bn);
    lemma_last_dot_pos_range(bn);
    assert(forall|j: int| 0 <= j < bn.len() ==> bn[j] != '/');
    assert(forall|j: int| 0 <= j < t.len() ==> t[j] != '/');
    assert(forall|j: int| 0 <= j < (t + ".html"@).len() ==> (t + ".html"@)[j] != '/');
    assert(to_html_name(rest) =~= dir + (t + ".html"@));
    lemma_basename_of_concat(dir, t + ".html"@);
    lemma_stem_of_html(t);
    let rest2 = q.skip(o.len() as int);
    assert(rest2 == to_html_name(rest));
    assert(basename_of(rest2) == t + ".html"@);
    assert(rest2.subrange(0, rest2.len() - (t + ".html"@).len()) =~= dir);
    assert(to_html_name(rest2) =~= rest2);
    assert(o + rest2 =~= q);
}

/// The marker file's name maps to the fixed output index name.
pub proof fn lemma_marker_maps_to_index()
    ensures
        to_html_name("README.md"@) == "README.html"@,
{
    reveal_strlit("README.md");
    reveal_strlit("README.html");
    reveal_strlit(".html");
    let m = "README.md"@;
    assert(forall|j: int| 0 <= j < m.len() ==> m[j] != '/');
    lemma_last_slash_pos_range(m);
    assert(basename_of(m) == m);
    assert(m[6] == '.');
    assert(forall|j: int| 6 < j < m.len() ==> m[j] != '.');
    lemma_last_dot_at(m, 6);
    assert(stem_of(m) =~= m.subrange(0, 6));
    assert(m.subrange(0, m.len() - m.len()) =~= Seq::<char>::empty());
    assert(to_html_name(m) =~= "README.html"@);
}

} // verus!
