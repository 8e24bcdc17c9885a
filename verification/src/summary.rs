//! Discovery of the book tree: walking a directory tree one level at
//! a time and turning every surviving subdirectory into a `Link`
//! node, annotated with its depth and its book/non-book status.

use vstd::prelude::*;
use vstd::string::*;

use crate::Dir;
use crate::classify::dir_is_book;
use crate::classify::is_book_marker;
use crate::classify::is_hidden;
use crate::classify::is_ignored_name;
use crate::classify::keep_dir;
use crate::dirs_height;
use crate::paths::get_books_dir;
use crate::text::file_stem;
use crate::text::has_prefix;
use crate::text::join_path;
use crate::text::joined;
use crate::text::lemma_joined_keeps_prefix;
use crate::text::lemma_joined_prefix;
use crate::text::stem_of;

verus! {

/// One node of the discovered tree: a single directory, its nesting
/// level (direct children of the books directory have level 0), and
/// whether it is itself a book.
#[derive(Debug, PartialEq)]
pub struct Link {
    /// The name of the node, the stem of its directory's name.
    pub name: String,
    /// Whether the directory directly contains the marker file.
    pub is_book: bool,
    /// The path of the directory, rooted as the walk's root was.
    pub path: String,
    /// The nesting level below the books directory.
    pub level: usize,
    /// The nodes of the subdirectories, in directory-listing order.
    pub nested_items: Vec<Link>,
}

/// The discovered tree: an optional title, the root it was discovered
/// under, and the top-level nodes in directory-listing order.
#[derive(Debug, PartialEq)]
pub struct Summary {
    pub title: Option<String>,
    pub root: String,
    pub items: Vec<Link>,
}

/// What one node must say about the directory it stands for.
pub open spec fn link_ok(d: Dir, level: nat, base: Seq<char>, l: Link) -> bool {
    &&& l.name@ == stem_of(d.name@)
    &&& l.level as nat == level
    &&& l.is_book == dir_is_book(d)
    &&& l.path@ == joined(base, d.name@)
}

/// The nodes `links` are exactly the walk of `dirs` at `level` under
/// the path `base`: hidden and reserved names are passed over, every
/// other directory yields one node, in order, whose children are the
/// walk of its subdirectories one level further down.
pub open spec fn links_ok(dirs: Seq<Dir>, level: nat, base: Seq<char>, links: Seq<Link>) -> bool
    decreases dirs,
{
    if dirs.len() == 0 {
        links.len() == 0
    } else if keep_dir(dirs[0]) {
        &&& links.len() > 0
        &&& link_ok(dirs[0], level, base, links[0])
        &&& links_ok(
            dirs[0].dirs@,
            level + 1,
            joined(base, dirs[0].name@),
            links[0].nested_items@,
        )
        &&& links_ok(dirs.drop_first(), level, base, links.drop_first())
    } else {
        links_ok(dirs.drop_first(), level, base, links)
    }
}

proof fn lemma_links_ok_snoc_keep(
    ds: Seq<Dir>,
    level: nat,
    base: Seq<char>,
    ls: Seq<Link>,
    d: Dir,
    l: Link,
)
    requires
        links_ok(ds, level, base, ls),
        keep_dir(d),
        link_ok(d, level, base, l),
        links_ok(d.dirs@, level + 1, joined(base, d.name@), l.nested_items@),
    ensures
        links_ok(ds.push(d), level, base, ls.push(l)),
    decreases ds.len(),
{
    if ds.len() == 0 {
        assert(ds.push(d)[0] == d);
        assert(ls.push(l)[0] == l);
        assert(ds.push(d).drop_first() =~= Seq::<Dir>::empty());
        assert(ls.push(l).drop_first() =~= Seq::<Link>::empty());
        assert(links_ok(ds.push(d).drop_first(), level, base, ls.push(l).drop_first()));
        assert(links_ok(ds.push(d), level, base, ls.push(l)));
    } else {
        assert(ds.push(d)[0] == ds[0]);
        assert(ds.push(d).drop_first() =~= ds.drop_first().push(d));
        if keep_dir(ds[0]) {
            assert(ls.len() > 0 && link_ok(ds[0], level, base, ls[0]) && links_ok(
                ds[0].dirs@,
                level + 1,
                joined(base, ds[0].name@),
                ls[0].nested_items@,
            ) && links_ok(ds.drop_first(), level, base, ls.drop_first()));
            assert(ls.push(l)[0] == ls[0]);
            assert(ls.push(l).drop_first() =~= ls.drop_first().push(l));
            lemma_links_ok_snoc_keep(ds.drop_first(), level, base, ls.drop_first(), d, l);
            assert(links_ok(ds.push(d), level, base, ls.push(l)));
        } else {
            assert(links_ok(ds.drop_first(), level, base, ls));
            lemma_links_ok_snoc_keep(ds.drop_first(), level, base, ls, d, l);
            assert(links_ok(ds.push(d), level, base, ls.push(l)));
        }
    }
}

proof fn lemma_links_ok_snoc_skip(ds: Seq<Dir>, level: nat, base: Seq<char>, ls: Seq<Link>, d: Dir)
    requires
        links_ok(ds, level, base, ls),
        !keep_dir(d),
    ensures
        links_ok(ds.push(d), level, base, ls),
    decreases ds.len(),
{
    if ds.len() == 0 {
        assert(ds.push(d)[0] == d);
        assert(ds.push(d).drop_first() =~= Seq::<Dir>::empty());
        assert(links_ok(ds.push(d).drop_first(), level, base, ls));
        assert(links_ok(ds.push(d), level, base, ls));
    } else {
        assert(ds.push(d)[0] == ds[0]);
        assert(ds.push(d).drop_first() =~= ds.drop_first().push(d));
        if keep_dir(ds[0]) {
            assert(ls.len() > 0 && link_ok(ds[0], level, base, ls[0]) && links_ok(
                ds[0].dirs@,
                level + 1,
                joined(base, ds[0].name@),
                ls[0].nested_items@,
            ) && links_ok(ds.drop_first(), level, base, ls.drop_first()));
            lemma_links_ok_snoc_skip(ds.drop_first(), level, base, ls.drop_first(), d);
            assert(links_ok(ds.push(d), level, base, ls));
        } else {
            assert(links_ok(ds.drop_first(), level, base, ls));
            lemma_links_ok_snoc_skip(ds.drop_first(), level, base, ls, d);
            assert(links_ok(ds.push(d), level, base, ls));
        }
    }
}

/// The height bound holds of every member's subtree.
proof fn lemma_dirs_height_ge(dirs: Seq<Dir>, i: int)
    requires
        0 <= i < dirs.len(),
    ensures
        dirs_height(dirs) >= 1 + dirs_height(dirs[i].dirs@),
    decreases dirs.len(),
{
    if i > 0 {
        lemma_dirs_height_ge(dirs.drop_first(), i - 1);
        assert(dirs.drop_first()[i - 1] == dirs[i]);
    }
}

/// Walks `dirs` at `level` under the path `base` and returns one node
/// per surviving directory, in order.
pub fn make_summary(dirs: &Vec<Dir>, level: usize, base: &str) -> (links: Vec<Link>)
    requires
        level + dirs_height(dirs@) <= usize::MAX,
    ensures
        links_ok(dirs@, level as nat, base@, links@),
    decreases dirs@,
{
    let mut links: Vec<Link> = Vec::new();
    let n = dirs.len();
    let mut i: usize = 0;
    proof {
        assert(dirs@.subrange(0, 0) =~= Seq::<Dir>::empty());
    }
    while i < n
        invariant
            i <= n,
            n == dirs@.len(),
            level + dirs_height(dirs@) <= usize::MAX,
            links_ok(dirs@.subrange(0, i as int), level as nat, base@, links@),
        decreases n - i,
    {
        let name = dirs[i].name.as_str();
        let keep = !is_hidden(name) && !is_ignored_name(name);
        if keep {
            proof {
                lemma_dirs_height_ge(dirs@, i as int);
            }
            let path = join_path(base, name);
            proof {
                assert(decreases_to!(dirs@ => dirs@[i as int]));
                assert(decreases_to!(dirs@[i as int] => dirs@[i as int].dirs));
            }
            let nested = make_summary(&dirs[i].dirs, level + 1, path.as_str());
            let link = Link {
                name: file_stem(name).to_owned(),
                is_book: is_book_marker(&dirs[i]),
                path,
                level,
                nested_items: nested,
            };
            proof {
                lemma_links_ok_snoc_keep(
                    dirs@.subrange(0, i as int),
                    level as nat,
                    base@,
                    links@,
                    dirs@[i as int],
                    link,
                );
                assert(dirs@.subrange(0, i + 1 as int) =~= dirs@.subrange(0, i as int).push(
                    dirs@[i as int],
                ));
            }
            links.push(link);
        } else {
            proof {
                lemma_links_ok_snoc_skip(
                    dirs@.subrange(0, i as int),
                    level as nat,
                    base@,
                    links@,
                    dirs@[i as int],
                );
                assert(dirs@.subrange(0, i + 1 as int) =~= dirs@.subrange(0, i as int).push(
                    dirs@[i as int],
                ));
            }
        }
        i = i + 1;
    }
    proof {
        assert(dirs@.subrange(0, n as int) =~= dirs@);
    }
    links
}

/// Discovers the whole tree under `root_dir`, whose books directory's
/// listing is `src`. The walk starts at level 0 with the books
/// directory as the paths' base.
pub fn load_summary(root_dir: &str, src: &Dir) -> (s: Summary)
    requires
        1 + dirs_height(src.dirs@) <= usize::MAX,
    ensures
        s.root@ == root_dir@,
        s.title matches Some(t) && t@ == joined(root_dir@, "src"@),
        links_ok(src.dirs@, 0, joined(root_dir@, "src"@), s.items@),
{
    let src_dir = get_books_dir(root_dir);
    let items = make_summary(&src.dirs, 0, src_dir.as_str());
    Summary { title: Some(src_dir), root: root_dir.to_owned(), items }
}

/// Levels below `level` grow by exactly one per nesting step.
pub open spec fn levels_ok(links: Seq<Link>, level: nat) -> bool
    decreases links,
{
    if links.len() == 0 {
        true
    } else {
        &&& links[0].level as nat == level
        &&& levels_ok(links[0].nested_items@, level + 1)
        &&& levels_ok(links.drop_first(), level)
    }
}

/// Every node of a walk sits at the walk's level and every nested
/// node one level further down: a node's level is its parent's plus
/// one, and a walk started at level 0 puts its top-level nodes at 0.
pub proof fn lemma_levels(dirs: Seq<Dir>, level: nat, base: Seq<char>, links: Seq<Link>)
    requires
        links_ok(dirs, level, base, links),
    ensures
        levels_ok(links, level),
    decreases dirs,
{
    if dirs.len() == 0 {
        assert(links.len() == 0);
    } else if keep_dir(dirs[0]) {
        lemma_levels(dirs[0].dirs@, level + 1, joined(base, dirs[0].name@), links[0].nested_items@);
        lemma_levels(dirs.drop_first(), level, base, links.drop_first());
        assert(levels_ok(links, level));
    } else {
        lemma_levels(dirs.drop_first(), level, base, links);
    }
}

/// How many nodes a tree of links holds, at all depths.
pub open spec fn count_links(links: Seq<Link>) -> nat
    decreases links,
{
    if links.len() == 0 {
        0
    } else {
        1 + count_links(links[0].nested_items@) + count_links(links.drop_first())
    }
}

/// How many directories a tree of directories holds, at all depths.
pub open spec fn count_dirs(dirs: Seq<Dir>) -> nat
    decreases dirs,
{
    if dirs.len() == 0 {
        0
    } else {
        1 + count_dirs(dirs[0].dirs@) + count_dirs(dirs.drop_first())
    }
}

/// No entry of the tree is hidden or carries the reserved name.
pub open spec fn all_dirs_kept(dirs: Seq<Dir>) -> bool
    decreases dirs,
{
    if dirs.len() == 0 {
        true
    } else {
        &&& keep_dir(dirs[0])
        &&& all_dirs_kept(dirs[0].dirs@)
        &&& all_dirs_kept(dirs.drop_first())
    }
}

/// On a tree with no hidden entries and no reserved-ignored
/// directories, the walk yields exactly one node per directory, at
/// all depths.
pub proof fn lemma_link_count(dirs: Seq<Dir>, level: nat, base: Seq<char>, links: Seq<Link>)
    requires
        links_ok(dirs, level, base, links),
        all_dirs_kept(dirs),
    ensures
        count_links(links) == count_dirs(dirs),
    decreases dirs,
{
    if dirs.len() == 0 {
    } else {
        lemma_link_count(
            dirs[0].dirs@,
            level + 1,
            joined(base, dirs[0].name@),
            links[0].nested_items@,
        );
        lemma_link_count(dirs.drop_first(), level, base, links.drop_first());
    }
}

/// The directories that survive the walk's filter, in order.
pub open spec fn kept_dirs(dirs: Seq<Dir>) -> Seq<Dir>
    decreases dirs.len(),
{
    if dirs.len() == 0 {
        Seq::empty()
    } else if keep_dir(dirs[0]) {
        seq![dirs[0]] + kept_dirs(dirs.drop_first())
    } else {
        kept_dirs(dirs.drop_first())
    }
}

/// The walk's nodes stand for the surviving directories, one each and
/// in order; in particular a node's book flag is true iff its
/// directory directly contains the marker file.
pub proof fn lemma_nodes_match_kept_dirs(
    dirs: Seq<Dir>,
    level: nat,
    base: Seq<char>,
    links: Seq<Link>,
)
    requires
        links_ok(dirs, level, base, links),
    ensures
        links.len() == kept_dirs(dirs).len(),
        forall|i: int|
            0 <= i < links.len() ==> link_ok(kept_dirs(dirs)[i], level, base, #[trigger] links[i]),
    decreases dirs,
{
    if dirs.len() == 0 {
    } else if keep_dir(dirs[0]) {
        lemma_nodes_match_kept_dirs(dirs.drop_first(), level, base, links.drop_first());
        assert forall|i: int| 0 <= i < links.len() implies link_ok(
            kept_dirs(dirs)[i],
            level,
            base,
            #[trigger] links[i],
        ) by {
            if i == 0 {
                assert(kept_dirs(dirs)[0] == dirs[0]);
            } else {
                assert(kept_dirs(dirs)[i] == kept_dirs(dirs.drop_first())[i - 1]);
                assert(links[i] == links.drop_first()[i - 1]);
            }
        }
    } else {
        lemma_nodes_match_kept_dirs(dirs.drop_first(), level, base, links);
    }
}

impl Link {
    /// Creates a node with no nested items, at level 0, not a book.
    pub fn new(name: String, path: String) -> (l: Link)
        ensures
            l.name == name,
            l.path == path,
            !l.is_book,
            l.level == 0,
            l.nested_items@.len() == 0,
    {
        Link { name, is_book: false, path, level: 0, nested_items: Vec::new() }
    }
}

/// Every path of the tree lies under `src_base`.
pub open spec fn links_rooted(links: Seq<Link>, src_base: Seq<char>) -> bool
    decreases links,
{
    if links.len() == 0 {
        true
    } else {
        &&& has_prefix(links[0].path@, src_base + "/"@)
        &&& links_rooted(links[0].nested_items@, src_base)
        &&& links_rooted(links.drop_first(), src_base)
    }
}

/// A walk under a base at or below `src_base` yields only paths under
/// `src_base`.
pub proof fn lemma_links_ok_rooted(
    dirs: Seq<Dir>,
    level: nat,
    base: Seq<char>,
    links: Seq<Link>,
    src_base: Seq<char>,
)
    requires
        links_ok(dirs, level, base, links),
        base == src_base || has_prefix(base, src_base + "/"@),
    ensures
        links_rooted(links, src_base),
    decreases dirs,
{
    if dirs.len() == 0 {
    } else if keep_dir(dirs[0]) {
        if base == src_base {
            lemma_joined_prefix(base, dirs[0].name@);
        } else {
            lemma_joined_keeps_prefix(base, dirs[0].name@, src_base + "/"@);
        }
        lemma_joined_prefix(base, dirs[0].name@);
        lemma_links_ok_rooted(
            dirs[0].dirs@,
            level + 1,
            joined(base, dirs[0].name@),
            links[0].nested_items@,
            src_base,
        );
        lemma_links_ok_rooted(dirs.drop_first(), level, base, links.drop_first(), src_base);
        assert(links_rooted(links, src_base));
    } else {
        lemma_links_ok_rooted(dirs.drop_first(), level, base, links, src_base);
    }
}

/// Rooted-ness holds of each node and its subtree.
pub proof fn lemma_links_rooted_at(links: Seq<Link>, src_base: Seq<char>, i: int)
    requires
        links_rooted(links, src_base),
        0 <= i < links.len(),
    ensures
        has_prefix(links[i].path@, src_base + "/"@),
        links_rooted(links[i].nested_items@, src_base),
    decreases i,
{
    if i > 0 {
        lemma_links_rooted_at(links.drop_first(), src_base, i - 1);
        assert(links.drop_first()[i - 1] == links[i]);
    }
}

/// The depth-first pre-order flattening of a tree of links: each node
/// before its children, children before the following siblings.
pub open spec fn flatten_links(links: Seq<Link>) -> Seq<Link>
    decreases links,
{
    if links.len() == 0 {
        Seq::empty()
    } else {
        seq![links[0]] + flatten_links(links[0].nested_items@) + flatten_links(links.drop_first())
    }
}

/// The pre-order flattening holds every node exactly once: its length
/// is the tree's node count.
pub proof fn lemma_flatten_count(links: Seq<Link>)
    ensures
        flatten_links(links).len() == count_links(links),
    decreases links,
{
    if links.len() > 0 {
        lemma_flatten_count(links[0].nested_items@);
        lemma_flatten_count(links.drop_first());
    }
}

/// The flattening of the trees a sequence of borrowed nodes stands
/// for.
pub open spec fn flatten_refs(rs: Seq<&Link>) -> Seq<Link>
    decreases rs,
{
    if rs.len() == 0 {
        Seq::empty()
    } else {
        seq![*rs[0]] + flatten_links(rs[0].nested_items@) + flatten_refs(rs.drop_first())
    }
}

/// Splitting a borrowed-node sequence whose head derefs to `ls` and
/// whose tail is `rest` splits its flattening.
proof fn lemma_flatten_refs_concat(rs: Seq<&Link>, ls: Seq<Link>, rest: Seq<&Link>)
    requires
        rs.len() == ls.len() + rest.len(),
        forall|j: int| 0 <= j < ls.len() ==> *(#[trigger] rs[j]) == ls[j],
        forall|j: int| 0 <= j < rest.len() ==> rs[ls.len() + j] == #[trigger] rest[j],
    ensures
        flatten_refs(rs) == flatten_links(ls) + flatten_refs(rest),
    decreases ls.len(),
{
    if ls.len() == 0 {
        assert(rs =~= rest);
        assert(flatten_refs(rs) =~= flatten_links(ls) + flatten_refs(rest));
    } else {
        lemma_flatten_refs_concat(rs.drop_first(), ls.drop_first(), rest);
        assert(*rs[0] == ls[0]);
        assert(flatten_refs(rs) =~= flatten_links(ls) + flatten_refs(rest));
    }
}

/// A depth-first pre-order iterator over the nodes of a summary.
pub struct Books<'a> {
    items: Vec<&'a Link>,
}

impl<'a> Books<'a> {
    /// The nodes still to be yielded, in order.
    pub closed spec fn remaining(&self) -> Seq<Link> {
        flatten_refs(self.items@)
    }

    /// Yields the next node of the pre-order traversal: the node
    /// itself comes back, and its children move to the front of the
    /// queue, before the node's later siblings.
    pub fn next(&mut self) -> (r: Option<&'a Link>)
        ensures
            match r {
                Some(l) => old(self).remaining() == seq![*l] + final(self).remaining(),
                None => old(self).remaining().len() == 0 && final(self).remaining().len() == 0,
            },
    {
        if self.items.len() == 0 {
            return None;
        }
        let l: &'a Link = self.items.remove(0);
        let ghost rest = self.items@;
        let m = l.nested_items.len();
        let mut k = m;
        while k > 0
            invariant
                k <= m,
                m == l.nested_items@.len(),
                self.items@.len() == rest.len() + (m - k),
                forall|j: int| 0 <= j < m - k ==> *(#[trigger] self.items@[j]) == l.nested_items@[k + j],
                forall|j: int| 0 <= j < rest.len() ==> self.items@[(m - k) + j] == #[trigger] rest[j],
            decreases k,
        {
            k = k - 1;
            let child: &'a Link = &l.nested_items[k];
            self.items.insert(0, child);
        }
        proof {
            lemma_flatten_refs_concat(self.items@, l.nested_items@, rest);
            assert(old(self).items@[0] == l);
            assert(old(self).items@.drop_first() =~= rest);
            assert(old(self).remaining() =~= seq![*l] + self.remaining());
        }
        Some(l)
    }
}

impl Default for Link {
    /// An empty node: no name, no path, not a book, level 0.
    fn default() -> (l: Link)
        ensures
            l.name@.len() == 0,
            l.path@.len() == 0,
            !l.is_book,
            l.level == 0,
            l.nested_items@.len() == 0,
    {
        Link { name: String::new(), is_book: false, path: String::new(), level: 0, nested_items: Vec::new() }
    }
}

impl Summary {
    /// Creates an empty summary.
    pub fn new() -> (s: Summary)
        ensures
            s.title is None,
            s.root@.len() == 0,
            s.items@.len() == 0,
    {
        Summary { title: None, root: String::new(), items: Vec::new() }
    }

    /// A depth-first pre-order iterator over all nodes of the tree.
    pub fn iter(&self) -> (it: Books)
        ensures
            it.remaining() == flatten_links(self.items@),
    {
        let mut v: Vec<&Link> = Vec::new();
        let n = self.items.len();
        let mut i: usize = 0;
        while i < n
            invariant
                i <= n,
                n == self.items@.len(),
                v@.len() == i,
                forall|j: int| 0 <= j < i ==> *(#[trigger] v@[j]) == self.items@[j],
            decreases n - i,
        {
            v.push(&self.items[i]);
            i = i + 1;
        }
        let it = Books { items: v };
        proof {
            lemma_flatten_refs_concat(it.items@, self.items@, Seq::<&Link>::empty());
            assert(flatten_refs(Seq::<&Link>::empty()) =~= Seq::<Link>::empty());
            assert(it.remaining() =~= flatten_links(self.items@));
        }
        it
    }
}

} // verus!
