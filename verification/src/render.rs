//! Rendering: markdown to HTML through the markdown collaborator,
//! template pages through the templating collaborator, and the
//! assembly of the JSON data both templates consume.

use vstd::prelude::*;
use vstd::string::*;

use pulldown_cmark::CowStr;
use pulldown_cmark::Event;
use pulldown_cmark::Options;
use pulldown_cmark::Parser;
use pulldown_cmark::Tag;
use pulldown_cmark::html;

use crate::Dir;
use crate::FileEntry;
use crate::book::Book;
use crate::book::Chapter;
use crate::book::chapter_texts;
use crate::book::chapters_ok;
use crate::book::find_marker_text;
use crate::book::kept_files;
use crate::book::load_book;
use crate::book::marker_text;
use crate::classify::dir_is_book;
use crate::classify::is_book_marker;
use crate::classify::is_hidden;
use crate::classify::is_ignored_name;
use crate::classify::keep_dir;
use crate::dirs_height;
use crate::errors::BuildError;
use crate::paths::get_books_dir;
use crate::paths::get_build_dir;
use crate::paths::href_of;
use crate::paths::map_source_to_output;
use crate::summary::Link;
use crate::summary::Summary;
use crate::summary::lemma_links_ok_rooted;
use crate::summary::lemma_links_rooted_at;
use crate::summary::links_ok;
use crate::summary::links_rooted;
use crate::summary::load_summary;
use crate::text::basename_of;
use crate::text::has_prefix;
use crate::text::indent;
use crate::text::join_path;
use crate::text::joined;
use crate::text::json_escape;
use crate::text::json_escape_str;
use crate::text::lemma_joined_keeps_prefix;
use crate::text::lemma_joined_prefix;
use crate::text::lemma_prefix_extend;
use crate::text::rewrite_md_suffix;
use crate::text::stem_of;

verus! {

/// The HTML that the markdown collaborator renders for a text, after
/// every link destination has had a final `.md` turned into `.html`.
pub uninterp spec fn html_of(text: Seq<char>) -> Seq<char>;

/// The page that the templating collaborator renders for a template
/// and a JSON data text, when it accepts both.
pub uninterp spec fn rendered_of(template: Seq<char>, data_json: Seq<char>) -> Seq<char>;

/// Whether the templating collaborator accepts a template and a JSON
/// data text: parsing and rendering either succeed or fail as a
/// function of the two texts alone.
pub uninterp spec fn template_accepts(template: Seq<char>, data_json: Seq<char>) -> bool;

/// Renders markdown to HTML.
///
/// Relies on `pulldown_cmark::Parser::new_ext` and
/// `pulldown_cmark::html::push_html`, with strikethrough enabled: both
/// are pure functions of the text, and every link destination is first
/// passed through the verified `rewrite_md_suffix`, so the result is a
/// function of the text alone.
#[verifier::external_body]
pub fn render_markdown(text: &str) -> (r: String)
    ensures
        r@ == html_of(text@),
{
    let mut options = Options::empty();
    options.insert(Options::ENABLE_STRIKETHROUGH);
    let parser = Parser::new_ext(text, options).map(|event| match event {
        Event::Start(Tag::Link(a, b, c)) => {
            Event::Start(Tag::Link(a, CowStr::from(rewrite_md_suffix(&b)), c))
        },
        Event::End(Tag::Link(a, b, c)) => {
            Event::End(Tag::Link(a, CowStr::from(rewrite_md_suffix(&b)), c))
        },
        e => e,
    });
    let mut out = String::new();
    html::push_html(&mut out, parser);
    out
}

/// Renders a template against a JSON data text.
///
/// Relies on `handlebars::Handlebars::render_template` and
/// `serde_json::from_str`: with a fresh default registry, whether the
/// two texts are accepted, and the page rendered when they are, are
/// pure functions of the two texts. When either step refuses, the
/// error's report comes back.
#[verifier::external_body]
fn render_template(template: &str, data_json: &str) -> (r: Result<String, String>)
    ensures
        r is Ok <==> template_accepts(template@, data_json@),
        r matches Ok(s) ==> s@ == rendered_of(template@, data_json@),
{
    let data: serde_json::Value = match serde_json::from_str(data_json) {
        Ok(v) => v,
        Err(e) => return Err(e.to_string()),
    };
    let hb = handlebars::Handlebars::new();
    match hb.render_template(template, &data) {
        Ok(s) => Ok(s),
        Err(e) => Err(e.to_string()),
    }
}

/// The JSON data text the index template consumes: one `summary`
/// field holding the rendered listing.
pub open spec fn summary_json(html: Seq<char>) -> Seq<char> {
    "{\"summary\":\""@ + json_escape(html) + "\"}"@
}

/// Renders the listing text and frames the result as the index
/// template's data.
pub fn make_summary_data(md: &str) -> (r: String)
    ensures
        r@ == summary_json(html_of(md@)),
{
    let html = render_markdown(md);
    let escaped = json_escape_str(html.as_str());
    let mut out = String::from_str("{\"summary\":\"");
    out.append(escaped.as_str());
    out.append("\"}");
    proof {
        assert(out@ =~= summary_json(html_of(md@)));
    }
    out
}

/// One page of the build output: where it goes and what it holds.
#[derive(Debug, Clone, PartialEq)]
pub struct OutputFile {
    /// The page's path, rooted under the output directory.
    pub path: String,
    /// The page's text.
    pub content: String,
}

/// A page as a pair of its path's and its content's characters.
pub open spec fn pages_of(outs: Seq<OutputFile>) -> Seq<(Seq<char>, Seq<char>)> {
    outs.map_values(|f: OutputFile| (f.path@, f.content@))
}

/// Renders the index page: the listing text `data` becomes the
/// `summary` field of the index template's data, and the page lands
/// at `index.html` under the output directory.
pub fn render_summary(data: &str, template: &str, out_base: &str) -> (r: Result<
    OutputFile,
    BuildError,
>)
    ensures
        r is Ok <==> template_accepts(template@, summary_json(html_of(data@))),
        match r {
            Ok(f) => {
                &&& f.path@ == joined(out_base@, "index.html"@)
                &&& f.content@ == rendered_of(template@, summary_json(html_of(data@)))
            },
            Err(e) => e is Template,
        },
{
    let json = make_summary_data(data);
    match render_template(template, json.as_str()) {
        Ok(page) => Ok(
            OutputFile { path: join_path(out_base, "index.html"), content: page },
        ),
        Err(m) => Err(BuildError::Template(m)),
    }
}

/// The listing line of one node: its indentation, then a markdown
/// list entry — a link to the book's output index page for a book
/// node, a plain label for any other.
pub open spec fn line_of(l: Link, src_base: Seq<char>, out_base: Seq<char>) -> Seq<char> {
    if l.is_book {
        indent(l.level as nat) + "- ["@ + l.name@ + "]("@ + href_of(
            joined(l.path@, "README.md"@),
            src_base,
            out_base,
        ) + ")\n"@
    } else {
        indent(l.level as nat) + "- "@ + l.name@ + "\n"@
    }
}

/// The listing of a tree of nodes, depth-first and pre-order: each
/// node's line, then its children's lines, then its later siblings'.
pub open spec fn listing_of(links: Seq<Link>, src_base: Seq<char>, out_base: Seq<char>) -> Seq<char>
    decreases links,
{
    if links.len() == 0 {
        Seq::empty()
    } else {
        line_of(links[0], src_base, out_base) + listing_of(
            links[0].nested_items@,
            src_base,
            out_base,
        ) + listing_of(links.drop_first(), src_base, out_base)
    }
}

proof fn lemma_listing_snoc(ls: Seq<Link>, l: Link, src_base: Seq<char>, out_base: Seq<char>)
    ensures
        listing_of(ls.push(l), src_base, out_base) == listing_of(ls, src_base, out_base) + line_of(
            l,
            src_base,
            out_base,
        ) + listing_of(l.nested_items@, src_base, out_base),
    decreases ls.len(),
{
    if ls.len() == 0 {
        assert(ls.push(l)[0] == l);
        assert(ls.push(l).drop_first() =~= Seq::<Link>::empty());
        assert(listing_of(ls.push(l).drop_first(), src_base, out_base) =~= Seq::<char>::empty());
        assert(listing_of(ls, src_base, out_base) =~= Seq::<char>::empty());
        assert(listing_of(ls.push(l), src_base, out_base) =~= listing_of(ls, src_base, out_base)
            + line_of(l, src_base, out_base) + listing_of(l.nested_items@, src_base, out_base));
    } else {
        lemma_listing_snoc(ls.drop_first(), l, src_base, out_base);
        assert(ls.push(l)[0] == ls[0]);
        assert(ls.push(l).drop_first() =~= ls.drop_first().push(l));
        assert(listing_of(ls.push(l), src_base, out_base) =~= listing_of(ls, src_base, out_base)
            + line_of(l, src_base, out_base) + listing_of(l.nested_items@, src_base, out_base));
    }
}

/// The listing line one directory yields, written from the tree
/// itself.
pub open spec fn dir_line_of(
    d: Dir,
    level: nat,
    base: Seq<char>,
    src_base: Seq<char>,
    out_base: Seq<char>,
) -> Seq<char> {
    if dir_is_book(d) {
        indent(level) + "- ["@ + stem_of(d.name@) + "]("@ + href_of(
            joined(joined(base, d.name@), "README.md"@),
            src_base,
            out_base,
        ) + ")\n"@
    } else {
        indent(level) + "- "@ + stem_of(d.name@) + "\n"@
    }
}

/// The listing of a directory tree, depth-first and pre-order over
/// the surviving directories: what the walk's nodes spell out,
/// written from the tree itself.
pub open spec fn listing_of_dirs(
    dirs: Seq<Dir>,
    level: nat,
    base: Seq<char>,
    src_base: Seq<char>,
    out_base: Seq<char>,
) -> Seq<char>
    decreases dirs,
{
    if dirs.len() == 0 {
        Seq::empty()
    } else {
        (if keep_dir(dirs[0]) {
            dir_line_of(dirs[0], level, base, src_base, out_base) + listing_of_dirs(
                dirs[0].dirs@,
                level + 1,
                joined(base, dirs[0].name@),
                src_base,
                out_base,
            )
        } else {
            Seq::<char>::empty()
        }) + listing_of_dirs(dirs.drop_first(), level, base, src_base, out_base)
    }
}

/// The listing computed from a walk's nodes is the listing of the
/// tree they were walked from.
pub proof fn lemma_listing_matches_dirs(
    dirs: Seq<Dir>,
    level: nat,
    base: Seq<char>,
    links: Seq<Link>,
    src_base: Seq<char>,
    out_base: Seq<char>,
)
    requires
        links_ok(dirs, level, base, links),
    ensures
        listing_of(links, src_base, out_base) == listing_of_dirs(
            dirs,
            level,
            base,
            src_base,
            out_base,
        ),
    decreases dirs,
{
    if dirs.len() == 0 {
        assert(links.len() == 0);
        assert(listing_of(links, src_base, out_base) =~= listing_of_dirs(
            dirs,
            level,
            base,
            src_base,
            out_base,
        ));
    } else if keep_dir(dirs[0]) {
        assert(line_of(links[0], src_base, out_base) == dir_line_of(
            dirs[0],
            level,
            base,
            src_base,
            out_base,
        ));
        lemma_listing_matches_dirs(
            dirs[0].dirs@,
            level + 1,
            joined(base, dirs[0].name@),
            links[0].nested_items@,
            src_base,
            out_base,
        );
        lemma_listing_matches_dirs(
            dirs.drop_first(),
            level,
            base,
            links.drop_first(),
            src_base,
            out_base,
        );
        assert(listing_of(links, src_base, out_base) =~= listing_of_dirs(
            dirs,
            level,
            base,
            src_base,
            out_base,
        ));
    } else {
        lemma_listing_matches_dirs(dirs.drop_first(), level, base, links, src_base, out_base);
        assert(listing_of(links, src_base, out_base) =~= listing_of_dirs(
            dirs,
            level,
            base,
            src_base,
            out_base,
        ));
    }
}

/// Builds the indentation-leveled markdown listing of a tree of
/// nodes, depth-first and pre-order.
pub fn make_listing(links: &Vec<Link>, src_base: &str, out_base: &str) -> (r: String)
    requires
        links_rooted(links@, src_base@),
    ensures
        r@ == listing_of(links@, src_base@, out_base@),
    decreases links@,
{
    let mut out = String::new();
    let n = links.len();
    let mut i: usize = 0;
    proof {
        assert(links@.subrange(0, 0) =~= Seq::<Link>::empty());
        assert(listing_of(links@.subrange(0, 0), src_base@, out_base@) =~= Seq::<char>::empty());
    }
    while i < n
        invariant
            i <= n,
            n == links@.len(),
            links_rooted(links@, src_base@),
            out@ == listing_of(links@.subrange(0, i as int), src_base@, out_base@),
        decreases n - i,
    {
        proof {
            lemma_links_rooted_at(links@, src_base@, i as int);
        }
        let ghost prior = out@;
        let l = &links[i];
        let level = l.level;
        let mut k: usize = 0;
        while k < level
            invariant
                k <= level,
                out@ == prior + indent(k as nat),
            decreases level - k,
        {
            out.append("  ");
            k = k + 1;
        }
        if l.is_book {
            out.append("- [");
            out.append(l.name.as_str());
            out.append("](");
            let marker_path = join_path(l.path.as_str(), "README.md");
            proof {
                lemma_joined_prefix(l.path@, "README.md"@);
                lemma_prefix_extend(
                    l.path@,
                    "/"@ + "README.md"@,
                    src_base@ + "/"@,
                );
                assert(l.path@ + "/"@ + "README.md"@ =~= l.path@ + ("/"@ + "README.md"@));
            }
            match map_source_to_output(marker_path.as_str(), src_base, out_base) {
                Ok(href) => {
                    out.append(href.as_str());
                },
                Err(_) => {
                    proof {
                        assert(false);
                    }
                },
            }
            out.append(")\n");
        } else {
            out.append("- ");
            out.append(l.name.as_str());
            out.append("\n");
        }
        proof {
            assert(out@ =~= prior + line_of(links@[i as int], src_base@, out_base@));
            assert(decreases_to!(links@ => links@[i as int]));
            assert(decreases_to!(links@[i as int] => links@[i as int].nested_items));
        }
        let nested = make_listing(&links[i].nested_items, src_base, out_base);
        out.append(nested.as_str());
        proof {
            lemma_listing_snoc(links@.subrange(0, i as int), links@[i as int], src_base@, out_base@);
            assert(links@.subrange(0, i + 1 as int) =~= links@.subrange(0, i as int).push(
                links@[i as int],
            ));
            assert(out@ =~= listing_of(links@.subrange(0, i + 1 as int), src_base@, out_base@));
        }
        i = i + 1;
    }
    proof {
        assert(links@.subrange(0, n as int) =~= links@);
    }
    out
}

/// One entry of the book template's chapter list: a `name` field and
/// a `path` field holding the chapter's output href.
pub open spec fn chapter_entry_json(name: Seq<char>, href: Seq<char>) -> Seq<char> {
    "{\"name\":\""@ + json_escape(name) + "\",\"path\":\""@ + json_escape(href) + "\"}"@
}

/// The body of the JSON array holding the chapter entries, comma
/// separated.
pub open spec fn chapters_json(entries: Seq<(Seq<char>, Seq<char>)>) -> Seq<char>
    decreases entries.len(),
{
    if entries.len() == 0 {
        Seq::empty()
    } else if entries.len() == 1 {
        chapter_entry_json(entries[0].0, entries[0].1)
    } else {
        chapter_entry_json(entries[0].0, entries[0].1) + ","@ + chapters_json(
            entries.drop_first(),
        )
    }
}

proof fn lemma_chapters_json_snoc(es: Seq<(Seq<char>, Seq<char>)>, e: (Seq<char>, Seq<char>))
    ensures
        chapters_json(es.push(e)) == if es.len() == 0 {
            chapter_entry_json(e.0, e.1)
        } else {
            chapters_json(es) + ","@ + chapter_entry_json(e.0, e.1)
        },
    decreases es.len(),
{
    if es.len() == 0 {
        assert(es.push(e)[0] == e);
        assert(chapters_json(es.push(e)) =~= chapter_entry_json(e.0, e.1));
    } else {
        lemma_chapters_json_snoc(es.drop_first(), e);
        assert(es.push(e)[0] == es[0]);
        assert(es.push(e).drop_first() =~= es.drop_first().push(e));
        if es.len() == 1 {
            assert(es.drop_first().len() == 0);
            assert(chapters_json(es) =~= chapter_entry_json(es[0].0, es[0].1));
            assert(chapters_json(es.push(e)) =~= chapters_json(es) + ","@ + chapter_entry_json(
                e.0,
                e.1,
            ));
        } else {
            assert(chapters_json(es.push(e)) =~= chapters_json(es) + ","@ + chapter_entry_json(
                e.0,
                e.1,
            ));
        }
    }
}

/// The JSON data text the book template consumes: a `content` field
/// holding the marker file's rendered text where the book has one, a
/// `name` field otherwise, and the `chapters` array.
pub open spec fn book_json(
    marker: Option<Seq<char>>,
    name: Seq<char>,
    entries: Seq<(Seq<char>, Seq<char>)>,
) -> Seq<char> {
    (match marker {
        Some(t) => "{\"content\":\""@ + json_escape(html_of(t)) + "\","@,
        None => "{\"name\":\""@ + json_escape(name) + "\","@,
    }) + "\"chapters\":["@ + chapters_json(entries) + "]}"@
}

/// The text of an optional text value.
pub open spec fn opt_text(o: Option<String>) -> Option<Seq<char>> {
    match o {
        Some(t) => Some(t@),
        None => None,
    }
}

/// The chapter-list entries of a book's chapters: each chapter's name
/// and its output href.
pub open spec fn chapter_entries(cs: Seq<Chapter>, src_base: Seq<char>, out_base: Seq<char>) -> Seq<
    (Seq<char>, Seq<char>),
> {
    cs.map_values(|c: Chapter| (c.name@, href_of(c.path@, src_base, out_base)))
}

/// Assembles the book template's data: the marker text rendered as
/// the `content` field where the book has one, the bare name
/// otherwise, and one entry per chapter.
pub fn make_book_data(book: &Book, marker: &Option<String>, src_base: &str, out_base: &str) -> (r:
    String)
    requires
        forall|i: int|
            0 <= i < book.chapters@.len() ==> has_prefix(
                (#[trigger] book.chapters@[i]).path@,
                src_base@ + "/"@,
            ),
    ensures
        r@ == book_json(
            opt_text(*marker),
            book.name@,
            chapter_entries(book.chapters@, src_base@, out_base@),
        ),
{
    let mut out: String;
    match marker {
        Some(t) => {
            let html = render_markdown(t.as_str());
            out = String::from_str("{\"content\":\"");
            out.append(json_escape_str(html.as_str()).as_str());
            out.append("\",");
        },
        None => {
            out = String::from_str("{\"name\":\"");
            out.append(json_escape_str(book.name.as_str()).as_str());
            out.append("\",");
        },
    }
    let ghost head = out@;
    out.append("\"chapters\":[");
    let n = book.chapters.len();
    let mut i: usize = 0;
    proof {
        assert(book.chapters@.subrange(0, 0) =~= Seq::<Chapter>::empty());
        assert(chapter_entries(book.chapters@.subrange(0, 0), src_base@, out_base@)
            =~= Seq::<(Seq<char>, Seq<char>)>::empty());
    }
    while i < n
        invariant
            i <= n,
            n == book.chapters@.len(),
            forall|j: int|
                0 <= j < n ==> has_prefix(
                    (#[trigger] book.chapters@[j]).path@,
                    src_base@ + "/"@,
                ),
            out@ == head + "\"chapters\":["@ + chapters_json(
                chapter_entries(book.chapters@.subrange(0, i as int), src_base@, out_base@),
            ),
        decreases n - i,
    {
        if i > 0 {
            out.append(",");
        }
        let href = match map_source_to_output(book.chapters[i].path.as_str(), src_base, out_base) {
            Ok(p) => p,
            Err(e) => {
                proof {
                    assert(false);
                }
                return out;
            },
        };
        out.append("{\"name\":\"");
        out.append(json_escape_str(book.chapters[i].name.as_str()).as_str());
        out.append("\",\"path\":\"");
        out.append(json_escape_str(href.as_str()).as_str());
        out.append("\"}");
        proof {
            let es = chapter_entries(book.chapters@.subrange(0, i as int), src_base@, out_base@);
            let e = (book.chapters@[i as int].name@, href_of(
                book.chapters@[i as int].path@,
                src_base@,
                out_base@,
            ));
            lemma_chapters_json_snoc(es, e);
            assert(chapter_entries(book.chapters@.subrange(0, i + 1 as int), src_base@, out_base@)
                =~= es.push(e));
            assert(out@ =~= head + "\"chapters\":["@ + chapters_json(
                chapter_entries(book.chapters@.subrange(0, i + 1 as int), src_base@, out_base@),
            ));
        }
        i = i + 1;
    }
    out.append("]}");
    proof {
        assert(book.chapters@.subrange(0, n as int) =~= book.chapters@);
        assert(out@ =~= book_json(
            opt_text(*marker),
            book.name@,
            chapter_entries(book.chapters@, src_base@, out_base@),
        ));
    }
    out
}

/// The name a book takes from its directory's path.
pub open spec fn book_name_of(root: Seq<char>) -> Seq<char> {
    stem_of(basename_of(root))
}

/// The page written for one chapter file: its output href and its
/// rendered text.
pub open spec fn chapter_page(
    f: FileEntry,
    root: Seq<char>,
    src_base: Seq<char>,
    out_base: Seq<char>,
) -> (Seq<char>, Seq<char>) {
    (href_of(joined(root, f.name@), src_base, out_base), html_of(f.content@))
}

/// The chapter-list entries a book directory's listing gives rise to.
pub open spec fn file_entries(
    files: Seq<FileEntry>,
    root: Seq<char>,
    src_base: Seq<char>,
    out_base: Seq<char>,
) -> Seq<(Seq<char>, Seq<char>)> {
    kept_files(files).map_values(
        |f: FileEntry| (stem_of(f.name@), href_of(joined(root, f.name@), src_base, out_base)),
    )
}

/// The pages written for one book: its landing page at the mapped
/// marker path, then one page per chapter, in order.
pub open spec fn book_pages_one(
    root: Seq<char>,
    files: Seq<FileEntry>,
    src_base: Seq<char>,
    out_base: Seq<char>,
    tmpl: Seq<char>,
) -> Seq<(Seq<char>, Seq<char>)> {
    seq![
        (
            href_of(joined(root, "README.md"@), src_base, out_base),
            rendered_of(
                tmpl,
                book_json(
                    marker_text(files),
                    book_name_of(root),
                    file_entries(files, root, src_base, out_base),
                ),
            ),
        ),
    ] + kept_files(files).map_values(|f: FileEntry| chapter_page(f, root, src_base, out_base))
}

/// What every renderer gets handed: the build's root, the book in
/// hand, and the output directory.
#[derive(Debug, PartialEq)]
pub struct RenderContext {
    /// The library version the context was made by.
    pub version: String,
    /// The build's root directory.
    pub root: String,
    /// A loaded representation of the book itself.
    pub book: Book,
    /// Where the rendered pages must go.
    pub destination: String,
}

impl RenderContext {
    /// Creates a context for one book.
    pub fn new(root: String, book: Book, destination: String) -> (c: RenderContext)
        ensures
            c.root == root,
            c.book == book,
            c.destination == destination,
            c.version@ == "v0.1.0"@,
    {
        RenderContext { version: String::from_str("v0.1.0"), root, book, destination }
    }

    /// The source directory's path, with a trailing separator.
    pub fn source_dir(&self) -> (r: String)
        ensures
            r@ == self.root@ + "/"@,
    {
        let r = join_path(self.root.as_str(), "");
        proof {
            reveal_strlit("");
            assert(""@ =~= Seq::<char>::empty());
            assert(r@ =~= self.root@ + "/"@);
        }
        r
    }
}

/// Renders one book: its landing page through the book template, then
/// one page per chapter, each at its mapped output path. A failure of
/// the templating collaborator aborts with its report.
pub fn render_book(ctx: &RenderContext, listing: &Dir, template: &str) -> (r: Result<
    Vec<OutputFile>,
    BuildError,
>)
    requires
        chapters_ok(listing.files@, ctx.book.root@, ctx.book.chapters@),
        ctx.book.name@ == book_name_of(ctx.book.root@),
        has_prefix(ctx.book.root@, joined(ctx.root@, "src"@) + "/"@),
    ensures
        r is Ok <==> template_accepts(
            template@,
            book_json(
                marker_text(listing.files@),
                book_name_of(ctx.book.root@),
                file_entries(
                    listing.files@,
                    ctx.book.root@,
                    joined(ctx.root@, "src"@),
                    ctx.destination@,
                ),
            ),
        ),
        match r {
            Ok(outs) => pages_of(outs@) == book_pages_one(
                ctx.book.root@,
                listing.files@,
                joined(ctx.root@, "src"@),
                ctx.destination@,
                template@,
            ),
            Err(e) => e is Template,
        },
{
    let src_base = get_books_dir(ctx.root.as_str());
    let marker = find_marker_text(listing);
    proof {
        assert forall|i: int| 0 <= i < ctx.book.chapters@.len() implies has_prefix(
            (#[trigger] ctx.book.chapters@[i]).path@,
            src_base@ + "/"@,
        ) by {
            lemma_joined_keeps_prefix(
                ctx.book.root@,
                kept_files(listing.files@)[i].name@,
                src_base@ + "/"@,
            );
        }
    }
    let data = make_book_data(&ctx.book, &marker, src_base.as_str(), ctx.destination.as_str());
    proof {
        assert(chapter_entries(ctx.book.chapters@, src_base@, ctx.destination@) =~= file_entries(
            listing.files@,
            ctx.book.root@,
            src_base@,
            ctx.destination@,
        ));
    }
    let page = match render_template(template, data.as_str()) {
        Ok(p) => p,
        Err(m) => {
            return Err(BuildError::Template(m));
        },
    };
    let index_src = join_path(ctx.book.root.as_str(), "README.md");
    proof {
        lemma_joined_keeps_prefix(ctx.book.root@, "README.md"@, src_base@ + "/"@);
    }
    let index_path = match map_source_to_output(
        index_src.as_str(),
        src_base.as_str(),
        ctx.destination.as_str(),
    ) {
        Ok(p) => p,
        Err(e) => {
            proof {
                assert(false);
            }
            return Err(e);
        },
    };
    let mut outs: Vec<OutputFile> = Vec::new();
    outs.push(OutputFile { path: index_path, content: page });
    let texts = chapter_texts(listing);
    let n = ctx.book.chapters.len();
    let ghost target = book_pages_one(
        ctx.book.root@,
        listing.files@,
        joined(ctx.root@, "src"@),
        ctx.destination@,
        template@,
    );
    proof {
        assert(pages_of(outs@)[0] == target[0]);
    }
    let mut i: usize = 0;
    while i < n
        invariant
            i <= n,
            n == ctx.book.chapters@.len(),
            n == texts@.len(),
            n == kept_files(listing.files@).len(),
            chapters_ok(listing.files@, ctx.book.root@, ctx.book.chapters@),
            forall|j: int|
                0 <= j < n ==> (#[trigger] texts@[j])@ == kept_files(
                    listing.files@,
                )[j].content@,
            forall|j: int|
                0 <= j < n ==> has_prefix(
                    (#[trigger] ctx.book.chapters@[j]).path@,
                    src_base@ + "/"@,
                ),
            src_base@ == joined(ctx.root@, "src"@),
            outs@.len() == 1 + i,
            (outs@[0].path@, outs@[0].content@) == target[0],
            forall|j: int|
                1 <= j <= i ==> ((#[trigger] outs@[j]).path@, outs@[j].content@) == chapter_page(
                    kept_files(listing.files@)[j - 1],
                    ctx.book.root@,
                    src_base@,
                    ctx.destination@,
                ),
        decreases n - i,
    {
        let href = match map_source_to_output(
            ctx.book.chapters[i].path.as_str(),
            src_base.as_str(),
            ctx.destination.as_str(),
        ) {
            Ok(p) => p,
            Err(e) => {
                proof {
                    assert(false);
                }
                return Err(e);
            },
        };
        let html = render_markdown(texts[i].as_str());
        outs.push(OutputFile { path: href, content: html });
        i = i + 1;
    }
    proof {
        let kept = kept_files(listing.files@);
        let cpages = kept.map_values(
            |f: FileEntry| chapter_page(f, ctx.book.root@, src_base@, ctx.destination@),
        );
        assert(target =~= seq![target[0]] + cpages);
        assert(pages_of(outs@).len() == target.len());
        assert forall|k: int| 0 <= k < pages_of(outs@).len() implies pages_of(outs@)[k]
            == target[k] by {
            assert(pages_of(outs@)[k] == (outs@[k].path@, outs@[k].content@));
            if k > 0 {
                assert(((#[trigger] outs@[k]).path@, outs@[k].content@) == chapter_page(
                    kept[k - 1],
                    ctx.book.root@,
                    src_base@,
                    ctx.destination@,
                ));
                assert(target[k] == cpages[k - 1]);
                assert(cpages[k - 1] == chapter_page(
                    kept[k - 1],
                    ctx.book.root@,
                    src_base@,
                    ctx.destination@,
                ));
            }
        }
        assert(pages_of(outs@) =~= target);
    }
    Ok(outs)
}

/// The pages written for every book at or below a directory sequence,
/// depth-first and pre-order: a surviving book directory's own pages,
/// then its subtree's, then its later siblings'.
pub open spec fn book_pages(
    dirs: Seq<Dir>,
    base: Seq<char>,
    src_base: Seq<char>,
    out_base: Seq<char>,
    tmpl: Seq<char>,
) -> Seq<(Seq<char>, Seq<char>)>
    decreases dirs,
{
    if dirs.len() == 0 {
        Seq::empty()
    } else {
        let here = if keep_dir(dirs[0]) {
            (if dir_is_book(dirs[0]) {
                book_pages_one(
                    joined(base, dirs[0].name@),
                    dirs[0].files@,
                    src_base,
                    out_base,
                    tmpl,
                )
            } else {
                Seq::empty()
            }) + book_pages(dirs[0].dirs@, joined(base, dirs[0].name@), src_base, out_base, tmpl)
        } else {
            Seq::<(Seq<char>, Seq<char>)>::empty()
        };
        here + book_pages(dirs.drop_first(), base, src_base, out_base, tmpl)
    }
}

/// The pages one directory entry contributes, subtree included.
pub open spec fn book_pages_at(
    d: Dir,
    base: Seq<char>,
    src_base: Seq<char>,
    out_base: Seq<char>,
    tmpl: Seq<char>,
) -> Seq<(Seq<char>, Seq<char>)> {
    if keep_dir(d) {
        (if dir_is_book(d) {
            book_pages_one(joined(base, d.name@), d.files@, src_base, out_base, tmpl)
        } else {
            Seq::empty()
        }) + book_pages(d.dirs@, joined(base, d.name@), src_base, out_base, tmpl)
    } else {
        Seq::<(Seq<char>, Seq<char>)>::empty()
    }
}

/// The templating collaborator accepts every book's data at or below
/// a directory sequence: for each surviving book directory, the book
/// template accepts the data its listing gives rise to, and the same
/// holds through every subtree.
pub open spec fn books_accepted(
    dirs: Seq<Dir>,
    base: Seq<char>,
    src_base: Seq<char>,
    out_base: Seq<char>,
    tmpl: Seq<char>,
) -> bool
    decreases dirs,
{
    if dirs.len() == 0 {
        true
    } else {
        &&& (if keep_dir(dirs[0]) {
            &&& (dir_is_book(dirs[0]) ==> template_accepts(
                tmpl,
                book_json(
                    marker_text(dirs[0].files@),
                    book_name_of(joined(base, dirs[0].name@)),
                    file_entries(dirs[0].files@, joined(base, dirs[0].name@), src_base, out_base),
                ),
            ))
            &&& books_accepted(dirs[0].dirs@, joined(base, dirs[0].name@), src_base, out_base, tmpl)
        } else {
            true
        })
        &&& books_accepted(dirs.drop_first(), base, src_base, out_base, tmpl)
    }
}

/// What acceptance asks of one directory entry, subtree included.
pub open spec fn book_accepted_at(
    d: Dir,
    base: Seq<char>,
    src_base: Seq<char>,
    out_base: Seq<char>,
    tmpl: Seq<char>,
) -> bool {
    keep_dir(d) ==> {
        &&& (dir_is_book(d) ==> template_accepts(
            tmpl,
            book_json(
                marker_text(d.files@),
                book_name_of(joined(base, d.name@)),
                file_entries(d.files@, joined(base, d.name@), src_base, out_base),
            ),
        ))
        &&& books_accepted(d.dirs@, joined(base, d.name@), src_base, out_base, tmpl)
    }
}

proof fn lemma_books_accepted_snoc(
    ds: Seq<Dir>,
    d: Dir,
    base: Seq<char>,
    src_base: Seq<char>,
    out_base: Seq<char>,
    tmpl: Seq<char>,
)
    ensures
        books_accepted(ds.push(d), base, src_base, out_base, tmpl) == (books_accepted(
            ds,
            base,
            src_base,
            out_base,
            tmpl,
        ) && book_accepted_at(d, base, src_base, out_base, tmpl)),
    decreases ds.len(),
{
    if ds.len() == 0 {
        assert(ds.push(d)[0] == d);
        assert(ds.push(d).drop_first() =~= Seq::<Dir>::empty());
        assert(books_accepted(ds.push(d).drop_first(), base, src_base, out_base, tmpl));
        assert(books_accepted(ds, base, src_base, out_base, tmpl));
        assert(books_accepted(ds.push(d), base, src_base, out_base, tmpl) == (books_accepted(
            ds,
            base,
            src_base,
            out_base,
            tmpl,
        ) && book_accepted_at(d, base, src_base, out_base, tmpl)));
    } else {
        lemma_books_accepted_snoc(ds.drop_first(), d, base, src_base, out_base, tmpl);
        assert(ds.push(d)[0] == ds[0]);
        assert(ds.push(d).drop_first() =~= ds.drop_first().push(d));
        assert(books_accepted(ds.push(d), base, src_base, out_base, tmpl) == (books_accepted(
            ds,
            base,
            src_base,
            out_base,
            tmpl,
        ) && book_accepted_at(d, base, src_base, out_base, tmpl)));
    }
}

/// Acceptance of a sequence gives acceptance at each of its entries.
proof fn lemma_books_accepted_at(
    ds: Seq<Dir>,
    i: int,
    base: Seq<char>,
    src_base: Seq<char>,
    out_base: Seq<char>,
    tmpl: Seq<char>,
)
    requires
        0 <= i < ds.len(),
        books_accepted(ds, base, src_base, out_base, tmpl),
    ensures
        book_accepted_at(ds[i], base, src_base, out_base, tmpl),
    decreases i,
{
    if i > 0 {
        lemma_books_accepted_at(ds.drop_first(), i - 1, base, src_base, out_base, tmpl);
        assert(ds.drop_first()[i - 1] == ds[i]);
    }
}

proof fn lemma_book_pages_snoc(
    ds: Seq<Dir>,
    d: Dir,
    base: Seq<char>,
    src_base: Seq<char>,
    out_base: Seq<char>,
    tmpl: Seq<char>,
)
    ensures
        book_pages(ds.push(d), base, src_base, out_base, tmpl) == book_pages(
            ds,
            base,
            src_base,
            out_base,
            tmpl,
        ) + book_pages_at(d, base, src_base, out_base, tmpl),
    decreases ds.len(),
{
    if ds.len() == 0 {
        assert(ds.push(d)[0] == d);
        assert(ds.push(d).drop_first() =~= Seq::<Dir>::empty());
        assert(book_pages(ds.push(d).drop_first(), base, src_base, out_base, tmpl) =~= Seq::<
            (Seq<char>, Seq<char>),
        >::empty());
        assert(book_pages(ds, base, src_base, out_base, tmpl) =~= Seq::<
            (Seq<char>, Seq<char>),
        >::empty());
        assert(book_pages(ds.push(d), base, src_base, out_base, tmpl) =~= book_pages(
            ds,
            base,
            src_base,
            out_base,
            tmpl,
        ) + book_pages_at(d, base, src_base, out_base, tmpl));
    } else {
        lemma_book_pages_snoc(ds.drop_first(), d, base, src_base, out_base, tmpl);
        assert(ds.push(d)[0] == ds[0]);
        assert(ds.push(d).drop_first() =~= ds.drop_first().push(d));
        assert(book_pages(ds.push(d), base, src_base, out_base, tmpl) =~= book_pages(
            ds,
            base,
            src_base,
            out_base,
            tmpl,
        ) + book_pages_at(d, base, src_base, out_base, tmpl));
    }
}

/// Renders every book at or below `dirs`, depth-first and pre-order,
/// walking with the same filter the summary walk uses.
fn render_books(dirs: &Vec<Dir>, base: &str, root: &str, out_base: &str, template: &str) -> (r:
    Result<Vec<OutputFile>, BuildError>)
    requires
        base@ == joined(root@, "src"@) || has_prefix(base@, joined(root@, "src"@) + "/"@),
    ensures
        r is Ok <==> books_accepted(dirs@, base@, joined(root@, "src"@), out_base@, template@),
        match r {
            Ok(outs) => pages_of(outs@) == book_pages(
                dirs@,
                base@,
                joined(root@, "src"@),
                out_base@,
                template@,
            ),
            Err(e) => e is Template,
        },
    decreases dirs@,
{
    let mut outs: Vec<OutputFile> = Vec::new();
    let n = dirs.len();
    let mut i: usize = 0;
    proof {
        assert(dirs@.subrange(0, 0) =~= Seq::<Dir>::empty());
        assert(book_pages(dirs@.subrange(0, 0), base@, joined(root@, "src"@), out_base@, template@)
            =~= Seq::<(Seq<char>, Seq<char>)>::empty());
        assert(pages_of(outs@) =~= Seq::<(Seq<char>, Seq<char>)>::empty());
        assert(books_accepted(
            dirs@.subrange(0, 0),
            base@,
            joined(root@, "src"@),
            out_base@,
            template@,
        ));
    }
    while i < n
        invariant
            i <= n,
            n == dirs@.len(),
            base@ == joined(root@, "src"@) || has_prefix(base@, joined(root@, "src"@) + "/"@),
            pages_of(outs@) == book_pages(
                dirs@.subrange(0, i as int),
                base@,
                joined(root@, "src"@),
                out_base@,
                template@,
            ),
            books_accepted(dirs@.subrange(0, i as int), base@, joined(root@, "src"@), out_base@, template@),
        decreases n - i,
    {
        let name = dirs[i].name.as_str();
        if !is_hidden(name) && !is_ignored_name(name) {
            let path = join_path(base, name);
            proof {
                if base@ == joined(root@, "src"@) {
                    lemma_joined_prefix(base@, dirs@[i as int].name@);
                } else {
                    lemma_joined_keeps_prefix(
                        base@,
                        dirs@[i as int].name@,
                        joined(root@, "src"@) + "/"@,
                    );
                }
            }
            if is_book_marker(&dirs[i]) {
                let book = load_book(path.as_str(), &dirs[i]);
                let ctx = RenderContext::new(root.to_owned(), book, out_base.to_owned());
                let mut pages = match render_book(&ctx, &dirs[i], template) {
                    Ok(p) => p,
                    Err(e) => {
                        proof {
                            if books_accepted(
                                dirs@,
                                base@,
                                joined(root@, "src"@),
                                out_base@,
                                template@,
                            ) {
                                lemma_books_accepted_at(
                                    dirs@,
                                    i as int,
                                    base@,
                                    joined(root@, "src"@),
                                    out_base@,
                                    template@,
                                );
                                assert(false);
                            }
                        }
                        return Err(e);
                    },
                };
                let ghost prior = outs@;
                outs.append(&mut pages);
                proof {
                    assert(pages_of(outs@) =~= pages_of(prior) + book_pages_one(
                        joined(base@, dirs@[i as int].name@),
                        dirs@[i as int].files@,
                        joined(root@, "src"@),
                        out_base@,
                        template@,
                    ));
                }
            }
            proof {
                assert(decreases_to!(dirs@ => dirs@[i as int]));
                assert(decreases_to!(dirs@[i as int] => dirs@[i as int].dirs));
            }
            let mut nested = match render_books(
                &dirs[i].dirs,
                path.as_str(),
                root,
                out_base,
                template,
            ) {
                Ok(v) => v,
                Err(e) => {
                    proof {
                        if books_accepted(dirs@, base@, joined(root@, "src"@), out_base@, template@) {
                            lemma_books_accepted_at(
                                dirs@,
                                i as int,
                                base@,
                                joined(root@, "src"@),
                                out_base@,
                                template@,
                            );
                            assert(false);
                        }
                    }
                    return Err(e);
                },
            };
            let ghost prior2 = outs@;
            outs.append(&mut nested);
            proof {
                assert(pages_of(outs@) =~= pages_of(prior2) + book_pages(
                    dirs@[i as int].dirs@,
                    joined(base@, dirs@[i as int].name@),
                    joined(root@, "src"@),
                    out_base@,
                    template@,
                ));
            }
        }
        proof {
            lemma_book_pages_snoc(
                dirs@.subrange(0, i as int),
                dirs@[i as int],
                base@,
                joined(root@, "src"@),
                out_base@,
                template@,
            );
            lemma_books_accepted_snoc(
                dirs@.subrange(0, i as int),
                dirs@[i as int],
                base@,
                joined(root@, "src"@),
                out_base@,
                template@,
            );
            assert(dirs@.subrange(0, i + 1 as int) =~= dirs@.subrange(0, i as int).push(
                dirs@[i as int],
            ));
            assert(book_accepted_at(
                dirs@[i as int],
                base@,
                joined(root@, "src"@),
                out_base@,
                template@,
            ));
            assert(pages_of(outs@) =~= book_pages(
                dirs@.subrange(0, i + 1 as int),
                base@,
                joined(root@, "src"@),
                out_base@,
                template@,
            ));
        }
        i = i + 1;
    }
    proof {
        assert(dirs@.subrange(0, n as int) =~= dirs@);
    }
    Ok(outs)
}

/// Runs a full build over the tree `src`, the listing of the books
/// directory under `root_dir`: discovers the summary, renders the
/// index page through the index template, and renders every book's
/// pages through the book template, all as values for the caller to
/// write. The first failure of the templating collaborator aborts the
/// build with its report.
/// A hidden or reserved-named directory leaves no trace, whatever it
/// holds: the walk yields the same nodes, the listing spells the same
/// text, and the build writes the same pages, with or without it in
/// front of its siblings.
pub proof fn lemma_filtered_dir_leaves_no_trace(
    d: Dir,
    rest: Seq<Dir>,
    level: nat,
    base: Seq<char>,
    links: Seq<Link>,
    src_base: Seq<char>,
    out_base: Seq<char>,
    tmpl: Seq<char>,
)
    requires
        !keep_dir(d),
    ensures
        links_ok(seq![d] + rest, level, base, links) == links_ok(rest, level, base, links),
        listing_of_dirs(seq![d] + rest, level, base, src_base, out_base) == listing_of_dirs(
            rest,
            level,
            base,
            src_base,
            out_base,
        ),
        book_pages(seq![d] + rest, base, src_base, out_base, tmpl) == book_pages(
            rest,
            base,
            src_base,
            out_base,
            tmpl,
        ),
{
    assert((seq![d] + rest)[0] == d);
    assert((seq![d] + rest).drop_first() =~= rest);
    assert(listing_of_dirs(seq![d] + rest, level, base, src_base, out_base) =~= listing_of_dirs(
        rest,
        level,
        base,
        src_base,
        out_base,
    ));
    assert(book_pages(seq![d] + rest, base, src_base, out_base, tmpl) =~= book_pages(
        rest,
        base,
        src_base,
        out_base,
        tmpl,
    ));
}

/// A surviving directory without the marker yields no landing page of
/// its own: the pages at it are exactly its subtree's, then its later
/// siblings'.
pub proof fn lemma_non_book_dir_has_no_page(
    d: Dir,
    rest: Seq<Dir>,
    base: Seq<char>,
    src_base: Seq<char>,
    out_base: Seq<char>,
    tmpl: Seq<char>,
)
    requires
        keep_dir(d),
        !dir_is_book(d),
    ensures
        book_pages(seq![d] + rest, base, src_base, out_base, tmpl) == book_pages(
            d.dirs@,
            joined(base, d.name@),
            src_base,
            out_base,
            tmpl,
        ) + book_pages(rest, base, src_base, out_base, tmpl),
{
    assert((seq![d] + rest)[0] == d);
    assert((seq![d] + rest).drop_first() =~= rest);
    assert(book_pages(seq![d] + rest, base, src_base, out_base, tmpl) =~= book_pages(
        d.dirs@,
        joined(base, d.name@),
        src_base,
        out_base,
        tmpl,
    ) + book_pages(rest, base, src_base, out_base, tmpl));
}

/// A surviving book directory's own pages come first: its landing
/// page and chapter pages, then its subtree's pages, then its later
/// siblings'.
pub proof fn lemma_book_dir_pages(
    d: Dir,
    rest: Seq<Dir>,
    base: Seq<char>,
    src_base: Seq<char>,
    out_base: Seq<char>,
    tmpl: Seq<char>,
)
    requires
        keep_dir(d),
        dir_is_book(d),
    ensures
        book_pages(seq![d] + rest, base, src_base, out_base, tmpl) == book_pages_one(
            joined(base, d.name@),
            d.files@,
            src_base,
            out_base,
            tmpl,
        ) + book_pages(d.dirs@, joined(base, d.name@), src_base, out_base, tmpl) + book_pages(
            rest,
            base,
            src_base,
            out_base,
            tmpl,
        ),
{
    assert((seq![d] + rest)[0] == d);
    assert((seq![d] + rest).drop_first() =~= rest);
    assert(book_pages(seq![d] + rest, base, src_base, out_base, tmpl) =~= book_pages_one(
        joined(base, d.name@),
        d.files@,
        src_base,
        out_base,
        tmpl,
    ) + book_pages(d.dirs@, joined(base, d.name@), src_base, out_base, tmpl) + book_pages(
        rest,
        base,
        src_base,
        out_base,
        tmpl,
    ));
}

/// Whether a whole build goes through: the index template accepts the
/// listing's data, and the book template accepts every book's data.
pub open spec fn build_accepted(
    root: Seq<char>,
    src: Dir,
    index_template: Seq<char>,
    book_template: Seq<char>,
) -> bool {
    &&& template_accepts(
        index_template,
        summary_json(
            html_of(
                listing_of_dirs(
                    src.dirs@,
                    0,
                    joined(root, "src"@),
                    joined(root, "src"@),
                    joined(root, "build"@),
                ),
            ),
        ),
    )
    &&& books_accepted(
        src.dirs@,
        joined(root, "src"@),
        joined(root, "src"@),
        joined(root, "build"@),
        book_template,
    )
}

/// Runs a full build over the tree `src`, the listing of the books
/// directory under `root_dir`: discovers the summary, renders the
/// index page through the index template, and renders every book's
/// pages through the book template, all as values for the caller to
/// write. The build goes through exactly when the templating
/// collaborator accepts every page's template and data; the first
/// refusal aborts it with that report.
pub fn build(root_dir: &str, src: &Dir, index_template: &str, book_template: &str) -> (r: Result<
    (Summary, Vec<OutputFile>),
    BuildError,
>)
    requires
        1 + dirs_height(src.dirs@) <= usize::MAX,
    ensures
        r is Ok <==> build_accepted(root_dir@, *src, index_template@, book_template@),
        match r {
            Ok(p) => {
                &&& p.0.root@ == root_dir@
                &&& p.0.title matches Some(t) && t@ == joined(root_dir@, "src"@)
                &&& links_ok(src.dirs@, 0, joined(root_dir@, "src"@), p.0.items@)
                &&& pages_of(p.1@) == seq![
                    (
                        joined(joined(root_dir@, "build"@), "index.html"@),
                        rendered_of(
                            index_template@,
                            summary_json(
                                html_of(
                                    listing_of_dirs(
                                        src.dirs@,
                                        0,
                                        joined(root_dir@, "src"@),
                                        joined(root_dir@, "src"@),
                                        joined(root_dir@, "build"@),
                                    ),
                                ),
                            ),
                        ),
                    ),
                ] + book_pages(
                    src.dirs@,
                    joined(root_dir@, "src"@),
                    joined(root_dir@, "src"@),
                    joined(root_dir@, "build"@),
                    book_template@,
                )
            },
            Err(e) => e is Template,
        },
{
    let books_dir = get_books_dir(root_dir);
    let build_dir = get_build_dir(root_dir);
    let summary = load_summary(root_dir, src);
    proof {
        lemma_links_ok_rooted(src.dirs@, 0, books_dir@, summary.items@, books_dir@);
    }
    let listing = make_listing(&summary.items, books_dir.as_str(), build_dir.as_str());
    proof {
        lemma_listing_matches_dirs(
            src.dirs@,
            0,
            books_dir@,
            summary.items@,
            books_dir@,
            build_dir@,
        );
    }
    let index = match render_summary(listing.as_str(), index_template, build_dir.as_str()) {
        Ok(f) => f,
        Err(e) => {
            return Err(e);
        },
    };
    let mut outs: Vec<OutputFile> = Vec::new();
    outs.push(index);
    let mut books = match render_books(
        &src.dirs,
        books_dir.as_str(),
        root_dir,
        build_dir.as_str(),
        book_template,
    ) {
        Ok(v) => v,
        Err(e) => {
            return Err(e);
        },
    };
    let ghost first = outs@;
    outs.append(&mut books);
    proof {
        assert(pages_of(outs@) =~= pages_of(first) + book_pages(
            src.dirs@,
            joined(root_dir@, "src"@),
            joined(root_dir@, "src"@),
            joined(root_dir@, "build"@),
            book_template@,
        ));
    }
    Ok((summary, outs))
}

} // verus!
