use bookee::Dir;
use bookee::FileEntry;
use bookee::book::Book;
use bookee::book::load_book;
use bookee::summary::load_summary;
use bookee::errors::BuildError;
use bookee::render::RenderContext;
use bookee::render::build;
use bookee::render::make_book_data;
use bookee::render::make_listing;
use bookee::render::make_summary_data;
use bookee::render::render_markdown;
use bookee::render::render_summary;

const INDEX_TPL: &str = "<html>{{{summary}}}</html>";
const BOOK_TPL: &str = "{{#if content}}{{{content}}}{{else}}<h1>{{name}}</h1>{{/if}}\
<ul>{{#each chapters}}<li><a href=\"{{path}}\">{{name}}</a></li>{{/each}}</ul>";

fn f(name: &str, content: &str) -> FileEntry {
    FileEntry { name: name.to_string(), content: content.to_string() }
}

fn d(name: &str, files: Vec<FileEntry>, dirs: Vec<Dir>) -> Dir {
    Dir { name: name.to_string(), files, dirs }
}

#[test]
fn markdown_becomes_html() {
    assert_eq!(render_markdown("# Hello"), "<h1>Hello</h1>\n");
    assert_eq!(render_markdown("hi"), "<p>hi</p>\n");
    assert_eq!(render_markdown(""), "");
}

#[test]
fn markdown_link_targets_lose_the_md_extension() {
    assert_eq!(render_markdown("[next](ch1.md)"), "<p><a href=\"ch1.html\">next</a></p>\n");
    assert_eq!(render_markdown("[out](http://x/y.md)"), "<p><a href=\"http://x/y.html\">out</a></p>\n");
    assert_eq!(render_markdown("[keep](ch1.html)"), "<p><a href=\"ch1.html\">keep</a></p>\n");
}

#[test]
fn summary_data_frames_the_rendered_listing() {
    assert_eq!(make_summary_data("hi"), "{\"summary\":\"<p>hi</p>\\u000a\"}");
}

#[test]
fn index_page_lands_at_index_html() {
    let page = render_summary("hi", "<x>{{{summary}}}</x>", "R/build").unwrap();
    assert_eq!(page.path, "R/build/index.html");
    assert_eq!(page.content, "<x><p>hi</p>\n</x>");
}

#[test]
fn a_malformed_template_is_a_template_error() {
    match render_summary("hi", "{{#if}}", "R/build") {
        Err(BuildError::Template(_)) => {},
        _ => panic!("expected a template error"),
    }
}

#[test]
fn book_data_uses_the_marker_content_when_present() {
    let listing = d("bookA", vec![f("README.md", "# T"), f("a.md", "x")], vec![]);
    let book = load_book("R/src/bookA", &listing);
    let marker = Some("# T".to_string());
    let data = make_book_data(&book, &marker, "R/src", "R/build");
    assert_eq!(
        data,
        "{\"content\":\"<h1>T</h1>\\u000a\",\"chapters\":[{\"name\":\"a\",\"path\":\"R/build/bookA/a.html\"}]}"
    );
}

#[test]
fn book_data_falls_back_to_the_name() {
    let listing = d("bookA", vec![f("a.md", "x"), f("b.md", "y")], vec![]);
    let book = load_book("R/src/bookA", &listing);
    let data = make_book_data(&book, &None, "R/src", "R/build");
    assert_eq!(
        data,
        "{\"name\":\"bookA\",\"chapters\":[{\"name\":\"a\",\"path\":\"R/build/bookA/a.html\"},{\"name\":\"b\",\"path\":\"R/build/bookA/b.html\"}]}"
    );
}

#[test]
fn render_context_carries_its_parts() {
    let ctx = RenderContext::new("R".to_string(), Book::new(), "R/build".to_string());
    assert_eq!(ctx.root, "R");
    assert_eq!(ctx.destination, "R/build");
    assert_eq!(ctx.source_dir(), "R/");
}

#[test]
fn full_build_renders_index_book_and_chapter_pages() {
    let src = d(
        "src",
        vec![],
        vec![d("bookA", vec![f("README.md", "# Hello"), f("ch1.md", "[next](ch1.md)")], vec![])],
    );
    let (summary, files) = build("R", &src, INDEX_TPL, BOOK_TPL).unwrap();
    assert_eq!(summary.items.len(), 1);
    assert!(summary.items[0].is_book);

    assert_eq!(files.len(), 3);
    assert_eq!(files[0].path, "R/build/index.html");
    assert!(files[0].content.contains("R/build/bookA/README.html"));

    assert_eq!(files[1].path, "R/build/bookA/README.html");
    assert!(files[1].content.contains("<h1>Hello</h1>"));
    assert!(files[1].content.contains("R/build/bookA/ch1.html"));

    assert_eq!(files[2].path, "R/build/bookA/ch1.html");
    assert_eq!(files[2].content, "<p><a href=\"ch1.html\">next</a></p>\n");
}

#[test]
fn an_assets_directory_leaves_no_trace() {
    let src = d(
        "src",
        vec![],
        vec![
            d("bookA", vec![f("README.md", "# A")], vec![]),
            d("assets", vec![f("logo.md", "x")], vec![]),
        ],
    );
    let (summary, files) = build("R", &src, INDEX_TPL, BOOK_TPL).unwrap();
    assert_eq!(summary.items.len(), 1);
    assert!(!files[0].content.contains("assets"));
    assert!(files.iter().all(|p| !p.path.contains("assets")));
}

#[test]
fn nested_books_render_only_the_inner_book_page() {
    let src = d(
        "src",
        vec![],
        vec![d("outer", vec![], vec![d("inner", vec![f("README.md", "# I")], vec![])])],
    );
    let (summary, files) = build("R", &src, INDEX_TPL, BOOK_TPL).unwrap();
    assert_eq!(summary.items.len(), 1);
    assert!(!summary.items[0].is_book);
    assert_eq!(summary.items[0].level, 0);
    let inner = &summary.items[0].nested_items[0];
    assert!(inner.is_book);
    assert_eq!(inner.level, 1);

    assert_eq!(files.len(), 2);
    assert_eq!(files[0].path, "R/build/index.html");
    assert_eq!(files[1].path, "R/build/outer/inner/README.html");
    assert!(files[1].content.contains("<h1>I</h1>"));
}

#[test]
fn the_listing_indents_by_level_and_links_only_books() {
    let src = d(
        "src",
        vec![],
        vec![d("outer", vec![], vec![d("inner", vec![f("README.md", "# I")], vec![])])],
    );
    let (_, files) = build("R", &src, "{{{summary}}}", BOOK_TPL).unwrap();
    let index = &files[0].content;
    assert!(index.contains("outer"));
    assert!(index.contains("R/build/outer/inner/README.html"));
    assert!(!index.contains("R/build/outer/README.html"));
}

#[test]
fn a_bad_book_template_aborts_the_build() {
    let src = d("src", vec![], vec![d("bookA", vec![f("README.md", "# A")], vec![])]);
    match build("R", &src, INDEX_TPL, "{{#each}}") {
        Err(BuildError::Template(_)) => {},
        _ => panic!("expected a template error"),
    }
}

#[test]
fn the_listing_text_is_exact() {
    let src = d(
        "src",
        vec![],
        vec![
            d("bookA", vec![f("README.md", "# A")], vec![]),
            d("outer", vec![], vec![d("inner", vec![f("README.md", "# I")], vec![])]),
        ],
    );
    let s = load_summary("R", &src);
    let listing = make_listing(&s.items, "R/src", "R/build");
    assert_eq!(
        listing,
        "- [bookA](R/build/bookA/README.html)\n\
         - outer\n  - [inner](R/build/outer/inner/README.html)\n"
    );
}

#[test]
fn non_markdown_chapters_land_at_html_paths() {
    let src = d(
        "src",
        vec![],
        vec![d("bookA", vec![f("README.md", "# A"), f("notes.txt", "plain notes")], vec![])],
    );
    let (_, files) = build("R", &src, INDEX_TPL, BOOK_TPL).unwrap();
    assert_eq!(files.len(), 3);
    assert_eq!(files[2].path, "R/build/bookA/notes.html");
    assert!(files[1].content.contains("R/build/bookA/notes.html"));
}
