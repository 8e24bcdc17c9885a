use bookee::Dir;
use bookee::FileEntry;
use bookee::summary::Link;
use bookee::summary::Summary;
use bookee::summary::load_summary;

fn file(name: &str) -> FileEntry {
    FileEntry { name: name.to_string(), content: String::new() }
}

fn tree(name: &str, files: Vec<FileEntry>, dirs: Vec<Dir>) -> Dir {
    Dir { name: name.to_string(), files, dirs }
}

fn count_nodes(links: &[Link]) -> usize {
    links.iter().map(|l| 1 + count_nodes(&l.nested_items)).sum()
}

#[test]
fn one_node_per_directory_when_nothing_is_filtered() {
    let src = tree(
        "src",
        vec![],
        vec![
            tree("a", vec![], vec![tree("a1", vec![], vec![]), tree("a2", vec![], vec![])]),
            tree("b", vec![], vec![tree("b1", vec![], vec![tree("b1x", vec![], vec![])])]),
        ],
    );
    let s = load_summary("R", &src);
    assert_eq!(count_nodes(&s.items), 6);
}

#[test]
fn book_status_follows_the_marker_file() {
    let src = tree(
        "src",
        vec![],
        vec![
            tree("with", vec![file("README.md")], vec![]),
            tree("without", vec![file("readme.md")], vec![]),
        ],
    );
    let s = load_summary("R", &src);
    assert_eq!(s.items.len(), 2);
    assert!(s.items[0].is_book);
    assert!(!s.items[1].is_book);
}

#[test]
fn renaming_the_marker_removes_book_status() {
    let named = tree("src", vec![], vec![tree("b", vec![file("README.md")], vec![])]);
    let renamed = tree("src", vec![], vec![tree("b", vec![file("INDEX.md")], vec![])]);
    assert!(load_summary("R", &named).items[0].is_book);
    assert!(!load_summary("R", &renamed).items[0].is_book);
}

#[test]
fn levels_grow_by_one_per_nesting_step() {
    let src = tree(
        "src",
        vec![],
        vec![tree("outer", vec![], vec![tree("mid", vec![], vec![tree("deep", vec![], vec![])])])],
    );
    let s = load_summary("R", &src);
    assert_eq!(s.items[0].level, 0);
    assert_eq!(s.items[0].nested_items[0].level, 1);
    assert_eq!(s.items[0].nested_items[0].nested_items[0].level, 2);
}

#[test]
fn hidden_and_reserved_directories_yield_no_node() {
    let src = tree(
        "src",
        vec![],
        vec![
            tree("kept", vec![], vec![]),
            tree(".git", vec![], vec![]),
            tree("assets", vec![], vec![]),
        ],
    );
    let s = load_summary("R", &src);
    assert_eq!(s.items.len(), 1);
    assert_eq!(s.items[0].name, "kept");
}

#[test]
fn paths_and_title_are_rooted_at_the_books_directory() {
    let src = tree("src", vec![], vec![tree("bookA", vec![], vec![])]);
    let s = load_summary("R", &src);
    assert_eq!(s.root, "R");
    assert_eq!(s.title.as_deref(), Some("R/src"));
    assert_eq!(s.items[0].path, "R/src/bookA");
}

#[test]
fn files_at_a_level_yield_no_node() {
    let src = tree("src", vec![file("stray.md")], vec![tree("bookA", vec![], vec![])]);
    let s = load_summary("R", &src);
    assert_eq!(s.items.len(), 1);
}

#[test]
fn iteration_is_depth_first_pre_order() {
    let src = tree(
        "src",
        vec![],
        vec![
            tree("a", vec![], vec![tree("a1", vec![], vec![]), tree("a2", vec![], vec![])]),
            tree("b", vec![], vec![]),
        ],
    );
    let s = load_summary("R", &src);
    let mut it = s.iter();
    let mut names: Vec<String> = Vec::new();
    while let Some(l) = it.next() {
        names.push(l.name.clone());
    }
    assert_eq!(names, vec!["a", "a1", "a2", "b"]);
}

#[test]
fn empty_summary_has_nothing() {
    let s = Summary::new();
    assert!(s.title.is_none());
    assert_eq!(s.items.len(), 0);
    let mut it = s.iter();
    assert!(it.next().is_none());
}

#[test]
fn new_link_is_a_bare_node() {
    let l = Link::new("n".to_string(), "p".to_string());
    assert_eq!(l.name, "n");
    assert_eq!(l.path, "p");
    assert!(!l.is_book);
    assert_eq!(l.level, 0);
    assert!(l.nested_items.is_empty());
}

#[test]
fn default_link_is_empty() {
    let l = Link::default();
    assert_eq!(l.name, "");
    assert_eq!(l.path, "");
    assert!(!l.is_book);
    assert_eq!(l.level, 0);
    assert!(l.nested_items.is_empty());
}

#[test]
fn only_the_exact_reserved_name_is_filtered() {
    let src = tree(
        "src",
        vec![],
        vec![tree("assets.old", vec![], vec![]), tree("assets", vec![], vec![])],
    );
    let s = load_summary("R", &src);
    assert_eq!(s.items.len(), 1);
    assert_eq!(s.items[0].name, "assets");
    assert_eq!(s.items[0].path, "R/src/assets.old");
}
