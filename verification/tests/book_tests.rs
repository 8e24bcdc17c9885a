use bookee::Dir;
use bookee::FileEntry;
use bookee::book::Book;
use bookee::book::Chapter;
use bookee::book::chapter_texts;
use bookee::book::find_marker_text;
use bookee::book::load_book;

fn entry(name: &str, content: &str) -> FileEntry {
    FileEntry { name: name.to_string(), content: content.to_string() }
}

fn listing(files: Vec<FileEntry>) -> Dir {
    Dir { name: "bookA".to_string(), files, dirs: Vec::new() }
}

#[test]
fn chapters_keep_directory_listing_order() {
    let d = listing(vec![entry("zeta.md", ""), entry("alpha.md", ""), entry("mid.md", "")]);
    let b = load_book("R/src/bookA", &d);
    let names: Vec<&str> = b.chapters.iter().map(|c| c.name.as_str()).collect();
    assert_eq!(names, vec!["zeta", "alpha", "mid"]);
}

#[test]
fn marker_and_hidden_files_are_no_chapters() {
    let d = listing(vec![
        entry("README.md", "# t"),
        entry(".secret.md", ""),
        entry("ch1.md", ""),
        entry("ReadMe.md", ""),
        entry("readme.txt", ""),
    ]);
    let b = load_book("R/src/bookA", &d);
    let names: Vec<&str> = b.chapters.iter().map(|c| c.name.as_str()).collect();
    assert_eq!(names, vec!["ch1"]);
}

#[test]
fn book_fields_come_from_the_directory() {
    let d = listing(vec![entry("ch1.md", "")]);
    let b = load_book("R/src/bookA", &d);
    assert_eq!(b.name, "bookA");
    assert_eq!(b.root, "R/src/bookA");
    assert_eq!(b.chapters[0].path, "R/src/bookA/ch1.md");
}

#[test]
fn subdirectories_are_not_chapters() {
    let mut d = listing(vec![entry("ch1.md", "")]);
    d.dirs.push(Dir { name: "inner".to_string(), files: vec![], dirs: vec![] });
    let b = load_book("R/src/bookA", &d);
    assert_eq!(b.chapters.len(), 1);
}

#[test]
fn marker_text_is_the_marker_files_content() {
    let with = listing(vec![entry("ch1.md", "one"), entry("README.md", "# hello")]);
    let without = listing(vec![entry("ch1.md", "one")]);
    assert_eq!(find_marker_text(&with).as_deref(), Some("# hello"));
    assert!(find_marker_text(&without).is_none());
}

#[test]
fn chapter_texts_align_with_chapters() {
    let d = listing(vec![
        entry("README.md", "ignored"),
        entry("a.md", "text a"),
        entry(".h.md", "hidden"),
        entry("b.md", "text b"),
    ]);
    let texts = chapter_texts(&d);
    assert_eq!(texts, vec!["text a".to_string(), "text b".to_string()]);
}

#[test]
fn book_iterator_yields_chapters_in_order() {
    let d = listing(vec![entry("a.md", ""), entry("b.md", "")]);
    let b = load_book("R/src/bookA", &d);
    let mut it = b.iter();
    assert_eq!(it.next().map(|c| c.name.as_str()), Some("a"));
    assert_eq!(it.next().map(|c| c.name.as_str()), Some("b"));
    assert!(it.next().is_none());
}

#[test]
fn empty_book_and_new_chapter() {
    let b = Book::new();
    assert_eq!(b.name, "");
    assert!(b.chapters.is_empty());
    let c = Chapter::new("n", "p".to_string());
    assert_eq!(c.name, "n");
    assert_eq!(c.path, "p");
}
