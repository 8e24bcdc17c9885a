use bookee::errors::BuildError;
use bookee::paths::get_books_dir;
use bookee::paths::get_build_dir;
use bookee::paths::map_source_to_output;

#[test]
fn fixed_directories_under_the_root() {
    assert_eq!(get_books_dir("R"), "R/src");
    assert_eq!(get_build_dir("R"), "R/build");
}

#[test]
fn rooted_markdown_paths_map_to_html_paths() {
    let r = map_source_to_output("R/src/bookA/ch1.md", "R/src", "R/build").unwrap();
    assert_eq!(r, "R/build/bookA/ch1.html");
    let deep = map_source_to_output("R/src/a/b/c.md", "R/src", "R/build").unwrap();
    assert_eq!(deep, "R/build/a/b/c.html");
}

#[test]
fn the_marker_file_maps_to_the_fixed_index_name() {
    let r = map_source_to_output("R/src/bookA/README.md", "R/src", "R/build").unwrap();
    assert_eq!(r, "R/build/bookA/README.html");
}

#[test]
fn every_extension_becomes_html() {
    let r = map_source_to_output("R/src/bookA/notes.txt", "R/src", "R/build").unwrap();
    assert_eq!(r, "R/build/bookA/notes.html");
    let bare = map_source_to_output("R/src/bookA/Makefile", "R/src", "R/build").unwrap();
    assert_eq!(bare, "R/build/bookA/Makefile.html");
}

#[test]
fn mapping_a_mapped_path_onto_its_own_root_changes_nothing() {
    let once = map_source_to_output("R/src/bookA/ch1.md", "R/src", "R/build").unwrap();
    let twice = map_source_to_output(once.as_str(), "R/build", "R/build").unwrap();
    assert_eq!(once, twice);
}

#[test]
fn an_unrooted_path_is_a_path_error() {
    let r = map_source_to_output("elsewhere/ch1.md", "R/src", "R/build");
    match r {
        Err(BuildError::Path(p)) => assert_eq!(p, "elsewhere/ch1.md"),
        _ => panic!("expected a path error"),
    }
}
