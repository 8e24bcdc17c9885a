use bookee::Dir;
use bookee::FileEntry;
use bookee::classify::is_book_marker;
use bookee::classify::is_hidden;
use bookee::classify::is_ignored_name;

fn leaf_dir(name: &str, file_names: &[&str]) -> Dir {
    Dir {
        name: name.to_string(),
        files: file_names
            .iter()
            .map(|n| FileEntry { name: n.to_string(), content: String::new() })
            .collect(),
        dirs: Vec::new(),
    }
}

#[test]
fn hidden_names_start_with_a_dot() {
    assert!(is_hidden(".git"));
    assert!(is_hidden(".hidden.md"));
    assert!(!is_hidden("visible"));
    assert!(!is_hidden("a.hidden"));
    assert!(!is_hidden(""));
}

#[test]
fn only_the_reserved_name_is_ignored() {
    assert!(is_ignored_name("assets"));
    assert!(!is_ignored_name("Assets"));
    assert!(!is_ignored_name("assets2"));
    assert!(!is_ignored_name("asset"));
}

#[test]
fn marker_file_makes_a_book() {
    assert!(is_book_marker(&leaf_dir("b", &["README.md", "ch1.md"])));
    assert!(is_book_marker(&leaf_dir("b", &["ch1.md", "README.md"])));
    assert!(!is_book_marker(&leaf_dir("b", &["ch1.md"])));
    assert!(!is_book_marker(&leaf_dir("b", &[])));
}

#[test]
fn marker_match_is_case_sensitive_and_exact() {
    assert!(!is_book_marker(&leaf_dir("b", &["readme.md"])));
    assert!(!is_book_marker(&leaf_dir("b", &["README.MD"])));
    assert!(!is_book_marker(&leaf_dir("b", &["README.md.bak"])));
}
