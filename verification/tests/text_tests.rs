use bookee::text::base_name;
use bookee::text::file_stem;
use bookee::text::join_path;
use bookee::text::json_escape_str;
use bookee::text::rewrite_md_suffix;
use bookee::text::str_eq;
use bookee::text::str_eq_icase;
use bookee::text::str_has_prefix;
use bookee::text::str_has_suffix;

#[test]
fn stems_cut_at_the_last_dot() {
    assert_eq!(file_stem("ch1.md"), "ch1");
    assert_eq!(file_stem("a.b.c"), "a.b");
    assert_eq!(file_stem("plain"), "plain");
    assert_eq!(file_stem(".hidden"), ".hidden");
    assert_eq!(file_stem(".hidden.md"), ".hidden");
    assert_eq!(file_stem("trailing."), "trailing");
}

#[test]
fn base_name_is_the_last_component() {
    assert_eq!(base_name("a/b/c.md"), "c.md");
    assert_eq!(base_name("c.md"), "c.md");
    assert_eq!(base_name("a/"), "");
}

#[test]
fn join_uses_one_separator() {
    assert_eq!(join_path("root", "src"), "root/src");
    assert_eq!(join_path("root/src", "bookA"), "root/src/bookA");
}

#[test]
fn string_comparisons() {
    assert!(str_eq("abc", "abc"));
    assert!(!str_eq("abc", "abd"));
    assert!(str_eq_icase("ReadMe", "readme"));
    assert!(str_eq_icase("README", "readme"));
    assert!(!str_eq_icase("readm", "readme"));
    assert!(!str_eq_icase("readmx", "readme"));
    assert!(str_has_prefix("root/src/a", "root/src/"));
    assert!(!str_has_prefix("root/sr", "root/src/"));
    assert!(str_has_suffix("ch1.md", ".md"));
    assert!(!str_has_suffix("ch1.html", ".md"));
    assert!(!str_has_suffix("md", ".md"));
}

#[test]
fn rewriting_touches_only_a_final_md() {
    assert_eq!(rewrite_md_suffix("ch1.md"), "ch1.html");
    assert_eq!(rewrite_md_suffix("README.md"), "README.html");
    assert_eq!(rewrite_md_suffix("ch1.html"), "ch1.html");
    assert_eq!(rewrite_md_suffix("notes.txt"), "notes.txt");
    assert_eq!(rewrite_md_suffix("md"), "md");
    assert_eq!(rewrite_md_suffix("a.md.md"), "a.md.html");
    assert_eq!(rewrite_md_suffix(""), "");
}

#[test]
fn rewriting_twice_is_rewriting_once() {
    for s in ["ch1.md", "ch1.html", "notes.txt", "", "a.md.md"] {
        let once = rewrite_md_suffix(s);
        let twice = rewrite_md_suffix(once.as_str());
        assert_eq!(once, twice);
    }
}

#[test]
fn json_escaping() {
    assert_eq!(json_escape_str("plain"), "plain");
    assert_eq!(json_escape_str("a\"b"), "a\\\"b");
    assert_eq!(json_escape_str("a\\b"), "a\\\\b");
    assert_eq!(json_escape_str("a\nb"), "a\\u000ab");
    assert_eq!(json_escape_str("\t"), "\\u0009");
    assert_eq!(json_escape_str("é<>&"), "é<>&");
}
