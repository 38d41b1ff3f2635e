use iumenu::text::{
    ends_with_str, find_str, remove_all_str, split_whitespace, str_equals, trim_matches_str,
    trim_str,
};

#[test]
fn trim_removes_surrounding_white_space() {
    assert_eq!(trim_str("  a b \t\n"), "a b");
    assert_eq!(trim_str("\u{3000}x\u{a0}\u{2028}"), "x");
    assert_eq!(trim_str(" \t "), "");
    assert_eq!(trim_str(""), "");
}

#[test]
fn trim_twice_is_trim_once() {
    let once = trim_str("\n  launcher --flag \t");
    assert_eq!(trim_str(&once), once);
}

#[test]
fn split_whitespace_yields_words_in_order() {
    assert_eq!(split_whitespace("  ls -la\t/tmp \n"), vec!["ls", "-la", "/tmp"]);
    assert!(split_whitespace("").is_empty());
    assert!(split_whitespace(" \u{2003} ").is_empty());
    assert_eq!(split_whitespace("a\u{3000}b"), vec!["a", "b"]);
}

#[test]
fn remove_all_takes_non_overlapping_matches_from_the_left() {
    assert_eq!(remove_all_str("a%Ub%Uc", "%U"), "abc");
    assert_eq!(remove_all_str("%%UU", "%U"), "%U");
    assert_eq!(remove_all_str("aaa", "aa"), "a");
    assert_eq!(remove_all_str("", "%U"), "");
}

#[test]
fn find_locates_first_occurrence() {
    assert_eq!(find_str("abc.exe x.exe", ".exe"), Some(3));
    assert_eq!(find_str("abc", ".exe"), None);
    assert_eq!(find_str("é,x", ","), Some(1));
}

#[test]
fn ends_with_and_equality() {
    assert!(ends_with_str("c:\\app.exe", ".exe"));
    assert!(!ends_with_str("exe", ".exe"));
    assert!(str_equals("toggle", "toggle"));
    assert!(!str_equals("toggle", "toggles"));
}

#[test]
fn trim_matches_strips_every_copy_at_both_ends() {
    assert_eq!(trim_matches_str("\"\"a\"b\"\"", '"'), "a\"b");
    assert_eq!(trim_matches_str("\"\"\"", '"'), "");
    assert_eq!(trim_matches_str("plain", '"'), "plain");
}
