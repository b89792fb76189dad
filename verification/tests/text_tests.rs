use exe_cache::text::{contains, find, strip_prefix, trim};

#[test]
fn find_returns_the_first_occurrence() {
    assert_eq!(find("abcabc", "bc"), Some(1));
    assert_eq!(find("abcabc", "abc"), Some(0));
    assert_eq!(find("abcabc", "cab"), Some(2));
    assert_eq!(find("abcabc", "x"), None);
    assert_eq!(find("", "a"), None);
    assert_eq!(find("anything", ""), Some(0));
}

#[test]
fn contains_matches_literal_substrings() {
    assert!(contains("Program Files", "gram F"));
    assert!(!contains("Program Files", "files"));
    assert!(contains("abc", ""));
    assert!(!contains("ab", "abc"));
}

#[test]
fn trim_removes_whitespace_at_both_ends_only() {
    assert_eq!(trim("  a b  "), "a b");
    assert_eq!(trim("\t x\r\n"), "x");
    assert_eq!(trim("none"), "none");
    assert_eq!(trim("   "), "");
    assert_eq!(trim(""), "");
}

#[test]
fn strip_prefix_removes_one_leading_copy() {
    assert_eq!(strip_prefix("Name: Foo", "Name: "), "Foo");
    assert_eq!(strip_prefix("Name: Name: Foo", "Name: "), "Name: Foo");
    assert_eq!(strip_prefix("no prefix", "Name: "), "no prefix");
    assert_eq!(strip_prefix("Nam", "Name: "), "Nam");
}
