use azst::glob::{contains_recursive_wildcard, matches_pattern, pattern_depth, split_wildcard_path};

#[test]
fn single_star_stays_in_one_segment() {
    assert!(matches_pattern("a/b.txt", "a/*.txt"));
    assert!(!matches_pattern("a/b/c.txt", "a/*.txt"));
}

#[test]
fn double_star_crosses_segments() {
    assert!(matches_pattern("a/b/c.txt", "a/**/*.txt"));
    assert!(matches_pattern("a/c.txt", "a/**/*.txt"));
    assert!(matches_pattern("a/x/y/z/c.txt", "a/**/*.txt"));
    assert!(!matches_pattern("b/c.txt", "a/**/*.txt"));
    assert!(matches_pattern("a/b/c", "a/**"));
}

#[test]
fn question_mark_is_one_character() {
    assert!(matches_pattern("ax", "a?"));
    assert!(!matches_pattern("abc", "a?"));
    assert!(!matches_pattern("a/", "a?"));
    assert!(!matches_pattern("a", "a?"));
}

#[test]
fn literal_characters_match_themselves() {
    assert!(matches_pattern("", ""));
    assert!(!matches_pattern("a", ""));
    assert!(!matches_pattern("photos/2024/", "*/*"));
    assert!(!matches_pattern("photos/2024/a.jpg/", "*/*"));
    assert!(matches_pattern("2024/", "*/*"));
}

#[test]
fn depth_counts_split_pieces() {
    assert_eq!(pattern_depth("*.txt"), Some(1));
    assert_eq!(pattern_depth("a/*/c"), Some(3));
    assert_eq!(pattern_depth("*/"), Some(2));
    assert_eq!(pattern_depth("a//b"), Some(3));
    assert_eq!(pattern_depth(""), Some(1));
    for p in ["x", "x/y", "*/y/z?", "/a/", "a/b/c/d"] {
        assert_eq!(pattern_depth(p), Some(p.split('/').count()));
    }
    assert_eq!(pattern_depth("a/**/b"), None);
    assert_eq!(pattern_depth("**"), None);
}

#[test]
fn recursive_marker_detection() {
    assert!(contains_recursive_wildcard("a/**/b"));
    assert!(contains_recursive_wildcard("**"));
    assert!(!contains_recursive_wildcard("a/*/b*"));
    assert!(!contains_recursive_wildcard(""));
}

#[test]
fn wildcard_split_points() {
    assert_eq!(split_wildcard_path("photos/2024/a.jpg"), None);
    assert_eq!(
        split_wildcard_path("photos/*/"),
        Some(("photos/".to_string(), "*/".to_string()))
    );
    assert_eq!(
        split_wildcard_path("photos/20?4/x/*.jpg"),
        Some(("photos/".to_string(), "20?4/x/*.jpg".to_string()))
    );
    assert_eq!(
        split_wildcard_path("*.txt"),
        Some(("".to_string(), "*.txt".to_string()))
    );
    assert_eq!(
        split_wildcard_path("a/b/c*"),
        Some(("a/b/".to_string(), "c*".to_string()))
    );
}
