use cda::analyzer::{
    match_file_location, match_group_header, match_location_path, DuplicationAnalyzer,
    LinesAnalyzer, PmdAnalyzer,
};

#[test]
fn header_with_count() {
    assert_eq!(match_group_header("Found a 12 line (60 tokens) duplication in the following files:"), Some(12));
    assert_eq!(match_group_header("Found a 1 line duplication"), Some(1));
    assert_eq!(LinesAnalyzer::new().analyze("Found a 345 lines"), Some(345));
}

#[test]
fn header_rejects_zero_and_non_numeric() {
    assert_eq!(match_group_header("Found a 0 line duplication"), None);
    assert_eq!(match_group_header("Found a 012 line duplication"), None);
    assert_eq!(match_group_header("Found a x line duplication"), None);
    assert_eq!(match_group_header("Found a  12 line duplication"), None);
    assert_eq!(match_group_header("Found a 12 block"), None);
    assert_eq!(match_group_header(" Found a 12 line"), None);
    assert_eq!(match_group_header(""), None);
}

#[test]
fn header_count_too_large() {
    assert_eq!(match_group_header("Found a 99999999999999999999999 line"), None);
}

#[test]
fn location_with_path() {
    assert_eq!(
        match_file_location("Starting at line 3 of /repo/src/A.swift"),
        Some((3, "/repo/src/A.swift".to_string()))
    );
    assert_eq!(
        DuplicationAnalyzer::new().analyze("  Starting at line 120 of /a b/c.swift"),
        Some((120, "/a b/c.swift".to_string()))
    );
}

#[test]
fn location_takes_leftmost_match() {
    assert_eq!(
        match_file_location("x Starting at line 0 of /a Starting at line 7 of /b/c"),
        Some((7, "/b/c".to_string()))
    );
}

#[test]
fn location_with_unusable_path() {
    assert_eq!(match_file_location("Starting at line 3 of repo/A.swift"), Some((3, String::new())));
    assert_eq!(match_file_location("Starting at line 3 of /"), Some((3, String::new())));
    assert_eq!(match_file_location("Starting at line 3 of "), Some((3, String::new())));
}

#[test]
fn location_rejects_other_lines() {
    assert_eq!(match_file_location("Starting at line 0 of /a/b"), None);
    assert_eq!(match_file_location("Starting at line x of /a/b"), None);
    assert_eq!(match_file_location("Starting at line 3 in /a/b"), None);
    assert_eq!(match_file_location("Starting at line 99999999999 of /a/b"), None);
    assert_eq!(match_file_location("Found a 12 line duplication"), None);
    assert_eq!(match_file_location(""), None);
}

#[test]
fn location_path_whatever_the_start_line() {
    assert_eq!(
        match_location_path("Starting at line 99999999999 of /a/b"),
        Some("/a/b".to_string())
    );
    assert_eq!(match_location_path("Starting at line 3 of x"), Some(String::new()));
    assert_eq!(match_location_path("Starting at line 0 of /a/b"), None);
    assert_eq!(match_location_path("Found a 3 line"), None);
}
