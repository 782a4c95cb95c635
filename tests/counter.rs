use cda::counter::{is_included, Lang, Scanner, SourceCode};

fn file(path: &str, lines: usize) -> SourceCode {
    SourceCode { file: path.to_string(), lines }
}

#[test]
fn lang() {
    assert!(Lang::Swift.lang() == "swift");
}

#[test]
fn lang_names_and_extensions() {
    assert_eq!(Lang::Kotlin.lang(), "kotlin");
    assert_eq!(Lang::Kotlin.extension(), "kt");
    assert_eq!(Lang::Rust.extension(), "rs");
    assert_eq!(Lang::from_name("java"), Some(Lang::Java));
    assert_eq!(Lang::from_name("kotlin"), Some(Lang::Kotlin));
    assert_eq!(Lang::from_name("kt"), None);
    assert_eq!(Lang::from_name(""), None);
}

#[test]
fn source_code_emptiness() {
    assert!(SourceCode::new().is_empty());
    assert_eq!(SourceCode::new().lines, 0);
    assert!(!file("/a.swift", 3).is_empty());
}

#[test]
fn extension_matching() {
    assert!(is_included("/repo/src/A.swift", &[Lang::Swift]));
    assert!(is_included("/repo/src/A.kt", &[Lang::Swift, Lang::Kotlin]));
    assert!(!is_included("/repo/src/A.swift", &[Lang::Java]));
    assert!(!is_included("/repo/src/.swift", &[Lang::Swift]));
    assert!(!is_included("/repo/src/Aswift", &[Lang::Swift]));
    assert!(!is_included("/repo/src/A.swift.bak", &[Lang::Swift]));
    assert!(!is_included("/repo/src/A.swift", &[]));
}

#[test]
fn scanner_keeps_matching_files_in_order() {
    let files = vec![
        file("/r/b.swift", 10),
        file("/r/readme.md", 99),
        file("/r/a.swift", 5),
        file("/r/c.java", 7),
    ];
    let s = Scanner::scan(&files, &[Lang::Swift]);
    assert_eq!(s.num_of_files(), 2);
    assert_eq!(s.source_codes()[0].file, "/r/b.swift");
    assert_eq!(s.source_codes()[1].file, "/r/a.swift");
    assert_eq!(s.all_lines(), 15);
}

#[test]
fn scanner_of_nothing() {
    let s = Scanner::scan(&[], &[Lang::Swift]);
    assert_eq!(s.num_of_files(), 0);
    assert_eq!(s.all_lines(), 0);
}

#[test]
fn scanner_listing_text() {
    let files = vec![file("/r/bb.swift", 10), file("/r/a.swift", 5), file("/r/c.swift", 0)];
    let s = Scanner::scan(&files, &[Lang::Swift]);
    assert_eq!(
        s.pretty_printed(),
        "\n/r/bb.swift\t10\n/r/a.swift \t5\n/r/c.swift \t0\n"
    );
    assert_eq!(Scanner::scan(&[], &[Lang::Swift]).pretty_printed(), "\n");
}
