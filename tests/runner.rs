use cda::counter::SourceCode;
use cda::runner::{line_count_of, Args, CpdOutcome, Duplication, Rate, Runner};

fn file(path: &str, lines: usize) -> SourceCode {
    SourceCode { file: path.to_string(), lines }
}

fn args(source: &str, destination: &str) -> Args {
    Args {
        root: "/repo".to_string(),
        source: source.to_string(),
        destination: destination.to_string(),
        language: "swift".to_string(),
        minimum_tokens: 50,
    }
}

fn report(lines: &[&str]) -> Vec<String> {
    lines.iter().map(|l| l.to_string()).collect()
}

/// The text of the crate's own `Cargo.toml`.
const CARGO_TOML: &str = "[package]\nname = \"cda\"\nversion = \"0.1.0\"\nedition = \"2021\"\npublish = false\n\n[dependencies]\nclap = { version = \"4\", features = [\"derive\"] }\n\n[dev-dependencies]\n";

fn lines_of(text: &str) -> Vec<String> {
    text.lines().map(|l| l.to_string()).collect()
}

fn as_f64(r: Rate) -> f64 {
    r.num as f64 / r.den as f64
}

#[test]
fn count_lines() {
    assert!(cda::runner::count_lines(&lines_of(CARGO_TOML), true) == 8);
    assert!(cda::runner::count_lines(&lines_of(CARGO_TOML), false) == 10);
}

#[test]
fn count_lines_of_text() {
    let lines = report(&["a", "", "b", " ", ""]);
    assert_eq!(cda::runner::count_lines(&lines, true), 3);
    assert_eq!(cda::runner::count_lines(&lines, false), 5);
    assert_eq!(cda::runner::count_lines(&[], true), 0);
}

#[test]
fn known_line_counts() {
    let files = vec![file("/a", 3), file("/b", 4), file("/a", 9)];
    assert_eq!(line_count_of(&files, &"/a".to_string()), 3);
    assert_eq!(line_count_of(&files, &"/b".to_string()), 4);
    assert_eq!(line_count_of(&files, &"/c".to_string()), 0);
}

#[test]
fn destination_segment() {
    assert_eq!(args("src", "/repo/dest").destination_name(), Some("dest".to_string()));
    assert_eq!(args("src", "/repo/dest//").destination_name(), Some("dest".to_string()));
    assert_eq!(args("src", "dest").destination_name(), Some("dest".to_string()));
    assert_eq!(args("src", "/").destination_name(), None);
    assert_eq!(args("src", "").destination_name(), None);
    assert_eq!(args("src", "/repo/dest/.").destination_name(), Some("dest".to_string()));
    assert_eq!(args("src", "a/./").destination_name(), Some("a".to_string()));
    assert_eq!(args("src", "./a").destination_name(), Some("a".to_string()));
    assert_eq!(args("src", "/repo/..").destination_name(), None);
    assert_eq!(args("src", "..").destination_name(), None);
    assert_eq!(args("src", ".").destination_name(), None);
    assert_eq!(args("src", "./").destination_name(), None);
    assert_eq!(args("src", "/repo/...").destination_name(), Some("...".to_string()));
    assert_eq!(args("src", "/repo/.x").destination_name(), Some(".x".to_string()));
}

#[test]
fn destination_files() {
    let a = args("/repo/src", "/repo/dest/");
    assert!(a.is_destination_soruce_file("/repo/dest/B.swift"));
    assert!(a.is_destination_soruce_file("/other/dest/sub/B.swift"));
    assert!(!a.is_destination_soruce_file("/repo/destination/B.swift"));
    assert!(!a.is_destination_soruce_file("/repo/src/dest"));
    assert!(args("/repo/src", "/repo/dest/.").is_destination_soruce_file("/repo/dest/B.swift"));
    assert!(!args("/repo/src", "/repo/dest/.").is_destination_soruce_file("/repo/./B.swift"));
    assert!(args("/repo/src", "a.b").is_destination_soruce_file("/x/a.b/y"));
    assert!(!args("/repo/src", "a.b").is_destination_soruce_file("/x/axb/y"));
}

#[test]
fn exit_status_outcomes() {
    assert_eq!(Runner::outcome_of(0), CpdOutcome::NoDuplicates);
    assert_eq!(Runner::outcome_of(4), CpdOutcome::Duplicates);
    assert_eq!(Runner::outcome_of(1), CpdOutcome::Failed);
    assert_eq!(Runner::outcome_of(-1), CpdOutcome::Failed);
}

#[test]
fn clamped_rates() {
    assert_eq!(Rate::clamped(12, 40), Rate { num: 12, den: 40 });
    assert_eq!(Rate::clamped(50, 40), Rate { num: 1, den: 1 });
    assert_eq!(Rate::clamped(40, 40), Rate { num: 1, den: 1 });
    assert_eq!(Rate::clamped(5, 0), Rate { num: 1, den: 1 });
    assert_eq!(Rate::clamped(0, 0), Rate { num: 0, den: 1 });
    assert_eq!(Rate::clamped(0, 7), Rate { num: 0, den: 1 });
}

#[test]
fn duplication_edits() {
    let mut d = Duplication::new(7);
    assert_eq!(d.lines, 7);
    assert!(d.source.is_empty());
    d.add_destination(file("/d/x", 20));
    d.add_destination(file("/d/y", 30));
    assert_eq!(d.destination.len(), 2);
    assert_eq!(as_f64(d.dup_rate()), 7.0 / 20.0);
    d.add_lines(3);
    assert_eq!(d.lines, 10);
    d.clear_destination();
    assert!(d.destination.is_empty());
    assert_eq!(d.dup_rate(), Rate { num: 0, den: 1 });
}

#[test]
fn rates_never_exceed_one() {
    let mut d = Duplication::new(500);
    d.source = file("/s/a", 40);
    d.add_destination(file("/d/b", 60));
    assert_eq!(d.rate_of_source_code(), Rate { num: 1, den: 1 });
    assert_eq!(d.dup_rate(), Rate { num: 1, den: 1 });
}

#[test]
fn scenario_single_group() {
    let lines = report(&[
        "Found a 12 line duplication",
        "Starting at line 3 of /repo/src/A.swift",
        "Starting at line 3 of /repo/dest/B.swift",
        "",
    ]);
    let files = vec![file("/repo/src/A.swift", 40), file("/repo/dest/B.swift", 60)];
    let a = args("/repo/src", "/repo/dest");
    let groups = Runner::analyze(&lines, &a, &files);
    assert_eq!(groups.len(), 1);
    let records = Runner::aggregate(&groups).unwrap();
    assert_eq!(records.len(), 1);
    let r = &records[0];
    assert_eq!(r.source.file, "/repo/src/A.swift");
    assert_eq!(r.source.lines, 40);
    assert_eq!(r.destination[0].file, "/repo/dest/B.swift");
    assert_eq!(r.lines, 12);
    assert_eq!(r.rate_of_source_code(), Rate { num: 12, den: 40 });
    assert!((as_f64(r.rate_of_source_code()) - 0.30).abs() < 1e-9);
    assert_eq!(r.dup_rate(), Rate { num: 12, den: 60 });
    assert!((as_f64(r.dup_rate()) - 0.20).abs() < 1e-9);
}

#[test]
fn scenario_two_groups_one_source() {
    let lines = report(&[
        "Found a 10 line duplication",
        "Starting at line 3 of /repo/src/A.swift",
        "Starting at line 9 of /repo/dest/B.swift",
        "",
        "Found a 15 line duplication",
        "Starting at line 30 of /repo/src/A.swift",
        "Starting at line 1 of /repo/dest/C.swift",
        "",
    ]);
    let files = vec![
        file("/repo/src/A.swift", 100),
        file("/repo/dest/B.swift", 50),
        file("/repo/dest/C.swift", 80),
    ];
    let groups = Runner::analyze(&lines, &args("/repo/src", "/repo/dest"), &files);
    assert_eq!(groups.len(), 2);
    let records = Runner::aggregate(&groups).unwrap();
    assert_eq!(records.len(), 1);
    assert_eq!(records[0].lines, 25);
    assert_eq!(records[0].destination.len(), 1);
    assert_eq!(records[0].destination[0].file, "/repo/dest/B.swift");
    assert_eq!(records[0].destination[0].lines, 50);
    assert_eq!(records[0].dup_rate(), Rate { num: 25, den: 50 });
}

#[test]
fn scenario_unrelated_file_clears_destinations() {
    let lines = report(&[
        "Found a 12 line duplication",
        "Starting at line 3 of /repo/src/A.swift",
        "Starting at line 3 of /repo/dest/B.swift",
        "Starting at line 8 of /repo/other/X.swift",
        "",
    ]);
    let files = vec![file("/repo/src/A.swift", 40), file("/repo/dest/B.swift", 60)];
    let groups = Runner::analyze(&lines, &args("/repo/src", "/repo/dest"), &files);
    assert_eq!(groups.len(), 1);
    assert!(groups[0].destination.is_empty());
    let records = Runner::aggregate(&groups).unwrap();
    assert!(records.is_empty());
}

#[test]
fn destination_after_clearing_is_kept() {
    let lines = report(&[
        "Found a 12 line duplication",
        "Starting at line 3 of /repo/src/A.swift",
        "Starting at line 3 of /repo/dest/B.swift",
        "Starting at line 8 of /repo/other/X.swift",
        "Starting at line 5 of /repo/dest/C.swift",
        "",
    ]);
    let files = vec![file("/repo/dest/C.swift", 24)];
    let groups = Runner::analyze(&lines, &args("/repo/src", "/repo/dest"), &files);
    let records = Runner::aggregate(&groups).unwrap();
    assert_eq!(records.len(), 1);
    assert_eq!(records[0].destination[0].file, "/repo/dest/C.swift");
    assert_eq!(records[0].source.lines, 0);
    assert_eq!(records[0].rate_of_source_code(), Rate { num: 1, den: 1 });
    assert_eq!(records[0].dup_rate(), Rate { num: 12, den: 24 });
}

#[test]
fn groups_without_source_are_dropped() {
    let lines = report(&[
        "Found a 12 line duplication",
        "Starting at line 3 of /repo/dest/B.swift",
        "Starting at line 3 of /repo/dest/C.swift",
        "",
        "Found a 0 line duplication",
        "Starting at line 3 of /repo/src/A.swift",
        "Starting at line 3 of /repo/dest/C.swift",
        "",
    ]);
    let groups = Runner::analyze(&lines, &args("/repo/src", "/repo/dest"), &[]);
    assert!(groups.is_empty());
}

#[test]
fn unterminated_group_is_not_emitted() {
    let lines = report(&[
        "Found a 12 line duplication",
        "Starting at line 3 of /repo/src/A.swift",
        "Starting at line 3 of /repo/dest/B.swift",
    ]);
    let groups = Runner::analyze(&lines, &args("/repo/src", "/repo/dest"), &[]);
    assert!(groups.is_empty());
}

#[test]
fn second_source_occurrence_clears_destinations() {
    let lines = report(&[
        "Found a 4 line duplication",
        "Starting at line 3 of /repo/src/A.swift",
        "Starting at line 3 of /repo/dest/B.swift",
        "Starting at line 9 of /repo/src/D.swift",
        "",
    ]);
    let groups = Runner::analyze(&lines, &args("/repo/src", "/repo/dest"), &[]);
    assert_eq!(groups.len(), 1);
    assert_eq!(groups[0].source.file, "/repo/src/A.swift");
    assert!(groups[0].destination.is_empty());
}

#[test]
fn location_with_huge_start_line_is_still_classified() {
    let lines = report(&[
        "Found a 4 line duplication",
        "Starting at line 3 of /repo/src/A.swift",
        "Starting at line 99999999999 of /repo/dest/B.swift",
        "",
    ]);
    let groups = Runner::analyze(&lines, &args("/repo/src", "/repo/dest"), &[]);
    assert_eq!(groups.len(), 1);
    assert_eq!(groups[0].destination.len(), 1);
    assert_eq!(groups[0].destination[0].file, "/repo/dest/B.swift");
    assert_eq!(
        Runner::located_files(&lines),
        vec!["/repo/src/A.swift".to_string(), "/repo/dest/B.swift".to_string()]
    );
}

#[test]
fn location_without_path_clears_destinations() {
    let lines = report(&[
        "Found a 4 line duplication",
        "Starting at line 3 of /repo/src/A.swift",
        "Starting at line 3 of /repo/dest/B.swift",
        "Starting at line 9 of ",
        "",
    ]);
    let groups = Runner::analyze(&lines, &args("/repo/src", "/repo/dest"), &[]);
    assert_eq!(groups.len(), 1);
    assert!(groups[0].destination.is_empty());
}

#[test]
fn reading_twice_gives_the_same_records() {
    let lines = report(&[
        "Found a 10 line duplication",
        "Starting at line 3 of /repo/src/A.swift",
        "Starting at line 9 of /repo/dest/B.swift",
        "",
        "Found a 6 line duplication",
        "Starting at line 3 of /repo/src/E.swift",
        "Starting at line 9 of /repo/dest/B.swift",
        "",
        "Found a 15 line duplication",
        "Starting at line 30 of /repo/src/A.swift",
        "Starting at line 1 of /repo/dest/C.swift",
        "",
    ]);
    let a = args("/repo/src", "/repo/dest");
    let first = Runner::aggregate(&Runner::analyze(&lines, &a, &[])).unwrap();
    let second = Runner::aggregate(&Runner::analyze(&lines, &a, &[])).unwrap();
    assert_eq!(first.len(), 2);
    assert_eq!(first.len(), second.len());
    for (x, y) in first.iter().zip(second.iter()) {
        assert_eq!(x.source.file, y.source.file);
        assert_eq!(x.lines, y.lines);
        assert_eq!(x.destination[0].file, y.destination[0].file);
    }
    assert_eq!(first[0].source.file, "/repo/src/A.swift");
    assert_eq!(first[0].lines, 25);
    assert_eq!(first[1].source.file, "/repo/src/E.swift");
    assert_eq!(first[1].lines, 6);
}

#[test]
fn record_lines_overflow_is_refused() {
    let mut g = Duplication::new(usize::MAX);
    g.source = file("/repo/src/A.swift", 1);
    g.add_destination(file("/repo/dest/B.swift", 1));
    let mut h = Duplication::new(1);
    h.source = file("/repo/src/A.swift", 1);
    h.add_destination(file("/repo/dest/B.swift", 1));
    assert!(Runner::aggregate(&[g.clone(), h.clone()]).is_none());
    let mut k = Duplication::new(1);
    k.source = file("/repo/src/Z.swift", 1);
    k.add_destination(file("/repo/dest/B.swift", 1));
    assert_eq!(Runner::aggregate(&[g, k]).unwrap().len(), 2);
}

#[test]
fn located_files_of_report() {
    let lines = report(&[
        "Found a 4 line duplication",
        "Starting at line 3 of /repo/src/A.swift",
        "Starting at line 3 of ",
        "Starting at line 7 of /repo/dest/B.swift",
        "",
    ]);
    assert_eq!(
        Runner::located_files(&lines),
        vec!["/repo/src/A.swift".to_string(), "/repo/dest/B.swift".to_string()]
    );
}
