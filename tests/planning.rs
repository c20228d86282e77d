use file_namer::names::{CaseMode, RenameConfig};
use file_namer::plan::{plan, CandidateEntry, PlannedRename};
use file_namer::undo::{execution_target, format_undo_line, is_affirmative, is_yes, parse_undo_line, undo_selection, UndoLogEntry};
use file_namer::unique::{contains_path, make_unique_target, FilePath};

fn config() -> RenameConfig {
    RenameConfig {
        prefix: String::new(),
        suffix: String::new(),
        replace: None,
        case_mode: CaseMode::Unchanged,
        remove_extension: false,
        extension_filter: Vec::new(),
        recursive: false,
    }
}

fn at(dir: &str, name: &str) -> FilePath {
    FilePath { dir: dir.to_string(), name: name.to_string() }
}

fn candidate(dir: &str, name: &str) -> CandidateEntry {
    CandidateEntry::new(dir.to_string(), name.to_string())
}

fn summary(entries: &[PlannedRename]) -> Vec<(String, String, bool)> {
    entries.iter().map(|e| (e.source_name.clone(), e.destination_name.clone(), e.is_noop)).collect()
}

#[test]
fn lowercase_with_filter_scenario() {
    let names = ["Report.TXT", "report.txt", "notes.md"];
    let cands: Vec<CandidateEntry> = names.iter().map(|n| candidate("d", n)).collect();
    let disk: Vec<FilePath> = names.iter().map(|n| at("d", n)).collect();
    let mut c = config();
    c.case_mode = CaseMode::Lower;
    c.extension_filter = vec!["txt".to_string()];
    let p = plan(&cands, &c, &disk);
    assert_eq!(
        summary(&p.entries),
        vec![
            ("Report.TXT".to_string(), "report_1.txt".to_string(), false),
            ("report.txt".to_string(), "report.txt".to_string(), true),
        ]
    );
    assert_eq!(p.reserved.len(), 1);
    assert_eq!(p.reserved[0].name, "report_1.txt");
}

#[test]
fn earlier_entry_gets_first_choice() {
    let cands = vec![candidate("d", "X.txt"), candidate("d", "x.TXT")];
    let disk = vec![at("d", "X.txt"), at("d", "x.TXT")];
    let mut c = config();
    c.case_mode = CaseMode::Lower;
    let p = plan(&cands, &c, &disk);
    assert_eq!(
        summary(&p.entries),
        vec![
            ("X.txt".to_string(), "x.txt".to_string(), false),
            ("x.TXT".to_string(), "x_1.txt".to_string(), false),
        ]
    );
}

#[test]
fn filtered_out_file_is_absent_from_plan() {
    let cands = vec![candidate("d", "a.png"), candidate("d", "a.JPG")];
    let disk = vec![at("d", "a.png"), at("d", "a.JPG")];
    let mut c = config();
    c.prefix = "p_".to_string();
    c.extension_filter = vec!["jpg".to_string()];
    let p = plan(&cands, &c, &disk);
    assert_eq!(summary(&p.entries), vec![("a.JPG".to_string(), "p_a.JPG".to_string(), false)]);
}

#[test]
fn unchanged_entry_is_noop_and_not_reserved() {
    let cands = vec![candidate("d", "keep.txt")];
    let disk = vec![at("d", "keep.txt")];
    let p = plan(&cands, &config(), &disk);
    assert_eq!(summary(&p.entries), vec![("keep.txt".to_string(), "keep.txt".to_string(), true)]);
    assert!(p.reserved.is_empty());
}

#[test]
fn plan_destinations_are_distinct() {
    let names = ["A.txt", "a.txt", "a.TXT", "a_1.txt", "b.txt"];
    let cands: Vec<CandidateEntry> = names.iter().map(|n| candidate("d", n)).collect();
    let disk: Vec<FilePath> = names.iter().map(|n| at("d", n)).collect();
    let mut c = config();
    c.case_mode = CaseMode::Upper;
    let p = plan(&cands, &c, &disk);
    let dests: Vec<&String> = p.entries.iter().filter(|e| !e.is_noop).map(|e| &e.destination_name).collect();
    assert_eq!(dests, vec!["A.TXT", "A_1.TXT", "A_2.TXT", "A_1_1.TXT", "B.TXT"]);
    for e in p.entries.iter().filter(|e| !e.is_noop) {
        assert!(!contains_path(&disk, &e.dir, &e.destination_name));
    }
}

#[test]
fn same_name_in_other_directory_does_not_collide() {
    let cands = vec![candidate("d1", "A.txt"), candidate("d2", "A.txt")];
    let disk = vec![at("d1", "A.txt"), at("d2", "A.txt")];
    let mut c = config();
    c.case_mode = CaseMode::Lower;
    let p = plan(&cands, &c, &disk);
    assert_eq!(p.entries[0].destination_name, "a.txt");
    assert_eq!(p.entries[1].destination_name, "a.txt");
    assert_eq!(p.entries[1].dir, "d2");
}

#[test]
fn empty_candidate_list_gives_empty_plan() {
    let p = plan(&Vec::new(), &config(), &Vec::new());
    assert!(p.entries.is_empty());
    assert!(p.reserved.is_empty());
}

#[test]
fn unique_target_free_name_is_kept() {
    let r = make_unique_target(&"d".to_string(), &"x.txt".to_string(), &Vec::new(), &vec![at("d", "y.txt")]);
    assert_eq!(r, "x.txt");
}

#[test]
fn unique_target_picks_smallest_free_index() {
    let disk = vec![at("d", "x.txt"), at("d", "x_1.txt"), at("d", "x_3.txt")];
    let reserved = vec![at("d", "x_2.txt")];
    let r = make_unique_target(&"d".to_string(), &"x.txt".to_string(), &reserved, &disk);
    assert_eq!(r, "x_4.txt");
}

#[test]
fn unique_target_without_extension() {
    let disk = vec![at("d", "Makefile")];
    let r = make_unique_target(&"d".to_string(), &"Makefile".to_string(), &Vec::new(), &disk);
    assert_eq!(r, "Makefile_1");
}

#[test]
fn unique_target_splits_on_last_dot() {
    let disk = vec![at("d", "a.tar.gz")];
    let r = make_unique_target(&"d".to_string(), &"a.tar.gz".to_string(), &Vec::new(), &disk);
    assert_eq!(r, "a.tar_1.gz");
}

#[test]
fn unique_target_leading_dot() {
    let disk = vec![at("d", ".env")];
    let r = make_unique_target(&"d".to_string(), &".env".to_string(), &Vec::new(), &disk);
    assert_eq!(r, "_1.env");
}

#[test]
fn unique_target_reaches_two_digit_index() {
    let mut disk = vec![at("d", "f.txt")];
    for k in 1..=10 {
        disk.push(at("d", &format!("f_{k}.txt")));
    }
    let r = make_unique_target(&"d".to_string(), &"f.txt".to_string(), &Vec::new(), &disk);
    assert_eq!(r, "f_11.txt");
}

#[test]
fn execution_target_rechecks_disk() {
    let entry = PlannedRename {
        dir: "d".to_string(),
        source_name: "A.txt".to_string(),
        destination_name: "a.txt".to_string(),
        is_noop: false,
    };
    assert_eq!(execution_target(&entry, &vec![at("d", "A.txt")]), "a.txt");
    assert_eq!(execution_target(&entry, &vec![at("d", "A.txt"), at("d", "a.txt")]), "a_1.txt");
}

#[test]
fn undo_line_round_trip() {
    let e = UndoLogEntry { new_path: "d/report_1.txt".to_string(), old_path: "d/Report.TXT".to_string() };
    let line = format_undo_line(&e);
    assert_eq!(line, "d/report_1.txt -> d/Report.TXT");
    let back = parse_undo_line(&line).unwrap();
    assert_eq!(back.new_path, e.new_path);
    assert_eq!(back.old_path, e.old_path);
}

#[test]
fn undo_line_without_delimiter_is_rejected() {
    assert!(parse_undo_line("no delimiter here").is_none());
    assert!(parse_undo_line("").is_none());
    assert!(parse_undo_line("a->b").is_none());
}

#[test]
fn undo_line_splits_at_first_delimiter() {
    let e = parse_undo_line("a -> b -> c").unwrap();
    assert_eq!(e.new_path, "a");
    assert_eq!(e.old_path, "b -> c");
}

#[test]
fn undo_skips_missing_new_paths() {
    let log = vec![
        UndoLogEntry { new_path: "n1".to_string(), old_path: "o1".to_string() },
        UndoLogEntry { new_path: "n2".to_string(), old_path: "o2".to_string() },
        UndoLogEntry { new_path: "n3".to_string(), old_path: "o3".to_string() },
    ];
    let present = vec!["n3".to_string(), "n1".to_string(), "other".to_string()];
    let chosen = undo_selection(&log, &present);
    let pairs: Vec<(String, String)> = chosen.into_iter().map(|e| (e.new_path, e.old_path)).collect();
    assert_eq!(pairs, vec![("n1".to_string(), "o1".to_string()), ("n3".to_string(), "o3".to_string())]);
}

#[test]
fn confirmation_accepts_only_y_or_yes() {
    assert!(is_affirmative("y\n"));
    assert!(is_affirmative("  YES "));
    assert!(is_affirmative("Yes"));
    assert!(!is_affirmative("n"));
    assert!(!is_affirmative(""));
    assert!(!is_affirmative("yess"));
    assert!(!is_affirmative("ye s"));
}

#[test]
fn plain_yes_check() {
    assert!(is_yes("y"));
    assert!(is_yes("yes"));
    assert!(!is_yes("Y"));
    assert!(!is_yes(" yes"));
    assert!(!is_yes("no"));
}
