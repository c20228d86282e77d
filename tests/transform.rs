use file_namer::names::{
    apply_case, case_mode_from_flags, decorate_stem, join_name, passes_filter, replace_occurrences, split_name, transform,
    CaseMode, ConfigError, RenameConfig,
};
use file_namer::numbering::push_decimal;
use file_namer::text::{chars_of, string_of};

fn config() -> RenameConfig {
    RenameConfig {
        prefix: String::new(),
        suffix: String::new(),
        replace: None,
        case_mode: CaseMode::Unchanged,
        remove_extension: false,
        extension_filter: Vec::new(),
        recursive: false,
    }
}

fn chars(s: &str) -> Vec<char> {
    s.chars().collect()
}

#[test]
fn prefix_and_replace_scenario() {
    let mut c = config();
    c.prefix = "img_".to_string();
    c.replace = Some((" ".to_string(), "_".to_string()));
    let (stem, ext) = split_name("my photo 1.png");
    assert_eq!(transform(&stem, &ext, &c), "img_my_photo_1.png");
}

#[test]
fn remove_extension_splits_on_last_dot() {
    let (stem, ext) = split_name("archive.tar.gz");
    assert_eq!(stem, "archive.tar");
    assert_eq!(ext, Some("gz".to_string()));
    let mut c = config();
    c.remove_extension = true;
    assert_eq!(transform(&stem, &ext, &c), "archive.tar");
}

#[test]
fn leading_dot_name_has_empty_stem() {
    let (stem, ext) = split_name(".hidden");
    assert_eq!(stem, "");
    assert_eq!(ext, Some("hidden".to_string()));
}

#[test]
fn name_without_dot_has_no_extension() {
    let (stem, ext) = split_name("README");
    assert_eq!(stem, "README");
    assert_eq!(ext, None);
    let mut c = config();
    c.suffix = "_v2".to_string();
    assert_eq!(transform(&stem, &ext, &c), "README_v2");
}

#[test]
fn trailing_dot_gives_empty_extension() {
    let (stem, ext) = split_name("notes.");
    assert_eq!(stem, "notes");
    assert_eq!(ext, Some(String::new()));
}

#[test]
fn suffix_goes_before_extension() {
    let mut c = config();
    c.prefix = "sample_".to_string();
    c.suffix = "_done".to_string();
    let (stem, ext) = split_name("cat.jpg");
    assert_eq!(transform(&stem, &ext, &c), "sample_cat_done.jpg");
}

#[test]
fn replace_applies_after_prefix() {
    let mut c = config();
    c.prefix = "a-".to_string();
    c.replace = Some(("-".to_string(), "+".to_string()));
    let (stem, ext) = split_name("b-c.txt");
    assert_eq!(transform(&stem, &ext, &c), "a+b+c.txt");
}

#[test]
fn replace_does_not_touch_suffix_or_extension() {
    let mut c = config();
    c.suffix = "x".to_string();
    c.replace = Some(("x".to_string(), "y".to_string()));
    let (stem, ext) = split_name("axb.x");
    assert_eq!(transform(&stem, &ext, &c), "aybx.x");
}

#[test]
fn lowercase_folds_stem_and_extension() {
    let mut c = config();
    c.case_mode = CaseMode::Lower;
    let (stem, ext) = split_name("Report.TXT");
    assert_eq!(transform(&stem, &ext, &c), "report.txt");
}

#[test]
fn uppercase_folds_stem_and_extension() {
    let mut c = config();
    c.case_mode = CaseMode::Upper;
    c.prefix = "new_".to_string();
    let (stem, ext) = split_name("photo.jpeg");
    assert_eq!(transform(&stem, &ext, &c), "NEW_PHOTO.JPEG");
}

#[test]
fn unchanged_name_is_identity() {
    let c = config();
    let (stem, ext) = split_name("same.txt");
    assert_eq!(transform(&stem, &ext, &c), "same.txt");
}

#[test]
fn replace_all_non_overlapping_left_to_right() {
    let r = replace_occurrences(&chars("aaaa"), &chars("aa"), &chars("b"));
    assert_eq!(r, chars("bb"));
    let r = replace_occurrences(&chars("aaa"), &chars("aa"), &chars("b"));
    assert_eq!(r, chars("ba"));
    let r = replace_occurrences(&chars("abcabc"), &chars("bc"), &chars(""));
    assert_eq!(r, chars("aa"));
}

#[test]
fn replace_with_empty_pattern_is_noop() {
    let r = replace_occurrences(&chars("abc"), &chars(""), &chars("x"));
    assert_eq!(r, chars("abc"));
    let mut c = config();
    c.replace = Some((String::new(), "x".to_string()));
    assert_eq!(decorate_stem("abc", &c), "abc");
}

#[test]
fn replace_is_case_sensitive() {
    let r = replace_occurrences(&chars("Aa"), &chars("a"), &chars("b"));
    assert_eq!(r, chars("Ab"));
}

#[test]
fn join_name_keeps_or_drops_extension() {
    assert_eq!(join_name("a", &Some("b".to_string()), false), "a.b");
    assert_eq!(join_name("a", &Some("b".to_string()), true), "a");
    assert_eq!(join_name("a", &None, false), "a");
}

#[test]
fn apply_case_modes() {
    assert_eq!(apply_case("MiXeD", CaseMode::Lower), "mixed");
    assert_eq!(apply_case("MiXeD", CaseMode::Upper), "MIXED");
    assert_eq!(apply_case("MiXeD", CaseMode::Unchanged), "MiXeD");
}

#[test]
fn filter_is_case_insensitive() {
    let filter = vec!["jpg".to_string()];
    let (_, png) = split_name("a.png");
    let (_, upper_jpg) = split_name("a.JPG");
    assert!(!passes_filter(&png, &filter));
    assert!(passes_filter(&upper_jpg, &filter));
}

#[test]
fn filter_rejects_files_without_extension() {
    let filter = vec!["txt".to_string()];
    assert!(!passes_filter(&None, &filter));
    assert!(passes_filter(&None, &Vec::new()));
}

#[test]
fn filter_entries_are_folded_too() {
    let filter = vec!["PNG".to_string(), "Gif".to_string()];
    assert!(passes_filter(&Some("gif".to_string()), &filter));
    assert!(!passes_filter(&Some("bmp".to_string()), &filter));
}

#[test]
fn conflicting_case_flags_are_rejected() {
    assert_eq!(case_mode_from_flags(true, true), Err(ConfigError::ConflictingCaseModes));
    assert_eq!(case_mode_from_flags(true, false), Ok(CaseMode::Lower));
    assert_eq!(case_mode_from_flags(false, true), Ok(CaseMode::Upper));
    assert_eq!(case_mode_from_flags(false, false), Ok(CaseMode::Unchanged));
}

#[test]
fn decimal_digits() {
    let mut out = Vec::new();
    push_decimal(&mut out, 0);
    assert_eq!(out, chars("0"));
    let mut out = chars("n");
    push_decimal(&mut out, 1207);
    assert_eq!(out, chars("n1207"));
}

#[test]
fn char_conversions_round_trip() {
    let v = chars_of("héllo");
    assert_eq!(v, vec!['h', 'é', 'l', 'l', 'o']);
    assert_eq!(string_of(&v), "héllo");
}
