use logfilter::collections::StringSet;
use logfilter::filter::{contains_ci, FilterSpec};
use logfilter::model::{LevelMask, LogEntry};
use std::collections::HashSet;

fn set(values: &[&str]) -> StringSet {
    let mut r = StringSet::new();
    for v in values {
        r.insert(v.to_string());
    }
    r
}


fn e(msg: &str, tag: &str, lv: LevelMask) -> LogEntry {
    LogEntry::from_fields("", "", lv, "1", "1", tag, msg)
}

#[test]
fn tokens_split_and_lowercase() {
    assert_eq!(FilterSpec::tokens("Foo | Bar"), vec!["foo", "bar"]);
}

#[test]
fn level_mask_filters() {
    let spec = FilterSpec {
        allowed_levels: Some(LevelMask::error()),
        ..FilterSpec::default()
    };
    let hs = HashSet::new();
    assert!(spec.matches(&e("x", "T", LevelMask::error()), 0, &hs));
    assert!(!spec.matches(&e("x", "T", LevelMask::debug()), 0, &hs));
}

#[test]
fn find_or_remove() {
    let spec = FilterSpec {
        find: vec!["hello".into()],
        ..FilterSpec::default()
    };
    let hs = HashSet::new();
    assert!(spec.matches(&e("Hello world", "T", LevelMask::info()), 0, &hs));
    assert!(!spec.matches(&e("bye", "T", LevelMask::info()), 0, &hs));

    let spec = FilterSpec {
        remove: vec!["spam".into()],
        ..FilterSpec::default()
    };
    assert!(!spec.matches(&e("spam here", "T", LevelMask::info()), 0, &hs));
    assert!(spec.matches(&e("clean", "T", LevelMask::info()), 0, &hs));
}

#[test]
fn contains_ci_cases() {
    // ASCII case-insensitive, no allocation path
    assert!(contains_ci("Hello World", "hello"));
    assert!(contains_ci("ERROR: boom", "error"));
    assert!(contains_ci("abcABC", "cabc"));
    assert!(!contains_ci("abc", "xyz"));
    assert!(!contains_ci("ab", "abc")); // needle longer than hay
    assert!(contains_ci("anything", "")); // empty needle matches
                                          // Multibyte haystack must not corrupt the byte scan
    assert!(contains_ci("日志Error信息", "error"));
    assert!(!contains_ci("日志信息", "error"));
    // Non-ASCII needle falls back to Unicode lowercasing
    assert!(contains_ci("包含中文Log", "中文"));
}

#[test]
fn allowed_pids_filters() {
    let mut spec = FilterSpec::default();
    spec.allowed_pids = Some(set(&["1"]));
    let hs = HashSet::new();
    assert!(spec.matches(&e("m", "T", LevelMask::info()), 0, &hs));
    let other = LogEntry::from_fields("", "", LevelMask::info(), "99", "1", "T", "m");
    assert!(!spec.matches(&other, 0, &hs));
}

#[test]
fn allowed_tags_filters() {
    let spec = FilterSpec {
        allowed_tags: Some(set(&["OK"])),
        ..Default::default()
    };
    let hs = HashSet::new();
    assert!(spec.matches(&e("m", "OK", LevelMask::info()), 0, &hs));
    assert!(!spec.matches(&e("m", "BAD", LevelMask::info()), 0, &hs));
}

#[test]
fn allowed_tids_filters() {
    let spec = FilterSpec {
        allowed_tids: Some(set(&["200"])),
        ..Default::default()
    };
    let hs = HashSet::new();
    let entry = LogEntry::from_fields("", "", LevelMask::info(), "1", "200", "T", "m");
    assert!(spec.matches(&entry, 0, &hs));
    let other = LogEntry::from_fields("", "", LevelMask::info(), "1", "999", "T", "m");
    assert!(!spec.matches(&other, 0, &hs));
}

#[test]
fn disallowed_tags_rejects() {
    let spec = FilterSpec {
        disallowed_tags: set(&["BAD"]),
        ..Default::default()
    };
    let hs = HashSet::new();
    assert!(!spec.matches(&e("m", "BAD", LevelMask::info()), 0, &hs));
    assert!(spec.matches(&e("m", "OK", LevelMask::info()), 0, &hs));
}

#[test]
fn disallowed_plus_allowed_tags() {
    let spec = FilterSpec {
        allowed_tags: Some(set(&["A", "B"])),
        disallowed_tags: set(&["B"]),
        ..Default::default()
    };
    let hs = HashSet::new();
    assert!(spec.matches(&e("m", "A", LevelMask::info()), 0, &hs));
    assert!(!spec.matches(&e("m", "B", LevelMask::info()), 0, &hs));
}

#[test]
fn bookmarks_only_filters() {
    let spec = FilterSpec {
        bookmarks_only: true,
        ..Default::default()
    };
    let mut bm = HashSet::new();
    bm.insert(5u32);
    assert!(spec.matches(&e("m", "T", LevelMask::info()), 5, &bm));
    assert!(!spec.matches(&e("m", "T", LevelMask::info()), 3, &bm));
}

#[test]
fn errors_only_filters() {
    let spec = FilterSpec {
        errors_only: true,
        ..Default::default()
    };
    let hs = HashSet::new();
    assert!(spec.matches(&e("m", "T", LevelMask::error()), 0, &hs));
    assert!(spec.matches(&e("m", "T", LevelMask::fatal()), 0, &hs));
    assert!(!spec.matches(&e("m", "T", LevelMask::info()), 0, &hs));
    assert!(!spec.matches(&e("m", "T", LevelMask::warn()), 0, &hs));
}

#[test]
fn multiple_find_tokens_or_semantics() {
    let spec = FilterSpec {
        find: vec!["foo".into(), "bar".into()],
        ..Default::default()
    };
    let hs = HashSet::new();
    assert!(spec.matches(&e("contains foo here", "T", LevelMask::info()), 0, &hs));
    assert!(spec.matches(&e("has bar inside", "T", LevelMask::info()), 0, &hs));
    assert!(!spec.matches(&e("neither word", "T", LevelMask::info()), 0, &hs));
}

#[test]
fn multiple_remove_tokens_or_semantics() {
    let spec = FilterSpec {
        remove: vec!["spam".into(), "ads".into()],
        ..Default::default()
    };
    let hs = HashSet::new();
    assert!(!spec.matches(&e("spam message", "T", LevelMask::info()), 0, &hs));
    assert!(!spec.matches(&e("has ads", "T", LevelMask::info()), 0, &hs));
    assert!(spec.matches(&e("clean line", "T", LevelMask::info()), 0, &hs));
}

#[test]
fn find_and_remove_combined() {
    let spec = FilterSpec {
        find: vec!["hello".into()],
        remove: vec!["hello world".into()],
        ..Default::default()
    };
    let hs = HashSet::new();
    assert!(spec.matches(&e("hello there", "T", LevelMask::info()), 0, &hs));
    assert!(!spec.matches(&e("hello world", "T", LevelMask::info()), 0, &hs));
    assert!(!spec.matches(&e("no match", "T", LevelMask::info()), 0, &hs));
}
