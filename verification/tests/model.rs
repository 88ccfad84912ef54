use logfilter::model::{level_index, LevelMask, LogEntry, Model};


#[test]
fn append_sets_line_no_sequentially() {
    let mut m = Model::default();
    for _ in 0..3 {
        m.append(LogEntry::from_fields(
            "",
            "",
            LevelMask::info(),
            "1",
            "1",
            "T",
            "x",
        ));
    }
    assert_eq!(m.entries[0].line_no, 1);
    assert_eq!(m.entries[1].line_no, 2);
    assert_eq!(m.entries[2].line_no, 3);
}

#[test]
fn append_tracks_error_lines() {
    let mut m = Model::default();
    m.append(LogEntry::from_fields(
        "",
        "",
        LevelMask::info(),
        "1",
        "1",
        "T",
        "info",
    ));
    m.append(LogEntry::from_fields(
        "",
        "",
        LevelMask::error(),
        "1",
        "1",
        "T",
        "err",
    ));
    m.append(LogEntry::from_fields(
        "",
        "",
        LevelMask::warn(),
        "1",
        "1",
        "T",
        "warn",
    ));
    m.append(LogEntry::from_fields(
        "",
        "",
        LevelMask::fatal(),
        "1",
        "1",
        "T",
        "fatal",
    ));
    // error_lines stores entry indices of E/F entries
    assert_eq!(m.error_lines, vec![1, 3]);
}

#[test]
fn append_bumps_counts() {
    let mut m = Model::default();
    m.append(LogEntry::from_fields(
        "",
        "",
        LevelMask::info(),
        "100",
        "200",
        "TagA",
        "x",
    ));
    m.append(LogEntry::from_fields(
        "",
        "",
        LevelMask::info(),
        "100",
        "200",
        "TagA",
        "x",
    ));
    m.append(LogEntry::from_fields(
        "",
        "",
        LevelMask::error(),
        "100",
        "300",
        "TagB",
        "x",
    ));
    assert_eq!(m.pid_counts.get("100"), Some(3));
    assert_eq!(m.tid_counts.get("200"), Some(2));
    assert_eq!(m.tid_counts.get("300"), Some(1));
    assert_eq!(m.tag_counts.get("TagA"), Some(2));
    assert_eq!(m.tag_counts.get("TagB"), Some(1));
    assert_eq!(m.level_counts[2], 2); // I
    assert_eq!(m.level_counts[4], 1); // E
}

#[test]
fn clear_resets_everything() {
    let mut m = Model::default();
    m.append(LogEntry::from_fields(
        "",
        "",
        LevelMask::error(),
        "1",
        "1",
        "T",
        "x",
    ));
    m.bookmarks.insert(0);
    m.filtered.push(0);
    m.clear();
    assert!(m.entries.is_empty());
    assert!(m.filtered.is_empty());
    assert!(m.bookmarks.is_empty());
    assert!(m.error_lines.is_empty());
    assert!(m.pid_counts.is_empty());
    assert_eq!(m.level_counts, [0; 6]);
}

#[test]
fn level_mask_from_char_variants() {
    assert_eq!(LevelMask::from_char('V'), Some(LevelMask::verbose()));
    assert_eq!(LevelMask::from_char('v'), Some(LevelMask::verbose()));
    assert_eq!(LevelMask::from_char('E'), Some(LevelMask::error()));
    assert_eq!(LevelMask::from_char('A'), Some(LevelMask::fatal())); // alias
    assert_eq!(LevelMask::from_char('a'), Some(LevelMask::fatal()));
    assert_eq!(LevelMask::from_char('X'), None);
}

#[test]
fn level_index_maps_correctly() {
    assert_eq!(level_index(LevelMask::verbose()), Some(0));
    assert_eq!(level_index(LevelMask::debug()), Some(1));
    assert_eq!(level_index(LevelMask::info()), Some(2));
    assert_eq!(level_index(LevelMask::warn()), Some(3));
    assert_eq!(level_index(LevelMask::error()), Some(4));
    assert_eq!(level_index(LevelMask::fatal()), Some(5));
    assert_eq!(level_index(LevelMask::empty()), None);
}
