use logfilter::ellipsis::{keep_ends, FitSearch};
use logfilter::indicator::{bookmark_rows, error_rows, goto_target};
use logfilter::model::{LevelMask, LogEntry, LogFormat, Model};
use logfilter::selection::{clamp_filtered_row, page_row};
use logfilter::shortcuts::{
    empty_shortcut_rows, keyboard_use, shortcuts, Keyboard, Shortcut, ShortcutLabels,
};
use logfilter::status::{
    hides_everything, readout, save_notice, Notice, Readout, SaveEvent, Status,
};
use logfilter::transport::detect_format_from_cmd;

#[test]
fn clamp_filtered_row_handles_empty_and_bounds() {
    assert_eq!(clamp_filtered_row(0, 0), None);
    assert_eq!(clamp_filtered_row(0, 3), Some(0));
    assert_eq!(clamp_filtered_row(2, 3), Some(2));
    assert_eq!(clamp_filtered_row(usize::MAX, 3), Some(2));
}

#[test]
fn page_row_moves_by_visible_rows_and_clamps() {
    assert_eq!(page_row(None, 0, 10, true), None);
    assert_eq!(page_row(None, 100, 10, true), Some(10));
    assert_eq!(page_row(Some(50), 100, 10, false), Some(40));
    assert_eq!(page_row(Some(95), 100, 10, true), Some(99));
    assert_eq!(page_row(Some(5), 100, 10, false), Some(0));
    assert_eq!(page_row(Some(5), 100, 0, true), Some(6));
}

#[test]
fn detect_format_from_cmd_variants() {
    assert_eq!(
        detect_format_from_cmd("logcat -v threadtime"),
        LogFormat::ThreadTime
    );
    assert_eq!(
        detect_format_from_cmd("logcat -v long"),
        LogFormat::ThreadTime
    );
    assert_eq!(detect_format_from_cmd("logcat -v time"), LogFormat::Time);
    assert_eq!(detect_format_from_cmd("logcat -v brief"), LogFormat::Brief);
    assert_eq!(
        detect_format_from_cmd("logcat -v process"),
        LogFormat::Brief
    );
    assert_eq!(detect_format_from_cmd("logcat -v tag"), LogFormat::Brief);
    assert_eq!(
        detect_format_from_cmd("shell cat /proc/kmsg"),
        LogFormat::Kernel
    );
    assert_eq!(detect_format_from_cmd("logcat"), LogFormat::Unknown);
    assert_eq!(
        detect_format_from_cmd("logcat -v nonsense"),
        LogFormat::Unknown
    );
    // Real (built-in) hilog commands resolve to HiLog via the command table.
    assert_eq!(
        detect_format_from_cmd("hilog -v threadtime -r"),
        LogFormat::HiLog
    );
    assert_eq!(
        detect_format_from_cmd("hilog -D 0x2F00 -v time"),
        LogFormat::HiLog
    );
    // A bare, non-shipped string isn't in the table and has no -v flag → Unknown.
    assert_eq!(detect_format_from_cmd("hilog"), LogFormat::Unknown);
}

#[test]
fn status_auto_expires_after_ttl() {
    let mut status = Status::new();
    status.text = "已复制 1 行".into();

    // First tick records when the message appeared.
    status.tick_status(100_000);
    assert_eq!(status.text, "已复制 1 行");
    // Still within the 5s TTL — kept.
    status.tick_status(104_000);
    assert_eq!(status.text, "已复制 1 行");
    // Past the TTL — cleared so "Selected N" can show again.
    status.tick_status(106_000);
    assert_eq!(status.text, "");

    // A new message resets the timer (doesn't inherit the old expiry).
    status.text = "已保存".into();
    status.tick_status(106_000);
    status.tick_status(108_000);
    assert_eq!(status.text, "已保存", "new message should not expire early");
    status.tick_status(111_000);
    assert_eq!(status.text, "已保存", "exactly the time that messages stay");
    status.tick_status(111_001);
    assert_eq!(status.text, "");
}

#[test]
fn status_bar_ends_in_the_message_or_the_selection() {
    let mut status = Status::new();
    assert_eq!(readout(&status, 0), Readout::Nothing);
    assert_eq!(readout(&status, 3), Readout::Selected(3));
    status.text = "x".into();
    assert_eq!(readout(&status, 3), Readout::Message);
}

#[test]
fn a_lost_save_is_a_failure() {
    assert!(save_notice(SaveEvent::Pending).is_none());
    match save_notice(SaveEvent::Done {
        count: 2,
        path: "/tmp/x".into(),
    }) {
        Some(Notice::Saved { count, path }) => {
            assert_eq!(count, 2);
            assert_eq!(path, "/tmp/x");
        }
        _ => panic!("it was saved"),
    }
    match save_notice(SaveEvent::Failed("full".into())) {
        Some(Notice::SaveFailed { reason }) => assert_eq!(reason, "full"),
        _ => panic!("it has failed"),
    }
    match save_notice(SaveEvent::Lost) {
        Some(Notice::SaveFailed { reason }) => {
            assert_eq!(reason, "save thread terminated unexpectedly");
        }
        _ => panic!("it has failed"),
    }
}

#[test]
fn filters_that_hide_everything_are_pointed_out() {
    let mut m = Model::default();
    assert!(!hides_everything(&m));
    m.append(LogEntry::from_fields("", "", LevelMask::info(), "", "", "", "x"));
    assert!(hides_everything(&m));
    m.filtered.push(0);
    assert!(!hides_everything(&m));
}

#[test]
fn indicator_points_out_errors_and_bookmarks() {
    let mut m = Model::default();
    for i in 0..6 {
        let lv = if i % 2 == 0 {
            LevelMask::error()
        } else {
            LevelMask::info()
        };
        m.append(LogEntry::from_fields("", "", lv, "", "", "", "x"));
    }
    m.filtered = vec![1, 2, 4];
    m.bookmarks.insert(1);
    m.bookmarks.insert(3);
    assert_eq!(error_rows(&m), vec![1, 2]);
    assert_eq!(bookmark_rows(&m), vec![0]);
}

#[test]
fn typed_line_numbers_count_from_one() {
    assert_eq!(goto_target(" 12 "), Some(11));
    assert_eq!(goto_target("1"), Some(0));
    assert_eq!(goto_target("0"), None);
    assert_eq!(goto_target(""), None);
    assert_eq!(goto_target("-3"), None);
    assert_eq!(goto_target("x"), None);
}

fn fit(s: &str, room: usize) -> String {
    let chars: Vec<char> = s.chars().collect();
    let mut search = FitSearch::new(chars.len());
    while let Some(keep) = search.probe() {
        let fits = keep_ends(&chars, keep).chars().count() <= room;
        search.tell(fits);
    }
    search.result(&chars)
}

#[test]
fn long_names_are_shortened_in_the_middle() {
    assert_eq!(fit("abcdefghij.log", 8), "abcd…log");
    assert_eq!(fit("abcdefghij.log", 5), "ab…og");
    assert_eq!(fit("abcdefghij.log", 1), "…");
    assert_eq!(fit("abcdefghij.log", 0), "…");
    assert_eq!(fit("日志文件名称.txt", 6), "日志文…xt");
    assert_eq!(fit("", 0), "…");
}

#[test]
fn keys_are_looked_for_in_order() {
    let keys = shortcuts();
    assert_eq!(keys.len(), 13);
    assert_eq!(keys[0], Shortcut::Save);
    // With a modifier before without.
    let at = |k: Shortcut| keys.iter().position(|&x| x == k).unwrap();
    assert!(at(Shortcut::ToggleBookmark) < at(Shortcut::PreviousBookmark));
    assert!(at(Shortcut::ExtendUp) < at(Shortcut::Up));
    assert!(at(Shortcut::ExtendDown) < at(Shortcut::Down));
}

#[test]
fn a_text_field_keeps_the_keyboard() {
    assert_eq!(keyboard_use(true, true, true), Keyboard::Field);
    assert_eq!(keyboard_use(false, true, true), Keyboard::Copy);
    assert_eq!(keyboard_use(false, true, false), Keyboard::Nothing);
    assert_eq!(keyboard_use(false, false, true), Keyboard::Table);
}

#[test]
fn empty_table_lists_the_keys() {
    let s = |t: &str| t.to_string();
    let rows = empty_shortcut_rows(&ShortcutLabels {
        file: s("File"),
        bookmarks: s("Bookmarks"),
        line: s("Line"),
        font: s("Font"),
        save: s("save"),
        toggle_bookmark: s("toggle"),
        prev_bookmark: s("previous"),
        next_bookmark: s("next"),
        copy_selected: s("copy"),
        page_up_down: s("page"),
        double_click_keys: s("Double click"),
        double_click: s("bookmark"),
        alt_click_keys: s("Alt+click"),
        alt_click: s("tag"),
        font_size: s("size"),
        reset_font: s("reset"),
    });
    assert_eq!(rows.len(), 10);
    assert_eq!(rows[0].tag, "File");
    assert_eq!(rows[0].message, "Ctrl/Cmd+S - save");
    assert_eq!(rows[2].message, "F2 - previous");
    assert_eq!(rows[6].message, "Double click - bookmark");
    assert_eq!(rows[8].message, "Ctrl/Cmd+Plus / Ctrl/Cmd+Minus - size");
    assert_eq!(rows[9].tag, "Font");
}
