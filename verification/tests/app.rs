use logfilter::actions::{save_filtered, tag_click, Effect, FontChange};
use logfilter::app::{App, ProbeEvent};
use logfilter::collections::StringSet;
use logfilter::color::Rgb;
use logfilter::config::Config;
use logfilter::model::{EncodingChoice, LevelMask, LogEntry, LogFormat, Model};
use logfilter::picker::PickerCol;
use logfilter::shortcuts::Shortcut;
use logfilter::status::{copy_notice, Notice};
use logfilter::transport::Transport;
use logfilter::ui::UiState;

fn viewer() -> (App, Model) {
    (App::from_config(Config::default()), Model::default())
}

fn inject(m: &mut Model, n: usize) {
    for i in 0..n {
        let lv = if i % 5 == 0 {
            LevelMask::error()
        } else {
            LevelMask::info()
        };
        let tag = format!("Tag{}", i % 3);
        m.append(LogEntry::from_fields(
            "07-20",
            "12:00:00.000",
            lv,
            "100",
            "200",
            &tag,
            &format!("msg {i}"),
        ));
    }
    m.filtered = (0..n as u32).collect();
}

fn set(values: &[&str]) -> StringSet {
    let mut r = StringSet::new();
    for v in values {
        r.insert(v.to_string());
    }
    r
}

fn holds(s: &Option<StringSet>, values: &[&str]) -> bool {
    match s {
        Some(s) => s.len() == values.len() && values.iter().all(|v| s.contains(v)),
        None => false,
    }
}

#[test]
fn ui_state_round_trips_columns_and_filter_toggles() {
    let mut cfg = Config::default();
    let mut ui = UiState::from_config(&cfg);
    // Tweak column visibility and filter toggles away from defaults.
    ui.col_uid = true; // was hidden
    ui.col_date = false; // was shown
    ui.col_bookmark = true; // was hidden
    ui.find = "needle".into();
    ui.find_on = false; // text present but explicitly disabled
    ui.highlight_on = true;

    ui.write_back(&mut cfg);
    let restored = UiState::from_config(&cfg);

    assert!(restored.col_uid, "UID visibility should persist");
    assert!(!restored.col_date, "Date hidden should persist");
    assert!(restored.col_bookmark, "Bookmark column should persist");
    assert_eq!(restored.find, "needle");
    assert!(
        !restored.find_on,
        "a disabled Find must persist even with text present"
    );
    assert!(restored.highlight_on);
}

#[test]
fn old_config_infers_filter_on_from_text() {
    let mut cfg = Config::default();
    cfg.filters.find = "hello".into();
    cfg.filters.find_on = None;
    cfg.filters.remove = String::new();
    cfg.filters.remove_on = None;
    let ui = UiState::from_config(&cfg);
    assert!(ui.find_on, "non-empty Find text → on");
    assert!(!ui.remove_on, "empty Remove text → off");
}

#[test]
fn visible_column_count_tracks_visible_columns() {
    let mut ui = UiState::from_config(&Config::default());
    // Hide everything, then reveal one at a time.
    ui.col_bookmark = false;
    ui.col_line = false;
    ui.col_date = false;
    ui.col_time = false;
    ui.col_loglv = false;
    ui.col_pid = false;
    ui.col_thread = false;
    ui.col_uid = false;
    ui.col_tag = false;
    ui.col_message = false;
    assert_eq!(ui.visible_column_count(), 0);

    ui.col_message = true;
    assert_eq!(ui.visible_column_count(), 1);
    assert!(ui.visible_column_count() == 1 && ui.col_message);
    // The last visible column cannot be hidden, and the others can be shown.
    assert!(!ui.can_toggle_column(9));
    assert!(ui.can_toggle_column(7));
    assert!(!ui.can_hide());

    ui.col_tag = true;
    assert_eq!(ui.visible_column_count(), 2);
    assert!(ui.can_toggle_column(9));
}

#[test]
fn highlight_palette_cache_refreshes_when_same_length_colors_change() {
    let (mut app, _) = viewer();

    app.cfg.colors.highlights = vec!["0xFF0000".into()];
    app.highlights.refresh_highlight_caches(&app.cfg.colors, &app.ui);
    assert_eq!(app.highlights.palette, vec![Rgb { r: 255, g: 0, b: 0 }]);

    app.cfg.colors.highlights = vec!["0x0000FF".into()];
    app.highlights.refresh_highlight_caches(&app.cfg.colors, &app.ui);
    assert_eq!(app.highlights.palette, vec![Rgb { r: 0, g: 0, b: 255 }]);
    assert_eq!(app.highlights.palette_raw, vec!["0x0000FF"]);
}

#[test]
fn highlight_terms_follow_the_filter_bar() {
    let (mut app, _) = viewer();
    assert!(!app.highlights.highlights_anything());
    app.ui.highlight = "Foo|Bar".into();
    app.ui.highlight_on = true;
    app.ui.find = "Baz".into();
    app.ui.find_on = true;
    app.highlights.refresh_highlight_caches(&app.cfg.colors, &app.ui);
    assert_eq!(app.highlights.highlight_tokens, vec!["foo", "bar"]);
    assert_eq!(app.highlights.find_tokens, vec!["baz"]);
    assert!(app.highlights.highlights_anything());
    app.ui.highlight_on = false;
    app.ui.find = "".into();
    app.highlights.refresh_highlight_caches(&app.cfg.colors, &app.ui);
    assert!(app.highlights.highlight_tokens.is_empty());
    assert!(app.highlights.find_tokens.is_empty());
}

#[test]
fn device_refresh_result_preserves_existing_selection_when_present() {
    let (mut app, _) = viewer();
    app.device.selected_device = "keep".into();

    let notice = app.apply_devices_result(Ok(vec!["other".into(), "keep".into()]));

    assert_eq!(app.device.devices, vec!["other", "keep"]);
    assert_eq!(app.device.selected_device, "keep");
    assert!(matches!(
        notice,
        Notice::Devices { tool: Transport::Adb, count: 2 }
    ));
}

#[test]
fn device_that_is_gone_is_no_longer_chosen() {
    let (mut app, _) = viewer();
    app.device.selected_device = "gone".into();
    let notice = app.apply_devices_result(Ok(vec![]));
    assert!(matches!(notice, Notice::NoDevices));
    assert_eq!(app.device.selected_device, "");

    app.device.devices = vec!["a".into()];
    let notice = app.apply_devices_result(Err("no adb".into()));
    assert!(app.device.devices.is_empty());
    match notice {
        Notice::DevicesFailed { tool, reason } => {
            assert_eq!(tool, Transport::Adb);
            assert_eq!(reason, "no adb");
        }
        _ => panic!("listing has failed"),
    }
}

#[test]
fn poll_device_refresh_applies_completed_result() {
    let (mut app, _) = viewer();
    assert!(app.begin_refresh());
    assert!(!app.begin_refresh(), "one listing at a time");

    assert!(app.poll_device_refresh(ProbeEvent::Pending).is_none());
    assert!(app.device.refreshing);

    app.poll_device_refresh(ProbeEvent::Done(Ok(vec!["serial-1".into()])));

    assert_eq!(app.device.devices, vec!["serial-1"]);
    assert!(!app.device.refreshing);
}

#[test]
fn lost_device_probe_is_a_failure() {
    let (mut app, _) = viewer();
    assert!(app.poll_device_refresh(ProbeEvent::Lost).is_none());
    app.begin_refresh();
    match app.poll_device_refresh(ProbeEvent::Lost) {
        Some(Notice::DevicesFailed { reason, .. }) => {
            assert_eq!(reason, "device probe terminated unexpectedly");
        }
        _ => panic!("a lost probe is a failure"),
    }
    assert!(!app.device.refreshing);
}

#[test]
fn arrow_down_key_moves_selection() {
    let (mut app, mut m) = viewer();
    inject(&mut m, 20);
    app.selection.select_filtered_row_with_len(0, 20);
    app.handle_shortcut(&mut m, Shortcut::Down);
    assert!(
        app.selection.selected_rows.contains(&1),
        "ArrowDown from row 0 should select row 1, got {:?}",
        app.selection.selected_rows
    );
    assert_eq!(app.selection.selection_cursor, Some(1));
}

#[test]
fn first_arrow_down_selects_row_zero() {
    let (mut app, mut m) = viewer();
    inject(&mut m, 20);
    assert!(app.selection.selected_rows.is_empty());
    assert_eq!(app.selection.selection_cursor, None);

    app.handle_shortcut(&mut m, Shortcut::Down);

    assert!(
        app.selection.selected_rows.contains(&0),
        "first ArrowDown with no selection should land on row 0, got {:?}",
        app.selection.selected_rows
    );
    assert_eq!(app.selection.selection_cursor, Some(0));
}

#[test]
fn arrow_up_key_clamps_at_zero() {
    let (mut app, mut m) = viewer();
    inject(&mut m, 10);
    app.selection.select_filtered_row_with_len(0, 10);
    app.handle_shortcut(&mut m, Shortcut::Up);
    assert!(app.selection.selected_rows.contains(&0), "should stay at 0");
}

#[test]
fn shift_arrow_down_extends_selection() {
    let (mut app, mut m) = viewer();
    inject(&mut m, 20);
    app.selection.select_filtered_row_with_len(5, 20);

    app.handle_shortcut(&mut m, Shortcut::ExtendDown);
    app.handle_shortcut(&mut m, Shortcut::ExtendDown);
    app.handle_shortcut(&mut m, Shortcut::ExtendDown);

    // Should have 4 rows selected: 5,6,7,8
    let sel = &app.selection.selected_rows;
    assert_eq!(sel.len(), 4, "expected 4 selected rows, got {}", sel.len());
    for r in 5..=8 {
        assert!(sel.contains(&r), "row {r} should be selected");
    }
    assert_eq!(app.selection.selection_anchor, Some(5));
    assert_eq!(app.selection.selection_cursor, Some(8));
}

#[test]
fn shift_arrow_up_extends_backward() {
    let (mut app, mut m) = viewer();
    inject(&mut m, 20);
    app.selection.select_filtered_row_with_len(10, 20);

    app.handle_shortcut(&mut m, Shortcut::ExtendUp);
    app.handle_shortcut(&mut m, Shortcut::ExtendUp);

    let sel = &app.selection.selected_rows;
    assert_eq!(sel.len(), 3); // 8,9,10
    for r in 8..=10 {
        assert!(sel.contains(&r));
    }
}

#[test]
fn ctrl_f2_toggles_bookmark_via_keyboard() {
    let (mut app, mut m) = viewer();
    inject(&mut m, 20);
    app.selection.select_filtered_row_with_len(7, 20);

    app.handle_shortcut(&mut m, Shortcut::ToggleBookmark);
    assert!(
        m.bookmarks.contains(&7),
        "Ctrl+F2 should bookmark entry at selected row"
    );

    // Press again → un-bookmark
    app.handle_shortcut(&mut m, Shortcut::ToggleBookmark);
    assert!(!m.bookmarks.contains(&7));
}

#[test]
fn f3_jumps_to_next_bookmark() {
    let (mut app, mut m) = viewer();
    inject(&mut m, 30);
    app.toggle_bookmark(&mut m, 10);
    app.toggle_bookmark(&mut m, 20);
    app.selection.select_filtered_row_with_len(0, 30);

    // F3 = next bookmark
    app.handle_shortcut(&mut m, Shortcut::NextBookmark);
    assert!(
        app.selection.selected_rows.contains(&10),
        "F3 should jump to bookmark at 10"
    );

    app.handle_shortcut(&mut m, Shortcut::NextBookmark);
    assert!(
        app.selection.selected_rows.contains(&20),
        "F3 again should jump to bookmark at 20"
    );

    // There is none behind it: the first one is next.
    app.handle_shortcut(&mut m, Shortcut::NextBookmark);
    assert!(app.selection.selected_rows.contains(&10));
}

#[test]
fn copy_event_copies_selected_row() {
    let (mut app, mut m) = viewer();
    inject(&mut m, 10);
    assert!(app.copy_selected_row(&m).is_none());
    app.selection.select_filtered_row_with_len(3, 10);
    let copied = app.copy_selected_row(&m).unwrap();
    assert_eq!(
        copied.text,
        "4\t07-20\t12:00:00.000\tI\t100\t200\tTag0\tmsg 3"
    );
    assert_eq!(copied.lines, 1);
    assert!(matches!(copy_notice(copied.lines, None), Notice::CopiedRow));
    assert!(matches!(
        copy_notice(2, None),
        Notice::CopiedRows { count: 2 }
    ));
    match copy_notice(2, Some("headless".into())) {
        Notice::ClipboardFailed { reason } => assert_eq!(reason, "headless"),
        _ => panic!("the clipboard has failed"),
    }
}

#[test]
fn click_clear_button_empties_model() {
    let (mut app, mut m) = viewer();
    inject(&mut m, 50);
    assert!(!m.entries.is_empty());
    app.clear(&mut m);
    assert!(m.entries.is_empty(), "clicking Clear should empty the model");
}

#[test]
fn copy_row_respects_visible_columns() {
    let (mut app, mut m) = viewer();
    inject(&mut m, 3); // pid 100, tid 200, tag Tag{i%3}, msg "msg {i}"
    app.selection.selected_rows.insert(0);
    app.selection.selected_rows.insert(2);

    let text = app
        .ui
        .copy_selected_rows_text(&m, &app.selection.selected_rows);
    let lines: Vec<&str> = text.split('\n').collect();
    assert_eq!(lines.len(), 2, "rows 0 and 2 → 2 lines, got {lines:?}");
    assert!(lines[0].contains("msg 0"), "first line: {:?}", lines[0]);
    assert!(lines[1].contains("msg 2"), "second line: {:?}", lines[1]);
    // UID column is hidden by default → no phantom empty field.
    assert!(
        !lines[0].contains("\t\t"),
        "hidden UID must not leave an empty column: {:?}",
        lines[0]
    );

    // Hiding a column drops it from the copy (WYSIWYG).
    app.ui.col_message = false;
    let text2 = app
        .ui
        .copy_selected_rows_text(&m, &app.selection.selected_rows);
    assert!(
        !text2.contains("msg"),
        "hidden Message column must not be copied: {text2:?}"
    );
}

#[test]
fn copying_from_the_menu_takes_the_row_or_the_selection() {
    let (mut app, mut m) = viewer();
    inject(&mut m, 4);
    app.selection.select_only(0);
    assert_eq!(app.copy_message_text(&m, 2), "msg 2");
    assert!(app.copy_row_text(&m, 2).ends_with("Tag2\tmsg 2"));
    app.selection.click_range(1, 4);
    assert_eq!(app.copy_message_text(&m, 2), "msg 0\nmsg 1");
    assert_eq!(app.copy_row_text(&m, 2).matches('\n').count(), 1);
}

#[test]
fn clear_in_file_mode_bumps_epoch_to_stop_tail() {
    let (mut app, mut m) = viewer();
    inject(&mut m, 10);
    assert!(!app.device.live);
    let before = app.source.epoch;
    app.clear(&mut m);
    let after = app.source.epoch;
    assert!(
        after > before,
        "file-mode Clear should bump the epoch (was {before}, now {after})"
    );

    // A command that runs keeps its epoch, so that its lines go on.
    app.session_started(None);
    app.clear(&mut m);
    assert_eq!(app.source.epoch, after);
}

#[test]
fn click_run_no_panic_and_status_updates() {
    let (mut app, mut m) = viewer();
    let launch = app.begin_session(&mut m);
    assert_eq!(launch.epoch, app.source.epoch);
    assert_eq!(launch.args, vec!["logcat", "-v", "threadtime"]);
    assert_eq!(app.source.hint, LogFormat::ThreadTime);
    match app.session_started(Some("no such file".into())) {
        Notice::DeviceStartFailed { tool, reason } => {
            assert_eq!(tool, Transport::Adb);
            assert_eq!(reason, "no such file");
        }
        _ => panic!("it could not be started"),
    }
    assert!(!app.device.live);
    match app.session_started(None) {
        Notice::DeviceStarted { cmd, .. } => assert_eq!(cmd, "logcat -v threadtime"),
        _ => panic!("it was started"),
    }
    assert!(app.device.live);
}

#[test]
fn running_names_the_device_by_its_serial() {
    let (mut app, mut m) = viewer();
    app.device.selected_device = "emulator-5554 (unauthorized)".into();
    app.device.selected_cmd = "logcat -s \"My Tag\"".into();
    app.cfg.adb.adb_path = Some("/opt/adb".into());
    let launch = app.begin_session(&mut m);
    assert_eq!(
        launch.args,
        vec!["-s", "emulator-5554", "logcat", "-s", "My Tag"]
    );
    assert_eq!(launch.binary, Some("/opt/adb".to_string()));
}

#[test]
fn filter_spec_reflects_ui_state_after_notify() {
    let (mut app, _) = viewer();
    app.ui.find = "hello".into();
    app.ui.find_on = true;
    app.ui.remove = "spam".into();
    app.ui.remove_on = true;
    app.ui.bookmarks_only = true;
    app.notify_filter();

    let spec = &app.source.filter;
    assert_eq!(spec.find, vec!["hello"]);
    assert_eq!(spec.remove, vec!["spam"]);
    assert!(spec.bookmarks_only);
}

#[test]
fn disallowed_tags_propagates_to_spec() {
    let (mut app, mut m) = viewer();
    inject(&mut m, 10);

    app.add_remove_tag("BadTag");

    let spec = &app.source.filter;
    assert!(spec.disallowed_tags.contains("BadTag"));
    assert!(app.ui.allowed_tags.is_none());
}

#[test]
fn tags_can_be_shown_alone_and_taken_out() {
    let (mut app, _) = viewer();
    app.add_show_tag("");
    assert!(app.ui.allowed_tags.is_none());
    assert_eq!(app.source.gen, 1);
    app.add_show_tag("A");
    assert!(holds(&app.ui.allowed_tags, &["A"]));
    app.ui.allowed_tags = Some(set(&["A", "B"]));
    app.add_remove_tag("B");
    assert!(holds(&app.ui.allowed_tags, &["A"]));
    assert!(app.ui.disallowed_tags.contains("B"));
}

#[test]
fn f2_jumps_to_previous_bookmark() {
    let (mut app, mut m) = viewer();
    inject(&mut m, 30);
    app.toggle_bookmark(&mut m, 5);
    app.toggle_bookmark(&mut m, 20);
    app.selection.select_filtered_row_with_len(25, 30);

    // F2 = previous bookmark
    app.handle_shortcut(&mut m, Shortcut::PreviousBookmark);
    assert!(
        app.selection.selected_rows.contains(&20),
        "F2 should jump back to bookmark 20"
    );

    app.handle_shortcut(&mut m, Shortcut::PreviousBookmark);
    assert!(
        app.selection.selected_rows.contains(&5),
        "F2 again should jump back to bookmark 5"
    );
}

#[test]
fn page_down_key_jumps_forward() {
    let (mut app, mut m) = viewer();
    inject(&mut m, 200);
    app.selection.select_filtered_row_with_len(0, 200);
    app.visible_table_rows = 30;

    app.handle_shortcut(&mut m, Shortcut::PageDown);

    let pos = *app.selection.selected_rows.iter().next().unwrap();
    assert!(pos > 0, "PageDown should move forward from 0, got {pos}");
    assert_eq!(pos, 30);
}

#[test]
fn page_down_pages_from_cursor_not_arbitrary_selection() {
    let (mut app, mut m) = viewer();
    inject(&mut m, 300);
    app.selection.selected_rows.clear();
    app.selection.selected_rows.insert(0);
    app.selection.selection_cursor = Some(100);
    app.selection.selection_anchor = Some(100);

    app.handle_shortcut(&mut m, Shortcut::PageDown);

    let pos = *app.selection.selected_rows.iter().next().unwrap();
    assert!(
        pos > 100,
        "PageDown must page from the cursor (100), not the selection member (0); got {pos}"
    );
}

#[test]
fn f3_bookmark_jump_starts_from_cursor_not_arbitrary_selection() {
    let (mut app, mut m) = viewer();
    inject(&mut m, 300);
    app.toggle_bookmark(&mut m, 50);
    app.toggle_bookmark(&mut m, 150);
    app.selection.selected_rows.clear();
    app.selection.selected_rows.insert(0);
    app.selection.selection_cursor = Some(100);
    app.selection.selection_anchor = Some(100);

    app.handle_shortcut(&mut m, Shortcut::NextBookmark);

    assert!(
        app.selection.selected_rows.contains(&150),
        "F3 should jump from the cursor (100) to bookmark 150, got {:?}",
        app.selection.selected_rows
    );
}

#[test]
fn editing_highlight_keeps_selection() {
    let (mut app, mut m) = viewer();
    inject(&mut m, 20);
    app.selection.select_filtered_row_with_len(5, 20);
    assert!(app.selection.selected_rows.contains(&5));

    app.ui.highlight = "err".into();
    app.highlights.refresh_highlight_caches(&app.cfg.colors, &app.ui);

    assert_eq!(app.ui.highlight, "err", "highlight text should update");
    assert!(
        app.selection.selected_rows.contains(&5),
        "editing Highlight must not clear the row selection"
    );
}

#[test]
fn page_up_key_jumps_back() {
    let (mut app, mut m) = viewer();
    inject(&mut m, 200);
    app.selection.select_filtered_row_with_len(100, 200);

    app.handle_shortcut(&mut m, Shortcut::PageUp);

    let pos = *app.selection.selected_rows.iter().next().unwrap();
    assert!(pos < 100, "PageUp from 100 should move backward, got {pos}");
}

#[test]
fn keys_for_the_font_and_for_saving_are_left_to_the_outside() {
    let (mut app, mut m) = viewer();
    assert_eq!(app.handle_shortcut(&mut m, Shortcut::Save), Effect::Save);
    assert_eq!(
        app.handle_shortcut(&mut m, Shortcut::LargerFont),
        Effect::Font(FontChange::Larger)
    );
    assert_eq!(
        app.handle_shortcut(&mut m, Shortcut::SmallerFont),
        Effect::Font(FontChange::Smaller)
    );
    assert_eq!(
        app.handle_shortcut(&mut m, Shortcut::DefaultFont),
        Effect::Font(FontChange::Default)
    );
}

#[test]
fn arrow_down_on_empty_table_no_panic() {
    let (mut app, mut m) = viewer();
    app.handle_shortcut(&mut m, Shortcut::Down);
    app.handle_shortcut(&mut m, Shortcut::ExtendDown);
    assert!(app.selection.selected_rows.is_empty());
}

#[test]
fn shift_arrow_direction_change_shrinks_range() {
    let (mut app, mut m) = viewer();
    inject(&mut m, 30);
    app.selection.select_filtered_row_with_len(15, 30);

    // Extend down 3
    for _ in 0..3 {
        app.handle_shortcut(&mut m, Shortcut::ExtendDown);
    }
    assert_eq!(app.selection.selected_rows.len(), 4); // 15..=18

    // Now reverse: up 2 — range should shrink to 15..=16
    for _ in 0..2 {
        app.handle_shortcut(&mut m, Shortcut::ExtendUp);
    }
    assert_eq!(app.selection.selected_rows.len(), 2); // 15..=16
    assert_eq!(app.selection.selection_cursor, Some(16));
}

#[test]
fn rapid_arrow_down_moves_multiple_rows() {
    let (mut app, mut m) = viewer();
    inject(&mut m, 50);
    app.selection.select_filtered_row_with_len(0, 50);
    for _ in 0..10 {
        app.handle_shortcut(&mut m, Shortcut::Down);
    }
    assert!(app.selection.selected_rows.contains(&10));
}

#[test]
fn run_session_clears_model_and_selection() {
    let (mut app, mut m) = viewer();
    inject(&mut m, 50);
    app.selection.select_filtered_row_with_len(10, 50);
    assert!(!m.entries.is_empty());
    assert!(!app.selection.selected_rows.is_empty());

    app.begin_session(&mut m);
    assert!(m.entries.is_empty());
    assert!(app.selection.selected_rows.is_empty());
    assert_eq!(app.selection.selection_anchor, None);
}

#[test]
fn run_session_preserves_column_filters() {
    let (mut app, mut m) = viewer();

    app.ui.allowed_levels = Some(LevelMask::error());
    app.ui.allowed_pids = Some(set(&["100"]));
    app.ui.allowed_tids = Some(set(&["200"]));
    app.ui.allowed_tags = Some(set(&["Tag0"]));
    app.ui.disallowed_tags.insert("Tag1".to_string());

    app.begin_session(&mut m);

    assert_eq!(app.ui.allowed_levels, Some(LevelMask::error()));
    assert!(holds(&app.ui.allowed_pids, &["100"]));
    assert!(holds(&app.ui.allowed_tids, &["200"]));
    assert!(holds(&app.ui.allowed_tags, &["Tag0"]));
    assert!(app.ui.disallowed_tags.contains("Tag1"));
}

#[test]
fn stop_session_when_no_session_is_noop() {
    let (mut app, _) = viewer();
    assert!(!app.device.live);
    assert!(app.stop_session().is_none());
    app.session_started(None);
    assert!(matches!(
        app.stop_session(),
        Some(Notice::DeviceStopped { tool: Transport::Adb })
    ));
    assert!(!app.device.live);
}

#[test]
fn toggle_pause_when_no_session_is_noop() {
    let (mut app, _) = viewer();
    assert!(!app.device.live);
    assert!(app.toggle_pause().is_none());
    app.session_started(None);
    assert!(matches!(
        app.toggle_pause(),
        Some(Notice::DevicePaused { .. })
    ));
    assert!(app.device.paused);
    assert!(matches!(
        app.toggle_pause(),
        Some(Notice::DeviceResumed { .. })
    ));
    assert!(!app.device.paused);
}

#[test]
fn a_command_that_ends_by_itself_is_no_longer_live() {
    let (mut app, _) = viewer();
    assert!(app.session_ended("x".into()).is_none());
    app.session_started(None);
    match app.session_ended("device offline".into()) {
        Some(Notice::DeviceEndedWith { reason, .. }) => assert_eq!(reason, "device offline"),
        _ => panic!("it has said why"),
    }
    assert!(!app.device.live);
    app.session_started(None);
    assert!(matches!(
        app.session_ended("".into()),
        Some(Notice::DeviceEnded { .. })
    ));
}

#[test]
fn toggling_auto_scroll_on_runs_jump_path_without_panic() {
    let (mut app, mut m) = viewer();
    inject(&mut m, 50);
    app.auto_scroll = false;
    app.set_auto_scroll(true, m.filtered.len());
    assert!(app.auto_scroll, "clicking should turn Auto-scroll on");
    assert_eq!(app.selection.pending_scroll, Some(49));
    app.selection.pending_scroll = None;
    app.set_auto_scroll(false, 50);
    assert_eq!(app.selection.pending_scroll, None);
    app.set_auto_scroll(true, 0);
    assert_eq!(app.selection.pending_scroll, None);
}

#[test]
fn open_file_clears_previous_data() {
    let (mut app, mut m) = viewer();
    inject(&mut m, 50);
    app.toggle_bookmark(&mut m, 10);
    app.selection.select_filtered_row_with_len(20, 50);

    let load = app.open_file(&mut m, "/tmp/a.log");

    assert_eq!(load.epoch, 1);
    assert_eq!(load.choice, EncodingChoice::Utf8);
    assert!(load.stopped.is_none());
    assert!(app.selection.selected_rows.is_empty());
    assert_eq!(app.selection.selection_anchor, None);
    assert!(m.bookmarks.is_empty());
    assert!(m.entries.is_empty());
    assert_eq!(m.file_path.as_deref(), Some("/tmp/a.log"));
    assert_eq!(app.cfg.recent.files, vec!["/tmp/a.log"]);
}

#[test]
fn only_the_same_file_keeps_column_filters() {
    for (path, keeps) in [
        ("/tmp/logs/a.log", true),
        ("/tmp//logs/a.log", true),
        ("/tmp/logs/./a.log", true),
        ("/tmp/logs/A.log", false),
        ("/tmp/log/sa.log", false),
        ("/tmp/logs/alog", false),
        ("tmp/logs/a.log", false),
    ] {
        let (mut app, mut m) = viewer();
        app.open_file(&mut m, "/tmp/logs/a.log");
        app.ui.allowed_levels = Some(LevelMask::error());
        app.open_file(&mut m, path);
        assert_eq!(app.ui.allowed_levels.is_some(), keeps, "{path}");
    }
}

#[test]
fn alt_clicks_on_tags_show_and_hide_them() {
    let click = tag_click(true, true, false);
    assert!(click.show && !click.select && !click.remove);
    let click = tag_click(true, false, true);
    assert!(click.remove && !click.select && !click.show);
    let click = tag_click(false, true, false);
    assert!(click.select && !click.show && !click.remove);
    let click = tag_click(false, false, true);
    assert!(!click.select && !click.show && !click.remove);
}

#[test]
fn open_different_file_resets_column_filters() {
    let (mut app, mut m) = viewer();
    app.open_file(&mut m, "/tmp/a.log");

    app.ui.allowed_levels = Some(LevelMask::error());
    app.ui.allowed_pids = Some(set(&["1"]));

    app.open_file(&mut m, "/tmp/b.log");

    // Unrelated values would hide the new file's data — must be cleared.
    assert_eq!(app.ui.allowed_levels, None);
    assert!(app.ui.allowed_pids.is_none());
    assert_eq!(app.cfg.recent.files, vec!["/tmp/b.log", "/tmp/a.log"]);
}

#[test]
fn reopen_same_file_keeps_column_filters() {
    let (mut app, mut m) = viewer();
    app.open_file(&mut m, "/tmp/a.log");

    app.ui.allowed_levels = Some(LevelMask::info());
    app.ui.allowed_tags = Some(set(&["T"]));

    app.open_file(&mut m, "/tmp/a.log");

    assert_eq!(app.ui.allowed_levels, Some(LevelMask::info()));
    assert!(holds(&app.ui.allowed_tags, &["T"]));
    assert_eq!(app.cfg.recent.files, vec!["/tmp/a.log"]);
}

#[test]
fn opening_a_file_stops_the_command() {
    let (mut app, mut m) = viewer();
    app.session_started(None);
    app.ui.encoding = "local".into();
    let load = app.open_file(&mut m, "/tmp/a.log");
    assert!(matches!(load.stopped, Some(Notice::DeviceStopped { .. })));
    assert_eq!(load.choice, EncodingChoice::Local);
    assert!(!app.device.live);
}

#[test]
fn bookmark_toggle_with_bookmarks_only_active() {
    let (mut app, mut m) = viewer();
    inject(&mut m, 20);

    app.ui.bookmarks_only = true;
    app.notify_filter();
    let gen = app.source.gen;

    app.toggle_bookmark(&mut m, 5);
    assert!(m.bookmarks.contains(&5));
    assert_eq!(app.source.gen, gen + 1, "the filter is applied anew");

    // Toggle again to remove
    app.toggle_bookmark(&mut m, 5);
    assert!(!m.bookmarks.contains(&5));

    app.ui.bookmarks_only = false;
    let gen = app.source.gen;
    app.toggle_bookmark(&mut m, 5);
    assert_eq!(app.source.gen, gen);
}

#[test]
fn bookmarks_of_several_rows_are_toggled_each() {
    let (mut app, mut m) = viewer();
    inject(&mut m, 6);
    m.filtered = vec![1, 3, 5];
    app.toggle_bookmark(&mut m, 3);
    app.selection.selected_rows.insert(1);
    app.selection.selected_rows.insert(2);
    app.selection.selected_rows.insert(9);
    app.ui.bookmarks_only = true;
    let gen = app.source.gen;
    app.toggle_selected_bookmark(&mut m);
    assert!(!m.bookmarks.contains(&3));
    assert!(m.bookmarks.contains(&5));
    assert_eq!(m.bookmarks.len(), 1);
    assert_eq!(app.source.gen, gen + 2);
}

#[test]
fn goto_visible_row_selects_and_scrolls() {
    let (mut app, mut m) = viewer();
    inject(&mut m, 20); // filtered = 0..20, all visible

    let notice = app.goto_line(&m, 7); // user typed line 8
    assert!(app.selection.selected_rows.contains(&7));
    assert_eq!(app.selection.pending_scroll, Some(7));
    assert_eq!(app.selection.selection_cursor, Some(7));
    assert!(notice.is_none(), "no error status on a hit");
}

#[test]
fn goto_out_of_range_reports_and_does_not_select() {
    let (mut app, mut m) = viewer();
    inject(&mut m, 20);

    let notice = app.goto_line(&m, 999);
    assert!(
        app.selection.selected_rows.is_empty(),
        "out-of-range goto must not select"
    );
    assert_eq!(app.selection.pending_scroll, None);
    assert!(matches!(
        notice,
        Some(Notice::GotoOutOfRange { line: 1000, total: 20 })
    ));
}

#[test]
fn goto_filtered_row_reports_and_scrolls_to_nearest() {
    let (mut app, mut m) = viewer();
    inject(&mut m, 20);
    // Hide odd rows: filtered keeps only even entry indices (0,2,4,...,18).
    m.filtered = (0..20u32).filter(|i| i % 2 == 0).collect();

    // Line 10 (row index 9) is odd → hidden. Nearest visible by
    // partition_point is entry 10, which sits at position 5 in `filtered`.
    let notice = app.goto_line(&m, 9);
    assert!(
        app.selection.selected_rows.is_empty(),
        "hidden goto must not select"
    );
    assert!(
        matches!(notice, Some(Notice::GotoFiltered { line: 10 })),
        "should report filtered-hidden"
    );
    assert_eq!(
        app.selection.pending_scroll,
        Some(5),
        "should scroll to nearest visible row"
    );
}

#[test]
fn a_jump_to_a_hidden_line_goes_to_the_nearest_row() {
    let (mut app, mut m) = viewer();
    inject(&mut m, 101);
    m.filtered = vec![0, 100];
    for (entry, row) in [(1, 0), (49, 0), (50, 1), (51, 1), (99, 1)] {
        app.goto_line(&m, entry);
        assert_eq!(app.selection.pending_scroll, Some(row), "entry {entry}");
    }
    m.filtered = vec![40, 60];
    for (entry, row) in [(0, 0), (39, 0), (61, 1), (100, 1)] {
        app.goto_line(&m, entry);
        assert_eq!(app.selection.pending_scroll, Some(row), "entry {entry}");
    }
}

#[test]
fn goto_filtered_with_empty_filtered_no_panic() {
    let (mut app, mut m) = viewer();
    inject(&mut m, 20);
    m.filtered.clear(); // nothing visible

    let notice = app.goto_line(&m, 5); // exists but nothing is visible
    assert_eq!(app.selection.pending_scroll, None);
    assert!(notice.is_some());
}

#[test]
fn clicks_select_rows() {
    let (mut app, mut m) = viewer();
    inject(&mut m, 10);
    assert!(app.click_row(2, 10, false, false).is_none());
    assert_eq!(app.selection.selection_anchor, Some(2));
    assert!(matches!(
        app.click_row(5, 10, true, false),
        Some(Notice::CtrlClick { count: 2 })
    ));
    assert!(matches!(
        app.click_row(4, 10, false, true),
        Some(Notice::ShiftClick { count: 4 })
    ));
    app.double_click_row(&mut m, 7);
    assert!(m.bookmarks.contains(&7));
    assert_eq!(app.selection.selected_rows.len(), 1);
    app.double_click_row(&mut m, 7);
    assert!(!m.bookmarks.contains(&7));
    app.click_indicator(42, 10);
    assert_eq!(app.selection.pending_scroll, Some(9));
    assert!(app.selection.selected_rows.contains(&9));
}

#[test]
fn switching_the_theme_replaces_default_colors_only() {
    let (mut app, _) = viewer();
    app.cfg.colors.level_e = "0x123456".into();
    app.switch_theme("dark");
    assert_eq!(app.cfg.view.theme, "dark");
    assert_eq!(app.cfg.colors.level_e, "0x123456");
    assert_eq!(app.cfg.colors.level_d, "0x5599FF");
    assert_eq!(app.level_colors[1], Rgb { r: 0x55, g: 0x99, b: 0xff });
    assert_eq!(app.highlights.palette, vec![Rgb { r: 0x66, g: 0x55, b: 0 }]);
    app.switch_theme("light");
    assert_eq!(app.cfg.colors.level_d, "0x0000AA");
    assert_eq!(app.cfg.colors.level_e, "0x123456");
}

#[test]
fn languages_are_resolved() {
    let (mut app, _) = viewer();
    assert_eq!(app.set_lang("zh", "en-US"), "zh-CN");
    assert_eq!(app.cfg.view.lang, "zh");
    assert_eq!(app.set_lang("en", "zh-CN"), "en-US");
    assert_eq!(app.set_lang("auto", "ZH_tw"), "zh-CN");
    assert_eq!(app.set_lang("auto", ""), "en-US");
    assert_eq!(app.cfg.view.lang, "auto");
}

#[test]
fn switching_the_tool_forgets_its_devices() {
    let (mut app, _) = viewer();
    app.device.devices = vec!["a".into()];
    app.device.selected_device = "a".into();
    assert!(!app.switch_transport(Transport::Adb));
    assert_eq!(app.device.selected_device, "a");
    assert!(app.switch_transport(Transport::Hdc));
    assert!(app.device.devices.is_empty());
    assert_eq!(app.device.selected_device, "");
    assert_eq!(app.device.selected_cmd, "hilog -v threadtime -r");
    // A command that both can run stays.
    app.device.selected_cmd = "shell cat /proc/kmsg".into();
    assert!(app.switch_transport(Transport::Adb));
    assert_eq!(app.device.selected_cmd, "shell cat /proc/kmsg");
}

#[test]
fn settings_are_saved_with_the_device() {
    let (mut app, _) = viewer();
    app.device.selected_cmd = "logcat -b radio -v time".into();
    app.device.selected_device = "emulator-5554".into();
    app.device.transport = Transport::Hdc;
    app.ui.find = "x".into();
    app.ui.find_on = true;
    app.save_settings();
    assert_eq!(app.cfg.adb.selected_cmd, "logcat -b radio -v time");
    assert_eq!(app.cfg.adb.selected_device, "emulator-5554");
    assert_eq!(app.cfg.adb.transport, Transport::Hdc);
    assert_eq!(app.cfg.filters.find, "x");
    let cmd = app.device.selected_cmd.clone();
    let again = App::from_config(app.cfg);
    assert_eq!(again.device.selected_cmd, cmd);
    assert_eq!(again.device.transport, Transport::Hdc);
    assert!(again.ui.find_on);
    assert_eq!(again.source.filter.find, vec!["x"]);
}

#[test]
fn changing_the_encoding_asks_for_a_reload_once() {
    let (mut app, _) = viewer();
    assert!(app.set_encoding("local"));
    assert!(!app.set_encoding("local"));
    assert_eq!(app.ui.encoding_choice(), EncodingChoice::Local);
    assert!(app.set_encoding("utf-8"));
    assert_eq!(app.ui.encoding_choice(), EncodingChoice::Utf8);
}

#[test]
fn picker_offers_and_applies_values() {
    let (mut app, mut m) = viewer();
    inject(&mut m, 6);
    app.ui.open_picker(PickerCol::Tag);
    app.picker_cache.refresh(&m, PickerCol::Tag);
    let values: Vec<&str> = app
        .picker_cache
        .options
        .iter()
        .map(|o| o.value.as_str())
        .collect();
    assert_eq!(values, vec!["Tag0", "Tag1", "Tag2"]);
    let all = app.ui.chosen_values(PickerCol::Tag, &app.picker_cache.options);
    assert_eq!(all.len(), 3);
    app.apply_picker(PickerCol::Tag, set(&["Tag1"]));
    assert!(holds(&app.ui.allowed_tags, &["Tag1"]));
    assert!(app.ui.disallowed_tags.contains("Tag0"));
    assert!(app.ui.disallowed_tags.contains("Tag2"));
    assert_eq!(app.ui.disallowed_tags.len(), 2);
    let chosen = app.ui.chosen_values(PickerCol::Tag, &app.picker_cache.options);
    assert_eq!(chosen.len(), 1);
    app.reset_picker(PickerCol::Tag);
    assert!(app.ui.allowed_tags.is_none());
    assert!(app.ui.disallowed_tags.is_empty());

    app.picker_cache.refresh(&m, PickerCol::Level);
    app.apply_picker(PickerCol::Level, set(&["E", "F"]));
    assert_eq!(
        app.ui.allowed_levels,
        Some(LevelMask::error().union(LevelMask::fatal()))
    );
    let letters = app.ui.chosen_values(PickerCol::Level, &app.picker_cache.options);
    assert!(letters.contains("E") && letters.contains("F") && letters.len() == 2);
}

#[test]
fn picker_is_not_closed_by_the_click_that_opens_it() {
    let (mut app, _) = viewer();
    app.ui.open_picker(PickerCol::Pid);
    app.ui.end_picker_frame("10".into(), false, true, false);
    let open = app.ui.picker.as_ref().unwrap();
    assert_eq!(open.search, "10");
    assert!(!open.just_opened);
    app.ui.end_picker_frame("10".into(), false, true, false);
    assert!(app.ui.picker.is_none());
    app.ui.open_picker(PickerCol::Pid);
    app.ui.end_picker_frame("".into(), false, false, true);
    assert!(app.ui.picker.is_none());
    app.ui.open_picker(PickerCol::Pid);
    app.ui.end_picker_frame("".into(), true, false, false);
    assert!(app.ui.picker.is_none());
}

#[test]
fn saving_an_empty_log_is_refused() {
    let (_, mut m) = viewer();
    assert!(matches!(save_filtered(&m), Err(Notice::NothingToSave)));
    inject(&mut m, 3);
    m.filtered = vec![2];
    let rows = save_filtered(&m).unwrap();
    assert_eq!(rows, vec!["07-2012:00:00.000100200Tag2msg 2"]);
}
