use logfilter::caches::{level_color, parse_level_colors, PickerCache};
use logfilter::color::Rgb;
use logfilter::config::ColorsConfig;
use logfilter::filter::{contains_ci, FilterSpec};
use logfilter::highlight::{build_highlighted, Style};
use logfilter::ingest::Ingest;
use logfilter::model::{LevelMask, LogEntry, LogFormat, Model};
use logfilter::parser::{parse_line, parse_line_hinted};
use logfilter::picker::{build_sorted_options, is_found, letters_of, mask_of, PickerCol};
use logfilter::refilter::{FilterProgress, CHUNK};

fn entry(tag: &str, message: &str) -> LogEntry {
    LogEntry::from_fields("", "", LevelMask::info(), "1", "2", tag, message)
}

fn texts(v: &[&str]) -> Vec<String> {
    v.iter().map(|s| s.to_string()).collect()
}

/// Applies a filter to a log until all of it is done.
fn apply(progress: &mut FilterProgress, spec: &FilterSpec, m: &mut Model, gen: u64) -> bool {
    let mut pass = progress.begin(gen, m.entries.len());
    while !pass.is_done() {
        if !pass.step(spec, m, gen) {
            progress.give_up();
            return false;
        }
    }
    progress.commit(pass, m, gen)
}

#[test]
fn filtering_in_parts_gives_what_filtering_at_once_gives() {
    let spec = FilterSpec {
        find: texts(&["7"]),
        ..FilterSpec::default()
    };
    let n = 2 * CHUNK + 10;
    let mut m = Model::default();
    for i in 0..100 {
        m.append(entry("T", &format!("{i}")));
    }
    let mut progress = FilterProgress::new();
    assert!(apply(&mut progress, &spec, &mut m, 1));
    for i in 100..n {
        m.append(entry("T", &format!("{i}")));
    }
    // Only what was appended is looked at.
    let pass = progress.begin(1, m.entries.len());
    assert!(!pass.full);
    assert_eq!(pass.start, 100);
    assert!(apply(&mut progress, &spec, &mut m, 1));
    let expected: Vec<u32> = (0..n as u32)
        .filter(|i| i.to_string().contains('7'))
        .collect();
    assert_eq!(m.filtered, expected);
    // A new filter looks at all of it.
    assert!(progress.begin(2, m.entries.len()).full);
}

#[test]
fn a_pass_is_given_up_when_the_filter_or_the_log_changes() {
    let spec = FilterSpec::default();
    let mut m = Model::default();
    for _ in 0..5 {
        m.append(entry("T", "x"));
    }
    let mut progress = FilterProgress::new();
    let mut pass = progress.begin(1, 5);
    assert!(!pass.step(&spec, &m, 2), "the filter has changed");
    let mut pass = progress.begin(2, 5);
    assert!(pass.step(&spec, &m, 2));
    m.clear();
    assert!(!progress.commit(pass, &mut m, 2), "the log was cleared");
    assert!(m.filtered.is_empty());
    assert_eq!(progress.last_gen, None);
    let mut pass = progress.begin(2, 5);
    assert!(!pass.step(&spec, &m, 2));
}

#[test]
fn lines_of_replaced_sources_are_dropped() {
    let mut ingest = Ingest::new();
    let mut m = Model::default();
    let lines = vec![
        (1, "W/Tag(  42): one".to_string()),
        (2, "W/Tag(  42): two".to_string()),
        (2, "plain".to_string()),
    ];
    assert!(ingest.batch(&mut m, lines, 2, LogFormat::Unknown));
    assert_eq!(m.entries.len(), 2);
    assert_eq!(m.entries[0].message(), "two");
    assert_eq!(m.entries[1].message(), "plain");
    assert_eq!(m.entries[1].line_no, 2);
    assert!(!ingest.batch(&mut m, vec![(1, "old".to_string())], 2, LogFormat::Unknown));
    assert_eq!(m.entries.len(), 2);
}

#[test]
fn a_hint_changes_nothing_but_the_order_of_tries() {
    for line in [
        "01-01 12:34:56.789  1 2 I Tag: msg",
        "01-01 12:34:56.789 D/MyTag( 1234): a message",
        "W/Tag(  42): hi",
        "<3>[  12.345] usb: disconnect",
        "nothing of the sort",
    ] {
        let (plain, format) = parse_line(line.to_string());
        for hint in [
            LogFormat::Brief,
            LogFormat::Time,
            LogFormat::ThreadTime,
            LogFormat::Kernel,
            LogFormat::Unknown,
        ] {
            let (hinted, f) = parse_line_hinted(line.to_string(), hint);
            assert_eq!(f, format);
            assert_eq!(hinted.message(), plain.message());
            assert_eq!(hinted.raw(), line);
        }
    }
}

#[test]
fn a_harmonyos_line_has_the_same_fields_with_every_hint() {
    let line = "07-20 12:00:00.123  100  200 I  C01234/My Tag : hello: there";
    for (hint, expected) in [
        (LogFormat::Unknown, LogFormat::HiLog),
        (LogFormat::HiLog, LogFormat::HiLog),
        (LogFormat::ThreadTime, LogFormat::ThreadTime),
        (LogFormat::Time, LogFormat::HiLog),
        (LogFormat::Brief, LogFormat::HiLog),
        (LogFormat::Kernel, LogFormat::HiLog),
    ] {
        let (e, format) = parse_line_hinted(line.to_string(), hint);
        assert_eq!(format, expected);
        assert!(e.level == LevelMask::info());
        assert_eq!(
            [e.date(), e.time(), e.pid(), e.tid(), e.uid(), e.tag(), e.message()],
            ["07-20", "12:00:00.123", "100", "200", "", "C01234/My Tag", "hello: there"]
        );
    }
}

#[test]
fn groups_lie_in_lines_as_the_patterns_say() {
    // A user id; white space beyond ASCII; a tag of white space; digits beyond ASCII.
    let (e, f) = parse_line("01-01 00:00:00.000 1 2 1000 W T:m".to_string());
    assert_eq!(f, LogFormat::ThreadTime);
    assert_eq!([e.uid(), e.tag(), e.message()], ["1000", "T", "m"]);
    let (e, f) = parse_line("01-01\u{3000}00:00:00.000 1 2 W\u{a0}T:\u{a0} m".to_string());
    assert_eq!(f, LogFormat::ThreadTime);
    assert_eq!([e.date(), e.tag(), e.message()], ["01-01", "T", " m"]);
    let (e, f) = parse_line("01-01 00:00:00.000 1 2 W  : m".to_string());
    assert_eq!(f, LogFormat::ThreadTime);
    assert_eq!([e.tag(), e.message()], ["", "m"]);
    let (e, f) = parse_line("01-01 00:00:00.000 \u{664} 2 W T: m".to_string());
    assert_eq!(f, LogFormat::ThreadTime);
    assert_eq!(e.pid(), "\u{664}");
}

#[test]
fn options_are_sorted_by_count_and_then_by_text() {
    let mut m = Model::default();
    for tag in ["b", "a", "c", "c", "", "b2"] {
        m.append(entry(tag, "x"));
    }
    let options = build_sorted_options(&m, PickerCol::Tag);
    let got: Vec<(&str, usize)> = options.iter().map(|o| (o.value.as_str(), o.count)).collect();
    assert_eq!(got, vec![("c", 2), ("a", 1), ("b", 1), ("b2", 1)]);
    let levels = build_sorted_options(&m, PickerCol::Level);
    assert_eq!(levels.len(), 1);
    assert_eq!(levels[0].value, "I");
    assert_eq!(levels[0].count, 6);
    let mut cache = PickerCache::new();
    cache.refresh(&m, PickerCol::Pid);
    assert_eq!(cache.options.len(), 1);
    m.append(LogEntry::from_fields("", "", LevelMask::info(), "9", "", "", ""));
    cache.refresh(&m, PickerCol::Pid);
    assert_eq!(cache.options.len(), 2);
}

#[test]
fn options_are_searched_without_regard_to_case() {
    assert!(is_found("ActivityManager", "MANAG"));
    assert!(is_found("ÄRGER", "är"));
    assert!(is_found("x", ""));
    assert!(!is_found("x", "y"));
}

#[test]
fn levels_and_letters_stand_for_each_other() {
    let mask = LevelMask::verbose().union(LevelMask::warn());
    let letters = letters_of(mask);
    assert!(letters.contains("V") && letters.contains("W") && letters.len() == 2);
    assert_eq!(mask_of(&letters), mask);
    assert_eq!(mask_of(&letters_of(LevelMask::all())), LevelMask::all());
}

#[test]
fn levels_have_their_colors() {
    let colors = parse_level_colors(&ColorsConfig::light_defaults());
    assert_eq!(level_color(LevelMask::info(), &colors), Rgb { r: 0, g: 0x9a, b: 0 });
    assert_eq!(level_color(LevelMask::fatal(), &colors), Rgb { r: 255, g: 0, b: 0 });
    assert_eq!(level_color(LevelMask::empty(), &colors), colors[0]);
}

#[test]
fn terms_are_highlighted_and_the_text_is_kept() {
    let yellow = Rgb { r: 255, g: 255, b: 0 };
    let black = Rgb { r: 0, g: 0, b: 0 };
    let marked = build_highlighted(
        "An Error, error!",
        &texts(&["error"]),
        &texts(&["an"]),
        &vec![yellow],
    );
    let whole: String = marked.iter().map(|s| s.text.as_str()).collect();
    assert_eq!(whole, "An Error, error!");
    let parts: Vec<(&str, Style)> = marked.iter().map(|s| (s.text.as_str(), s.style)).collect();
    let colored = Style::Colored {
        background: yellow,
        foreground: black,
    };
    assert_eq!(
        parts,
        vec![
            ("An", Style::Underlined),
            (" ", Style::Plain),
            ("Error", colored),
            (", ", Style::Plain),
            ("error", colored),
            ("!", Style::Plain),
        ]
    );
}

#[test]
fn the_case_of_terms_does_not_matter_to_highlighting() {
    let palette = vec![Rgb { r: 255, g: 255, b: 0 }];
    let pieces = |text: &str, highlight: &str, find: &str| {
        build_highlighted(text, &texts(&[highlight]), &texts(&[find]), &palette)
            .into_iter()
            .map(|s| (s.text, s.style))
            .collect::<Vec<_>>()
    };
    let marked = pieces("a b", "A", "B");
    assert_eq!(marked.len(), 3);
    assert!(matches!(marked[0].1, Style::Colored { .. }));
    assert_eq!(marked[2], ("b".to_string(), Style::Underlined));
    assert_eq!(marked, pieces("a b", "a", "b"));
    assert_eq!(pieces("xÄx", "ä", ""), pieces("xÄx", "Ä", ""));
}

#[test]
fn other_scripts_are_highlighted_by_characters() {
    let marked = build_highlighted("ÄRGER 日志", &texts(&["är"]), &texts(&["志"]), &vec![]);
    let parts: Vec<(&str, Style)> = marked.iter().map(|s| (s.text.as_str(), s.style)).collect();
    assert_eq!(
        parts,
        vec![
            ("ÄR", Style::Underlined),
            ("GER 日", Style::Plain),
            ("志", Style::Underlined),
        ]
    );
    assert!(build_highlighted("", &texts(&["x"]), &vec![], &vec![]).is_empty());
    let plain = build_highlighted("日志", &vec![], &vec![], &vec![]);
    assert_eq!(plain.len(), 1);
    assert_eq!(plain[0].style, Style::Plain);
}

#[test]
fn overlapping_places_are_one() {
    let marked = build_highlighted("ababab", &texts(&["abab"]), &vec![], &vec![]);
    assert_eq!(marked.len(), 1);
    assert_eq!(marked[0].text, "ababab");
    assert_eq!(marked[0].style, Style::Underlined);
}

#[test]
fn removing_goes_before_finding() {
    let spec = FilterSpec {
        find: FilterSpec::tokens(" Boom | x "),
        remove: FilterSpec::tokens("noise||"),
        ..FilterSpec::default()
    };
    assert_eq!(spec.find, vec!["boom", "x"]);
    assert_eq!(spec.remove, vec!["noise"]);
    let bookmarks = std::collections::HashSet::new();
    assert!(spec.matches(&entry("T", "BOOM"), 0, &bookmarks));
    assert!(!spec.matches(&entry("T", "boom noise"), 0, &bookmarks));
    assert!(!spec.matches(&entry("boom", "tag only"), 0, &bookmarks));
    assert!(contains_ci("Straße ÄÖ", "äö"));
}
