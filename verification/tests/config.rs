use logfilter::color::{contrast, parse_color, Rgb};
use logfilter::config::{
    add_recent, config_path, ensure_builtin_commands, fonts_dir, prune_missing_recent, AdbConfig,
    ColorsConfig, Config,
};
use logfilter::fonts::{
    file_stem, find_font_file, is_font_file, list_user_font_stems, system_cjk_candidates, Platform,
};
use logfilter::import::import_from_ini;
use logfilter::properties::parse_properties;
use logfilter::transport::Transport;

#[test]
fn props_basic_kv() {
    let p = parse_properties("A=1\nB : two\n#comment\n!bang\nC=x\\:y");
    assert_eq!(p.get("A").unwrap(), "1");
    assert_eq!(p.get("B").unwrap(), "two");
    assert!(!p.contains_key("#comment"));
    assert_eq!(p.get("C").unwrap(), "x:y");
}

#[test]
fn properties_know_escapes() {
    let p = parse_properties("a\\=b=c\\td\\n\n  k = v \nnothing\nk=last\\");
    assert_eq!(p.get("a\\=b").unwrap(), "c\td\n");
    assert_eq!(p.get("k").unwrap(), "last");
    assert!(p.get("nothing").is_none());
}

#[test]
fn ini_migration_reads_main_ini() {
    let got = import_from_ini(
        true,
        Some("INI_WIDTH=1200\nINI_HEIGHT=800\nWORD_FIND=hello\nINI_COMUMN_0=42\n"),
        None,
        None,
        None,
    )
    .unwrap();
    assert_eq!(got.width.as_deref(), Some("1200"));
    assert_eq!(got.height.as_deref(), Some("800"));
    assert_eq!(got.config.filters.find, "hello");
    assert_eq!(got.columns.len(), 10);
    assert_eq!(got.columns[0].as_deref(), Some("42"));
    assert_eq!(got.columns[1], None);
}

#[test]
fn ini_migration_reads_the_other_files() {
    let got = import_from_ini(
        true,
        None,
        Some("INI_COLOR_3(E)=0x112233\nINI_HIGILIGHT_COUNT=3\nINI_HIGILIGHT_0=0x1\nINI_HIGILIGHT_2=0x3\n"),
        Some("CMD_COUNT=1\nCMD_0=logcat -v brief\nCMD_1=no\n"),
        Some(" /a.log \n\n/b.log\n"),
    )
    .unwrap();
    assert_eq!(got.config.colors.level_e, "0x112233");
    assert_eq!(got.config.colors.level_d, "0x0000AA");
    assert_eq!(got.config.colors.highlights, vec!["0x1", "0x3"]);
    assert_eq!(got.config.adb.commands, vec!["logcat -v brief"]);
    assert_eq!(got.config.recent.files, vec!["/a.log", "/b.log"]);
    assert_eq!(got.width, None);
}

#[test]
fn nothing_is_taken_over_without_a_main_file() {
    let commands = Some("CMD_COUNT=1\nCMD_0=logcat\n");
    assert!(import_from_ini(false, None, None, commands, Some("/a.log")).is_none());
    // A main file that cannot be read is there all the same.
    let got = import_from_ini(true, None, None, commands, Some("/a.log")).unwrap();
    assert_eq!(got.config.adb.commands, vec!["logcat"]);
    assert_eq!(got.config.filters.find, "");
}

#[test]
fn ensure_builtin_commands_injects_hilog_into_old_config() {
    // An older saved config without the hilog command should get it added.
    let mut cfg = Config::default();
    cfg.adb.commands = vec!["logcat -v threadtime".into()];
    ensure_builtin_commands(&mut cfg);
    assert!(
        cfg.adb.commands.iter().any(|c| c.contains("hilog")),
        "hilog command added"
    );
    // Idempotent — a second call doesn't duplicate.
    let n = cfg.adb.commands.len();
    ensure_builtin_commands(&mut cfg);
    assert_eq!(cfg.adb.commands.len(), n, "no duplicate on re-run");
}

#[test]
fn defaults_are_those_of_adb_and_the_light_theme() {
    assert_eq!(AdbConfig::default().transport, Transport::Adb);
    let cfg = Config::default();
    assert_eq!(cfg.view.encoding, "utf-8");
    assert_eq!(cfg.view.theme, "light");
    assert_eq!(cfg.view.lang, "auto");
    assert_eq!(
        cfg.view.columns_visible,
        [true, true, true, true, true, true, false, true, false, true]
    );
    assert_eq!(cfg.adb.commands.len(), 9);
    assert_eq!(cfg.filters.find_on, None);
}

#[test]
fn tools_have_their_own_commands_and_paths() {
    let mut adb = AdbConfig::default();
    let hdc = adb.commands(Transport::Hdc);
    assert_eq!(hdc.len(), 5);
    assert!(hdc.iter().all(|c| !c.starts_with("logcat")));
    assert!(adb
        .commands(Transport::Adb)
        .iter()
        .all(|c| !c.starts_with("hilog")));
    adb.hdc_path = Some("/opt/hdc".into());
    assert_eq!(
        adb.binary_override(Transport::Hdc),
        Some("/opt/hdc".to_string())
    );
    assert_eq!(adb.binary_override(Transport::Adb), None);
}

#[test]
fn prune_missing_recent_drops_dead_entries() {
    let mut cfg = Config::default();
    cfg.recent.files = vec!["alive.log".into(), "dead.log".into()];
    let removed = prune_missing_recent(&mut cfg, &vec![false, true]);

    assert!(removed, "a missing entry should be reported as removed");
    assert_eq!(cfg.recent.files, vec!["alive.log"], "dead entry pruned");
    // Nothing to remove the second time.
    assert!(!prune_missing_recent(&mut cfg, &vec![false]));
}

#[test]
fn recent_files_are_ten_and_the_last_is_first() {
    let mut cfg = Config::default();
    for i in 0..12 {
        add_recent(&mut cfg, &format!("/logs/{i}.log"));
    }
    assert_eq!(cfg.recent.files.len(), 10);
    assert_eq!(cfg.recent.files[0], "/logs/11.log");
    add_recent(&mut cfg, "/logs/5.log");
    assert_eq!(cfg.recent.files[0], "/logs/5.log");
    assert_eq!(cfg.recent.files.len(), 10);
    assert_eq!(
        cfg.recent.files.iter().filter(|f| *f == "/logs/5.log").count(),
        1
    );
    // The same path, written otherwise.
    add_recent(&mut cfg, "/logs//5.log");
    assert_eq!(cfg.recent.files[0], "/logs//5.log");
    assert_eq!(cfg.recent.files.len(), 10);
    assert!(!cfg.recent.files.iter().any(|f| f == "/logs/5.log"));
    // Other files are others, and stay.
    for other in ["/LOGS/5.log", "/log/s5.log", "/logs/5log", "logs/5.log"] {
        let before = cfg.recent.files.len();
        add_recent(&mut cfg, other);
        assert_eq!(cfg.recent.files.len(), (before + 1).min(10));
        assert_eq!(cfg.recent.files[0], other);
        assert!(cfg.recent.files.iter().any(|f| f == "/logs//5.log"));
    }
    add_recent(&mut cfg, "/logs/./5.log");
    assert!(!cfg.recent.files.iter().any(|f| f == "/logs//5.log"));
    assert!(cfg.recent.files.iter().any(|f| f == "/LOGS/5.log"));
    add_recent(&mut cfg, "/logs//5.log");
    add_recent(&mut cfg, "/logs///5.log/");
    assert_eq!(cfg.recent.files[0], "/logs///5.log/");
    assert_eq!(cfg.recent.files.len(), 10);
    assert!(!cfg.recent.files.iter().any(|f| f == "/logs//5.log"));
}

#[test]
fn themes_exchange_their_defaults() {
    let light = ColorsConfig::light_defaults();
    let dark = ColorsConfig::dark_defaults();
    let mut colors = ColorsConfig::light_defaults();
    colors.level_w = "0xABCDEF".into();
    colors.migrate(&light, &dark);
    assert_eq!(colors.level_v, dark.level_v);
    assert_eq!(colors.level_w, "0xABCDEF");
    assert_eq!(colors.highlights, dark.highlights);
    colors.migrate(&dark, &light);
    assert_eq!(colors.level_v, light.level_v);
    assert_eq!(colors.level_w, "0xABCDEF");
}

#[test]
fn colors_are_hex_numbers() {
    assert_eq!(parse_color("0xFF9A00"), Rgb { r: 255, g: 0x9a, b: 0 });
    assert_eq!(parse_color(" #00ff7f "), Rgb { r: 0, g: 255, b: 127 });
    assert_eq!(parse_color("0X10"), Rgb { r: 0, g: 0, b: 16 });
    assert_eq!(parse_color("1AABBCCDD"), Rgb { r: 0, g: 0, b: 0 });
    assert_eq!(parse_color("FFAABBCC"), Rgb { r: 0xaa, g: 0xbb, b: 0xcc });
    assert_eq!(parse_color("red"), Rgb { r: 0, g: 0, b: 0 });
    let black = Rgb { r: 0, g: 0, b: 0 };
    let white = Rgb { r: 255, g: 255, b: 255 };
    assert_eq!(contrast(Rgb { r: 255, g: 255, b: 0 }), black);
    assert_eq!(contrast(Rgb { r: 0, g: 0, b: 255 }), white);
    assert_eq!(contrast(Rgb { r: 128, g: 128, b: 128 }), white);
}

#[test]
fn paths_lead_into_the_directory_of_the_settings() {
    let sep = std::path::MAIN_SEPARATOR;
    assert_eq!(
        config_path(Some("/home/u/.config/logfilter")),
        Some(format!("/home/u/.config/logfilter{sep}config.toml"))
    );
    assert_eq!(config_path(None), None);
    assert_eq!(fonts_dir(Some("/x/")).as_deref(), Some("/x/fonts"));
    assert_eq!(fonts_dir(Some("/x")), Some(format!("/x{sep}fonts")));
    assert_eq!(fonts_dir(Some("")).as_deref(), Some("fonts"));
    assert_eq!(fonts_dir(None), None);
}

#[test]
fn cjk_candidates_are_listed_for_this_platform() {
    // Every supported platform should offer at least one candidate path.
    assert!(!system_cjk_candidates(Platform::Other).is_empty());
    assert!(!system_cjk_candidates(Platform::Windows).is_empty());
    assert!(!system_cjk_candidates(Platform::MacOs).is_empty());
    let first = &system_cjk_candidates(Platform::MacOs)[0];
    assert_eq!(first.path, "/System/Library/Fonts/PingFang.ttc");
    assert_eq!(first.index, 0);
}

#[test]
fn fonts_are_told_by_their_extension() {
    assert!(is_font_file("a.ttf"));
    assert!(is_font_file("a.b.OTC"));
    assert!(is_font_file("日本.Ttc"));
    assert!(!is_font_file("a.ttf.txt"));
    assert!(!is_font_file(".ttf"));
    assert!(!is_font_file("ttf"));
    assert!(!is_font_file(".."));
    assert_eq!(file_stem("a.b.ttf"), "a.b");
    assert_eq!(file_stem(".hidden"), ".hidden");
    assert_eq!(file_stem("none"), "none");
    assert_eq!(file_stem(".."), "..");
}

#[test]
fn fonts_are_listed_by_name_and_found_by_stem() {
    let names: Vec<String> = ["b.ttf", "notes.txt", "a.otf", "B.ttc"]
        .iter()
        .map(|s| s.to_string())
        .collect();
    let fonts = list_user_font_stems(&names);
    let listed: Vec<&str> = fonts.iter().map(|f| f.name.as_str()).collect();
    assert_eq!(listed, vec!["B.ttc", "a.otf", "b.ttf"]);
    assert_eq!(fonts[1].stem, "a");
    let (at, path) = find_font_file(Some("/cfg/fonts"), &fonts, "b").unwrap();
    assert_eq!(at, 2);
    assert_eq!(path, format!("/cfg/fonts{}b.ttf", std::path::MAIN_SEPARATOR));
    let (_, path) = find_font_file(Some("/cfg/fonts/"), &fonts, "a").unwrap();
    assert_eq!(path, "/cfg/fonts/a.otf");
    assert!(find_font_file(Some("/cfg/fonts"), &fonts, "c").is_none());
    assert!(find_font_file(None, &fonts, "b").is_none());
}
