//! Taking over settings from property files.

use crate::config;
use crate::config::{AdbConfig, AdbConfigView, Config, ConfigView};
use crate::config::{ColorsConfigView, FiltersConfigView};
use crate::number;
use crate::number::{decimal_text, parse_unsigned};
use crate::properties;
use crate::properties::{parse_properties, Properties};
use crate::split;
use crate::split::{nonempty_texts, split_lines};
use crate::text;
use crate::text::{chars_of, string_of, trim_chars};
use vstd::prelude::*;

verus! {

/// The settings of property files. Sizes are left as the texts that stand there.
pub struct Imported {
    pub config: Config,
    pub width: Option<String>,
    pub height: Option<String>,
    /// The widths of the ten columns.
    pub columns: Vec<Option<String>>,
}

/// The keys and values of a file that may be absent.
pub open spec fn file_properties(file: Option<&str>) -> Map<Seq<char>, Seq<char>> {
    match file {
        Some(content) => properties::properties_of(split::lines(content@)),
        None => Map::empty(),
    }
}

/// The value of a key, or a default.
pub open spec fn text_or(
    map: Map<Seq<char>, Seq<char>>,
    key: Seq<char>,
    default: Seq<char>,
) -> Seq<char> {
    if map.contains_key(key) {
        map[key]
    } else {
        default
    }
}

/// The value of a key, if there is one.
pub open spec fn text_of(map: Map<Seq<char>, Seq<char>>, key: Seq<char>) -> Option<Seq<char>> {
    if map.contains_key(key) {
        Some(map[key])
    } else {
        None
    }
}

/// The number that a key has as its value; zero if it has none.
pub open spec fn count_of(map: Map<Seq<char>, Seq<char>>, key: Seq<char>) -> nat {
    match text_of(map, key) {
        Some(value) => match number::unsigned(value, 10, usize::MAX as nat) {
            Some(n) => n,
            None => 0,
        },
        None => 0,
    }
}

/// The key made of a name and a number.
pub open spec fn numbered_key(name: Seq<char>, i: nat) -> Seq<char> {
    name + number::decimal(i)
}

/// The values of the first `n` numbered keys, as far as there are any.
pub open spec fn numbered_values(
    map: Map<Seq<char>, Seq<char>>,
    name: Seq<char>,
    n: nat,
) -> Seq<Seq<char>>
    decreases n,
{
    if n == 0 {
        seq![]
    } else {
        let before = numbered_values(map, name, (n - 1) as nat);
        let key = numbered_key(name, (n - 1) as nat);
        if map.contains_key(key) {
            before.push(map[key])
        } else {
            before
        }
    }
}

/// The values of the numbered keys, or a default if there are none.
pub open spec fn list_or(
    map: Map<Seq<char>, Seq<char>>,
    count: Seq<char>,
    name: Seq<char>,
    default: Seq<Seq<char>>,
) -> Seq<Seq<char>> {
    let found = numbered_values(map, name, count_of(map, count));
    if found.len() > 0 {
        found
    } else {
        default
    }
}

/// The lines of a file that may be absent, trimmed, without the empty ones.
pub open spec fn file_lines(file: Option<&str>) -> Seq<Seq<char>> {
    match file {
        Some(content) => split::nonempty(
            split::lines(content@).map_values(|l: Seq<char>| text::trim(l)),
        ),
        None => seq![],
    }
}

/// The settings of the files; what they do not say is as for a new user.
pub open spec fn imported_config(
    main: Option<&str>,
    colors: Option<&str>,
    commands: Option<&str>,
    recent: Option<&str>,
) -> ConfigView {
    let m = file_properties(main);
    let c = file_properties(colors);
    let light = config::light_colors();
    ConfigView {
        view: config::default_view(),
        filters: FiltersConfigView {
            find: text_or(m, "WORD_FIND"@, seq![]),
            remove: text_or(m, "WORD_REMOVE"@, seq![]),
            highlight: text_or(m, "HIGHLIGHT"@, seq![]),
            ..config::default_filters()
        },
        colors: ColorsConfigView {
            level_v: text_or(c, "INI_COLOR_0"@, light.level_v),
            level_d: text_or(c, "INI_COLOR_7(D)"@, light.level_d),
            level_i: text_or(c, "INI_COLOR_6(I)"@, light.level_i),
            level_w: text_or(c, "INI_COLOR_4(W)"@, light.level_w),
            level_e: text_or(c, "INI_COLOR_3(E)"@, light.level_e),
            level_f: text_or(c, "INI_COLOR_8(F)"@, light.level_f),
            highlights: list_or(
                c,
                "INI_HIGILIGHT_COUNT"@,
                "INI_HIGILIGHT_"@,
                light.highlights,
            ),
        },
        adb: AdbConfigView {
            commands: list_or(
                file_properties(commands),
                "CMD_COUNT"@,
                "CMD_"@,
                config::default_commands(),
            ),
            ..config::default_adb()
        },
        recent: file_lines(recent),
    }
}

/// Puts the value of a key into a setting, if there is one.
fn take_text(p: &Properties, key: &str, setting: &mut String)
    ensures
        final(setting)@ == text_or(p@, key@, old(setting)@),
{
    if let Some(v) = p.get(key) {
        *setting = v.clone();
    }
}

/// The value of a key, if there is one.
fn value_of(p: &Properties, key: &str) -> (r: Option<String>)
    ensures
        config::opt_text(r) == text_of(p@, key@),
{
    match p.get(key) {
        Some(v) => Some(v.clone()),
        None => None,
    }
}

/// The key made of a name and a number.
fn key_of(name: &str, i: usize) -> (r: String)
    ensures
        r@ == numbered_key(name@, i as nat),
{
    let mut key = name.to_string();
    key.append(decimal_text(i as u64).as_str());
    key
}

/// Puts the values of the numbered keys into a setting, if there are any.
fn take_list(p: &Properties, count: &str, name: &str, setting: &mut Vec<String>)
    ensures
        split::texts(final(setting)@) == list_or(
            p@,
            count@,
            name@,
            split::texts(old(setting)@),
        ),
{
    let n: usize = match p.get(count) {
        Some(v) => match parse_unsigned(chars_of(v.as_str()).as_slice(), 10, usize::MAX as u64) {
            Some(n) => n as usize,
            None => 0,
        },
        None => 0,
    };
    let mut found: Vec<String> = Vec::new();
    assert(split::texts(found@) =~= Seq::<Seq<char>>::empty());
    for i in 0..n
        invariant
            n == count_of(p@, count@),
            split::texts(found@) == numbered_values(p@, name@, i as nat),
    {
        let key = key_of(name, i);
        let ghost before = split::texts(found@);
        if let Some(v) = p.get(key.as_str()) {
            let t = v.clone();
            found.push(t);
            assert(split::texts(found@) =~= before.push(t@));
        }
    }
    assert(split::texts(found@).len() == found@.len());
    if found.len() > 0 {
        *setting = found;
    }
}

/// The lines of a text, trimmed, without the empty ones.
fn trimmed_lines(content: &str) -> (r: Vec<String>)
    ensures
        split::texts(r@) == split::nonempty(
            split::lines(content@).map_values(|l: Seq<char>| text::trim(l)),
        ),
{
    let lines = split_lines(chars_of(content).as_slice());
    let mut trimmed: Vec<String> = Vec::new();
    let n: usize = lines.len();
    for i in 0..n
        invariant
            n == lines@.len(),
            split::texts(lines@) == split::lines(content@),
            trimmed@.len() == i,
            forall|j: int| 0 <= j < i ==> (#[trigger] trimmed@[j])@ == text::trim(lines@[j]@),
    {
        let line = chars_of(lines[i].as_str());
        trimmed.push(string_of(trim_chars(line.as_slice())));
    }
    proof {
        let expected = split::lines(content@).map_values(|l: Seq<char>| text::trim(l));
        assert forall|j: int| 0 <= j < n implies split::texts(trimmed@)[j] == expected[j] by {
            assert(trimmed@[j]@ == text::trim(lines@[j]@));
            assert(split::texts(lines@)[j] == lines@[j]@);
        }
        assert(split::texts(trimmed@) =~= expected);
    }
    nonempty_texts(&trimmed)
}

/// Takes the settings of the main file, the color file, the command file and the
/// list of recent files, as far as they can be read. `present` tells whether there is a
/// main file; if there is none, nothing is taken.
pub fn import_from_ini(
    present: bool,
    main: Option<&str>,
    colors: Option<&str>,
    commands: Option<&str>,
    recent: Option<&str>,
) -> (r: Option<Imported>)
    ensures
        r is None <==> !present,
        match r {
            Some(got) => {
                &&& got.config@ == imported_config(main, colors, commands, recent)
                &&& config::opt_text(got.width) == text_of(file_properties(main), "INI_WIDTH"@)
                &&& config::opt_text(got.height) == text_of(file_properties(main), "INI_HEIGHT"@)
                &&& got.columns@.len() == 10
                &&& forall|i: int|
                    0 <= i < 10 ==> config::opt_text(#[trigger] got.columns@[i]) == text_of(
                        file_properties(main),
                        numbered_key("INI_COMUMN_"@, i as nat),
                    )
            },
            None => true,
        },
{
    if !present {
        return None;
    }
    let mut cfg = Config::default();
    let mut width: Option<String> = None;
    let mut height: Option<String> = None;
    let mut columns: Vec<Option<String>> = Vec::new();
    if let Some(content) = main {
        let p = parse_properties(content);
        width = value_of(&p, "INI_WIDTH");
        height = value_of(&p, "INI_HEIGHT");
        for i in 0..10usize
            invariant
                p@ == file_properties(main),
                columns@.len() == i,
                forall|j: int|
                    0 <= j < i ==> config::opt_text(#[trigger] columns@[j]) == text_of(
                        file_properties(main),
                        numbered_key("INI_COMUMN_"@, j as nat),
                    ),
        {
            columns.push(value_of(&p, key_of("INI_COMUMN_", i).as_str()));
        }
        take_text(&p, "WORD_FIND", &mut cfg.filters.find);
        take_text(&p, "WORD_REMOVE", &mut cfg.filters.remove);
        take_text(&p, "HIGHLIGHT", &mut cfg.filters.highlight);
    } else {
        for i in 0..10usize
            invariant
                main is None,
                columns@.len() == i,
                forall|j: int|
                    0 <= j < i ==> config::opt_text(#[trigger] columns@[j]) == text_of(
                        file_properties(main),
                        numbered_key("INI_COMUMN_"@, j as nat),
                    ),
        {
            columns.push(None);
        }
    }
    if let Some(content) = colors {
        let p = parse_properties(content);
        take_text(&p, "INI_COLOR_0", &mut cfg.colors.level_v);
        take_text(&p, "INI_COLOR_7(D)", &mut cfg.colors.level_d);
        take_text(&p, "INI_COLOR_6(I)", &mut cfg.colors.level_i);
        take_text(&p, "INI_COLOR_4(W)", &mut cfg.colors.level_w);
        take_text(&p, "INI_COLOR_3(E)", &mut cfg.colors.level_e);
        take_text(&p, "INI_COLOR_8(F)", &mut cfg.colors.level_f);
        take_list(&p, "INI_HIGILIGHT_COUNT", "INI_HIGILIGHT_", &mut cfg.colors.highlights);
    } else {
        assert(numbered_values(file_properties(colors), "INI_HIGILIGHT_"@, 0) == Seq::<
            Seq<char>,
        >::empty());
    }
    if let Some(content) = commands {
        let p = parse_properties(content);
        take_list(&p, "CMD_COUNT", "CMD_", &mut cfg.adb.commands);
    } else {
        assert(numbered_values(file_properties(commands), "CMD_"@, 0) == Seq::<Seq<char>>::empty());
    }
    if let Some(content) = recent {
        cfg.recent.files = trimmed_lines(content);
    }
    Some(Imported { config: cfg, width, height, columns })
}

/// Each setting is the value of its own key in its own file, and as for a new user where
/// the file does not say; settings that the files do not hold are those of a new user.
pub proof fn settings_have_their_keys(
    main: Option<&str>,
    colors: Option<&str>,
    commands: Option<&str>,
    recent: Option<&str>,
)
    ensures
        ({
            let got = imported_config(main, colors, commands, recent);
            let m = file_properties(main);
            let c = file_properties(colors);
            let d = config::default_config();
            &&& m.contains_key("WORD_FIND"@) ==> got.filters.find == m["WORD_FIND"@]
            &&& m.contains_key("WORD_REMOVE"@) ==> got.filters.remove == m["WORD_REMOVE"@]
            &&& m.contains_key("HIGHLIGHT"@) ==> got.filters.highlight == m["HIGHLIGHT"@]
            &&& !m.contains_key("WORD_FIND"@) ==> got.filters.find.len() == 0
            &&& !m.contains_key("WORD_REMOVE"@) ==> got.filters.remove.len() == 0
            &&& !m.contains_key("HIGHLIGHT"@) ==> got.filters.highlight.len() == 0
            &&& c.contains_key("INI_COLOR_0"@) ==> got.colors.level_v == c["INI_COLOR_0"@]
            &&& c.contains_key("INI_COLOR_7(D)"@) ==> got.colors.level_d == c["INI_COLOR_7(D)"@]
            &&& c.contains_key("INI_COLOR_6(I)"@) ==> got.colors.level_i == c["INI_COLOR_6(I)"@]
            &&& c.contains_key("INI_COLOR_4(W)"@) ==> got.colors.level_w == c["INI_COLOR_4(W)"@]
            &&& c.contains_key("INI_COLOR_3(E)"@) ==> got.colors.level_e == c["INI_COLOR_3(E)"@]
            &&& c.contains_key("INI_COLOR_8(F)"@) ==> got.colors.level_f == c["INI_COLOR_8(F)"@]
            &&& !c.contains_key("INI_COLOR_0"@) ==> got.colors.level_v == d.colors.level_v
            &&& !c.contains_key("INI_COLOR_7(D)"@) ==> got.colors.level_d == d.colors.level_d
            &&& !c.contains_key("INI_COLOR_6(I)"@) ==> got.colors.level_i == d.colors.level_i
            &&& !c.contains_key("INI_COLOR_4(W)"@) ==> got.colors.level_w == d.colors.level_w
            &&& !c.contains_key("INI_COLOR_3(E)"@) ==> got.colors.level_e == d.colors.level_e
            &&& !c.contains_key("INI_COLOR_8(F)"@) ==> got.colors.level_f == d.colors.level_f
            &&& got.view == d.view
            &&& got.adb.transport == d.adb.transport
            &&& got.adb.adb_path == d.adb.adb_path
            &&& got.adb.hdc_path == d.adb.hdc_path
            &&& got.adb.selected_cmd == d.adb.selected_cmd
            &&& got.adb.selected_device == d.adb.selected_device
        }),
{
}

/// Without files the settings are those of a new user.
pub proof fn no_files_no_settings()
    ensures
        imported_config(None, None, None, None) == config::default_config(),
{
    let none = Map::<Seq<char>, Seq<char>>::empty();
    assert(numbered_values(none, "INI_HIGILIGHT_"@, 0) =~= Seq::<Seq<char>>::empty());
    assert(numbered_values(none, "CMD_"@, 0) =~= Seq::<Seq<char>>::empty());
    assert(imported_config(None, None, None, None) =~= config::default_config());
}

/// A list that is complete is taken in the order of its numbers, which begin with zero and
/// of which the count tells how many there are.
pub proof fn complete_lists_are_taken(
    map: Map<Seq<char>, Seq<char>>,
    count: Seq<char>,
    name: Seq<char>,
    default: Seq<Seq<char>>,
    n: nat,
)
    requires
        0 < n <= usize::MAX,
        map.contains_key(count),
        map[count] == number::decimal(n),
        forall|i: nat| i < n ==> map.contains_key(name + #[trigger] number::decimal(i)),
    ensures
        list_or(map, count, name, default).len() == n,
        forall|i: int|
            0 <= i < n ==> #[trigger] list_or(map, count, name, default)[i] == map[name
                + number::decimal(i as nat)],
{
    number::decimal_and_back(n);
    assert(count_of(map, count) == n);
    lemma_complete(map, name, n);
}

proof fn lemma_complete(map: Map<Seq<char>, Seq<char>>, name: Seq<char>, n: nat)
    requires
        forall|i: nat| i < n ==> map.contains_key(name + #[trigger] number::decimal(i)),
    ensures
        numbered_values(map, name, n).len() == n,
        forall|i: int|
            0 <= i < n ==> #[trigger] numbered_values(map, name, n)[i] == map[name
                + number::decimal(i as nat)],
    decreases n,
{
    if n > 0 {
        lemma_complete(map, name, (n - 1) as nat);
        assert(map.contains_key(name + number::decimal((n - 1) as nat)));
    }
}

/// Of a list that is not complete the values that are there are taken, and the default if
/// there are none.
pub proof fn gaps_in_lists_are_skipped(
    map: Map<Seq<char>, Seq<char>>,
    count: Seq<char>,
    name: Seq<char>,
    default: Seq<Seq<char>>,
    i: nat,
)
    requires
        i < count_of(map, count),
    ensures
        map.contains_key(name + number::decimal(i)) ==> list_or(
            map,
            count,
            name,
            default,
        ).contains(map[name + number::decimal(i)]),
        (forall|j: nat|
            j < count_of(map, count) ==> !map.contains_key(name + #[trigger] number::decimal(j)))
            ==> list_or(map, count, name, default) == default,
        !map.contains_key(count) ==> list_or(map, count, name, default) == default,
{
    let n = count_of(map, count);
    if map.contains_key(name + number::decimal(i)) {
        lemma_is_taken(map, name, n, i);
    }
    if forall|j: nat| j < n ==> !map.contains_key(name + #[trigger] number::decimal(j)) {
        lemma_none_taken(map, name, n);
    }
}

proof fn lemma_is_taken(map: Map<Seq<char>, Seq<char>>, name: Seq<char>, n: nat, i: nat)
    requires
        i < n,
        map.contains_key(name + number::decimal(i)),
    ensures
        numbered_values(map, name, n).contains(map[name + number::decimal(i)]),
    decreases n,
{
    let before = numbered_values(map, name, (n - 1) as nat);
    let all = numbered_values(map, name, n);
    if i == n - 1 {
        assert(all[before.len() as int] == map[name + number::decimal(i)]);
    } else {
        lemma_is_taken(map, name, (n - 1) as nat, i);
        let k = choose|k: int| 0 <= k < before.len() && before[k] == map[name + number::decimal(i)];
        assert(all[k] == before[k]);
    }
}

proof fn lemma_none_taken(map: Map<Seq<char>, Seq<char>>, name: Seq<char>, n: nat)
    requires
        forall|j: nat| j < n ==> !map.contains_key(name + #[trigger] number::decimal(j)),
    ensures
        numbered_values(map, name, n).len() == 0,
    decreases n,
{
    if n > 0 {
        lemma_none_taken(map, name, (n - 1) as nat);
        assert(!map.contains_key(name + number::decimal((n - 1) as nat)));
    }
}

/// The recent files are the lines of their file, in its order, without white space at
/// their ends and without the empty ones.
pub proof fn recent_files_are_the_lines(file: &str, i: int)
    ensures
        forall|k: int| 0 <= k < file_lines(Some(file)).len() ==> {
            &&& (#[trigger] file_lines(Some(file))[k]).len() > 0
            &&& !text::white_space(file_lines(Some(file))[k][0])
            &&& !text::white_space(file_lines(Some(file))[k].last())
        },
        0 <= i < split::lines(file@).len() && text::trim(split::lines(file@)[i]).len() > 0
            ==> file_lines(Some(file)).contains(text::trim(split::lines(file@)[i])),
        file_lines(None).len() == 0,
{
    let trimmed = split::lines(file@).map_values(|l: Seq<char>| text::trim(l));
    lemma_lines_kept(trimmed, i);
    assert forall|k: int| 0 <= k < file_lines(Some(file)).len() implies {
        &&& (#[trigger] file_lines(Some(file))[k]).len() > 0
        &&& !text::white_space(file_lines(Some(file))[k][0])
        &&& !text::white_space(file_lines(Some(file))[k].last())
    } by {
        let line = split::nonempty(trimmed)[k];
        assert(trimmed.contains(line));
        let j = choose|j: int| 0 <= j < trimmed.len() && trimmed[j] == line;
        let _ = text::both_ends_are_trimmed(split::lines(file@)[j]);
    }
}

proof fn lemma_lines_kept(v: Seq<Seq<char>>, i: int)
    ensures
        forall|k: int|
            0 <= k < split::nonempty(v).len() ==> (#[trigger] split::nonempty(v)[k]).len() > 0
                && v.contains(split::nonempty(v)[k]),
        0 <= i < v.len() && v[i].len() > 0 ==> split::nonempty(v).contains(v[i]),
    decreases v.len(),
{
    if v.len() > 0 {
        let front = v.drop_last();
        lemma_lines_kept(front, i);
        let before = split::nonempty(front);
        let all = split::nonempty(v);
        assert forall|k: int| 0 <= k < all.len() implies (#[trigger] all[k]).len() > 0
            && v.contains(all[k]) by {
            if k < before.len() {
                assert(all[k] == before[k]);
                assert(front.contains(before[k]));
                let j = choose|j: int| 0 <= j < front.len() && front[j] == before[k];
                assert(v[j] == before[k]);
            } else {
                assert(v[v.len() - 1] == all[k]);
            }
        }
        if 0 <= i < v.len() && v[i].len() > 0 {
            if i < front.len() {
                assert(front[i] == v[i]);
                let k = choose|k: int| 0 <= k < before.len() && before[k] == v[i];
                assert(all[k] == v[i]);
            } else {
                assert(all[before.len() as int] == v[i]);
            }
        }
    }
}

} // verus!
