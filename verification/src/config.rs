//! The settings of the viewer.

use crate::model::LogFormat;
use crate::split;
use crate::split::{copy_texts, same_texts};
use crate::text;
use crate::text::same_text;
use crate::transport;
use crate::transport::{runs_command, Transport};
use std::path::Path;
use vstd::prelude::*;

verus! {

/// Number of files that are remembered.
pub const RECENT_FILES: usize = 10;

/// The text of a string that may be absent.
pub open spec fn opt_text(s: Option<String>) -> Option<Seq<char>> {
    match s {
        Some(t) => Some(t@),
        None => None,
    }
}

/// A copy of a string that may be absent.
pub fn copy_opt(s: &Option<String>) -> (r: Option<String>)
    ensures
        opt_text(r) == opt_text(*s),
{
    match s {
        Some(t) => Some(t.clone()),
        None => None,
    }
}

/// What is shown, and how.
#[derive(Debug)]
pub struct ViewConfig {
    /// Which columns are shown: line, date, time, level, pid, thread, uid, tag,
    /// bookmark and message.
    pub columns_visible: [bool; 10],
    /// `local`, or anything else for UTF-8.
    pub encoding: String,
    /// File stem of the table's font; empty for the built-in one.
    pub font: String,
    /// `en`, `zh`, or anything else for the language of the system.
    pub lang: String,
    /// `dark`, or anything else for light.
    pub theme: String,
}

/// What is shown, and how.
#[verifier::ext_equal]
pub struct ViewConfigView {
    pub columns_visible: Seq<bool>,
    pub encoding: Seq<char>,
    pub font: Seq<char>,
    pub lang: Seq<char>,
    pub theme: Seq<char>,
}

impl View for ViewConfig {
    type V = ViewConfigView;

    open spec fn view(&self) -> ViewConfigView {
        ViewConfigView {
            columns_visible: self.columns_visible@,
            encoding: self.encoding@,
            font: self.font@,
            lang: self.lang@,
            theme: self.theme@,
        }
    }
}

/// The settings of a new user: the user id and the bookmark column are hidden.
pub open spec fn default_view() -> ViewConfigView {
    ViewConfigView {
        columns_visible: seq![true, true, true, true, true, true, false, true, false, true],
        encoding: "utf-8"@,
        font: seq![],
        lang: "auto"@,
        theme: "light"@,
    }
}

impl Default for ViewConfig {
    fn default() -> (r: Self)
        ensures
            r@ == default_view(),
    {
        ViewConfig {
            columns_visible: [true, true, true, true, true, true, false, true, false, true],
            encoding: "utf-8".to_string(),
            font: String::new(),
            lang: "auto".to_string(),
            theme: "light".to_string(),
        }
    }
}

/// The filter texts and whether they are switched on; where that is not known, a
/// filter is on if it has a text.
#[derive(Debug)]
pub struct FiltersConfig {
    pub find: String,
    pub remove: String,
    pub highlight: String,
    pub find_on: Option<bool>,
    pub remove_on: Option<bool>,
    pub highlight_on: Option<bool>,
}

/// The filter texts and whether they are switched on.
#[verifier::ext_equal]
pub struct FiltersConfigView {
    pub find: Seq<char>,
    pub remove: Seq<char>,
    pub highlight: Seq<char>,
    pub find_on: Option<bool>,
    pub remove_on: Option<bool>,
    pub highlight_on: Option<bool>,
}

impl View for FiltersConfig {
    type V = FiltersConfigView;

    open spec fn view(&self) -> FiltersConfigView {
        FiltersConfigView {
            find: self.find@,
            remove: self.remove@,
            highlight: self.highlight@,
            find_on: self.find_on,
            remove_on: self.remove_on,
            highlight_on: self.highlight_on,
        }
    }
}

/// No filters.
pub open spec fn default_filters() -> FiltersConfigView {
    FiltersConfigView {
        find: seq![],
        remove: seq![],
        highlight: seq![],
        find_on: None,
        remove_on: None,
        highlight_on: None,
    }
}

impl Default for FiltersConfig {
    fn default() -> (r: Self)
        ensures
            r@ == default_filters(),
    {
        FiltersConfig {
            find: String::new(),
            remove: String::new(),
            highlight: String::new(),
            find_on: None,
            remove_on: None,
            highlight_on: None,
        }
    }
}

/// The colors of the levels and of highlighted terms, as hex numbers.
#[derive(Debug)]
pub struct ColorsConfig {
    pub level_v: String,
    pub level_d: String,
    pub level_i: String,
    pub level_w: String,
    pub level_e: String,
    pub level_f: String,
    pub highlights: Vec<String>,
}

/// The colors of the levels and of highlighted terms.
#[verifier::ext_equal]
pub struct ColorsConfigView {
    pub level_v: Seq<char>,
    pub level_d: Seq<char>,
    pub level_i: Seq<char>,
    pub level_w: Seq<char>,
    pub level_e: Seq<char>,
    pub level_f: Seq<char>,
    pub highlights: Seq<Seq<char>>,
}

impl View for ColorsConfig {
    type V = ColorsConfigView;

    open spec fn view(&self) -> ColorsConfigView {
        ColorsConfigView {
            level_v: self.level_v@,
            level_d: self.level_d@,
            level_i: self.level_i@,
            level_w: self.level_w@,
            level_e: self.level_e@,
            level_f: self.level_f@,
            highlights: split::texts(self.highlights@),
        }
    }
}

/// The colors of the light theme.
pub open spec fn light_colors() -> ColorsConfigView {
    ColorsConfigView {
        level_v: "0x000000"@,
        level_d: "0x0000AA"@,
        level_i: "0x009A00"@,
        level_w: "0xFF9A00"@,
        level_e: "0xFF0000"@,
        level_f: "0xFF0000"@,
        highlights: seq!["0xFFFF00"@],
    }
}

/// The colors of the dark theme.
pub open spec fn dark_colors() -> ColorsConfigView {
    ColorsConfigView {
        level_v: "0x888888"@,
        level_d: "0x5599FF"@,
        level_i: "0x48B048"@,
        level_w: "0xFFBB33"@,
        level_e: "0xFF5555"@,
        level_f: "0xFF55FF"@,
        highlights: seq!["0x665500"@],
    }
}

/// A value that is replaced if it is the old default.
pub open spec fn migrated_text(
    current: Seq<char>,
    from: Seq<char>,
    to: Seq<char>,
) -> Seq<char> {
    if current == from {
        to
    } else {
        current
    }
}

/// The colors with those that are the old defaults replaced by the new ones.
pub open spec fn migrated(
    c: ColorsConfigView,
    from: ColorsConfigView,
    to: ColorsConfigView,
) -> ColorsConfigView {
    ColorsConfigView {
        level_v: migrated_text(c.level_v, from.level_v, to.level_v),
        level_d: migrated_text(c.level_d, from.level_d, to.level_d),
        level_i: migrated_text(c.level_i, from.level_i, to.level_i),
        level_w: migrated_text(c.level_w, from.level_w, to.level_w),
        level_e: migrated_text(c.level_e, from.level_e, to.level_e),
        level_f: migrated_text(c.level_f, from.level_f, to.level_f),
        highlights: if c.highlights == from.highlights {
            to.highlights
        } else {
            c.highlights
        },
    }
}

impl Default for ColorsConfig {
    fn default() -> (r: Self)
        ensures
            r@ == light_colors(),
    {
        ColorsConfig::light_defaults()
    }
}

/// Replaces a value if it is the old default.
fn migrate_text(current: &mut String, from: &String, to: &String)
    ensures
        final(current)@ == migrated_text(old(current)@, from@, to@),
{
    if same_text(current.as_str(), from.as_str()) {
        *current = to.clone();
    }
}

impl ColorsConfig {
    /// The colors of the light theme.
    pub fn light_defaults() -> (r: Self)
        ensures
            r@ == light_colors(),
    {
        let mut highlights: Vec<String> = Vec::new();
        highlights.push("0xFFFF00".to_string());
        assert(split::texts(highlights@) =~= seq!["0xFFFF00"@]);
        ColorsConfig {
            level_v: "0x000000".to_string(),
            level_d: "0x0000AA".to_string(),
            level_i: "0x009A00".to_string(),
            level_w: "0xFF9A00".to_string(),
            level_e: "0xFF0000".to_string(),
            level_f: "0xFF0000".to_string(),
            highlights,
        }
    }

    /// Replaces the colors that are old defaults by the new ones; other colors are
    /// the user's own and stay.
    pub fn migrate(&mut self, from: &Self, to: &Self)
        ensures
            final(self)@ == migrated(old(self)@, from@, to@),
    {
        migrate_text(&mut self.level_v, &from.level_v, &to.level_v);
        migrate_text(&mut self.level_d, &from.level_d, &to.level_d);
        migrate_text(&mut self.level_i, &from.level_i, &to.level_i);
        migrate_text(&mut self.level_w, &from.level_w, &to.level_w);
        migrate_text(&mut self.level_e, &from.level_e, &to.level_e);
        migrate_text(&mut self.level_f, &from.level_f, &to.level_f);
        if same_texts(&self.highlights, &from.highlights) {
            self.highlights = copy_texts(&to.highlights);
        }
    }

    /// The colors of the dark theme.
    pub fn dark_defaults() -> (r: Self)
        ensures
            r@ == dark_colors(),
    {
        let mut highlights: Vec<String> = Vec::new();
        highlights.push("0x665500".to_string());
        assert(split::texts(highlights@) =~= seq!["0x665500"@]);
        ColorsConfig {
            level_v: "0x888888".to_string(),
            level_d: "0x5599FF".to_string(),
            level_i: "0x48B048".to_string(),
            level_w: "0xFFBB33".to_string(),
            level_e: "0xFF5555".to_string(),
            level_f: "0xFF55FF".to_string(),
            highlights,
        }
    }
}

/// The tools that connect to devices, and the commands to run.
#[derive(Debug)]
pub struct AdbConfig {
    pub commands: Vec<String>,
    /// Path of `adb`, if it is not to be searched for.
    pub adb_path: Option<String>,
    /// Path of `hdc`, if it is not to be searched for.
    pub hdc_path: Option<String>,
    pub transport: Transport,
    /// The command and the device that were used last; empty if there were none.
    pub selected_cmd: String,
    pub selected_device: String,
}

/// The tools that connect to devices, and the commands to run.
#[verifier::ext_equal]
pub struct AdbConfigView {
    pub commands: Seq<Seq<char>>,
    pub adb_path: Option<Seq<char>>,
    pub hdc_path: Option<Seq<char>>,
    pub transport: Transport,
    pub selected_cmd: Seq<char>,
    pub selected_device: Seq<char>,
}

impl View for AdbConfig {
    type V = AdbConfigView;

    open spec fn view(&self) -> AdbConfigView {
        AdbConfigView {
            commands: split::texts(self.commands@),
            adb_path: opt_text(self.adb_path),
            hdc_path: opt_text(self.hdc_path),
            transport: self.transport,
            selected_cmd: self.selected_cmd@,
            selected_device: self.selected_device@,
        }
    }
}

/// The commands for HarmonyOS devices that every user has.
pub open spec fn hilog_commands() -> Seq<Seq<char>> {
    seq![
        "hilog -v threadtime -r"@,
        "hilog -v time -r"@,
        "hilog -D 0x2F00 -v time"@,
        "hilog -D 0x2D00 -v time"@,
    ]
}

/// The commands of a new user.
pub open spec fn default_commands() -> Seq<Seq<char>> {
    seq![
        "logcat -v threadtime"@,
        "logcat -v time"@,
        "logcat -b radio -v time"@,
        "logcat -b events -v time"@,
        "hilog -v threadtime -r"@,
        "hilog -v time -r"@,
        "hilog -D 0x2F00 -v time"@,
        "hilog -D 0x2D00 -v time"@,
        "shell cat /proc/kmsg"@,
    ]
}

/// The device settings of a new user.
pub open spec fn default_adb() -> AdbConfigView {
    AdbConfigView {
        commands: default_commands(),
        adb_path: None,
        hdc_path: None,
        transport: Transport::Adb,
        selected_cmd: seq![],
        selected_device: seq![],
    }
}

impl Default for AdbConfig {
    fn default() -> (r: Self)
        ensures
            r@ == default_adb(),
    {
        let mut commands: Vec<String> = Vec::new();
        commands.push("logcat -v threadtime".to_string());
        commands.push("logcat -v time".to_string());
        commands.push("logcat -b radio -v time".to_string());
        commands.push("logcat -b events -v time".to_string());
        commands.push("hilog -v threadtime -r".to_string());
        commands.push("hilog -v time -r".to_string());
        commands.push("hilog -D 0x2F00 -v time".to_string());
        commands.push("hilog -D 0x2D00 -v time".to_string());
        commands.push("shell cat /proc/kmsg".to_string());
        assert(split::texts(commands@) =~= default_commands());
        AdbConfig {
            commands,
            adb_path: None,
            hdc_path: None,
            transport: Transport::Adb,
            selected_cmd: String::new(),
            selected_device: String::new(),
        }
    }
}

/// The commands that a tool can run, in order.
pub open spec fn runnable(commands: Seq<Seq<char>>, transport: Transport) -> Seq<Seq<char>>
    decreases commands.len(),
{
    if commands.len() == 0 {
        seq![]
    } else {
        let before = runnable(commands.drop_last(), transport);
        if transport::can_run(transport, commands.last()) {
            before.push(commands.last())
        } else {
            before
        }
    }
}

impl AdbConfig {
    /// The commands that a tool can run.
    pub fn commands(&self, transport: Transport) -> (r: Vec<String>)
        ensures
            split::texts(r@) == runnable(self@.commands, transport),
    {
        let mut out: Vec<String> = Vec::new();
        let ghost all = split::texts(self.commands@);
        let n: usize = self.commands.len();
        for i in 0..n
            invariant
                n == self.commands@.len(),
                all == split::texts(self.commands@),
                split::texts(out@) == runnable(all.take(i as int), transport),
        {
            assert(all.take(i + 1).drop_last() == all.take(i as int));
            assert(all[i as int] == self.commands@[i as int]@);
            let ghost before = split::texts(out@);
            if runs_command(transport, self.commands[i].as_str()) {
                let cmd = self.commands[i].clone();
                out.push(cmd);
                assert(split::texts(out@) =~= before.push(all[i as int]));
            }
        }
        assert(all.take(n as int) == all);
        out
    }

    /// The path of a tool, if it is not to be searched for.
    pub fn binary_override(&self, transport: Transport) -> (r: Option<String>)
        ensures
            opt_text(r) == match transport {
                Transport::Adb => self@.adb_path,
                Transport::Hdc => self@.hdc_path,
            },
    {
        match transport {
            Transport::Adb => copy_opt(&self.adb_path),
            Transport::Hdc => copy_opt(&self.hdc_path),
        }
    }
}

/// The files that were opened last, the last one first.
#[derive(Debug)]
pub struct RecentConfig {
    pub files: Vec<String>,
}

impl Default for RecentConfig {
    fn default() -> (r: Self)
        ensures
            r.files@.len() == 0,
    {
        RecentConfig { files: Vec::new() }
    }
}

/// All settings.
#[derive(Debug)]
pub struct Config {
    pub view: ViewConfig,
    pub filters: FiltersConfig,
    pub colors: ColorsConfig,
    pub adb: AdbConfig,
    pub recent: RecentConfig,
}

/// All settings.
#[verifier::ext_equal]
pub struct ConfigView {
    pub view: ViewConfigView,
    pub filters: FiltersConfigView,
    pub colors: ColorsConfigView,
    pub adb: AdbConfigView,
    pub recent: Seq<Seq<char>>,
}

impl View for Config {
    type V = ConfigView;

    open spec fn view(&self) -> ConfigView {
        ConfigView {
            view: self.view@,
            filters: self.filters@,
            colors: self.colors@,
            adb: self.adb@,
            recent: split::texts(self.recent.files@),
        }
    }
}

/// The settings of a new user.
pub open spec fn default_config() -> ConfigView {
    ConfigView {
        view: default_view(),
        filters: default_filters(),
        colors: light_colors(),
        adb: default_adb(),
        recent: seq![],
    }
}

impl Default for Config {
    fn default() -> (r: Self)
        ensures
            r@ == default_config(),
    {
        let r = Config {
            view: ViewConfig::default(),
            filters: FiltersConfig::default(),
            colors: ColorsConfig::default(),
            adb: AdbConfig::default(),
            recent: RecentConfig::default(),
        };
        assert(split::texts(r.recent.files@) =~= Seq::<Seq<char>>::empty());
        r
    }
}

/// The commands with one put at the end, if it is not among them.
pub open spec fn with_command(commands: Seq<Seq<char>>, cmd: Seq<char>) -> Seq<Seq<char>> {
    if commands.contains(cmd) {
        commands
    } else {
        commands.push(cmd)
    }
}

/// The commands with those for HarmonyOS among them.
pub open spec fn with_hilog(commands: Seq<Seq<char>>) -> Seq<Seq<char>> {
    with_command(
        with_command(
            with_command(
                with_command(commands, hilog_commands()[0]),
                hilog_commands()[1],
            ),
            hilog_commands()[2],
        ),
        hilog_commands()[3],
    )
}

/// Puts a command at the end of the list, if it is not in it.
fn ensure_command(commands: &mut Vec<String>, cmd: &str)
    ensures
        split::texts(final(commands)@) == with_command(split::texts(old(commands)@), cmd@),
{
    let ghost all = split::texts(commands@);
    let n: usize = commands.len();
    for i in 0..n
        invariant
            n == commands@.len(),
            commands@ == old(commands)@,
            all == split::texts(commands@),
            forall|j: int| 0 <= j < i ==> #[trigger] all[j] != cmd@,
    {
        assert(all[i as int] == commands@[i as int]@);
        if same_text(commands[i].as_str(), cmd) {
            assert(all.contains(cmd@));
            return;
        }
    }
    assert(!all.contains(cmd@));
    commands.push(cmd.to_string());
    assert(split::texts(commands@) =~= all.push(cmd@));
}

/// Puts the commands for HarmonyOS into settings that were saved without them.
pub fn ensure_builtin_commands(cfg: &mut Config)
    ensures
        final(cfg)@ == (ConfigView {
            adb: AdbConfigView {
                commands: with_hilog(old(cfg)@.adb.commands),
                ..old(cfg)@.adb
            },
            ..old(cfg)@
        }),
{
    ensure_command(&mut cfg.adb.commands, "hilog -v threadtime -r");
    ensure_command(&mut cfg.adb.commands, "hilog -v time -r");
    ensure_command(&mut cfg.adb.commands, "hilog -D 0x2F00 -v time");
    ensure_command(&mut cfg.adb.commands, "hilog -D 0x2D00 -v time");
}

/// A path begins with a separator of either kind.
pub open spec fn begins_with_separator(path: Seq<char>) -> bool {
    path.len() > 0 && (path[0] == '/' || path[0] == '\\')
}

/// The steps of a path between separators of either kind, without empty ones and those
/// that stay where one is.
pub open spec fn path_steps(path: Seq<char>) -> Seq<Seq<char>> {
    split::fields(
        path.map_values(
            |c: char|
                if c == '\\' {
                    '/'
                } else {
                    c
                },
        ),
        '/',
    ).filter(|step: Seq<char>| step.len() > 0 && step != seq!['.'])
}

/// Two steps are the same, but perhaps for the case of a drive letter.
pub open spec fn same_step(a: Seq<char>, b: Seq<char>) -> bool {
    ||| a == b
    ||| a.len() > 1 && a.len() == b.len() && a[1] == ':' && a.skip(1) == b.skip(1)
        && text::ascii_lower(a[0]) == text::ascii_lower(b[0])
}

/// Two paths have the same steps in the same order, from a root or not.
pub open spec fn same_steps(a: Seq<char>, b: Seq<char>) -> bool {
    &&& begins_with_separator(a) <==> begins_with_separator(b)
    &&& path_steps(a).len() == path_steps(b).len()
    &&& forall|i: int|
        0 <= i < path_steps(a).len() ==> same_step(#[trigger] path_steps(a)[i], path_steps(b)[i])
}

/// A path that begins with two separators. Whether the second one counts depends on
/// the platform.
pub open spec fn leads_with_two(path: Seq<char>) -> bool {
    &&& path.len() >= 2
    &&& path[0] == '/' || path[0] == '\\'
    &&& path[1] == '/' || path[1] == '\\'
}

/// The text with one slash for every run of slashes.
pub open spec fn single_slashes(path: Seq<char>) -> Seq<char>
    decreases path.len(),
{
    if path.len() < 2 {
        path
    } else {
        let front = single_slashes(path.drop_last());
        if path.last() == '/' && path[path.len() - 2] == '/' {
            front
        } else {
            front.push(path.last())
        }
    }
}

/// The path without slashes that stand for no step: repeated ones, and one at the end
/// unless it is all that there is or follows a colon, where it can be the root of a
/// drive.
pub open spec fn without_idle_slashes(path: Seq<char>) -> Seq<char> {
    let single = single_slashes(path);
    if single.len() >= 2 && single.last() == '/' && single[single.len() - 2] != ':' {
        single.drop_last()
    } else {
        single
    }
}

/// A path that begins neither with two separators nor with a drive nor with a step that
/// stays where one is: what stands there is a root or a name on every platform.
pub open spec fn begins_plainly(path: Seq<char>) -> bool {
    &&& !leads_with_two(path)
    &&& path.len() > 1 ==> path[1] != ':'
    &&& !(path.len() > 0 && path[0] == '.' && (path.len() == 1 || path[1] == '/'))
}

/// The steps of a path between slashes, without empty ones and those that stay where one
/// is.
pub open spec fn slash_steps(path: Seq<char>) -> Seq<Seq<char>> {
    split::fields(path, '/').filter(|step: Seq<char>| step.len() > 0 && step != seq!['.'])
}

/// Two texts are the same path on every platform: they are the same, or they differ only
/// in slashes that stand for no step, or they have the same steps between slashes from
/// the same kind of beginning.
pub open spec fn surely_same(a: Seq<char>, b: Seq<char>) -> bool {
    ||| a == b
    ||| !leads_with_two(a) && !leads_with_two(b) && without_idle_slashes(a)
        == without_idle_slashes(b)
    ||| begins_plainly(a) && begins_plainly(b) && text::starts_with(a, seq!['/'])
        == text::starts_with(b, seq!['/']) && slash_steps(a) == slash_steps(b)
}

/// What tells whether two paths are the same: it does so where they surely are, and
/// only where they have the same steps.
pub open spec fn tells_same(a: Seq<char>, b: Seq<char>, same: bool) -> bool {
    &&& surely_same(a, b) ==> same
    &&& same ==> same_steps(a, b)
}

/// `==` of two `std::path::Path`s, which compares their components. Repeated separators,
/// one at the end, and a dot that is not at the beginning are no components, so paths that
/// differ only in these are equal. Equal paths have the same components in the same order, which are the same
/// text but for the case of a drive letter. Beyond that, whether a backslash separates,
/// what a dot at the beginning stands for and whether two separators at the beginning
/// are one depends on the platform, so no more is said.
#[verifier::external_body]
pub(crate) fn same_path(a: &str, b: &str) -> (r: bool)
    ensures
        tells_same(a@, b@, r),
{
    Path::new(a) == Path::new(b)
}

/// A text that neither is empty nor begins with a separator or a drive: as a path it
/// leads on from where one is.
pub open spec fn leads_on(name: Seq<char>) -> bool {
    &&& name.len() > 0
    &&& name[0] != '/' && name[0] != '\\'
    &&& name.len() > 1 ==> name[1] != ':'
}

/// A Windows path that is taken verbatim, which `std` rewrites when it is extended.
pub open spec fn is_verbatim(dir: Seq<char>) -> bool {
    dir.len() >= 4 && dir[0] == '\\' && dir[1] == '\\' && dir[2] == '?' && dir[3] == '\\'
}

/// The path leads to `name` in the directory `dir`: the two with a separator between
/// them, or without one where the directory is empty or ends in one. After a backslash
/// and after a colon it depends on the platform whether there is one.
pub open spec fn is_joined(path: Seq<char>, dir: Seq<char>, name: Seq<char>) -> bool {
    if dir.len() == 0 || dir.last() == '/' {
        path == dir + name
    } else if dir.last() == '\\' {
        path == dir + name || path == dir.push('/') + name
    } else if dir.last() == ':' {
        path == dir + name || path == dir.push('/') + name || path == dir.push('\\') + name
    } else {
        path == dir.push('/') + name || path == dir.push('\\') + name
    }
}

/// `std::path::Path::join`. A name that leads on is put behind the directory, with the
/// separator of the platform between them, a slash or a backslash, where the directory
/// needs one. Of other names, and of directories in the verbatim form of Windows, nothing
/// is said.
#[verifier::external_body]
pub(crate) fn join_path(dir: &str, name: &str) -> (r: String)
    ensures
        leads_on(name@) && !is_verbatim(dir@) ==> is_joined(r@, dir@, name@),
{
    Path::new(dir).join(name).to_string_lossy().into_owned()
}

/// The path of the settings file in the directory of the settings, if there is such a
/// directory.
pub fn config_path(dir: Option<&str>) -> (r: Option<String>)
    ensures
        match r {
            Some(path) => dir is Some && (!is_verbatim(dir->0@) ==> is_joined(
                path@,
                dir->0@,
                "config.toml"@,
            )),
            None => dir is None,
        },
{
    proof {
        reveal_strlit("config.toml");
        assert(leads_on("config.toml"@));
    }
    match dir {
        Some(dir) => Some(join_path(dir, "config.toml")),
        None => None,
    }
}

/// The path of the directory of the user's fonts in the directory of the settings, if
/// there is such a directory.
pub fn fonts_dir(dir: Option<&str>) -> (r: Option<String>)
    ensures
        match r {
            Some(path) => dir is Some && (!is_verbatim(dir->0@) ==> is_joined(
                path@,
                dir->0@,
                "fonts"@,
            )),
            None => dir is None,
        },
{
    proof {
        reveal_strlit("fonts");
        assert(leads_on("fonts"@));
    }
    match dir {
        Some(dir) => Some(join_path(dir, "fonts")),
        None => None,
    }
}

/// The texts whose mark is not set, in order.
pub open spec fn unmarked(v: Seq<Seq<char>>, marks: Seq<bool>) -> Seq<Seq<char>>
    decreases v.len(),
{
    if v.len() == 0 || marks.len() < v.len() {
        seq![]
    } else {
        let before = unmarked(v.drop_last(), marks.take(v.len() - 1));
        if marks[v.len() - 1] {
            before
        } else {
            before.push(v.last())
        }
    }
}

/// The files after one was opened: it comes first, those that are marked as the
/// same leave, and at most ten stay.
pub open spec fn with_recent(
    files: Seq<Seq<char>>,
    same: Seq<bool>,
    path: Seq<char>,
) -> Seq<Seq<char>> {
    let all = seq![path] + unmarked(files, same);
    if all.len() > RECENT_FILES {
        all.take(RECENT_FILES as int)
    } else {
        all
    }
}

/// The texts whose mark is not set, in order.
fn drop_marked(v: &Vec<String>, marks: &Vec<bool>) -> (r: Vec<String>)
    requires
        marks@.len() == v@.len(),
    ensures
        split::texts(r@) == unmarked(split::texts(v@), marks@),
{
    let mut out: Vec<String> = Vec::new();
    let ghost all = split::texts(v@);
    let n: usize = v.len();
    for i in 0..n
        invariant
            n == v@.len(),
            n == marks@.len(),
            all == split::texts(v@),
            split::texts(out@) == unmarked(all.take(i as int), marks@.take(i as int)),
    {
        assert(all.take(i + 1).drop_last() == all.take(i as int));
        assert(marks@.take(i + 1).take(i as int) == marks@.take(i as int));
        assert(all[i as int] == v@[i as int]@);
        let ghost before = split::texts(out@);
        if !marks[i] {
            let t = v[i].clone();
            out.push(t);
            assert(split::texts(out@) =~= before.push(all[i as int]));
        }
    }
    assert(all.take(n as int) == all);
    assert(marks@.take(n as int) == marks@);
    out
}

/// Remembers a file that was opened; `same` tells which of the remembered files
/// are the same.
pub fn remember_recent(cfg: &mut Config, path: &str, same: &Vec<bool>)
    requires
        same@.len() == old(cfg)@.recent.len(),
    ensures
        final(cfg)@ == (ConfigView {
            recent: with_recent(old(cfg)@.recent, same@, path@),
            ..old(cfg)@
        }),
{
    let ghost before = split::texts(cfg.recent.files@);
    assert(before.len() == cfg.recent.files@.len());
    let mut files = drop_marked(&cfg.recent.files, same);
    let ghost kept = split::texts(files@);
    files.insert(0, path.to_string());
    assert(split::texts(files@) =~= seq![path@] + kept);
    if files.len() > RECENT_FILES {
        let ghost all = split::texts(files@);
        files.truncate(RECENT_FILES);
        assert(split::texts(files@) =~= all.take(RECENT_FILES as int));
    }
    cfg.recent.files = files;
}

/// The marks tell which of the files are the given one.
pub open spec fn marks_same(files: Seq<Seq<char>>, path: Seq<char>, marks: Seq<bool>) -> bool {
    &&& marks.len() == files.len()
    &&& forall|i: int| 0 <= i < marks.len() ==> tells_same(files[i], path, #[trigger] marks[i])
}

/// The remembered files before and after one was opened.
pub open spec fn remembered(
    before: Seq<Seq<char>>,
    path: Seq<char>,
    after: Seq<Seq<char>>,
) -> bool {
    exists|same: Seq<bool>|
        marks_same(before, path, same) && after == #[trigger] with_recent(before, same, path)
}

/// Which of the remembered files are the given one.
pub fn same_recent(cfg: &Config, path: &str) -> (r: Vec<bool>)
    ensures
        marks_same(cfg@.recent, path@, r@),
{
    let mut same: Vec<bool> = Vec::new();
    let ghost files = split::texts(cfg.recent.files@);
    let n: usize = cfg.recent.files.len();
    for i in 0..n
        invariant
            n == cfg.recent.files@.len(),
            files == split::texts(cfg.recent.files@),
            same@.len() == i,
            forall|j: int| 0 <= j < i ==> tells_same(files[j], path@, #[trigger] same@[j]),
    {
        assert(files[i as int] == cfg.recent.files@[i as int]@);
        same.push(same_path(cfg.recent.files[i].as_str(), path));
    }
    same
}

/// Remembers a file that was opened: it comes first, and once.
pub fn add_recent(cfg: &mut Config, path: &str)
    ensures
        remembered(old(cfg)@.recent, path@, final(cfg)@.recent),
        final(cfg)@ == (ConfigView { recent: final(cfg)@.recent, ..old(cfg)@ }),
{
    let same = same_recent(cfg, path);
    remember_recent(cfg, path, &same);
}

/// Forgets the remembered files that are no longer there; `missing` tells which.
/// Tells whether there were any.
pub fn prune_missing_recent(cfg: &mut Config, missing: &Vec<bool>) -> (r: bool)
    requires
        missing@.len() == old(cfg)@.recent.len(),
    ensures
        final(cfg)@ == (ConfigView { recent: unmarked(old(cfg)@.recent, missing@), ..old(cfg)@ }),
        r == (final(cfg)@.recent.len() != old(cfg)@.recent.len()),
{
    assert(split::texts(cfg.recent.files@).len() == cfg.recent.files@.len());
    let before: usize = cfg.recent.files.len();
    let files = drop_marked(&cfg.recent.files, missing);
    let after: usize = files.len();
    assert(split::texts(files@).len() == files@.len());
    cfg.recent.files = files;
    after != before
}

/// Putting the HarmonyOS commands in again changes nothing.
pub proof fn builtin_commands_once(commands: Seq<Seq<char>>)
    ensures
        with_hilog(with_hilog(commands)) == with_hilog(commands),
        forall|i: int| 0 <= i < 4 ==> with_hilog(commands).contains(#[trigger] hilog_commands()[i]),
        forall|c: Seq<char>| commands.contains(c) ==> with_hilog(commands).contains(c),
{
    let h = hilog_commands();
    let a = with_command(commands, h[0]);
    let b = with_command(a, h[1]);
    let c = with_command(b, h[2]);
    let d = with_command(c, h[3]);
    lemma_with_command(commands, h[0]);
    lemma_with_command(a, h[1]);
    lemma_with_command(b, h[2]);
    lemma_with_command(c, h[3]);
    assert(d == with_hilog(commands));
    assert forall|i: int| 0 <= i < 4 implies d.contains(#[trigger] h[i]) by {
        if i == 0 {
            assert(d.contains(h[0]));
        } else if i == 1 {
            assert(d.contains(h[1]));
        } else if i == 2 {
            assert(d.contains(h[2]));
        } else {
            assert(d.contains(h[3]));
        }
    }
}

proof fn lemma_with_command(commands: Seq<Seq<char>>, cmd: Seq<char>)
    ensures
        with_command(commands, cmd).contains(cmd),
        forall|c: Seq<char>| commands.contains(c) ==> with_command(commands, cmd).contains(c),
{
    let r = with_command(commands, cmd);
    if !commands.contains(cmd) {
        assert(r[commands.len() as int] == cmd);
        assert forall|c: Seq<char>| commands.contains(c) implies r.contains(c) by {
            let i = choose|i: int| 0 <= i < commands.len() && commands[i] == c;
            assert(r[i] == c);
        }
    }
}

/// Changing the theme replaces the default colors by those of the new theme.
pub proof fn theme_replaces_defaults(from: ColorsConfigView, to: ColorsConfigView)
    ensures
        migrated(from, from, to) == to,
{
}

/// Colors that the user has set stay when the theme changes.
pub proof fn theme_keeps_own_colors(
    c: ColorsConfigView,
    from: ColorsConfigView,
    to: ColorsConfigView,
)
    ensures
        c.level_v != from.level_v ==> migrated(c, from, to).level_v == c.level_v,
        c.level_d != from.level_d ==> migrated(c, from, to).level_d == c.level_d,
        c.level_i != from.level_i ==> migrated(c, from, to).level_i == c.level_i,
        c.level_w != from.level_w ==> migrated(c, from, to).level_w == c.level_w,
        c.level_e != from.level_e ==> migrated(c, from, to).level_e == c.level_e,
        c.level_f != from.level_f ==> migrated(c, from, to).level_f == c.level_f,
        c.highlights != from.highlights ==> migrated(c, from, to).highlights == c.highlights,
{
}

/// A value is not the default of the other theme.
pub open spec fn not_other_default(c: Seq<char>, from: Seq<char>, to: Seq<char>) -> bool {
    c != to || from == to
}

/// Changing the theme and changing it back restores the colors, unless one of
/// them was already the default of the other theme.
pub proof fn theme_and_back(c: ColorsConfigView, from: ColorsConfigView, to: ColorsConfigView)
    requires
        not_other_default(c.level_v, from.level_v, to.level_v),
        not_other_default(c.level_d, from.level_d, to.level_d),
        not_other_default(c.level_i, from.level_i, to.level_i),
        not_other_default(c.level_w, from.level_w, to.level_w),
        not_other_default(c.level_e, from.level_e, to.level_e),
        not_other_default(c.level_f, from.level_f, to.level_f),
        c.highlights != to.highlights || from.highlights == to.highlights,
    ensures
        migrated(migrated(c, from, to), to, from) == c,
{
}

/// The files whose paths have other steps than the given one, in order.
pub open spec fn with_other_steps(files: Seq<Seq<char>>, path: Seq<char>) -> Seq<Seq<char>>
    decreases files.len(),
{
    if files.len() == 0 {
        seq![]
    } else {
        let before = with_other_steps(files.drop_last(), path);
        if same_steps(files.last(), path) {
            before
        } else {
            before.push(files.last())
        }
    }
}

/// A file that was opened is first among the remembered ones and stands there once,
/// however its slashes and dots were written before; at most ten are remembered. Files whose paths
/// have other steps stay, in their order: all of them while there is room, and else the
/// first ones.
pub proof fn recent_first_once(before: Seq<Seq<char>>, path: Seq<char>, after: Seq<Seq<char>>)
    requires
        remembered(before, path, after),
    ensures
        1 <= after.len() <= RECENT_FILES,
        after[0] == path,
        forall|i: int| 1 <= i < after.len() ==> !surely_same(#[trigger] after[i], path),
        with_other_steps(after.skip(1), path).is_prefix_of(with_other_steps(before, path)),
        before.len() < RECENT_FILES || after.len() < RECENT_FILES ==> with_other_steps(
            after.skip(1),
            path,
        ) == with_other_steps(before, path),
{
    let same = choose|same: Seq<bool>|
        marks_same(before, path, same) && after == #[trigger] with_recent(before, same, path);
    let rest = unmarked(before, same);
    lemma_unmarked(before, same, path);
    assert forall|i: int| 1 <= i < after.len() implies !surely_same(
        #[trigger] after[i],
        path,
    ) by {
        assert(after[i] == rest[i - 1]);
    }
    let n = after.len() - 1;
    assert(after.skip(1) =~= rest.take(n));
    lemma_first_others(rest, path, n);
    assert(n < rest.len() ==> after.len() == RECENT_FILES && before.len() >= RECENT_FILES);
    assert(n == rest.len() ==> rest.take(n) =~= rest);
}

/// The files with other steps among the first ones come first.
proof fn lemma_first_others(files: Seq<Seq<char>>, path: Seq<char>, n: int)
    requires
        0 <= n <= files.len(),
    ensures
        with_other_steps(files.take(n), path).is_prefix_of(with_other_steps(files, path)),
    decreases files.len(),
{
    if n == files.len() {
        assert(files.take(n) =~= files);
    } else {
        lemma_first_others(files.drop_last(), path, n);
        assert(files.drop_last().take(n) =~= files.take(n));
        let some = with_other_steps(files.take(n), path);
        let all = with_other_steps(files, path);
        assert(all.subrange(0, some.len() as int) =~= some);
    }
}

proof fn lemma_unmarked(files: Seq<Seq<char>>, same: Seq<bool>, path: Seq<char>)
    requires
        marks_same(files, path, same),
    ensures
        forall|i: int|
            0 <= i < unmarked(files, same).len() ==> !surely_same(
                #[trigger] unmarked(files, same)[i],
                path,
            ),
        unmarked(files, same).len() <= files.len(),
        with_other_steps(unmarked(files, same), path) == with_other_steps(files, path),
    decreases files.len(),
{
    if files.len() == 0 {
        assert(unmarked(files, same) =~= files);
    } else {
        let head = files.drop_last();
        let marks = same.take(files.len() - 1);
        assert forall|i: int| 0 <= i < head.len() implies tells_same(
            head[i],
            path,
            #[trigger] marks[i],
        ) by {
            assert(tells_same(files[i], path, same[i]));
        }
        lemma_unmarked(head, marks, path);
        assert(tells_same(files[files.len() - 1], path, same[files.len() - 1]));
        let before = unmarked(head, marks);
        let all = unmarked(files, same);
        if !same[files.len() - 1] {
            assert(all.drop_last() =~= before);
        }
        assert forall|i: int| 0 <= i < all.len() implies !surely_same(#[trigger] all[i], path) by {
            if i < before.len() {
                assert(all[i] == before[i]);
            }
        }
    }
}

/// Each color that is a default of the old theme becomes that of the new one, whatever the
/// others are.
pub proof fn each_default_color_is_replaced(
    c: ColorsConfigView,
    from: ColorsConfigView,
    to: ColorsConfigView,
)
    ensures
        c.level_v == from.level_v ==> migrated(c, from, to).level_v == to.level_v,
        c.level_d == from.level_d ==> migrated(c, from, to).level_d == to.level_d,
        c.level_i == from.level_i ==> migrated(c, from, to).level_i == to.level_i,
        c.level_w == from.level_w ==> migrated(c, from, to).level_w == to.level_w,
        c.level_e == from.level_e ==> migrated(c, from, to).level_e == to.level_e,
        c.level_f == from.level_f ==> migrated(c, from, to).level_f == to.level_f,
        c.highlights == from.highlights ==> migrated(c, from, to).highlights == to.highlights,
{
}

/// The commands that a tool can run keep their order, and those that it cannot run are
/// left out.
pub proof fn runnable_commands_are_picked_out(
    a: Seq<Seq<char>>,
    b: Seq<Seq<char>>,
    cmd: Seq<char>,
    transport: Transport,
)
    ensures
        runnable(a + b, transport) == runnable(a, transport) + runnable(b, transport),
        transport::can_run(transport, cmd) ==> runnable(seq![cmd], transport) == seq![cmd],
        !transport::can_run(transport, cmd) ==> runnable(seq![cmd], transport).len() == 0,
    decreases b.len(),
{
    let none = Seq::<Seq<char>>::empty();
    assert(seq![cmd].drop_last() =~= none);
    assert(runnable(none, transport) =~= none);
    assert(none.push(cmd) =~= seq![cmd]);
    if b.len() == 0 {
        assert(a + b =~= a);
        assert(runnable(b, transport) =~= none);
        assert(runnable(a, transport) + none =~= runnable(a, transport));
    } else {
        let front = b.drop_last();
        runnable_commands_are_picked_out(a, front, cmd, transport);
        assert((a + b).drop_last() =~= a + front);
        assert((a + b).last() == b.last());
        assert(runnable(a, transport) + runnable(front, transport).push(b.last()) =~= (runnable(
            a,
            transport,
        ) + runnable(front, transport)).push(b.last()));
    }
}

/// Marked texts leave, and the others stay in their order.
pub proof fn unmarked_texts_stay(
    a: Seq<Seq<char>>,
    first: Seq<bool>,
    b: Seq<Seq<char>>,
    second: Seq<bool>,
    t: Seq<char>,
)
    requires
        first.len() == a.len(),
        second.len() == b.len(),
    ensures
        unmarked(a + b, first + second) == unmarked(a, first) + unmarked(b, second),
        unmarked(seq![t], seq![false]) == seq![t],
        unmarked(seq![t], seq![true]).len() == 0,
    decreases b.len(),
{
    let none = Seq::<Seq<char>>::empty();
    assert(seq![t].drop_last() =~= none);
    assert(unmarked(none, seq![true].take(0)) =~= none);
    assert(unmarked(none, seq![false].take(0)) =~= none);
    assert(none.push(t) =~= seq![t]);
    if b.len() == 0 {
        assert(a + b =~= a);
        assert(first + second =~= first);
        assert(unmarked(b, second) =~= none);
        assert(unmarked(a, first) + none =~= unmarked(a, first));
    } else {
        let front = b.drop_last();
        let marks = second.take(b.len() - 1);
        unmarked_texts_stay(a, first, front, marks, t);
        assert((a + b).drop_last() =~= a + front);
        assert((a + b).last() == b.last());
        assert((first + second).take(a.len() + b.len() - 1) =~= first + marks);
        assert(unmarked(a, first) + unmarked(front, marks).push(b.last()) =~= (unmarked(a, first)
            + unmarked(front, marks)).push(b.last()));
    }
}

/// A file that is opened comes first. Behind it stand those that are not marked as the
/// same, in their order, and of more than ten the last ones are forgotten.
pub proof fn opened_file_comes_first(
    files: Seq<Seq<char>>,
    same: Seq<bool>,
    path: Seq<char>,
    i: int,
)
    requires
        same.len() == files.len(),
        1 <= i < with_recent(files, same, path).len(),
    ensures
        with_recent(files, same, path)[0] == path,
        with_recent(files, same, path)[i] == unmarked(files, same)[i - 1],
        unmarked(files, same).len() < 10 ==> with_recent(files, same, path).len() == unmarked(
            files,
            same,
        ).len() + 1,
        unmarked(files, same).len() >= 10 ==> with_recent(files, same, path).len() == 10,
{
}

/// Putting the HarmonyOS commands in leaves the others in their places, and puts in
/// nothing else.
pub proof fn own_commands_stay_in_place(commands: Seq<Seq<char>>, i: int)
    requires
        0 <= i < with_hilog(commands).len(),
    ensures
        commands.len() <= with_hilog(commands).len() <= commands.len() + 4,
        i < commands.len() ==> with_hilog(commands)[i] == commands[i],
        i >= commands.len() ==> hilog_commands().contains(with_hilog(commands)[i]),
{
    let h = hilog_commands();
    assert(h.contains(h[0]) && h.contains(h[1]) && h.contains(h[2]) && h.contains(h[3]));
}

/// The commands of a new user, and no others, have formats that are known: those for
/// Android that of their option, those for HarmonyOS its own, and the last one the
/// kernel's.
pub proof fn own_formats_are_those_of_new_users(cmd: Seq<char>, i: int)
    requires
        0 <= i < 9,
    ensures
        transport::builtin_format(cmd) is Some <==> default_commands().contains(cmd),
        i == 0 ==> transport::builtin_format(default_commands()[i]) == Some(LogFormat::ThreadTime),
        1 <= i < 4 ==> transport::builtin_format(default_commands()[i]) == Some(LogFormat::Time),
        4 <= i < 8 ==> transport::builtin_format(default_commands()[i]) == Some(LogFormat::HiLog),
        i == 8 ==> transport::builtin_format(default_commands()[i]) == Some(LogFormat::Kernel),
{
    let all = default_commands();
    reveal_strlit("logcat -v threadtime");
    reveal_strlit("logcat -v time");
    reveal_strlit("logcat -b radio -v time");
    reveal_strlit("logcat -b events -v time");
    reveal_strlit("hilog -v threadtime -r");
    reveal_strlit("hilog -v time -r");
    reveal_strlit("hilog -D 0x2F00 -v time");
    reveal_strlit("hilog -D 0x2D00 -v time");
    reveal_strlit("shell cat /proc/kmsg");
    assert(all[0].len() == 20 && all[0][0] == 'l');
    assert(all[1].len() == 14);
    assert(all[2].len() == 23 && all[2][0] == 'l');
    assert(all[3].len() == 24);
    assert(all[4].len() == 22);
    assert(all[5].len() == 16);
    assert(all[6].len() == 23 && all[6][0] == 'h');
    assert(all[7].len() == 23 && all[7][0] == 'h');
    assert(all[8].len() == 20 && all[8][0] == 's');
    assert(all.contains(all[0]) && all.contains(all[1]) && all.contains(all[2]) && all.contains(
        all[3],
    ) && all.contains(all[4]) && all.contains(all[5]) && all.contains(all[6]) && all.contains(
        all[7],
    ) && all.contains(all[8]));
    if all.contains(cmd) {
        let k = choose|k: int| 0 <= k < all.len() && all[k] == cmd;
        assert(k == 0 || k == 1 || k == 2 || k == 3 || k == 4 || k == 5 || k == 6 || k == 7 || k
            == 8);
    }
}

} // verus!
