//! The viewer: its state, and what the user and the sources do to it.
//!
//! Reading files, running device tools, drawing and the clipboard are outside: the
//! viewer says what is to be done there and takes in what has come of it.

use crate::adb;
use crate::adb::command_args;
use crate::caches;
use crate::caches::{parse_level_colors, HighlightCache, PickerCache};
use crate::collections::StringSet;
use crate::color::Rgb;
use crate::config;
use crate::config::{remember_recent, same_path, same_recent, Config, ConfigView};
use crate::filter;
use crate::filter::FilterSpec;
use crate::indicator;
use crate::model::{EncodingChoice, EntryView, LogFormat, Model};
use crate::selection;
use crate::selection::{Selection, SelectionView};
use crate::split;
use crate::status::{Notice, Status, StatusView};
use crate::text::same_text;
use crate::transport;
use crate::transport::{detect_format_from_cmd, device_serial, Transport};
use crate::ui;
use crate::ui::{ChoicesView, UiState};
use vstd::prelude::*;
use vstd::std_specs::hash::*;

verus! {

broadcast use group_hash_axioms;

/// The number behind a counter, which starts again when it has come to its end.
pub open spec fn bumped(n: u64) -> u64 {
    if n == u64::MAX {
        0
    } else {
        (n + 1) as u64
    }
}

/// The number behind a counter.
fn bump(n: u64) -> (r: u64)
    ensures
        r == bumped(n),
{
    if n == u64::MAX {
        0
    } else {
        n + 1
    }
}

/// A new source is told apart from the one before it, and a new filter from the one
/// before it.
pub proof fn next_is_another(n: u64)
    ensures
        bumped(n) != n,
{
}

/// The counter after it was bumped `times` times.
pub open spec fn bumped_by(n: u64, times: nat) -> u64
    decreases times,
{
    if times == 0 {
        n
    } else {
        bumped(bumped_by(n, (times - 1) as nat))
    }
}

/// Where the lines come from, and which of them are shown.
pub struct Source {
    /// Changes when the filter must be applied anew.
    pub gen: u64,
    /// Changes with the source of the lines: lines of an older one are dropped.
    pub epoch: u64,
    /// The format that the lines are expected to have.
    pub hint: LogFormat,
    /// The filter that is applied.
    pub filter: FilterSpec,
}

/// The devices and the command that runs on one of them.
pub struct Device {
    pub devices: Vec<String>,
    /// The device to use; empty for any.
    pub selected_device: String,
    pub selected_cmd: String,
    pub transport: Transport,
    /// A command runs.
    pub live: bool,
    /// Its lines are held back.
    pub paused: bool,
    /// The devices are being listed.
    pub refreshing: bool,
}

/// The devices and the command that runs on one of them.
#[verifier::ext_equal]
pub struct DeviceView {
    pub devices: Seq<Seq<char>>,
    pub selected_device: Seq<char>,
    pub selected_cmd: Seq<char>,
    pub transport: Transport,
    pub live: bool,
    pub paused: bool,
    pub refreshing: bool,
}

impl View for Device {
    type V = DeviceView;

    open spec fn view(&self) -> DeviceView {
        DeviceView {
            devices: split::texts(self.devices@),
            selected_device: self.selected_device@,
            selected_cmd: self.selected_cmd@,
            transport: self.transport,
            live: self.live,
            paused: self.paused,
            refreshing: self.refreshing,
        }
    }
}

/// The state of the viewer, except for the log.
pub struct App {
    pub cfg: Config,
    pub ui: UiState,
    pub selection: Selection,
    pub source: Source,
    pub device: Device,
    pub status: Status,
    pub highlights: HighlightCache,
    /// The colors of the levels, from verbose to fatal.
    pub level_colors: [Rgb; 6],
    pub picker_cache: PickerCache,
    /// The table follows new lines.
    pub auto_scroll: bool,
    /// Number of rows that fit into the table.
    pub visible_table_rows: usize,
}

/// The log holds nothing, and comes from the given file.
pub open spec fn is_emptied(m: Model, path: Option<Seq<char>>) -> bool {
    &&& m.wf()
    &&& m.entries@.len() == 0
    &&& m.filtered@.len() == 0
    &&& m.bookmarks@ == Set::<u32>::empty()
    &&& config::opt_text(m.file_path) == path
}

/// The command to begin with: the one used last, or else the first that the tool
/// can run, or else one that always is there.
pub open spec fn first_cmd(cfg: ConfigView) -> Seq<char> {
    let cmds = config::runnable(cfg.adb.commands, cfg.adb.transport);
    if cfg.adb.selected_cmd.len() > 0 {
        cfg.adb.selected_cmd
    } else if cmds.len() > 0 {
        cmds[0]
    } else {
        "logcat -v threadtime"@
    }
}

/// The filter is that of the filter bar, and is applied anew; nothing is selected,
/// for rows are other lines then.
pub open spec fn notified(before: App, after: App) -> bool {
    &&& after.selection@ == selection::cleared(before.selection@)
    &&& after.source.gen == bumped(before.source.gen)
    &&& after.source.filter@ == after.ui.filter_view()
}

/// The parts that neither the source nor the filter concerns are the same.
pub open spec fn same_view(before: App, after: App) -> bool {
    &&& after.status == before.status
    &&& after.highlights == before.highlights
    &&& after.level_colors == before.level_colors
    &&& after.picker_cache == before.picker_cache
    &&& after.auto_scroll == before.auto_scroll
    &&& after.visible_table_rows == before.visible_table_rows
}

/// The bookmarks after that of an entry was set or taken away.
pub open spec fn toggled_bookmark(bookmarks: Set<u32>, entry: u32) -> Set<u32> {
    if bookmarks.contains(entry) {
        bookmarks.remove(entry)
    } else {
        bookmarks.insert(entry)
    }
}

/// Toggling a bookmark twice changes nothing.
pub proof fn bookmark_twice_restores(bookmarks: Set<u32>, entry: u32)
    ensures
        toggled_bookmark(toggled_bookmark(bookmarks, entry), entry) == bookmarks,
{
    assert(toggled_bookmark(toggled_bookmark(bookmarks, entry), entry) =~= bookmarks);
}

/// Number of selected rows among the first `n`.
pub open spec fn selected_count(rows: Set<usize>, n: int) -> nat
    decreases n,
{
    if n <= 0 {
        0
    } else {
        selected_count(rows, n - 1) + if rows.contains((n - 1) as usize) {
            1nat
        } else {
            0nat
        }
    }
}

/// An entry is shown in a selected row among the first `n`.
pub open spec fn is_picked(filtered: Seq<u32>, rows: Set<usize>, n: int, entry: u32) -> bool {
    exists|r: int|
        0 <= r < n && r < filtered.len() && rows.contains(r as usize) && #[trigger] filtered[r]
            == entry
}

/// The bookmarks after those of the selected rows among the first `n` were toggled.
pub open spec fn toggled_rows(
    bookmarks: Set<u32>,
    filtered: Seq<u32>,
    rows: Set<usize>,
    n: int,
) -> Set<u32> {
    Set::new(|e: u32| bookmarks.contains(e) != is_picked(filtered, rows, n, e))
}

/// How the log has changed where only its bookmarks have.
pub open spec fn only_bookmarks(before: Model, after: Model) -> bool {
    &&& after.entries == before.entries
    &&& after.filtered == before.filtered
    &&& after.error_lines == before.error_lines
    &&& after.file_path == before.file_path
    &&& after.pid_counts == before.pid_counts
    &&& after.tid_counts == before.tid_counts
    &&& after.tag_counts == before.tag_counts
    &&& after.level_counts == before.level_counts
}

/// What tells whether a file is the one that is shown.
pub open spec fn is_shown(shown: Option<Seq<char>>, path: Seq<char>, same: bool) -> bool {
    match shown {
        Some(file) => config::tells_same(file, path, same),
        None => !same,
    }
}

/// A file that is opened again keeps the values that are chosen for the columns, also if
/// its slashes and dots are written in another way; a file that takes the place of none, or of one
/// whose path has other steps, does not.
pub proof fn choices_go_with_the_file(shown: Option<Seq<char>>, path: Seq<char>, same: bool)
    requires
        is_shown(shown, path, same),
    ensures
        shown matches Some(file) && config::surely_same(file, path) ==> same,
        shown is None ==> !same,
        shown matches Some(file) && !config::same_steps(file, path) ==> !same,
{
}

/// What is to be done to load a file.
pub struct Load {
    /// The lines are to be tagged with this.
    pub epoch: u64,
    pub choice: EncodingChoice,
    /// The message, if a command was stopped for it.
    pub stopped: Option<Notice>,
}

/// What is to be done to run a command.
pub struct Launch {
    /// The lines are to be tagged with this.
    pub epoch: u64,
    pub tool: Transport,
    /// Path of the tool, if it is not to be searched for.
    pub binary: Option<String>,
    pub args: Vec<String>,
}

/// What has become of listing the devices.
pub enum ProbeEvent {
    /// It goes on.
    Pending,
    /// The devices, or why they could not be listed.
    Done(Result<Vec<String>, String>),
    /// The worker is gone without a word.
    Lost,
}

impl App {
    /// The state at the start, by the settings.
    pub fn from_config(cfg: Config) -> (r: Self)
        ensures
            r.cfg == cfg,
            r.ui.persisted() == ui::restored(cfg@),
            r.ui.choices() == ui::no_choices(),
            r.ui.goto_line@.len() == 0,
            !r.ui.bookmarks_only,
            r.ui.picker is None,
            r.selection@ == (SelectionView {
                rows: Set::empty(),
                anchor: None,
                cursor: None,
                scroll: None,
            }),
            r.source.gen == 1,
            r.source.epoch == 0,
            r.source.hint == LogFormat::Unknown,
            r.source.filter@ == r.ui.filter_view(),
            r.device@ == (DeviceView {
                devices: seq![],
                selected_device: cfg@.adb.selected_device,
                selected_cmd: first_cmd(cfg@),
                transport: cfg@.adb.transport,
                live: false,
                paused: false,
                refreshing: false,
            }),
            r.status@ == (StatusView { text: seq![], seen: seq![], shown_at: 0 }),
            r.highlights.is_current(&cfg.colors, &r.ui),
            r.level_colors@ == caches::level_palette(cfg.colors),
            r.picker_cache.col is None,
            r.auto_scroll,
            r.visible_table_rows == 1,
    {
        let ui = UiState::from_config(&cfg);
        let filter = ui.to_filter_spec();
        let cmds = cfg.adb.commands(cfg.adb.transport);
        let selected_cmd = if !cfg.adb.selected_cmd.as_str().is_empty() {
            cfg.adb.selected_cmd.clone()
        } else if cmds.len() > 0 {
            assert(split::texts(cmds@)[0] == cmds@[0]@);
            cmds[0].clone()
        } else {
            assert(split::texts(cmds@).len() == cmds@.len());
            "logcat -v threadtime".to_string()
        };
        let highlights = HighlightCache::new(&cfg.colors, &ui);
        let level_colors = parse_level_colors(&cfg.colors);
        let devices: Vec<String> = Vec::new();
        assert(split::texts(devices@) =~= Seq::<Seq<char>>::empty());
        let device = Device {
            devices,
            selected_device: cfg.adb.selected_device.clone(),
            selected_cmd,
            transport: cfg.adb.transport,
            live: false,
            paused: false,
            refreshing: false,
        };
        App {
            cfg,
            ui,
            selection: Selection::new(),
            source: Source { gen: 1, epoch: 0, hint: LogFormat::Unknown, filter },
            device,
            status: Status::new(),
            highlights,
            level_colors,
            picker_cache: PickerCache::new(),
            auto_scroll: true,
            visible_table_rows: 1,
        }
    }

    /// Takes over the filter of the filter bar.
    pub fn notify_filter(&mut self)
        ensures
            notified(*old(self), *final(self)),
            final(self).source.epoch == old(self).source.epoch,
            final(self).source.hint == old(self).source.hint,
            final(self).cfg == old(self).cfg,
            final(self).ui == old(self).ui,
            final(self).device == old(self).device,
            same_view(*old(self), *final(self)),
    {
        self.selection.clear();
        self.source.filter = self.ui.to_filter_spec();
        self.refilter();
    }

    /// Has the filter applied anew, where what it depends on has changed, but not the
    /// filter.
    pub fn refilter(&mut self)
        ensures
            final(self).source.gen == bumped(old(self).source.gen),
            final(self).source.epoch == old(self).source.epoch,
            final(self).source.hint == old(self).source.hint,
            final(self).source.filter == old(self).source.filter,
            final(self).cfg == old(self).cfg,
            final(self).ui == old(self).ui,
            final(self).selection == old(self).selection,
            final(self).device == old(self).device,
            same_view(*old(self), *final(self)),
    {
        self.source.gen = bump(self.source.gen);
    }

    /// Forgets the log. The source of a file is given up, so that nothing more comes
    /// of it; a command that runs goes on and its lines are kept.
    pub fn clear(&mut self, model: &mut Model)
        ensures
            is_emptied(*final(model), None),
            notified(*old(self), *final(self)),
            final(self).source.epoch == if old(self).device.live {
                old(self).source.epoch
            } else {
                bumped(old(self).source.epoch)
            },
            final(self).source.hint == old(self).source.hint,
            final(self).cfg == old(self).cfg,
            final(self).ui == old(self).ui,
            final(self).device == old(self).device,
            same_view(*old(self), *final(self)),
    {
        if !self.device.live {
            self.source.epoch = bump(self.source.epoch);
        }
        model.clear();
        self.notify_filter();
    }

    /// Stops the command that runs, if one does.
    pub fn stop_session(&mut self) -> (r: Option<Notice>)
        ensures
            r == if old(self).device.live {
                Some(Notice::DeviceStopped { tool: old(self).device.transport })
            } else {
                None
            },
            final(self).device@ == (DeviceView { live: false, paused: if old(self).device.live {
                false
            } else {
                old(self).device.paused
            }, ..old(self).device@ }),
            final(self).cfg == old(self).cfg,
            final(self).ui == old(self).ui,
            final(self).selection == old(self).selection,
            final(self).source == old(self).source,
            same_view(*old(self), *final(self)),
    {
        if self.device.live {
            self.device.live = false;
            self.device.paused = false;
            Some(Notice::DeviceStopped { tool: self.device.transport })
        } else {
            None
        }
    }

    /// Begins to load a file, where it is known whether it is the one that is shown
    /// already, and which of the remembered files are the same.
    pub fn switch_file(
        &mut self,
        model: &mut Model,
        path: &str,
        same_source: bool,
        same_recent: &Vec<bool>,
    ) -> (r: Load)
        requires
            same_recent@.len() == old(self).cfg@.recent.len(),
        ensures
            is_emptied(*final(model), Some(path@)),
            r.epoch == bumped(old(self).source.epoch),
            r.choice == if old(self).ui.encoding@ == "local"@ {
                EncodingChoice::Local
            } else {
                EncodingChoice::Utf8
            },
            r.stopped == if old(self).device.live {
                Some(Notice::DeviceStopped { tool: old(self).device.transport })
            } else {
                None
            },
            notified(*old(self), *final(self)),
            final(self).source.epoch == bumped(old(self).source.epoch),
            final(self).source.hint == LogFormat::Unknown,
            final(self).ui.choices() == if same_source {
                old(self).ui.choices()
            } else {
                ui::no_choices()
            },
            final(self).ui.same_but_choices(old(self).ui),
            final(self).cfg@ == (ConfigView {
                recent: config::with_recent(old(self).cfg@.recent, same_recent@, path@),
                ..old(self).cfg@
            }),
            final(self).device@ == (DeviceView { live: false, paused: if old(self).device.live {
                false
            } else {
                old(self).device.paused
            }, ..old(self).device@ }),
            same_view(*old(self), *final(self)),
    {
        let stopped = self.stop_session();
        self.source.hint = LogFormat::Unknown;
        self.source.epoch = bump(self.source.epoch);
        model.clear();
        model.file_path = Some(path.to_string());
        if !same_source {
            self.ui.reset_column_filters();
        }
        remember_recent(&mut self.cfg, path, same_recent);
        self.notify_filter();
        Load { epoch: self.source.epoch, choice: self.ui.encoding_choice(), stopped }
    }

    /// Begins to load a file. The values that are chosen for the columns stay if the
    /// file is the one that is shown already, and are forgotten otherwise: in another
    /// file they would hide lines for no reason that can be seen.
    pub fn open_file(&mut self, model: &mut Model, path: &str) -> (r: Load)
        ensures
            is_emptied(*final(model), Some(path@)),
            r.epoch == bumped(old(self).source.epoch),
            r.choice == if old(self).ui.encoding@ == "local"@ {
                EncodingChoice::Local
            } else {
                EncodingChoice::Utf8
            },
            r.stopped == if old(self).device.live {
                Some(Notice::DeviceStopped { tool: old(self).device.transport })
            } else {
                None
            },
            notified(*old(self), *final(self)),
            final(self).source.epoch == bumped(old(self).source.epoch),
            final(self).source.hint == LogFormat::Unknown,
            exists|same: bool| #[trigger]
                is_shown(config::opt_text(old(model).file_path), path@, same)
                    && final(self).ui.choices() == if same {
                    old(self).ui.choices()
                } else {
                    ui::no_choices()
                },
            final(self).ui.same_but_choices(old(self).ui),
            config::remembered(old(self).cfg@.recent, path@, final(self).cfg@.recent),
            final(self).cfg@ == (ConfigView {
                recent: final(self).cfg@.recent,
                ..old(self).cfg@
            }),
            final(self).device@ == (DeviceView { live: false, paused: if old(self).device.live {
                false
            } else {
                old(self).device.paused
            }, ..old(self).device@ }),
            same_view(*old(self), *final(self)),
    {
        let same_source = match &model.file_path {
            Some(shown) => same_path(shown.as_str(), path),
            None => false,
        };
        assert(is_shown(config::opt_text(model.file_path), path@, same_source));
        let marks = same_recent(&self.cfg, path);
        self.switch_file(model, path, same_source, &marks)
    }

    /// Begins to run the chosen command: the log is emptied, and what is needed to run
    /// it is returned. The values that are chosen for the columns stay.
    pub fn begin_session(&mut self, model: &mut Model) -> (r: Launch)
        ensures
            is_emptied(*final(model), None),
            r.epoch == bumped(old(self).source.epoch),
            r.tool == old(self).device.transport,
            config::opt_text(r.binary) == match old(self).device.transport {
                Transport::Adb => old(self).cfg@.adb.adb_path,
                Transport::Hdc => old(self).cfg@.adb.hdc_path,
            },
            split::texts(r.args@) == adb::tool_args(
                match old(self).device.transport {
                    Transport::Adb => "-s"@,
                    Transport::Hdc => "-t"@,
                },
                if old(self).device.selected_device@.len() == 0 {
                    None
                } else {
                    Some(transport::serial_of(old(self).device.selected_device@))
                },
                old(self).device.selected_cmd@,
                adb::shell_words(old(self).device.selected_cmd@),
            ),
            adb::plain_command(old(self).device.selected_cmd@) ==> split::texts(r.args@)
                == adb::tool_args(
                match old(self).device.transport {
                    Transport::Adb => "-s"@,
                    Transport::Hdc => "-t"@,
                },
                if old(self).device.selected_device@.len() == 0 {
                    None
                } else {
                    Some(transport::serial_of(old(self).device.selected_device@))
                },
                old(self).device.selected_cmd@,
                Some(split::words(old(self).device.selected_cmd@)),
            ),
            notified(*old(self), *final(self)),
            final(self).source.epoch == bumped(old(self).source.epoch),
            final(self).source.hint == transport::command_format(
                old(self).device.selected_cmd@,
            ),
            final(self).cfg == old(self).cfg,
            final(self).ui == old(self).ui,
            final(self).device@ == (DeviceView { live: false, paused: if old(self).device.live {
                false
            } else {
                old(self).device.paused
            }, ..old(self).device@ }),
            same_view(*old(self), *final(self)),
    {
        let _ = self.stop_session();
        self.source.hint = detect_format_from_cmd(self.device.selected_cmd.as_str());
        self.source.epoch = bump(self.source.epoch);
        model.clear();
        self.notify_filter();
        let tool = self.device.transport;
        let args = if self.device.selected_device.as_str().is_empty() {
            command_args(tool, None, self.device.selected_cmd.as_str())
        } else {
            let serial = device_serial(self.device.selected_device.as_str());
            command_args(tool, Some(serial.as_str()), self.device.selected_cmd.as_str())
        };
        Launch {
            epoch: self.source.epoch,
            tool,
            binary: self.cfg.adb.binary_override(tool),
            args,
        }
    }

    /// Takes in whether the command could be run.
    pub fn session_started(&mut self, error: Option<String>) -> (r: Notice)
        ensures
            match error {
                None => {
                    &&& r matches Notice::DeviceStarted { tool, cmd } && tool
                        == old(self).device.transport && cmd@ == old(self).device.selected_cmd@
                    &&& final(self).device@ == (DeviceView {
                        live: true,
                        paused: false,
                        ..old(self).device@
                    })
                },
                Some(reason) => {
                    &&& r == (Notice::DeviceStartFailed {
                        tool: old(self).device.transport,
                        reason,
                    })
                    &&& final(self).device == old(self).device
                },
            },
            final(self).cfg == old(self).cfg,
            final(self).ui == old(self).ui,
            final(self).selection == old(self).selection,
            final(self).source == old(self).source,
            same_view(*old(self), *final(self)),
    {
        match error {
            None => {
                self.device.live = true;
                self.device.paused = false;
                Notice::DeviceStarted {
                    tool: self.device.transport,
                    cmd: self.device.selected_cmd.clone(),
                }
            },
            Some(reason) => Notice::DeviceStartFailed { tool: self.device.transport, reason },
        }
    }

    /// Takes in that the command has ended by itself, and what it said on its error
    /// stream.
    pub fn session_ended(&mut self, said: String) -> (r: Option<Notice>)
        ensures
            old(self).device.live ==> r == Some(if said@.len() == 0 {
                Notice::DeviceEnded { tool: old(self).device.transport }
            } else {
                Notice::DeviceEndedWith { tool: old(self).device.transport, reason: said }
            }),
            !old(self).device.live ==> r is None && final(self).device == old(self).device,
            old(self).device.live ==> final(self).device@ == (DeviceView {
                live: false,
                paused: false,
                ..old(self).device@
            }),
            final(self).cfg == old(self).cfg,
            final(self).ui == old(self).ui,
            final(self).selection == old(self).selection,
            final(self).source == old(self).source,
            same_view(*old(self), *final(self)),
    {
        if !self.device.live {
            return None;
        }
        self.device.live = false;
        self.device.paused = false;
        if said.as_str().is_empty() {
            Some(Notice::DeviceEnded { tool: self.device.transport })
        } else {
            Some(Notice::DeviceEndedWith { tool: self.device.transport, reason: said })
        }
    }

    /// Holds the lines of the command back, or lets them through again.
    pub fn toggle_pause(&mut self) -> (r: Option<Notice>)
        ensures
            !old(self).device.live ==> r is None && final(self).device == old(self).device,
            old(self).device.live ==> final(self).device@ == (DeviceView {
                paused: !old(self).device.paused,
                ..old(self).device@
            }) && r == Some(if old(self).device.paused {
                Notice::DeviceResumed { tool: old(self).device.transport }
            } else {
                Notice::DevicePaused { tool: old(self).device.transport }
            }),
            final(self).cfg == old(self).cfg,
            final(self).ui == old(self).ui,
            final(self).selection == old(self).selection,
            final(self).source == old(self).source,
            same_view(*old(self), *final(self)),
    {
        if !self.device.live {
            return None;
        }
        self.device.paused = !self.device.paused;
        if self.device.paused {
            Some(Notice::DevicePaused { tool: self.device.transport })
        } else {
            Some(Notice::DeviceResumed { tool: self.device.transport })
        }
    }

    /// Begins to list the devices, unless they are being listed already. Tells whether
    /// to do so.
    pub fn begin_refresh(&mut self) -> (r: bool)
        ensures
            r == !old(self).device.refreshing,
            final(self).device@ == (DeviceView { refreshing: true, ..old(self).device@ }),
            final(self).cfg == old(self).cfg,
            final(self).ui == old(self).ui,
            final(self).selection == old(self).selection,
            final(self).source == old(self).source,
            same_view(*old(self), *final(self)),
    {
        if self.device.refreshing {
            return false;
        }
        self.device.refreshing = true;
        true
    }

    /// Takes in the devices, or why they could not be listed. A chosen device stays
    /// chosen as long as it is listed.
    pub fn apply_devices_result(&mut self, result: Result<Vec<String>, String>) -> (r: Notice)
        ensures
            match result {
                Ok(list) => {
                    &&& r == if list@.len() == 0 {
                        Notice::NoDevices
                    } else {
                        Notice::Devices {
                            tool: old(self).device.transport,
                            count: list@.len() as usize,
                        }
                    }
                    &&& final(self).device@ == (DeviceView {
                        devices: split::texts(list@),
                        selected_device: if split::texts(list@).contains(
                            old(self).device.selected_device@,
                        ) {
                            old(self).device.selected_device@
                        } else {
                            seq![]
                        },
                        ..old(self).device@
                    })
                },
                Err(reason) => {
                    &&& r == (Notice::DevicesFailed { tool: old(self).device.transport, reason })
                    &&& final(self).device@ == (DeviceView {
                        devices: seq![],
                        ..old(self).device@
                    })
                },
            },
            final(self).cfg == old(self).cfg,
            final(self).ui == old(self).ui,
            final(self).selection == old(self).selection,
            final(self).source == old(self).source,
            same_view(*old(self), *final(self)),
    {
        match result {
            Ok(list) => {
                let count: usize = list.len();
                if !contains_text(&list, self.device.selected_device.as_str()) {
                    self.device.selected_device = String::new();
                }
                self.device.devices = list;
                if count == 0 {
                    Notice::NoDevices
                } else {
                    Notice::Devices { tool: self.device.transport, count }
                }
            },
            Err(reason) => {
                self.device.devices.clear();
                assert(split::texts(self.device.devices@) =~= Seq::<Seq<char>>::empty());
                Notice::DevicesFailed { tool: self.device.transport, reason }
            },
        }
    }

    /// Takes in what has become of listing the devices. A worker that is gone counts
    /// as a failure, so that listing does not seem to go on forever.
    pub fn poll_device_refresh(&mut self, event: ProbeEvent) -> (r: Option<Notice>)
        ensures
            !old(self).device.refreshing || event is Pending ==> r is None && final(self).device
                == old(self).device,
            old(self).device.refreshing && event !is Pending ==> r is Some
                && !final(self).device.refreshing,
            old(self).device.refreshing ==> match event {
                ProbeEvent::Pending => true,
                ProbeEvent::Done(Ok(list)) => {
                    &&& r == Some(if list@.len() == 0 {
                        Notice::NoDevices
                    } else {
                        Notice::Devices {
                            tool: old(self).device.transport,
                            count: list@.len() as usize,
                        }
                    })
                    &&& final(self).device@ == (DeviceView {
                        devices: split::texts(list@),
                        selected_device: if split::texts(list@).contains(
                            old(self).device.selected_device@,
                        ) {
                            old(self).device.selected_device@
                        } else {
                            seq![]
                        },
                        refreshing: false,
                        ..old(self).device@
                    })
                },
                ProbeEvent::Done(Err(reason)) => {
                    &&& r == Some(
                        Notice::DevicesFailed { tool: old(self).device.transport, reason },
                    )
                    &&& final(self).device@ == (DeviceView {
                        devices: seq![],
                        refreshing: false,
                        ..old(self).device@
                    })
                },
                ProbeEvent::Lost => {
                    &&& r matches Some(Notice::DevicesFailed { tool, reason }) && tool
                        == old(self).device.transport && reason@
                        == "device probe terminated unexpectedly"@
                    &&& final(self).device@ == (DeviceView {
                        refreshing: false,
                        ..old(self).device@
                    })
                },
            },
            final(self).cfg == old(self).cfg,
            final(self).ui == old(self).ui,
            final(self).selection == old(self).selection,
            final(self).source == old(self).source,
            same_view(*old(self), *final(self)),
    {
        if !self.device.refreshing {
            return None;
        }
        match event {
            ProbeEvent::Pending => None,
            ProbeEvent::Done(result) => {
                self.device.refreshing = false;
                Some(self.apply_devices_result(result))
            },
            ProbeEvent::Lost => {
                self.device.refreshing = false;
                Some(
                    Notice::DevicesFailed {
                        tool: self.device.transport,
                        reason: "device probe terminated unexpectedly".to_string(),
                    },
                )
            },
        }
    }

    /// Chooses the tool. The devices of the other tool are forgotten, and a command
    /// that the new one cannot run is replaced by its first. Tells whether the tool is
    /// another one, whose devices are then to be listed.
    pub fn switch_transport(&mut self, to: Transport) -> (r: bool)
        ensures
            r == (to != old(self).device.transport),
            !r ==> final(self).device == old(self).device,
            r ==> final(self).device@ == (DeviceView {
                transport: to,
                devices: seq![],
                selected_device: seq![],
                selected_cmd: {
                    let cmds = config::runnable(old(self).cfg@.adb.commands, to);
                    if cmds.contains(old(self).device.selected_cmd@) {
                        old(self).device.selected_cmd@
                    } else if cmds.len() > 0 {
                        cmds[0]
                    } else {
                        seq![]
                    }
                },
                ..old(self).device@
            }),
            final(self).cfg == old(self).cfg,
            final(self).ui == old(self).ui,
            final(self).selection == old(self).selection,
            final(self).source == old(self).source,
            same_view(*old(self), *final(self)),
    {
        if to == self.device.transport {
            return false;
        }
        self.device.transport = to;
        self.device.selected_device = String::new();
        self.device.devices.clear();
        assert(split::texts(self.device.devices@) =~= Seq::<Seq<char>>::empty());
        let cmds = self.cfg.adb.commands(to);
        if !contains_text(&cmds, self.device.selected_cmd.as_str()) {
            assert(split::texts(cmds@).len() == cmds@.len());
            self.device.selected_cmd = if cmds.len() > 0 {
                assert(split::texts(cmds@)[0] == cmds@[0]@);
                cmds[0].clone()
            } else {
                String::new()
            };
        }
        true
    }

    /// Shows the entries with a tag only.
    pub fn add_show_tag(&mut self, tag: &str)
        ensures
            tag@.len() == 0 ==> *final(self) == *old(self),
            tag@.len() > 0 ==> {
                &&& notified(*old(self), *final(self))
                &&& final(self).source.epoch == old(self).source.epoch
                &&& final(self).source.hint == old(self).source.hint
                &&& final(self).ui.choices() == (ChoicesView {
                    tags: Some(Set::<Seq<char>>::empty().insert(tag@)),
                    ..old(self).ui.choices()
                })
                &&& forall|e: EntryView, i: u32, bookmarks: Set<u32>| #[trigger]
                    filter::passes(final(self).source.filter@, e, i, bookmarks) ==> e.tag == tag@
                &&& final(self).ui.same_but_choices(old(self).ui)
                &&& final(self).cfg == old(self).cfg
                &&& final(self).device == old(self).device
                &&& same_view(*old(self), *final(self))
            },
    {
        if tag.is_empty() {
            return;
        }
        let mut set = StringSet::new();
        set.insert(tag.to_string());
        self.ui.allowed_tags = Some(set);
        self.notify_filter();
    }

    /// Hides the entries with a tag, also those that are yet to come.
    pub fn add_remove_tag(&mut self, tag: &str)
        ensures
            tag@.len() == 0 ==> *final(self) == *old(self),
            tag@.len() > 0 ==> {
                &&& notified(*old(self), *final(self))
                &&& final(self).source.epoch == old(self).source.epoch
                &&& final(self).source.hint == old(self).source.hint
                &&& final(self).ui.choices() == (ChoicesView {
                    no_tags: old(self).ui.choices().no_tags.insert(tag@),
                    tags: match old(self).ui.choices().tags {
                        Some(tags) => Some(tags.remove(tag@)),
                        None => None,
                    },
                    ..old(self).ui.choices()
                })
                &&& forall|e: EntryView, i: u32, bookmarks: Set<u32>| #[trigger]
                    filter::passes(final(self).source.filter@, e, i, bookmarks) ==> e.tag != tag@
                &&& final(self).ui.same_but_choices(old(self).ui)
                &&& final(self).cfg == old(self).cfg
                &&& final(self).device == old(self).device
                &&& same_view(*old(self), *final(self))
            },
    {
        if tag.is_empty() {
            return;
        }
        self.ui.exclude_tag(tag);
        self.notify_filter();
    }

    /// Sets the bookmark of an entry, or takes it away. The filter is applied anew if
    /// it shows bookmarks only.
    pub fn toggle_bookmark(&mut self, model: &mut Model, entry: u32)
        ensures
            final(model).bookmarks@ == toggled_bookmark(old(model).bookmarks@, entry),
            only_bookmarks(*old(model), *final(model)),
            final(self).source.gen == if old(self).ui.bookmarks_only {
                bumped(old(self).source.gen)
            } else {
                old(self).source.gen
            },
            final(self).source.epoch == old(self).source.epoch,
            final(self).source.hint == old(self).source.hint,
            final(self).source.filter == old(self).source.filter,
            final(self).cfg == old(self).cfg,
            final(self).ui == old(self).ui,
            final(self).selection == old(self).selection,
            final(self).device == old(self).device,
            same_view(*old(self), *final(self)),
    {
        if model.bookmarks.contains(&entry) {
            model.bookmarks.remove(&entry);
        } else {
            model.bookmarks.insert(entry);
        }
        if self.ui.bookmarks_only {
            self.refilter();
        }
    }

    /// Toggles the bookmarks of the selected rows.
    pub fn toggle_selected_bookmark(&mut self, model: &mut Model)
        requires
            indicator::ascending(old(model).filtered@),
        ensures
            final(model).bookmarks@ == toggled_rows(
                old(model).bookmarks@,
                old(model).filtered@,
                old(self).selection@.rows,
                old(model).filtered@.len() as int,
            ),
            only_bookmarks(*old(model), *final(model)),
            final(self).source.gen == if old(self).ui.bookmarks_only {
                bumped_by(
                    old(self).source.gen,
                    selected_count(
                        old(self).selection@.rows,
                        old(model).filtered@.len() as int,
                    ),
                )
            } else {
                old(self).source.gen
            },
            final(self).source.epoch == old(self).source.epoch,
            final(self).source.hint == old(self).source.hint,
            final(self).source.filter == old(self).source.filter,
            final(self).cfg == old(self).cfg,
            final(self).ui == old(self).ui,
            final(self).selection == old(self).selection,
            final(self).device == old(self).device,
            same_view(*old(self), *final(self)),
    {
        let n: usize = model.filtered.len();
        let ghost filtered = model.filtered@;
        let ghost rows = self.selection@.rows;
        let ghost first = model.bookmarks@;
        assert(first =~= toggled_rows(first, filtered, rows, 0));
        for r in 0..n
            invariant
                n == filtered.len(),
                filtered == old(model).filtered@,
                filtered == model.filtered@,
                indicator::ascending(filtered),
                rows == old(self).selection@.rows,
                first == old(model).bookmarks@,
                model.bookmarks@ == toggled_rows(first, filtered, rows, r as int),
                only_bookmarks(*old(model), *model),
                self.source.gen == if old(self).ui.bookmarks_only {
                    bumped_by(old(self).source.gen, selected_count(rows, r as int))
                } else {
                    old(self).source.gen
                },
                self.source.epoch == old(self).source.epoch,
                self.source.hint == old(self).source.hint,
                self.source.filter == old(self).source.filter,
                self.cfg == old(self).cfg,
                self.ui == old(self).ui,
                self.selection == old(self).selection,
                self.device == old(self).device,
                same_view(*old(self), *self),
        {
            proof {
                lemma_toggled_rows(first, filtered, rows, r as int);
            }
            if self.selection.selected_rows.contains(&r) {
                let entry = model.filtered[r];
                self.toggle_bookmark(model, entry);
            }
        }
    }
}

/// One more row of those whose bookmarks are toggled.
proof fn lemma_toggled_rows(first: Set<u32>, filtered: Seq<u32>, rows: Set<usize>, r: int)
    requires
        0 <= r < filtered.len(),
        filtered.len() <= usize::MAX,
        indicator::ascending(filtered),
    ensures
        toggled_rows(first, filtered, rows, r + 1) == if rows.contains(r as usize) {
            toggled_bookmark(toggled_rows(first, filtered, rows, r), filtered[r])
        } else {
            toggled_rows(first, filtered, rows, r)
        },
{
    let entry = filtered[r];
    let before = toggled_rows(first, filtered, rows, r);
    let after = toggled_rows(first, filtered, rows, r + 1);
    assert forall|e: u32| #[trigger] is_picked(filtered, rows, r + 1, e) == (is_picked(
        filtered,
        rows,
        r,
        e,
    ) || (e == entry && rows.contains(r as usize))) by {
        if is_picked(filtered, rows, r + 1, e) {
            let k = choose|k: int|
                0 <= k < r + 1 && k < filtered.len() && rows.contains(k as usize)
                    && #[trigger] filtered[k] == e;
            if k < r {
                assert(filtered[k] == e);
            }
        }
        if is_picked(filtered, rows, r, e) {
            let k = choose|k: int|
                0 <= k < r && k < filtered.len() && rows.contains(k as usize)
                    && #[trigger] filtered[k] == e;
            assert(filtered[k] == e);
        }
        if e == entry && rows.contains(r as usize) {
            assert(filtered[r] == e);
        }
    }
    if is_picked(filtered, rows, r, entry) {
        let k = choose|k: int|
            0 <= k < r && k < filtered.len() && rows.contains(k as usize)
                && #[trigger] filtered[k] == entry;
        assert(filtered[k] < filtered[r]);
    }
    if rows.contains(r as usize) {
        assert(after =~= toggled_bookmark(before, entry));
    } else {
        assert(after =~= before);
    }
}

/// Whether a text is among others.
fn contains_text(v: &Vec<String>, s: &str) -> (r: bool)
    ensures
        r == split::texts(v@).contains(s@),
{
    let ghost all = split::texts(v@);
    let n: usize = v.len();
    for i in 0..n
        invariant
            n == v@.len(),
            all == split::texts(v@),
            forall|j: int| 0 <= j < i ==> #[trigger] all[j] != s@,
    {
        assert(all[i as int] == v@[i as int]@);
        if same_text(v[i].as_str(), s) {
            assert(all.contains(s@));
            return true;
        }
    }
    false
}

/// A counter goes on by one, and two counters that differ go on differing.
pub proof fn counters_go_on(a: u64, b: u64)
    ensures
        a < u64::MAX ==> bumped(a) == a + 1,
        bumped(a) == bumped(b) ==> a == b,
{
}

/// Toggling the bookmark of an entry changes that of no other.
pub proof fn one_bookmark_is_toggled(bookmarks: Set<u32>, entry: u32, other: u32)
    ensures
        toggled_bookmark(bookmarks, entry).contains(entry) <==> !bookmarks.contains(entry),
        other != entry ==> (toggled_bookmark(bookmarks, entry).contains(other)
            <==> bookmarks.contains(other)),
{
}

/// Toggling the bookmarks of the selected rows changes those of the entries in them, each
/// once, and of no others: not of entries in other rows, nor of hidden ones.
pub proof fn bookmarks_of_rows_are_toggled(
    bookmarks: Set<u32>,
    filtered: Seq<u32>,
    rows: Set<usize>,
    r: int,
    hidden: u32,
)
    requires
        indicator::ascending(filtered),
        filtered.len() <= usize::MAX,
        0 <= r < filtered.len(),
        !filtered.contains(hidden),
    ensures
        ({
            let after = toggled_rows(bookmarks, filtered, rows, filtered.len() as int);
            &&& rows.contains(r as usize) ==> (after.contains(filtered[r]) <==> !bookmarks.contains(
                filtered[r],
            ))
            &&& !rows.contains(r as usize) ==> (after.contains(filtered[r]) <==> bookmarks.contains(
                filtered[r],
            ))
            &&& after.contains(hidden) <==> bookmarks.contains(hidden)
        }),
{
    let n = filtered.len() as int;
    if is_picked(filtered, rows, n, filtered[r]) {
        let k = choose|k: int|
            0 <= k < n && k < filtered.len() && rows.contains(k as usize) && #[trigger] filtered[k]
                == filtered[r];
        if k < r {
            assert(filtered[k] < filtered[r]);
        } else if r < k {
            assert(filtered[r] < filtered[k]);
        }
    }
    if is_picked(filtered, rows, n, hidden) {
        let k = choose|k: int|
            0 <= k < n && k < filtered.len() && rows.contains(k as usize) && #[trigger] filtered[k]
                == hidden;
        assert(filtered.contains(hidden));
    }
}

/// The filter is applied anew exactly once for each selected row: rows that are selected
/// add up, and those that are not do not count.
pub proof fn selected_rows_add_up(rows: Set<usize>, n: int)
    requires
        0 <= n < usize::MAX,
    ensures
        selected_count(rows, 0) == 0,
        rows.contains(n as usize) ==> selected_count(rows, n + 1) == selected_count(rows, n) + 1,
        !rows.contains(n as usize) ==> selected_count(rows, n + 1) == selected_count(rows, n),
{
}

/// After the filter was taken over it is another one than before, by its number, it is
/// that of the filter bar, and no row is selected.
pub proof fn a_new_filter_is_noticed(before: App, after: App, row: usize)
    requires
        notified(before, after),
    ensures
        after.source.gen != before.source.gen,
        after.source.filter@ == after.ui.filter_view(),
        !after.selection@.rows.contains(row),
        after.selection@.anchor is None,
        after.selection@.cursor is None,
{
}

/// Nothing is left of a log that was emptied.
pub proof fn nothing_is_left(m: Model, path: Option<Seq<char>>, entry: u32, value: Seq<char>)
    requires
        is_emptied(m, path),
    ensures
        m.log().len() == 0,
        m.filtered@.len() == 0,
        !m.bookmarks@.contains(entry),
        !m.pid_counts@.contains_key(value),
        !m.tid_counts@.contains_key(value),
        !m.tag_counts@.contains_key(value),
        m.error_lines@.len() == 0,
        config::opt_text(m.file_path) == path,
{
}

/// The viewer begins with the command that was used last, if there was one, and else with
/// the first that the tool can run, or with one that always is there.
pub proof fn first_command_can_be_run(cfg: ConfigView)
    ensures
        ({
            let cmds = config::runnable(cfg.adb.commands, cfg.adb.transport);
            &&& cfg.adb.selected_cmd.len() > 0 ==> first_cmd(cfg) == cfg.adb.selected_cmd
            &&& cfg.adb.selected_cmd.len() == 0 && cmds.len() > 0 ==> first_cmd(cfg) == cmds[0]
            &&& cfg.adb.selected_cmd.len() == 0 && cmds.len() == 0 ==> first_cmd(cfg)
                == "logcat -v threadtime"@
        }),
{
}

/// What changes the bookmarks only leaves the rest of the log as it was.
pub proof fn log_stays_but_for_bookmarks(before: Model, after: Model)
    requires
        only_bookmarks(before, after),
    ensures
        after.log() == before.log(),
        after.filtered@ == before.filtered@,
        after.error_lines@ == before.error_lines@,
        after.file_path == before.file_path,
        after.pid_counts@ == before.pid_counts@,
        after.tid_counts@ == before.tid_counts@,
        after.tag_counts@ == before.tag_counts@,
        after.level_counts@ == before.level_counts@,
{
}

} // verus!
