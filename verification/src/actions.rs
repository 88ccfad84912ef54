//! What clicks, keys and menus do to the viewer.

use crate::app;
use crate::app::App;
use crate::caches;
use crate::caches::parse_level_colors;
use crate::choices;
use crate::collections::StringSet;
use crate::config;
use crate::config::{AdbConfigView, ColorsConfig, ColorsConfigView, ConfigView, ViewConfigView};
use crate::filter;
use crate::indicator;
use crate::indicator::{goto_entry, GotoOutcome};
use crate::lang;
use crate::lang::language_code;
use crate::model::{EntryView, Model};
use crate::picker::PickerCol;
use crate::selection;
use crate::selection::SelectionView;
use crate::shortcuts::Shortcut;
use crate::split;
use crate::split::split_lines;
use crate::status::Notice;
use crate::text::{chars_of, same_text};
use crate::ui;
use crate::ui::{copy_selected_column_text, lines_to_save, ColKind, PersistedView};
use vstd::prelude::*;
use vstd::std_specs::hash::*;

verus! {

broadcast use group_hash_axioms;

/// Nothing differs but what is selected.
pub open spec fn same_but_selection(before: App, after: App) -> bool {
    &&& after.cfg == before.cfg
    &&& after.ui == before.ui
    &&& after.source == before.source
    &&& after.device == before.device
    &&& app::same_view(before, after)
}

/// Nothing differs but how often the filter was to be applied anew.
pub open spec fn same_but_gen(before: App, after: App) -> bool {
    &&& after.cfg == before.cfg
    &&& after.ui == before.ui
    &&& after.selection == before.selection
    &&& after.source.epoch == before.source.epoch
    &&& after.source.hint == before.source.hint
    &&& after.source.filter == before.source.filter
    &&& after.device == before.device
    &&& app::same_view(before, after)
}

/// The default colors of a theme.
pub open spec fn theme_colors(theme: Seq<char>) -> ColorsConfigView {
    if theme == "dark"@ {
        config::dark_colors()
    } else {
        config::light_colors()
    }
}

/// The default colors of a theme.
fn colors_of_theme(theme: &str) -> (r: ColorsConfig)
    ensures
        r@ == theme_colors(theme@),
{
    if same_text(theme, "dark") {
        ColorsConfig::dark_defaults()
    } else {
        ColorsConfig::light_defaults()
    }
}

/// A change of the font size.
#[derive(Debug, Clone, Copy, PartialEq, Eq, Structural)]
pub enum FontChange {
    Larger,
    Smaller,
    Default,
}

/// A text for the clipboard and the number of its lines.
#[derive(Debug)]
pub struct Copied {
    pub text: String,
    pub lines: usize,
}

/// What is left to do outside after a key.
#[derive(Debug, Clone, Copy, PartialEq, Eq, Structural)]
pub enum Effect {
    Nothing,
    /// Save the filtered rows.
    Save,
    Font(FontChange),
}

/// What a click on a tag asks for.
#[derive(Debug, Clone, Copy, PartialEq, Eq, Structural)]
pub struct TagClick {
    /// Select the row.
    pub select: bool,
    /// Show this tag only.
    pub show: bool,
    /// Hide this tag.
    pub remove: bool,
}

/// What a click on a tag asks for, with the left or the right button: with the alt key
/// the left one shows this tag only and the right one hides it, and without it the left
/// one selects the row.
pub fn tag_click(alt: bool, left: bool, right: bool) -> (r: TagClick)
    ensures
        r.select == (left && !alt),
        r.show == (left && alt),
        r.remove == (right && alt),
{
    TagClick { select: left && !alt, show: left && alt, remove: right && alt }
}

impl App {
    /// Jumps to the entry at a position, counted from zero. If it is hidden by the
    /// filter, the nearest row is scrolled to; there is a message then, and if there
    /// is no such entry.
    pub fn goto_line(&mut self, model: &Model, row: usize) -> (r: Option<Notice>)
        requires
            row < usize::MAX,
            indicator::ascending(model.filtered@),
        ensures
            row >= model.entries@.len() ==> {
                &&& r == Some(
                    Notice::GotoOutOfRange {
                        line: (row + 1) as usize,
                        total: model.entries@.len() as usize,
                    },
                )
                &&& final(self).selection == old(self).selection
            },
            row < model.entries@.len() ==> forall|at: int|
                0 <= at < model.filtered@.len() && #[trigger] model.filtered@[at] == row ==> r
                    is None && final(self).selection@ == selection::single_shown(
                    old(self).selection@,
                    at as usize,
                ),
            row < model.entries@.len() && (forall|i: int|
                0 <= i < model.filtered@.len() ==> #[trigger] model.filtered@[i] != row) ==> {
                &&& r == Some(Notice::GotoFiltered { line: (row + 1) as usize })
                &&& exists|near: Option<usize>| #[trigger]
                    indicator::is_nearest(model.filtered@, row as int, near)
                        && final(self).selection@ == (SelectionView {
                        scroll: match near {
                            Some(at) => Some(at),
                            None => old(self).selection@.scroll,
                        },
                        ..old(self).selection@
                    })
            },
            same_but_selection(*old(self), *final(self)),
    {
        let total: usize = model.entries.len();
        match goto_entry(model, row) {
            GotoOutcome::OutOfRange => Some(Notice::GotoOutOfRange { line: row + 1, total }),
            GotoOutcome::Visible(at) => {
                proof {
                    assert forall|i: int|
                        0 <= i < model.filtered@.len() && #[trigger] model.filtered@[i]
                            == row implies i == at by {
                        if i < at {
                            assert(model.filtered@[i] < model.filtered@[at as int]);
                        } else if at < i {
                            assert(model.filtered@[at as int] < model.filtered@[i]);
                        }
                    }
                    assert(model.filtered@[at as int] == row);
                }
                self.selection.select_and_show(at);
                None
            },
            GotoOutcome::Hidden(near) => {
                if let Some(at) = near {
                    self.selection.pending_scroll = Some(at);
                }
                assert(indicator::is_nearest(model.filtered@, row as int, near));
                Some(Notice::GotoFiltered { line: row + 1 })
            },
        }
    }

    /// Has the table follow new lines, or not. When it is to, it goes to its end at
    /// once.
    pub fn set_auto_scroll(&mut self, on: bool, len: usize)
        ensures
            final(self).auto_scroll == on,
            final(self).selection@ == (SelectionView {
                scroll: if on && len > 0 {
                    Some((len - 1) as usize)
                } else {
                    old(self).selection@.scroll
                },
                ..old(self).selection@
            }),
            final(self).cfg == old(self).cfg,
            final(self).ui == old(self).ui,
            final(self).source == old(self).source,
            final(self).device == old(self).device,
            final(self).status == old(self).status,
            final(self).highlights == old(self).highlights,
            final(self).level_colors == old(self).level_colors,
            final(self).picker_cache == old(self).picker_cache,
            final(self).visible_table_rows == old(self).visible_table_rows,
    {
        self.auto_scroll = on;
        if on && len > 0 {
            self.selection.pending_scroll = Some(len - 1);
        }
    }

    /// A click on a row: it selects the row alone, with the control key it adds it or
    /// takes it out, and with shift it adds the rows up to it.
    pub fn click_row(&mut self, row: usize, len: usize, ctrl: bool, shift: bool) -> (r: Option<
        Notice,
    >)
        ensures
            final(self).selection@ == if ctrl {
                selection::toggled(old(self).selection@, row)
            } else if shift {
                selection::range_clicked(old(self).selection@, row, len as int)
            } else {
                selection::single(old(self).selection@, row)
            },
            r == if ctrl {
                Some(Notice::CtrlClick { count: final(self).selection@.rows.len() as usize })
            } else if shift {
                Some(Notice::ShiftClick { count: final(self).selection@.rows.len() as usize })
            } else {
                None
            },
            same_but_selection(*old(self), *final(self)),
    {
        if ctrl {
            self.selection.click_toggle(row);
            Some(Notice::CtrlClick { count: self.selection.selected_rows.len() })
        } else if shift {
            self.selection.click_range(row, len);
            Some(Notice::ShiftClick { count: self.selection.selected_rows.len() })
        } else {
            self.selection.select_only(row);
            None
        }
    }

    /// A double click on a row: it toggles the bookmark of its entry and selects it.
    pub fn double_click_row(&mut self, model: &mut Model, row: usize)
        ensures
            final(model).bookmarks@ == if row < old(model).filtered@.len() {
                app::toggled_bookmark(old(model).bookmarks@, old(model).filtered@[row as int])
            } else {
                old(model).bookmarks@
            },
            app::only_bookmarks(*old(model), *final(model)),
            final(self).source.gen == if row < old(model).filtered@.len()
                && old(self).ui.bookmarks_only {
                app::bumped(old(self).source.gen)
            } else {
                old(self).source.gen
            },
            final(self).source.epoch == old(self).source.epoch,
            final(self).source.hint == old(self).source.hint,
            final(self).source.filter == old(self).source.filter,
            final(self).selection@ == selection::single(old(self).selection@, row),
            final(self).cfg == old(self).cfg,
            final(self).ui == old(self).ui,
            final(self).device == old(self).device,
            app::same_view(*old(self), *final(self)),
    {
        if row < model.filtered.len() {
            let entry = model.filtered[row];
            self.toggle_bookmark(model, entry);
        }
        self.selection.select_only(row);
    }

    /// A click on the bar beside the table, at the height of a row.
    pub fn click_indicator(&mut self, target: usize, len: usize)
        ensures
            match selection::clamp_filtered_row(target, len) {
                Some(row) => final(self).selection@ == selection::single_shown(
                    old(self).selection@,
                    row,
                ),
                None => final(self).selection == old(self).selection,
            },
            same_but_selection(*old(self), *final(self)),
    {
        self.selection.select_filtered_row_with_len(target, len);
    }

    /// Changes the theme. Colors that are defaults of the old theme become those of
    /// the new one.
    pub fn switch_theme(&mut self, theme: &str)
        requires
            old(self).highlights.wf(),
        ensures
            final(self).cfg@ == (ConfigView {
                view: ViewConfigView { theme: theme@, ..old(self).cfg@.view },
                colors: config::migrated(
                    old(self).cfg@.colors,
                    theme_colors(old(self).cfg@.view.theme),
                    theme_colors(theme@),
                ),
                ..old(self).cfg@
            }),
            final(self).level_colors@ == caches::level_palette(final(self).cfg.colors),
            final(self).highlights.wf(),
            split::texts(final(self).highlights.palette_raw@)
                == final(self).cfg@.colors.highlights,
            final(self).highlights.highlight_raw == old(self).highlights.highlight_raw,
            final(self).highlights.find_raw == old(self).highlights.find_raw,
            final(self).ui == old(self).ui,
            final(self).selection == old(self).selection,
            final(self).source == old(self).source,
            final(self).device == old(self).device,
            final(self).status == old(self).status,
            final(self).picker_cache == old(self).picker_cache,
            final(self).auto_scroll == old(self).auto_scroll,
            final(self).visible_table_rows == old(self).visible_table_rows,
    {
        let from = colors_of_theme(self.cfg.view.theme.as_str());
        let to = colors_of_theme(theme);
        self.cfg.colors.migrate(&from, &to);
        self.level_colors = parse_level_colors(&self.cfg.colors);
        self.highlights.set_palette(&self.cfg.colors);
        self.cfg.view.theme = theme.to_string();
    }

    /// Changes the language. Returns the one to use, given the name of the system's
    /// locale, which is empty if it is not known.
    pub fn set_lang(&mut self, stored: &str, locale: &str) -> (r: &'static str)
        ensures
            r@ == lang::language(stored@, locale@),
            final(self).cfg@ == (ConfigView {
                view: ViewConfigView { lang: stored@, ..old(self).cfg@.view },
                ..old(self).cfg@
            }),
            final(self).ui == old(self).ui,
            final(self).selection == old(self).selection,
            final(self).source == old(self).source,
            final(self).device == old(self).device,
            app::same_view(*old(self), *final(self)),
    {
        self.cfg.view.lang = stored.to_string();
        language_code(stored, locale)
    }

    /// Changes the encoding that files are read with. Tells whether it is another one,
    /// in which the file that is shown is then to be read again.
    pub fn set_encoding(&mut self, value: &str) -> (r: bool)
        ensures
            r == (old(self).ui.encoding@ != value@),
            final(self).ui.persisted() == (PersistedView {
                encoding: value@,
                ..old(self).ui.persisted()
            }),
            final(self).ui.choices() == old(self).ui.choices(),
            final(self).ui.bookmarks_only == old(self).ui.bookmarks_only,
            final(self).ui.goto_line == old(self).ui.goto_line,
            final(self).ui.picker == old(self).ui.picker,
            final(self).cfg == old(self).cfg,
            final(self).selection == old(self).selection,
            final(self).source == old(self).source,
            final(self).device == old(self).device,
            app::same_view(*old(self), *final(self)),
    {
        if same_text(self.ui.encoding.as_str(), value) {
            return false;
        }
        self.ui.encoding = value.to_string();
        true
    }

    /// Puts what is kept from one start to the next into the settings.
    pub fn save_settings(&mut self)
        ensures
            final(self).cfg@ == ({
                let saved = ui::saved(old(self).ui.persisted(), old(self).cfg@);
                ConfigView {
                    adb: AdbConfigView {
                        selected_cmd: old(self).device.selected_cmd@,
                        selected_device: old(self).device.selected_device@,
                        transport: old(self).device.transport,
                        ..saved.adb
                    },
                    ..saved
                }
            }),
            final(self).ui == old(self).ui,
            final(self).selection == old(self).selection,
            final(self).source == old(self).source,
            final(self).device == old(self).device,
            app::same_view(*old(self), *final(self)),
    {
        self.ui.write_back(&mut self.cfg);
        self.cfg.adb.selected_cmd = self.device.selected_cmd.clone();
        self.cfg.adb.selected_device = self.device.selected_device.clone();
        self.cfg.adb.transport = self.device.transport;
    }

    /// Chooses values of the column whose picker is open, from those that it offers.
    pub fn apply_picker(&mut self, col: PickerCol, selected: StringSet)
        ensures
            app::notified(*old(self), *final(self)),
            final(self).source.epoch == old(self).source.epoch,
            final(self).source.hint == old(self).source.hint,
            final(self).ui.choices() == choices::with_chosen(
                old(self).ui.choices(),
                col,
                old(self).picker_cache.options@,
                selected@,
            ),
            forall|e: EntryView, i: u32, bookmarks: Set<u32>| #[trigger]
                filter::passes(final(self).source.filter@, e, i, bookmarks) ==> match col {
                    PickerCol::Pid => selected@.contains(e.pid),
                    PickerCol::Tid => selected@.contains(e.tid),
                    PickerCol::Tag => selected@.contains(e.tag),
                    PickerCol::Level => true,
                },
            final(self).ui.same_but_choices(old(self).ui),
            final(self).cfg == old(self).cfg,
            final(self).device == old(self).device,
            app::same_view(*old(self), *final(self)),
    {
        self.ui.choose_values(col, &self.picker_cache.options, selected);
        self.notify_filter();
    }

    /// Gives up the choice for the column whose picker is open.
    pub fn reset_picker(&mut self, col: PickerCol)
        ensures
            app::notified(*old(self), *final(self)),
            final(self).source.epoch == old(self).source.epoch,
            final(self).source.hint == old(self).source.hint,
            final(self).ui.choices() == choices::without_chosen(old(self).ui.choices(), col),
            forall|e: EntryView, i: u32, bookmarks: Set<u32>, other: Seq<char>| #[trigger]
                filter::passes(final(self).source.filter@, e, i, bookmarks) ==> match col {
                    PickerCol::Pid => #[trigger] filter::passes(
                        final(self).source.filter@,
                        (EntryView { pid: other, ..e }),
                        i,
                        bookmarks,
                    ),
                    PickerCol::Tid => filter::passes(
                        final(self).source.filter@,
                        (EntryView { tid: other, ..e }),
                        i,
                        bookmarks,
                    ),
                    PickerCol::Tag => filter::passes(
                        final(self).source.filter@,
                        (EntryView { tag: other, ..e }),
                        i,
                        bookmarks,
                    ),
                    PickerCol::Level => true,
                },
            final(self).ui.same_but_choices(old(self).ui),
            final(self).cfg == old(self).cfg,
            final(self).device == old(self).device,
            app::same_view(*old(self), *final(self)),
    {
        self.ui.reset_choice(col);
        self.notify_filter();
    }

    /// The selected rows as text, and how many lines it has; nothing if none is
    /// selected.
    pub fn copy_selected_row(&self, model: &Model) -> (r: Option<Copied>)
        requires
            ui::rows_ok(model),
        ensures
            match r {
                None => self.selection@.rows.len() == 0,
                Some(copied) => {
                    &&& self.selection@.rows.len() > 0
                    &&& copied.text@ == split::join(
                        ui::selected_texts(
                            model,
                            self.selection@.rows,
                            self.ui.column_flags(),
                            model.filtered@.len() as int,
                        ),
                        '\n',
                    )
                    &&& copied.lines == split::lines(copied.text@).len()
                },
            },
    {
        if self.selection.selected_rows.len() == 0 {
            return None;
        }
        let text = self.ui.copy_selected_rows_text(model, &self.selection.selected_rows);
        let lines = line_count(text.as_str());
        Some(Copied { text, lines })
    }

    /// The message of a row, or those of all selected rows if there are several.
    pub fn copy_message_text(&self, model: &Model, row: usize) -> (r: String)
        requires
            ui::rows_ok(model),
            row < model.filtered@.len(),
        ensures
            r@ == if self.selection@.rows.len() > 1 {
                split::join(
                    ui::selected_cells(
                        model,
                        self.selection@.rows,
                        ColKind::Message,
                        model.filtered@.len() as int,
                    ),
                    '\n',
                )
            } else {
                model.entries@[model.filtered@[row as int] as int]@.message
            },
    {
        if self.selection.selected_rows.len() > 1 {
            copy_selected_column_text(model, &self.selection.selected_rows, ColKind::Message)
        } else {
            assert(model.filtered@[row as int] < model.entries@.len());
            model.entries[model.filtered[row] as usize].message().to_string()
        }
    }

    /// The visible columns of a row, or those of all selected rows if there are
    /// several.
    pub fn copy_row_text(&self, model: &Model, row: usize) -> (r: String)
        requires
            ui::rows_ok(model),
            row < model.filtered@.len(),
        ensures
            r@ == if self.selection@.rows.len() > 1 {
                split::join(
                    ui::selected_texts(
                        model,
                        self.selection@.rows,
                        self.ui.column_flags(),
                        model.filtered@.len() as int,
                    ),
                    '\n',
                )
            } else {
                ui::row_text(
                    self.ui.column_flags(),
                    model.entries@[model.filtered@[row as int] as int]@,
                )
            },
    {
        if self.selection.selected_rows.len() > 1 {
            self.ui.copy_selected_rows_text(model, &self.selection.selected_rows)
        } else {
            assert(model.filtered@[row as int] < model.entries@.len());
            self.ui.visible_row_text(&model.entries[model.filtered[row] as usize])
        }
    }

    /// Does what a key asks for. Returns what is left to do outside.
    pub fn handle_shortcut(&mut self, model: &mut Model, key: Shortcut) -> (r: Effect)
        requires
            indicator::ascending(old(model).filtered@),
        ensures
            r == match key {
                Shortcut::Save => Effect::Save,
                Shortcut::LargerFont => Effect::Font(FontChange::Larger),
                Shortcut::SmallerFont => Effect::Font(FontChange::Smaller),
                Shortcut::DefaultFont => Effect::Font(FontChange::Default),
                _ => Effect::Nothing,
            },
            r != Effect::Nothing ==> *final(self) == *old(self),
            key != Shortcut::ToggleBookmark ==> *final(model) == *old(model)
                && same_but_selection(*old(self), *final(self)),
            key == Shortcut::ToggleBookmark ==> {
                &&& final(model).bookmarks@ == app::toggled_rows(
                    old(model).bookmarks@,
                    old(model).filtered@,
                    old(self).selection@.rows,
                    old(model).filtered@.len() as int,
                )
                &&& app::only_bookmarks(*old(model), *final(model))
                &&& final(self).source.gen == if old(self).ui.bookmarks_only {
                    app::bumped_by(
                        old(self).source.gen,
                        app::selected_count(
                            old(self).selection@.rows,
                            old(model).filtered@.len() as int,
                        ),
                    )
                } else {
                    old(self).source.gen
                }
                &&& same_but_gen(*old(self), *final(self))
            },
            key == Shortcut::Up || key == Shortcut::Down ==> final(self).selection@
                == selection::moved(
                old(self).selection@,
                key == Shortcut::Up,
                old(model).filtered@.len() as int,
            ),
            key == Shortcut::ExtendUp || key == Shortcut::ExtendDown ==> final(self).selection@
                == selection::extended(
                old(self).selection@,
                key == Shortcut::ExtendUp,
                old(model).filtered@.len() as int,
            ),
            key == Shortcut::PageUp || key == Shortcut::PageDown ==> final(self).selection@
                == if old(model).filtered@.len() == 0 {
                old(self).selection@
            } else {
                selection::single_shown(
                    old(self).selection@,
                    selection::paged(
                        selection::base_row(old(self).selection@),
                        old(model).filtered@.len() as usize,
                        old(self).visible_table_rows,
                        key == Shortcut::PageDown,
                    ) as usize,
                )
            },
            key == Shortcut::PreviousBookmark || key == Shortcut::NextBookmark
                ==> selection::jumped(
                old(self).selection@,
                old(model).filtered@,
                old(model).bookmarks@,
                key == Shortcut::NextBookmark,
                final(self).selection@,
            ),
    {
        let len: usize = model.filtered.len();
        match key {
            Shortcut::Save => Effect::Save,
            Shortcut::LargerFont => Effect::Font(FontChange::Larger),
            Shortcut::SmallerFont => Effect::Font(FontChange::Smaller),
            Shortcut::DefaultFont => Effect::Font(FontChange::Default),
            Shortcut::ToggleBookmark => {
                self.toggle_selected_bookmark(model);
                Effect::Nothing
            },
            Shortcut::PreviousBookmark => {
                self.selection.jump_bookmark(model, false);
                Effect::Nothing
            },
            Shortcut::NextBookmark => {
                self.selection.jump_bookmark(model, true);
                Effect::Nothing
            },
            Shortcut::PageUp => {
                self.selection.page_selected_row(false, len, self.visible_table_rows);
                Effect::Nothing
            },
            Shortcut::PageDown => {
                self.selection.page_selected_row(true, len, self.visible_table_rows);
                Effect::Nothing
            },
            Shortcut::ExtendUp => {
                self.selection.extend_selection(-1, len);
                Effect::Nothing
            },
            Shortcut::Up => {
                self.selection.move_selected_row(-1, len);
                Effect::Nothing
            },
            Shortcut::ExtendDown => {
                self.selection.extend_selection(1, len);
                Effect::Nothing
            },
            Shortcut::Down => {
                self.selection.move_selected_row(1, len);
                Effect::Nothing
            },
        }
    }
}

/// Number of lines of a text.
pub fn line_count(text: &str) -> (n: usize)
    ensures
        n == split::lines(text@).len(),
{
    let lines = split_lines(chars_of(text).as_slice());
    assert(split::texts(lines@).len() == lines@.len());
    lines.len()
}

/// The lines to be saved: those of the filtered rows as they came. If the log holds
/// nothing, there is a message in their place.
pub fn save_filtered(model: &Model) -> (r: Result<Vec<String>, Notice>)
    requires
        ui::rows_ok(model),
    ensures
        match r {
            Ok(rows) => (model.filtered@.len() > 0 || model.entries@.len() > 0) && split::texts(
                rows@,
            ) == ui::filtered_lines(model) && rows@.len() == model.filtered@.len() && (forall|
                i: int,
            |
                0 <= i < rows@.len() ==> (#[trigger] rows@[i])@
                    == model.entries@[model.filtered@[i] as int]@.raw),
            Err(notice) => model.filtered@.len() == 0 && model.entries@.len() == 0 && notice
                == Notice::NothingToSave,
        },
{
    if model.filtered.len() == 0 && model.entries.len() == 0 {
        Err(Notice::NothingToSave)
    } else {
        Ok(lines_to_save(model))
    }
}

/// Every theme but the dark one has the light colors.
pub proof fn only_dark_is_dark(theme: Seq<char>)
    ensures
        theme == "dark"@ ==> theme_colors(theme) == config::dark_colors(),
        theme != "dark"@ ==> theme_colors(theme) == config::light_colors(),
{
}

/// What only selects rows leaves all else as it was, and so does what only has the filter
/// applied anew.
pub proof fn all_else_stays(before: App, after: App)
    ensures
        same_but_selection(before, after) || same_but_gen(before, after) ==> {
            &&& after.cfg == before.cfg
            &&& after.ui == before.ui
            &&& after.device == before.device
            &&& after.status == before.status
            &&& after.highlights == before.highlights
            &&& after.level_colors == before.level_colors
            &&& after.picker_cache == before.picker_cache
            &&& after.auto_scroll == before.auto_scroll
            &&& after.visible_table_rows == before.visible_table_rows
            &&& after.source.epoch == before.source.epoch
            &&& after.source.hint == before.source.hint
            &&& after.source.filter == before.source.filter
        },
        same_but_selection(before, after) ==> after.source.gen == before.source.gen,
        same_but_gen(before, after) ==> after.selection == before.selection,
{
}

} // verus!
