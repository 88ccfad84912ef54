//! The state of the filter bar, the columns and the column pickers.

use crate::collections::StringSet;
use crate::config;
use crate::config::{Config, ConfigView, FiltersConfigView, ViewConfigView};
use crate::filter;
use crate::filter::{copy_set, FilterSpec, FilterView};
use crate::model::{EncodingChoice, EntryView, LevelMask, LogEntry, Model};
use crate::number;
use crate::number::decimal_text;
use crate::picker::PickerCol;
use crate::split;
use crate::split::join_texts;
use crate::text::same_text;
use std::collections::HashSet;
use vstd::prelude::*;
use vstd::std_specs::hash::*;

verus! {

broadcast use group_hash_axioms;

/// The columns of the table.
#[derive(Debug, Clone, Copy, PartialEq, Eq, Structural)]
pub enum ColKind {
    Line,
    Date,
    Time,
    Lv,
    Pid,
    Thread,
    Uid,
    Tag,
    Bookmark,
    Message,
}

/// The column at a position of the table.
pub open spec fn col_kind(i: int) -> ColKind {
    if i == 0 {
        ColKind::Line
    } else if i == 1 {
        ColKind::Date
    } else if i == 2 {
        ColKind::Time
    } else if i == 3 {
        ColKind::Lv
    } else if i == 4 {
        ColKind::Pid
    } else if i == 5 {
        ColKind::Thread
    } else if i == 6 {
        ColKind::Uid
    } else if i == 7 {
        ColKind::Tag
    } else if i == 8 {
        ColKind::Bookmark
    } else {
        ColKind::Message
    }
}

/// The columns in the order of the table.
pub fn col_kinds() -> (r: [ColKind; 10])
    ensures
        forall|i: int| 0 <= i < 10 ==> #[trigger] r@[i] == col_kind(i),
{
    [
        ColKind::Line,
        ColKind::Date,
        ColKind::Time,
        ColKind::Lv,
        ColKind::Pid,
        ColKind::Thread,
        ColKind::Uid,
        ColKind::Tag,
        ColKind::Bookmark,
        ColKind::Message,
    ]
}

/// The picker of a column, if its values can be chosen.
#[verifier::allow_in_spec]
pub fn picker_of(kind: ColKind) -> Option<PickerCol>
    returns
        (match kind {
            ColKind::Lv => Some(PickerCol::Level),
            ColKind::Pid => Some(PickerCol::Pid),
            ColKind::Thread => Some(PickerCol::Tid),
            ColKind::Tag => Some(PickerCol::Tag),
            _ => None,
        }),
{
    match kind {
        ColKind::Lv => Some(PickerCol::Level),
        ColKind::Pid => Some(PickerCol::Pid),
        ColKind::Thread => Some(PickerCol::Tid),
        ColKind::Tag => Some(PickerCol::Tag),
        _ => None,
    }
}

/// The text of an entry in a column. The bookmark column has none.
pub open spec fn cell(e: EntryView, kind: ColKind) -> Seq<char> {
    match kind {
        ColKind::Line => number::decimal(e.line_no as nat),
        ColKind::Date => e.date,
        ColKind::Time => e.time,
        ColKind::Lv => seq![e.level.as_char()],
        ColKind::Pid => e.pid,
        ColKind::Thread => e.tid,
        ColKind::Uid => e.uid,
        ColKind::Tag => e.tag,
        ColKind::Bookmark => seq![],
        ColKind::Message => e.message,
    }
}

/// The text of an entry in a column.
pub fn cell_text(e: &LogEntry, kind: ColKind) -> (r: String)
    ensures
        r@ == cell(e@, kind),
{
    match kind {
        ColKind::Line => decimal_text(e.line_no),
        ColKind::Date => e.date().to_string(),
        ColKind::Time => e.time().to_string(),
        ColKind::Lv => {
            let mut s = String::new();
            s.push(e.level.as_char());
            assert(s@ =~= seq![e.level.as_char()]);
            s
        },
        ColKind::Pid => e.pid().to_string(),
        ColKind::Thread => e.tid().to_string(),
        ColKind::Uid => e.uid().to_string(),
        ColKind::Tag => e.tag().to_string(),
        ColKind::Bookmark => String::new(),
        ColKind::Message => e.message().to_string(),
    }
}

/// The texts of the first `n` columns of an entry that are visible, except for
/// the bookmark column.
pub open spec fn row_cells(columns: Seq<bool>, e: EntryView, n: int) -> Seq<Seq<char>>
    decreases n,
{
    if n <= 0 {
        seq![]
    } else {
        let before = row_cells(columns, e, n - 1);
        if columns[n - 1] && col_kind(n - 1) != ColKind::Bookmark {
            before.push(cell(e, col_kind(n - 1)))
        } else {
            before
        }
    }
}

/// The visible columns of an entry as one line, with tabs between them.
pub open spec fn row_text(columns: Seq<bool>, e: EntryView) -> Seq<char> {
    split::join(row_cells(columns, e, 10), '\t')
}

/// Number of visible columns among the first `n`.
pub open spec fn visible_count(columns: Seq<bool>, n: int) -> nat
    decreases n,
{
    if n <= 0 {
        0
    } else {
        visible_count(columns, n - 1) + if columns[n - 1] {
            1nat
        } else {
            0nat
        }
    }
}

/// A column can be shown and hidden: the last visible one cannot be hidden.
pub open spec fn can_toggle(columns: Seq<bool>, i: int) -> bool {
    !(columns[i] && visible_count(columns, 10) == 1)
}

/// Positions of the visible columns among the first `n`.
pub open spec fn visible_positions(columns: Seq<bool>, n: int) -> Seq<usize>
    decreases n,
{
    if n <= 0 {
        seq![]
    } else {
        let before = visible_positions(columns, n - 1);
        if columns[n - 1] {
            before.push((n - 1) as usize)
        } else {
            before
        }
    }
}

/// An open column picker.
#[derive(Debug)]
pub struct PickerState {
    pub col: PickerCol,
    pub search: String,
    /// Whether it was opened by the click that is being handled, which is outside
    /// of it and must not close it.
    pub just_opened: bool,
}

/// The state of the filter bar, the columns and the column pickers.
pub struct UiState {
    pub find: String,
    pub find_on: bool,
    pub remove: String,
    pub remove_on: bool,
    pub highlight: String,
    pub highlight_on: bool,
    pub allowed_pids: Option<StringSet>,
    pub allowed_tids: Option<StringSet>,
    pub allowed_tags: Option<StringSet>,
    pub disallowed_tags: StringSet,
    pub allowed_levels: Option<LevelMask>,
    pub encoding: String,
    pub col_bookmark: bool,
    pub col_line: bool,
    pub col_date: bool,
    pub col_time: bool,
    pub col_loglv: bool,
    pub col_pid: bool,
    pub col_thread: bool,
    pub col_uid: bool,
    pub col_tag: bool,
    pub col_message: bool,
    pub goto_line: String,
    pub bookmarks_only: bool,
    pub picker: Option<PickerState>,
}

/// The part of the state that is kept from one start to the next.
#[verifier::ext_equal]
pub struct PersistedView {
    pub find: Seq<char>,
    pub find_on: bool,
    pub remove: Seq<char>,
    pub remove_on: bool,
    pub highlight: Seq<char>,
    pub highlight_on: bool,
    pub encoding: Seq<char>,
    pub columns: Seq<bool>,
}

/// The value choices of the columns.
#[verifier::ext_equal]
pub struct ChoicesView {
    pub pids: Option<Set<Seq<char>>>,
    pub tids: Option<Set<Seq<char>>>,
    pub tags: Option<Set<Seq<char>>>,
    pub no_tags: Set<Seq<char>>,
    pub levels: Option<LevelMask>,
}

/// All values of all columns.
pub open spec fn no_choices() -> ChoicesView {
    ChoicesView { pids: None, tids: None, tags: None, no_tags: Set::empty(), levels: None }
}

/// Whether a filter is on: as it was saved, or if it has a text.
pub open spec fn is_on(saved: Option<bool>, text: Seq<char>) -> bool {
    match saved {
        Some(on) => on,
        None => text.len() > 0,
    }
}

/// What the settings restore.
pub open spec fn restored(cfg: ConfigView) -> PersistedView {
    PersistedView {
        find: cfg.filters.find,
        find_on: is_on(cfg.filters.find_on, cfg.filters.find),
        remove: cfg.filters.remove,
        remove_on: is_on(cfg.filters.remove_on, cfg.filters.remove),
        highlight: cfg.filters.highlight,
        highlight_on: is_on(cfg.filters.highlight_on, cfg.filters.highlight),
        encoding: cfg.view.encoding,
        columns: cfg.view.columns_visible,
    }
}

/// The settings with the state put into them.
pub open spec fn saved(p: PersistedView, cfg: ConfigView) -> ConfigView {
    ConfigView {
        filters: FiltersConfigView {
            find: p.find,
            remove: p.remove,
            highlight: p.highlight,
            find_on: Some(p.find_on),
            remove_on: Some(p.remove_on),
            highlight_on: Some(p.highlight_on),
        },
        view: ViewConfigView { encoding: p.encoding, columns_visible: p.columns, ..cfg.view },
        ..cfg
    }
}

impl UiState {
    /// The part of the state that is kept.
    pub open spec fn persisted(&self) -> PersistedView {
        PersistedView {
            find: self.find@,
            find_on: self.find_on,
            remove: self.remove@,
            remove_on: self.remove_on,
            highlight: self.highlight@,
            highlight_on: self.highlight_on,
            encoding: self.encoding@,
            columns: self.column_flags(),
        }
    }

    /// The value choices of the columns.
    pub open spec fn choices(&self) -> ChoicesView {
        ChoicesView {
            pids: filter::set_view(self.allowed_pids),
            tids: filter::set_view(self.allowed_tids),
            tags: filter::set_view(self.allowed_tags),
            no_tags: self.disallowed_tags@,
            levels: self.allowed_levels,
        }
    }

    /// Which columns are visible, in the order of the table.
    pub open spec fn column_flags(&self) -> Seq<bool> {
        seq![
            self.col_line,
            self.col_date,
            self.col_time,
            self.col_loglv,
            self.col_pid,
            self.col_thread,
            self.col_uid,
            self.col_tag,
            self.col_bookmark,
            self.col_message,
        ]
    }

    /// The filter that the state asks for.
    pub open spec fn filter_view(&self) -> FilterView {
        FilterView {
            allowed_levels: self.choices().levels,
            allowed_pids: self.choices().pids,
            allowed_tids: self.choices().tids,
            allowed_tags: self.choices().tags,
            disallowed_tags: self.choices().no_tags,
            find: if self.find_on {
                filter::token_texts(self.find@)
            } else {
                seq![]
            },
            remove: if self.remove_on {
                filter::token_texts(self.remove@)
            } else {
                seq![]
            },
            bookmarks_only: self.bookmarks_only,
            errors_only: false,
        }
    }

    /// Which columns are visible, in the order of the table.
    pub fn columns(&self) -> (r: [bool; 10])
        ensures
            r@ == self.column_flags(),
    {
        [
            self.col_line,
            self.col_date,
            self.col_time,
            self.col_loglv,
            self.col_pid,
            self.col_thread,
            self.col_uid,
            self.col_tag,
            self.col_bookmark,
            self.col_message,
        ]
    }

    /// Number of visible columns.
    pub fn visible_column_count(&self) -> (r: usize)
        ensures
            r == visible_count(self.column_flags(), 10),
    {
        let columns = self.columns();
        let mut n: usize = 0;
        for i in 0..10usize
            invariant
                columns@ == self.column_flags(),
                n == visible_count(self.column_flags(), i as int),
                n <= i,
        {
            if columns[i] {
                n = n + 1;
            }
        }
        n
    }

    /// Whether a column can be hidden: the last visible one cannot, for the table
    /// would be empty.
    pub fn can_hide(&self) -> (r: bool)
        ensures
            r == (visible_count(self.column_flags(), 10) != 1),
    {
        self.visible_column_count() != 1
    }

    /// Whether a column can be shown and hidden: the last visible one cannot be hidden.
    pub fn can_toggle_column(&self, idx: usize) -> (r: bool)
        requires
            idx < 10,
        ensures
            r == can_toggle(self.column_flags(), idx as int),
    {
        let columns = self.columns();
        !(columns[idx] && !self.can_hide())
    }

    /// Positions of the visible columns.
    pub fn visible_columns(&self) -> (r: Vec<usize>)
        ensures
            r@ == visible_positions(self.column_flags(), 10),
    {
        let columns = self.columns();
        let mut out: Vec<usize> = Vec::new();
        for i in 0..10usize
            invariant
                columns@ == self.column_flags(),
                out@ == visible_positions(self.column_flags(), i as int),
        {
            if columns[i] {
                out.push(i);
            }
        }
        out
    }

    /// Nothing differs but the visible columns.
    pub open spec fn same_but_columns(&self, other: Self) -> bool {
        &&& self.find == other.find
        &&& self.find_on == other.find_on
        &&& self.remove == other.remove
        &&& self.remove_on == other.remove_on
        &&& self.highlight == other.highlight
        &&& self.highlight_on == other.highlight_on
        &&& self.allowed_pids == other.allowed_pids
        &&& self.allowed_tids == other.allowed_tids
        &&& self.allowed_tags == other.allowed_tags
        &&& self.disallowed_tags == other.disallowed_tags
        &&& self.allowed_levels == other.allowed_levels
        &&& self.encoding == other.encoding
        &&& self.goto_line == other.goto_line
        &&& self.bookmarks_only == other.bookmarks_only
        &&& self.picker == other.picker
    }

    /// Shows and hides columns, given in the order of the table.
    pub fn set_columns(&mut self, columns: [bool; 10])
        ensures
            final(self).column_flags() == columns@,
            final(self).same_but_columns(*old(self)),
    {
        self.col_line = columns[0];
        self.col_date = columns[1];
        self.col_time = columns[2];
        self.col_loglv = columns[3];
        self.col_pid = columns[4];
        self.col_thread = columns[5];
        self.col_uid = columns[6];
        self.col_tag = columns[7];
        self.col_bookmark = columns[8];
        self.col_message = columns[9];
        assert(self.column_flags() =~= columns@);
    }

    /// Hides the column at a position of the table.
    pub fn hide_column(&mut self, idx: usize)
        ensures
            final(self).column_flags() == if idx < 10 {
                old(self).column_flags().update(idx as int, false)
            } else {
                old(self).column_flags()
            },
            final(self).same_but_columns(*old(self)),
    {
        if idx < 10 {
            let mut columns = self.columns();
            columns[idx] = false;
            self.set_columns(columns);
        }
    }

    /// Shows all columns.
    pub fn show_all_columns(&mut self)
        ensures
            final(self).column_flags() == Seq::new(10, |i: int| true),
            final(self).same_but_columns(*old(self)),
    {
        self.set_columns([true, true, true, true, true, true, true, true, true, true]);
    }

    /// The state that the settings restore, with no values chosen.
    pub fn from_config(cfg: &Config) -> (r: Self)
        ensures
            r.persisted() == restored(cfg@),
            r.choices() == no_choices(),
            r.goto_line@ == Seq::<char>::empty(),
            !r.bookmarks_only,
            r.picker is None,
    {
        let cv = cfg.view.columns_visible;
        let r = UiState {
            find: cfg.filters.find.clone(),
            find_on: on_or(cfg.filters.find_on, &cfg.filters.find),
            remove: cfg.filters.remove.clone(),
            remove_on: on_or(cfg.filters.remove_on, &cfg.filters.remove),
            highlight: cfg.filters.highlight.clone(),
            highlight_on: on_or(cfg.filters.highlight_on, &cfg.filters.highlight),
            allowed_pids: None,
            allowed_tids: None,
            allowed_tags: None,
            disallowed_tags: StringSet::new(),
            allowed_levels: None,
            encoding: cfg.view.encoding.clone(),
            col_line: cv[0],
            col_date: cv[1],
            col_time: cv[2],
            col_loglv: cv[3],
            col_pid: cv[4],
            col_thread: cv[5],
            col_uid: cv[6],
            col_tag: cv[7],
            col_bookmark: cv[8],
            col_message: cv[9],
            goto_line: String::new(),
            bookmarks_only: false,
            picker: None,
        };
        assert(r.column_flags() =~= cfg.view.columns_visible@);
        r
    }

    /// The filter that the state asks for.
    pub fn to_filter_spec(&self) -> (r: FilterSpec)
        ensures
            r@ == self.filter_view(),
            r.allowed_levels == self.allowed_levels,
            filter::set_view(r.allowed_pids) == filter::set_view(self.allowed_pids),
            filter::set_view(r.allowed_tids) == filter::set_view(self.allowed_tids),
            filter::set_view(r.allowed_tags) == filter::set_view(self.allowed_tags),
            r.disallowed_tags@ == self.disallowed_tags@,
            r.bookmarks_only == self.bookmarks_only,
            !r.errors_only,
            self.find_on ==> split::texts(r.find@) == filter::token_texts(self.find@),
            !self.find_on ==> r.find@.len() == 0,
            self.remove_on ==> split::texts(r.remove@) == filter::token_texts(self.remove@),
            !self.remove_on ==> r.remove@.len() == 0,
    {
        let r = FilterSpec {
            allowed_levels: self.allowed_levels,
            allowed_pids: copy_set(&self.allowed_pids),
            allowed_tids: copy_set(&self.allowed_tids),
            allowed_tags: copy_set(&self.allowed_tags),
            disallowed_tags: self.disallowed_tags.clone(),
            find: if self.find_on {
                FilterSpec::tokens(self.find.as_str())
            } else {
                Vec::new()
            },
            remove: if self.remove_on {
                FilterSpec::tokens(self.remove.as_str())
            } else {
                Vec::new()
            },
            bookmarks_only: self.bookmarks_only,
            errors_only: false,
        };
        assert(r@ =~= self.filter_view());
        r
    }

    /// Puts the state into the settings.
    pub fn write_back(&self, cfg: &mut Config)
        ensures
            final(cfg)@ == saved(self.persisted(), old(cfg)@),
    {
        cfg.filters.find = self.find.clone();
        cfg.filters.remove = self.remove.clone();
        cfg.filters.highlight = self.highlight.clone();
        cfg.filters.find_on = Some(self.find_on);
        cfg.filters.remove_on = Some(self.remove_on);
        cfg.filters.highlight_on = Some(self.highlight_on);
        cfg.view.encoding = self.encoding.clone();
        cfg.view.columns_visible = self.columns();
    }

    /// Which encoding files are read with.
    pub fn encoding_choice(&self) -> (r: EncodingChoice)
        ensures
            r == if self.encoding@ == "local"@ {
                EncodingChoice::Local
            } else {
                EncodingChoice::Utf8
            },
    {
        if same_text(self.encoding.as_str(), "local") {
            EncodingChoice::Local
        } else {
            EncodingChoice::Utf8
        }
    }

    /// Forgets the value choices of the columns.
    pub fn reset_column_filters(&mut self)
        ensures
            final(self).choices() == no_choices(),
            final(self).same_but_choices(*old(self)),
    {
        self.allowed_pids = None;
        self.allowed_tids = None;
        self.allowed_tags = None;
        self.disallowed_tags.clear();
        self.allowed_levels = None;
    }

    /// Nothing differs but the value choices of the columns.
    pub open spec fn same_but_choices(&self, other: Self) -> bool {
        &&& self.persisted() == other.persisted()
        &&& self.bookmarks_only == other.bookmarks_only
        &&& self.goto_line == other.goto_line
        &&& self.picker == other.picker
    }

    /// Chooses all tags but one: it is also excluded from those that are yet to come.
    pub fn exclude_tag(&mut self, tag: &str)
        ensures
            final(self).choices() == (ChoicesView {
                no_tags: old(self).choices().no_tags.insert(tag@),
                tags: match old(self).choices().tags {
                    Some(tags) => Some(tags.remove(tag@)),
                    None => None,
                },
                ..old(self).choices()
            }),
            final(self).same_but_choices(*old(self)),
    {
        self.disallowed_tags.insert(tag.to_string());
        let tags = without_tag(&self.allowed_tags, tag);
        self.allowed_tags = tags;
    }

    /// The visible columns of an entry as one line, with tabs between them.
    pub fn visible_row_text(&self, e: &LogEntry) -> (r: String)
        ensures
            r@ == row_text(self.column_flags(), e@),
    {
        let columns = self.columns();
        let kinds = col_kinds();
        let mut fields: Vec<String> = Vec::new();
        assert(split::texts(fields@) =~= Seq::<Seq<char>>::empty());
        for i in 0..10usize
            invariant
                columns@ == self.column_flags(),
                forall|k: int| 0 <= k < 10 ==> #[trigger] kinds@[k] == col_kind(k),
                split::texts(fields@) == row_cells(self.column_flags(), e@, i as int),
        {
            let kind = kinds[i];
            assert(kinds@[i as int] == col_kind(i as int));
            let ghost before = split::texts(fields@);
            if columns[i] && kind != ColKind::Bookmark {
                let t = cell_text(e, kind);
                fields.push(t);
                assert(split::texts(fields@) =~= before.push(t@));
            }
        }
        join_texts(&fields, '\t')
    }

    /// The selected rows of the filtered log as text, one line for each.
    pub fn copy_selected_rows_text(&self, model: &Model, rows: &HashSet<usize>) -> (r: String)
        requires
            rows_ok(model),
        ensures
            r@ == split::join(
                selected_texts(model, rows@, self.column_flags(), model.filtered@.len() as int),
                '\n',
            ),
    {
        let mut texts: Vec<String> = Vec::new();
        let n: usize = model.filtered.len();
        assert(split::texts(texts@) =~= Seq::<Seq<char>>::empty());
        for r in 0..n
            invariant
                n == model.filtered@.len(),
                rows_ok(model),
                split::texts(texts@) == selected_texts(
                    model,
                    rows@,
                    self.column_flags(),
                    r as int,
                ),
        {
            let ghost before = split::texts(texts@);
            if rows.contains(&r) {
                assert(model.filtered@[r as int] < model.entries@.len());
                let t = self.visible_row_text(&model.entries[model.filtered[r] as usize]);
                texts.push(t);
                assert(split::texts(texts@) =~= before.push(t@));
            }
        }
        join_texts(&texts, '\n')
    }
}

/// A choice of tags without one of them.
fn without_tag(tags: &Option<StringSet>, tag: &str) -> (r: Option<StringSet>)
    ensures
        filter::set_view(r) == match filter::set_view(*tags) {
            Some(set) => Some(set.remove(tag@)),
            None => None,
        },
{
    match tags {
        Some(set) => {
            let mut set = set.clone();
            set.remove(tag);
            Some(set)
        },
        None => None,
    }
}

/// The rows of the table are entries of the log.
pub open spec fn rows_ok(model: &Model) -> bool {
    forall|i: int|
        0 <= i < model.filtered@.len() ==> (#[trigger] model.filtered@[i]) < model.entries@.len()
}

/// The texts of the selected rows among the first `n`.
pub open spec fn selected_texts(
    model: &Model,
    rows: Set<usize>,
    columns: Seq<bool>,
    n: int,
) -> Seq<Seq<char>>
    decreases n,
{
    if n <= 0 {
        seq![]
    } else {
        let before = selected_texts(model, rows, columns, n - 1);
        if rows.contains((n - 1) as usize) {
            before.push(row_text(columns, model.entries@[model.filtered@[n - 1] as int]@))
        } else {
            before
        }
    }
}

/// The texts of one column of the selected rows among the first `n`.
pub open spec fn selected_cells(
    model: &Model,
    rows: Set<usize>,
    kind: ColKind,
    n: int,
) -> Seq<Seq<char>>
    decreases n,
{
    if n <= 0 {
        seq![]
    } else {
        let before = selected_cells(model, rows, kind, n - 1);
        if rows.contains((n - 1) as usize) {
            before.push(cell(model.entries@[model.filtered@[n - 1] as int]@, kind))
        } else {
            before
        }
    }
}

/// One column of the selected rows as text, one line for each.
pub fn copy_selected_column_text(model: &Model, rows: &HashSet<usize>, kind: ColKind) -> (r: String)
    requires
        rows_ok(model),
    ensures
        r@ == split::join(
            selected_cells(model, rows@, kind, model.filtered@.len() as int),
            '\n',
        ),
{
    let mut texts: Vec<String> = Vec::new();
    let n: usize = model.filtered.len();
    assert(split::texts(texts@) =~= Seq::<Seq<char>>::empty());
    for r in 0..n
        invariant
            n == model.filtered@.len(),
            rows_ok(model),
            split::texts(texts@) == selected_cells(model, rows@, kind, r as int),
    {
        let ghost before = split::texts(texts@);
        if rows.contains(&r) {
            assert(model.filtered@[r as int] < model.entries@.len());
            let t = cell_text(&model.entries[model.filtered[r] as usize], kind);
            texts.push(t);
            assert(split::texts(texts@) =~= before.push(t@));
        }
    }
    join_texts(&texts, '\n')
}

/// Whether a filter is on.
fn on_or(saved: Option<bool>, text: &String) -> (r: bool)
    ensures
        r == is_on(saved, text@),
{
    match saved {
        Some(on) => on,
        None => !text.as_str().is_empty(),
    }
}

/// The lines of the filtered log as they came, in order.
pub open spec fn filtered_lines(model: &Model) -> Seq<Seq<char>> {
    model.filtered@.map_values(|ei: u32| model.entries@[ei as int]@.raw)
}

/// The lines of the filtered log as they came, to be saved.
pub fn lines_to_save(model: &Model) -> (r: Vec<String>)
    requires
        rows_ok(model),
    ensures
        split::texts(r@) == filtered_lines(model),
        r@.len() == model.filtered@.len(),
        forall|i: int|
            0 <= i < r@.len() ==> (#[trigger] r@[i])@
                == model.entries@[model.filtered@[i] as int]@.raw,
{
    let mut out: Vec<String> = Vec::new();
    let n: usize = model.filtered.len();
    for i in 0..n
        invariant
            n == model.filtered@.len(),
            rows_ok(model),
            out@.len() == i,
            forall|j: int|
                0 <= j < i ==> (#[trigger] out@[j])@
                    == model.entries@[model.filtered@[j] as int]@.raw,
    {
        assert(model.filtered@[i as int] < model.entries@.len());
        out.push(model.entries[model.filtered[i] as usize].raw().to_string());
    }
    assert(split::texts(out@) =~= filtered_lines(model));
    out
}

/// Showing and hiding columns as far as that can be done never leaves the table
/// without columns.
pub proof fn some_column_stays(columns: Seq<bool>, i: int)
    requires
        columns.len() == 10,
        0 <= i < 10,
        visible_count(columns, 10) > 0,
        can_toggle(columns, i),
    ensures
        visible_count(columns.update(i, !columns[i]), 10) > 0,
{
    lemma_toggled_count(columns, i, 10);
}

/// How showing or hiding a column changes the number of visible ones.
proof fn lemma_toggled_count(columns: Seq<bool>, i: int, n: int)
    requires
        0 <= i < columns.len(),
        0 <= n <= columns.len(),
    ensures
        visible_count(columns.update(i, !columns[i]), n) == visible_count(columns, n) + if i >= n {
            0int
        } else if columns[i] {
            -1int
        } else {
            1int
        },
    decreases n,
{
    if n > 0 {
        lemma_toggled_count(columns, i, n - 1);
    }
}

/// Highlighting does not change which entries are shown: the filter does not depend
/// on it.
pub proof fn highlighting_does_not_filter(one: UiState, other: UiState)
    requires
        one.find@ == other.find@,
        one.find_on == other.find_on,
        one.remove@ == other.remove@,
        one.remove_on == other.remove_on,
        one.choices() == other.choices(),
        one.bookmarks_only == other.bookmarks_only,
    ensures
        one.filter_view() == other.filter_view(),
{
}

/// What is saved is restored.
pub proof fn saved_state_is_restored(p: PersistedView, cfg: ConfigView)
    ensures
        restored(saved(p, cfg)) == p,
{
}

/// Saving the state leaves the other settings as they are.
pub proof fn saving_keeps_the_rest(p: PersistedView, cfg: ConfigView)
    ensures
        saved(p, cfg).colors == cfg.colors,
        saved(p, cfg).adb == cfg.adb,
        saved(p, cfg).recent == cfg.recent,
        saved(p, cfg).view.theme == cfg.view.theme,
        saved(p, cfg).view.lang == cfg.view.lang,
        saved(p, cfg).view.font == cfg.view.font,
{
}

/// A hidden column is not copied: the text of a row does not depend on it.
pub proof fn hidden_columns_are_not_copied(columns: Seq<bool>, one: EntryView, other: EntryView, n: int)
    requires
        forall|i: int|
            0 <= i < n && #[trigger] columns[i] ==> cell(one, col_kind(i)) == cell(
                other,
                col_kind(i),
            ),
    ensures
        row_cells(columns, one, n) == row_cells(columns, other, n),
    decreases n,
{
    if n > 0 {
        hidden_columns_are_not_copied(columns, one, other, n - 1);
    }
}

/// What is saved is as many lines as there are rows, and each is the line of its row as
/// it came, in the order of the rows.
pub proof fn saved_lines_are_the_rows(model: &Model)
    ensures
        filtered_lines(model).len() == model.filtered@.len(),
        forall|i: int|
            0 <= i < model.filtered@.len() ==> #[trigger] filtered_lines(model)[i]
                == model.entries@[model.filtered@[i] as int]@.raw,
{
}

/// Where nothing is hidden, the lines that were taken in are saved, in their order.
pub proof fn unfiltered_lines_are_saved(model: &Model)
    requires
        model.filtered@.len() == model.entries@.len(),
        forall|i: int| 0 <= i < model.filtered@.len() ==> #[trigger] model.filtered@[i] == i,
    ensures
        filtered_lines(model) == model.log().map_values(|e: EntryView| e.raw),
{
    assert(filtered_lines(model) =~= model.log().map_values(|e: EntryView| e.raw));
}

/// Each column shows a field of its own: a change of one field changes what one column
/// shows, and that is the field.
pub proof fn columns_show_their_fields(e: EntryView, x: Seq<char>, kind: ColKind)
    ensures
        cell(EntryView { date: x, ..e }, kind) == if kind == ColKind::Date {
            x
        } else {
            cell(e, kind)
        },
        cell(EntryView { time: x, ..e }, kind) == if kind == ColKind::Time {
            x
        } else {
            cell(e, kind)
        },
        cell(EntryView { pid: x, ..e }, kind) == if kind == ColKind::Pid {
            x
        } else {
            cell(e, kind)
        },
        cell(EntryView { tid: x, ..e }, kind) == if kind == ColKind::Thread {
            x
        } else {
            cell(e, kind)
        },
        cell(EntryView { uid: x, ..e }, kind) == if kind == ColKind::Uid {
            x
        } else {
            cell(e, kind)
        },
        cell(EntryView { tag: x, ..e }, kind) == if kind == ColKind::Tag {
            x
        } else {
            cell(e, kind)
        },
        cell(EntryView { message: x, ..e }, kind) == if kind == ColKind::Message {
            x
        } else {
            cell(e, kind)
        },
        cell(EntryView { raw: x, ..e }, kind) == cell(e, kind),
        kind == ColKind::Line ==> number::unsigned(cell(e, kind), 10, u64::MAX as nat) == Some(
            e.line_no as nat,
        ),
        kind == ColKind::Lv ==> cell(e, kind).len() == 1 && (e.level.as_char() != '?'
            ==> LevelMask::from_char(cell(e, kind)[0]) == Some(e.level)),
        kind == ColKind::Bookmark ==> cell(e, kind).len() == 0,
{
    number::decimal_and_back(e.line_no as nat);
}

/// The columns of the table are different ones, and each is shown or hidden by the switch
/// of its own name.
pub proof fn columns_have_their_switches(ui: UiState, i: int, j: int)
    requires
        0 <= i < 10,
        0 <= j < 10,
    ensures
        col_kind(i) == col_kind(j) ==> i == j,
        ui.column_flags().len() == 10,
        ui.column_flags()[i] == match col_kind(i) {
            ColKind::Line => ui.col_line,
            ColKind::Date => ui.col_date,
            ColKind::Time => ui.col_time,
            ColKind::Lv => ui.col_loglv,
            ColKind::Pid => ui.col_pid,
            ColKind::Thread => ui.col_thread,
            ColKind::Uid => ui.col_uid,
            ColKind::Tag => ui.col_tag,
            ColKind::Bookmark => ui.col_bookmark,
            ColKind::Message => ui.col_message,
        },
{
}

/// The visible columns are listed from left to right, each once and no other.
pub proof fn visible_columns_are_listed(columns: Seq<bool>, n: int, i: int)
    requires
        0 <= i < n <= columns.len() <= 10,
    ensures
        visible_positions(columns, n).contains(i as usize) <==> columns[i],
        forall|j: int, k: int|
            0 <= j < k < visible_positions(columns, n).len() ==> visible_positions(columns, n)[j]
                < visible_positions(columns, n)[k],
        forall|k: int|
            0 <= k < visible_positions(columns, n).len() ==> #[trigger] visible_positions(
                columns,
                n,
            )[k] < n,
        visible_positions(columns, n).len() == visible_count(columns, n),
    decreases n,
{
    let all = visible_positions(columns, n);
    let before = visible_positions(columns, n - 1);
    assert(visible_positions(columns, 0).len() == 0);
    assert(visible_count(columns, 0) == 0);
    if n > 1 {
        visible_columns_are_listed(columns, n - 1, if i < n - 1 {
            i
        } else {
            0
        });
    }
    if columns[n - 1] {
        assert(all[before.len() as int] == (n - 1) as usize);
        if i < n - 1 {
            if before.contains(i as usize) {
                let k = choose|k: int| 0 <= k < before.len() && before[k] == i as usize;
                assert(all[k] == i as usize);
            }
            if all.contains(i as usize) {
                let k = choose|k: int| 0 <= k < all.len() && all[k] == i as usize;
                assert(before[k] == i as usize);
            }
        }
    } else if i == n - 1 && all.contains(i as usize) {
        let k = choose|k: int| 0 <= k < all.len() && all[k] == i as usize;
        assert(before[k] < n - 1);
    }
}

/// How many of the columns before a position are copied.
pub open spec fn copied_before(columns: Seq<bool>, i: int) -> int
    decreases i,
{
    if i <= 0 {
        0
    } else if columns[i - 1] && col_kind(i - 1) != ColKind::Bookmark {
        copied_before(columns, i - 1) + 1
    } else {
        copied_before(columns, i - 1)
    }
}

/// Of a row the visible columns are copied, each in its place from left to right, and no
/// others; the bookmark column has no text.
pub proof fn visible_columns_are_copied(columns: Seq<bool>, e: EntryView, n: int, i: int)
    requires
        0 <= i < n <= columns.len(),
    ensures
        row_cells(columns, e, n).len() == copied_before(columns, n),
        0 <= copied_before(columns, i) <= copied_before(columns, n),
        columns[i] && col_kind(i) != ColKind::Bookmark ==> copied_before(columns, i)
            < copied_before(columns, n) && row_cells(columns, e, n)[copied_before(columns, i)]
            == cell(e, col_kind(i)),
    decreases n,
{
    if i < n - 1 {
        visible_columns_are_copied(columns, e, n - 1, i);
    } else {
        lemma_copied_count(columns, e, n - 1);
    }
}

proof fn lemma_copied_count(columns: Seq<bool>, e: EntryView, n: int)
    ensures
        row_cells(columns, e, n).len() == copied_before(columns, n),
        0 <= copied_before(columns, n),
    decreases n,
{
    if n > 0 {
        lemma_copied_count(columns, e, n - 1);
    }
}

/// How many of the rows before a position are selected.
pub open spec fn selected_before(rows: Set<usize>, i: int) -> int
    decreases i,
{
    if i <= 0 {
        0
    } else if rows.contains((i - 1) as usize) {
        selected_before(rows, i - 1) + 1
    } else {
        selected_before(rows, i - 1)
    }
}

/// The selected rows are copied from top to bottom, each once, as the text of their
/// visible columns or of one column, and no others.
pub proof fn selected_rows_are_copied(
    model: &Model,
    rows: Set<usize>,
    columns: Seq<bool>,
    kind: ColKind,
    n: int,
    i: int,
)
    requires
        0 <= i < n <= model.filtered@.len() <= usize::MAX,
    ensures
        selected_texts(model, rows, columns, n).len() == selected_before(rows, n),
        selected_cells(model, rows, kind, n).len() == selected_before(rows, n),
        0 <= selected_before(rows, i) <= selected_before(rows, n),
        rows.contains(i as usize) ==> {
            let e = model.entries@[model.filtered@[i] as int]@;
            let at = selected_before(rows, i);
            &&& at < selected_before(rows, n)
            &&& selected_texts(model, rows, columns, n)[at] == row_text(columns, e)
            &&& selected_cells(model, rows, kind, n)[at] == cell(e, kind)
        },
    decreases n,
{
    if i < n - 1 {
        selected_rows_are_copied(model, rows, columns, kind, n - 1, i);
    } else {
        lemma_selected_count(model, rows, columns, kind, n - 1);
    }
}

proof fn lemma_selected_count(
    model: &Model,
    rows: Set<usize>,
    columns: Seq<bool>,
    kind: ColKind,
    n: int,
)
    ensures
        selected_texts(model, rows, columns, n).len() == selected_before(rows, n),
        selected_cells(model, rows, kind, n).len() == selected_before(rows, n),
        0 <= selected_before(rows, n),
    decreases n,
{
    if n > 0 {
        lemma_selected_count(model, rows, columns, kind, n - 1);
    }
}

/// The text of a row can be cut at its tabs into the texts of the columns, if none of
/// these holds a tab.
pub proof fn copied_rows_can_be_cut(columns: Seq<bool>, e: EntryView)
    requires
        row_cells(columns, e, 10).len() > 0,
        forall|i: int|
            0 <= i < row_cells(columns, e, 10).len() ==> !(#[trigger] row_cells(
                columns,
                e,
                10,
            )[i]).contains('\t'),
    ensures
        split::fields(row_text(columns, e), '\t') == row_cells(columns, e, 10),
{
    split::joined_texts_can_be_cut_again(row_cells(columns, e, 10), '\t');
}

/// Each filter has its own place in the settings, and so have the encoding and the columns.
/// Where the settings do not say whether a filter is on, it is if it has a text.
pub proof fn settings_have_their_places(cfg: ConfigView, p: PersistedView)
    ensures
        restored(cfg).find == cfg.filters.find,
        restored(cfg).remove == cfg.filters.remove,
        restored(cfg).highlight == cfg.filters.highlight,
        restored(cfg).encoding == cfg.view.encoding,
        restored(cfg).columns == cfg.view.columns_visible,
        cfg.filters.find_on is None ==> restored(cfg).find_on == (cfg.filters.find.len() > 0),
        cfg.filters.remove_on is None ==> restored(cfg).remove_on == (cfg.filters.remove.len()
            > 0),
        cfg.filters.highlight_on is None ==> restored(cfg).highlight_on == (
        cfg.filters.highlight.len() > 0),
        cfg.filters.find_on is Some ==> restored(cfg).find_on == cfg.filters.find_on->0,
        cfg.filters.remove_on is Some ==> restored(cfg).remove_on == cfg.filters.remove_on->0,
        cfg.filters.highlight_on is Some ==> restored(cfg).highlight_on
            == cfg.filters.highlight_on->0,
        saved(p, cfg).filters.find == p.find,
        saved(p, cfg).filters.remove == p.remove,
        saved(p, cfg).filters.highlight == p.highlight,
        saved(p, cfg).filters.find_on == Some(p.find_on),
        saved(p, cfg).filters.remove_on == Some(p.remove_on),
        saved(p, cfg).filters.highlight_on == Some(p.highlight_on),
        saved(p, cfg).view.encoding == p.encoding,
        saved(p, cfg).view.columns_visible == p.columns,
{
}

/// A column can be shown or hidden, unless it is the only one that is visible.
pub proof fn only_the_last_column_stays(columns: Seq<bool>, i: int)
    requires
        columns.len() == 10,
        0 <= i < 10,
    ensures
        can_toggle(columns, i) <==> !columns[i] || exists|j: int|
            0 <= j < 10 && j != i && #[trigger] columns[j],
{
    if columns[i] {
        lemma_two_columns(columns, i, i, 10);
        assert(can_toggle(columns, i) <==> visible_count(columns, 10) > 1);
        if visible_count(columns, 10) > 1 {
            lemma_another_column(columns, i, 10);
        }
        if exists|j: int| 0 <= j < 10 && j != i && #[trigger] columns[j] {
            let j = choose|j: int| 0 <= j < 10 && j != i && #[trigger] columns[j];
            lemma_two_columns(columns, i, j, 10);
        }
    }
}

proof fn lemma_another_column(columns: Seq<bool>, i: int, n: int)
    requires
        columns.len() == 10,
        0 <= n <= 10,
        visible_count(columns, n) > if 0 <= i < n {
            1int
        } else {
            0int
        },
    ensures
        exists|j: int| 0 <= j < n && j != i && #[trigger] columns[j],
    decreases n,
{
    if n > 0 {
        if columns[n - 1] && n - 1 != i {
        } else {
            lemma_another_column(columns, i, n - 1);
            let j = choose|j: int| 0 <= j < n - 1 && j != i && #[trigger] columns[j];
            assert(columns[j]);
        }
    }
}

proof fn lemma_two_columns(columns: Seq<bool>, i: int, j: int, n: int)
    requires
        columns.len() == 10,
        0 <= n <= 10,
        0 <= i < 10,
        0 <= j < 10,
        columns[i],
        columns[j],
    ensures
        i < n ==> visible_count(columns, n) >= 1,
        j < n ==> visible_count(columns, n) >= 1,
        i != j && i < n && j < n ==> visible_count(columns, n) >= 2,
    decreases n,
{
    if n > 0 {
        lemma_two_columns(columns, i, j, n - 1);
    }
}

/// What only shows and hides columns leaves the filters and choices as they were, and what
/// only chooses values leaves the filter texts, the columns and the open picker.
pub proof fn rest_of_the_bar_stays(before: UiState, after: UiState)
    ensures
        after.same_but_columns(before) ==> {
            &&& after.find@ == before.find@ && after.find_on == before.find_on
            &&& after.remove@ == before.remove@ && after.remove_on == before.remove_on
            &&& after.highlight@ == before.highlight@ && after.highlight_on == before.highlight_on
            &&& after.choices() == before.choices()
            &&& after.filter_view() == before.filter_view()
            &&& after.encoding@ == before.encoding@
            &&& after.goto_line@ == before.goto_line@
            &&& after.picker == before.picker
        },
        after.same_but_choices(before) ==> {
            &&& after.find@ == before.find@ && after.find_on == before.find_on
            &&& after.remove@ == before.remove@ && after.remove_on == before.remove_on
            &&& after.highlight@ == before.highlight@ && after.highlight_on == before.highlight_on
            &&& after.column_flags() == before.column_flags()
            &&& after.bookmarks_only == before.bookmarks_only
            &&& after.encoding@ == before.encoding@
            &&& after.goto_line@ == before.goto_line@
            &&& after.picker == before.picker
        },
{
    if after.same_but_choices(before) {
        assert(after.persisted().find == before.persisted().find);
        assert(after.persisted().find_on == before.persisted().find_on);
        assert(after.persisted().remove == before.persisted().remove);
        assert(after.persisted().highlight == before.persisted().highlight);
        assert(after.persisted().encoding == before.persisted().encoding);
        assert(after.persisted().columns == before.persisted().columns);
    }
}

} // verus!
