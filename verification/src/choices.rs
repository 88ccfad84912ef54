//! Choosing the values of a column in its picker.

use crate::collections;
use crate::collections::StringSet;
use crate::filter;
use crate::model;
use crate::model::{EntryView, LevelMask};
use crate::picker;
use crate::picker::{all_values, letters_of, mask_of, PickerCol, PickerOption};
use crate::ui;
use crate::ui::{ChoicesView, PickerState, UiState};
use vstd::prelude::*;

verus! {

/// The values of a list of options.
pub open spec fn values_of(options: Seq<PickerOption>) -> Set<Seq<char>> {
    picker::option_values(picker::option_views(options)).to_set()
}

/// The values of a column that are chosen: all, unless some were.
pub open spec fn chosen(
    choices: ChoicesView,
    col: PickerCol,
    options: Seq<PickerOption>,
) -> Set<Seq<char>> {
    match col {
        PickerCol::Pid => match choices.pids {
            Some(set) => set,
            None => values_of(options),
        },
        PickerCol::Tid => match choices.tids {
            Some(set) => set,
            None => values_of(options),
        },
        PickerCol::Tag => match choices.tags {
            Some(set) => set,
            None => values_of(options),
        },
        PickerCol::Level => picker::mask_letters(
            match choices.levels {
                Some(mask) => mask,
                None => LevelMask::all(),
            },
            6,
        ),
    }
}

/// The choices after values of a column were chosen. A tag that is offered and not
/// chosen is excluded.
pub open spec fn with_chosen(
    choices: ChoicesView,
    col: PickerCol,
    options: Seq<PickerOption>,
    selected: Set<Seq<char>>,
) -> ChoicesView {
    match col {
        PickerCol::Pid => ChoicesView { pids: Some(selected), ..choices },
        PickerCol::Tid => ChoicesView { tids: Some(selected), ..choices },
        PickerCol::Tag => ChoicesView {
            tags: Some(selected),
            no_tags: values_of(options).difference(selected),
            ..choices
        },
        PickerCol::Level => ChoicesView {
            levels: Some(picker::letters_mask(selected, 6)),
            ..choices
        },
    }
}

/// The choices after those of a column were given up.
pub open spec fn without_chosen(choices: ChoicesView, col: PickerCol) -> ChoicesView {
    match col {
        PickerCol::Pid => ChoicesView { pids: None, ..choices },
        PickerCol::Tid => ChoicesView { tids: None, ..choices },
        PickerCol::Tag => ChoicesView { tags: None, no_tags: Set::empty(), ..choices },
        PickerCol::Level => ChoicesView { levels: None, ..choices },
    }
}

/// What is chosen is what the picker then shows as chosen.
pub proof fn choice_is_shown(
    choices: ChoicesView,
    col: PickerCol,
    options: Seq<PickerOption>,
    selected: Set<Seq<char>>,
)
    requires
        col == PickerCol::Level ==> picker::only_letters(selected),
    ensures
        chosen(with_chosen(choices, col, options, selected), col, options) == selected,
{
    if col == PickerCol::Level {
        picker::levels_and_back(selected);
    }
}

/// Where a tag is chosen alone, no entry with another tag is shown.
pub proof fn chosen_tag_stands_alone(
    state: UiState,
    tag: Seq<char>,
    e: EntryView,
    idx: u32,
    bookmarks: Set<u32>,
)
    requires
        state.choices().tags == Some(Set::<Seq<char>>::empty().insert(tag)),
        filter::passes(state.filter_view(), e, idx, bookmarks),
    ensures
        e.tag == tag,
{
}

/// An excluded tag is not shown, whatever else is chosen.
pub proof fn excluded_tag_is_hidden(
    state: UiState,
    e: EntryView,
    idx: u32,
    bookmarks: Set<u32>,
)
    requires
        state.choices().no_tags.contains(e.tag),
    ensures
        !filter::passes(state.filter_view(), e, idx, bookmarks),
{
}

/// With no choices and nothing else to filter by, every entry is shown.
pub proof fn no_choices_hide_nothing(
    state: UiState,
    e: EntryView,
    idx: u32,
    bookmarks: Set<u32>,
)
    requires
        state.choices() == ui::no_choices(),
        !state.find_on,
        !state.remove_on,
        !state.bookmarks_only,
    ensures
        filter::passes(state.filter_view(), e, idx, bookmarks),
{
}

/// Choosing what is chosen already changes nothing, for the levels.
pub proof fn same_levels_again(choices: ChoicesView, options: Seq<PickerOption>, mask: LevelMask)
    requires
        choices.levels == Some(mask),
        mask.bits <= 63,
    ensures
        with_chosen(
            choices,
            PickerCol::Level,
            options,
            chosen(choices, PickerCol::Level, options),
        ) == choices,
{
    picker::letters_and_back(mask);
}

/// A choice for one column leaves those for the others as they are.
pub proof fn columns_are_chosen_apart(
    choices: ChoicesView,
    col: PickerCol,
    options: Seq<PickerOption>,
    selected: Set<Seq<char>>,
)
    ensures
        col != PickerCol::Pid ==> with_chosen(choices, col, options, selected).pids
            == choices.pids && without_chosen(choices, col).pids == choices.pids,
        col != PickerCol::Tid ==> with_chosen(choices, col, options, selected).tids
            == choices.tids && without_chosen(choices, col).tids == choices.tids,
        col != PickerCol::Tag ==> with_chosen(choices, col, options, selected).tags
            == choices.tags && with_chosen(choices, col, options, selected).no_tags
            == choices.no_tags && without_chosen(choices, col).tags == choices.tags
            && without_chosen(choices, col).no_tags == choices.no_tags,
        col != PickerCol::Level ==> with_chosen(choices, col, options, selected).levels
            == choices.levels && without_chosen(choices, col).levels == choices.levels,
{
}

/// The chosen set, or all values.
fn set_or_all(set: &Option<StringSet>, options: &Vec<PickerOption>) -> (r: StringSet)
    ensures
        r@ == match filter::set_view(*set) {
            Some(s) => s,
            None => values_of(options@),
        },
{
    match set {
        Some(s) => s.clone(),
        None => all_values(options),
    }
}

/// The values that are offered and not chosen.
fn excluded(options: &Vec<PickerOption>, selected: &StringSet) -> (r: StringSet)
    ensures
        r@ == values_of(options@).difference(selected@),
{
    let mut out = StringSet::new();
    let ghost values = picker::option_values(picker::option_views(options@));
    let n: usize = options.len();
    assert(out@ =~= values.take(0).to_set().difference(selected@));
    for i in 0..n
        invariant
            n == options@.len(),
            values == picker::option_values(picker::option_views(options@)),
            out@ == values.take(i as int).to_set().difference(selected@),
    {
        let ghost before = values.take(i as int);
        let ghost x = options@[i as int].value@;
        proof {
            assert(values[i as int] == x);
            assert(values.take(i + 1) == before.push(x));
            collections::lemma_to_set_push(before, x);
        }
        if !selected.contains(options[i].value.as_str()) {
            out.insert(options[i].value.clone());
            assert(before.push(x).to_set().difference(selected@) =~= before.to_set().difference(
                selected@,
            ).insert(x));
        } else {
            assert(before.push(x).to_set().difference(selected@) =~= before.to_set().difference(
                selected@,
            ));
        }
    }
    assert(values.take(n as int) == values);
    out
}

/// The open picker after a frame.
fn next_picker(
    open: &Option<PickerState>,
    search: String,
    close: bool,
    clicked_outside: bool,
    escape: bool,
) -> (r: Option<PickerState>)
    ensures
        match *open {
            None => r is None,
            Some(p) => if close || escape || (clicked_outside && !p.just_opened) {
                r is None
            } else {
                r == Some(PickerState { col: p.col, search, just_opened: false })
            },
        },
{
    match open {
        None => None,
        Some(p) => if close || escape || (clicked_outside && !p.just_opened) {
            None
        } else {
            Some(PickerState { col: p.col, search, just_opened: false })
        },
    }
}

impl UiState {
    /// The values of a column that are chosen.
    pub fn chosen_values(&self, col: PickerCol, options: &Vec<PickerOption>) -> (r: StringSet)
        ensures
            r@ == chosen(self.choices(), col, options@),
    {
        match col {
            PickerCol::Pid => set_or_all(&self.allowed_pids, options),
            PickerCol::Tid => set_or_all(&self.allowed_tids, options),
            PickerCol::Tag => set_or_all(&self.allowed_tags, options),
            PickerCol::Level => match self.allowed_levels {
                Some(mask) => letters_of(mask),
                None => letters_of(LevelMask::all()),
            },
        }
    }

    /// Chooses values of a column.
    pub fn choose_values(
        &mut self,
        col: PickerCol,
        options: &Vec<PickerOption>,
        selected: StringSet,
    )
        ensures
            final(self).choices() == with_chosen(old(self).choices(), col, options@, selected@),
            final(self).same_but_choices(*old(self)),
    {
        match col {
            PickerCol::Pid => {
                self.allowed_pids = Some(selected);
            },
            PickerCol::Tid => {
                self.allowed_tids = Some(selected);
            },
            PickerCol::Tag => {
                self.disallowed_tags = excluded(options, &selected);
                self.allowed_tags = Some(selected);
            },
            PickerCol::Level => {
                self.allowed_levels = Some(mask_of(&selected));
            },
        }
    }

    /// Gives up the choice for a column.
    pub fn reset_choice(&mut self, col: PickerCol)
        ensures
            final(self).choices() == without_chosen(old(self).choices(), col),
            final(self).same_but_choices(*old(self)),
    {
        match col {
            PickerCol::Pid => {
                self.allowed_pids = None;
            },
            PickerCol::Tid => {
                self.allowed_tids = None;
            },
            PickerCol::Tag => {
                self.allowed_tags = None;
                self.disallowed_tags.clear();
            },
            PickerCol::Level => {
                self.allowed_levels = None;
            },
        }
    }

    /// Nothing differs but the open picker.
    pub open spec fn same_but_picker(&self, other: Self) -> bool {
        &&& self.persisted() == other.persisted()
        &&& self.choices() == other.choices()
        &&& self.bookmarks_only == other.bookmarks_only
        &&& self.goto_line == other.goto_line
    }

    /// Opens the picker of a column.
    pub fn open_picker(&mut self, col: PickerCol)
        ensures
            final(self).picker matches Some(p) && p.col == col && p.search@.len() == 0
                && p.just_opened,
            final(self).same_but_picker(*old(self)),
    {
        self.picker = Some(PickerState { col, search: String::new(), just_opened: true });
    }

    /// Ends a frame of the open picker: it is closed by its button, by the escape key
    /// and by a click outside of it, but not by the click that has opened it.
    pub fn end_picker_frame(
        &mut self,
        search: String,
        close: bool,
        clicked_outside: bool,
        escape: bool,
    )
        ensures
            match old(self).picker {
                None => final(self).picker is None,
                Some(p) => if close || escape || (clicked_outside && !p.just_opened) {
                    final(self).picker is None
                } else {
                    final(self).picker == Some(PickerState { col: p.col, search, just_opened: false })
                },
            },
            final(self).same_but_picker(*old(self)),
    {
        let next = next_picker(&self.picker, search, close, clicked_outside, escape);
        self.picker = next;
    }
}

/// What is chosen for a column is what its filter asks for. Of the tags, those that were
/// offered and not chosen are excluded, and no others.
pub proof fn choices_make_the_filter(
    choices: ChoicesView,
    options: Seq<PickerOption>,
    selected: Set<Seq<char>>,
    x: Seq<char>,
)
    ensures
        with_chosen(choices, PickerCol::Pid, options, selected).pids == Some(selected),
        with_chosen(choices, PickerCol::Tid, options, selected).tids == Some(selected),
        with_chosen(choices, PickerCol::Tag, options, selected).tags == Some(selected),
        with_chosen(choices, PickerCol::Tag, options, selected).no_tags.contains(x) <==> (
        !selected.contains(x) && exists|i: int|
            0 <= i < options.len() && (#[trigger] options[i]).value@ == x),
{
    let values = picker::option_values(picker::option_views(options));
    if values_of(options).contains(x) {
        let i = choose|i: int| 0 <= i < values.len() && values[i] == x;
        assert(options[i].value@ == x);
    }
    if exists|i: int| 0 <= i < options.len() && (#[trigger] options[i]).value@ == x {
        let i = choose|i: int| 0 <= i < options.len() && (#[trigger] options[i]).value@ == x;
        assert(values[i] == x);
        assert(values.contains(x));
    }
}

/// Where no values of a column were chosen, all that are offered count as chosen; giving
/// up a choice leads back to that, and excludes no tag any more.
pub proof fn without_choice_all_are_chosen(
    choices: ChoicesView,
    col: PickerCol,
    options: Seq<PickerOption>,
    x: Seq<char>,
    tag: Seq<char>,
)
    requires
        col != PickerCol::Level,
    ensures
        chosen(without_chosen(choices, col), col, options).contains(x) <==> exists|i: int|
            0 <= i < options.len() && (#[trigger] options[i]).value@ == x,
        col == PickerCol::Tag ==> !without_chosen(choices, col).no_tags.contains(tag),
        col == PickerCol::Pid ==> without_chosen(choices, col).pids is None,
        col == PickerCol::Tid ==> without_chosen(choices, col).tids is None,
        col == PickerCol::Tag ==> without_chosen(choices, col).tags is None,
{
    choices_make_the_filter(choices, options, Set::empty(), x);
    assert(values_of(options).difference(Set::empty()) =~= values_of(options));
}

/// Where no levels were chosen, or their choice was given up, all six letters count as
/// chosen, and choosing some makes a mask of the levels that have them.
pub proof fn without_choice_all_levels_are_chosen(
    choices: ChoicesView,
    options: Seq<PickerOption>,
    selected: Set<Seq<char>>,
    i: int,
)
    requires
        0 <= i < 6,
        picker::only_letters(selected),
    ensures
        without_chosen(choices, PickerCol::Level).levels is None,
        chosen(without_chosen(choices, PickerCol::Level), PickerCol::Level, options).contains(
            seq![picker::level_letter(i)],
        ),
        with_chosen(choices, PickerCol::Level, options, selected).levels matches Some(mask) && (
        mask.contains(model::level_mask_at(i)) <==> selected.contains(
            seq![picker::level_letter(i)],
        )),
{
    let given = without_chosen(choices, PickerCol::Level);
    picker::letters_name_their_levels(LevelMask::all(), i);
    assert(63u8 & 1 == 1 && 63u8 & 2 == 2 && 63u8 & 4 == 4 && 63u8 & 8 == 8 && 63u8 & 16 == 16
        && 63u8 & 32 == 32) by (bit_vector);
    picker::levels_and_back(selected);
    picker::letters_name_their_levels(picker::letters_mask(selected, 6), i);
}

/// Opening and closing a picker leaves the filter bar, the columns and the choices as they
/// were.
pub proof fn pickers_change_nothing_else(before: UiState, after: UiState)
    requires
        after.same_but_picker(before),
    ensures
        after.find@ == before.find@ && after.find_on == before.find_on,
        after.remove@ == before.remove@ && after.remove_on == before.remove_on,
        after.highlight@ == before.highlight@ && after.highlight_on == before.highlight_on,
        after.encoding@ == before.encoding@,
        after.column_flags() == before.column_flags(),
        after.choices() == before.choices(),
        after.filter_view() == before.filter_view(),
        after.goto_line@ == before.goto_line@,
{
    assert(after.persisted().find == before.persisted().find);
    assert(after.persisted().remove == before.persisted().remove);
    assert(after.persisted().highlight == before.persisted().highlight);
    assert(after.persisted().encoding == before.persisted().encoding);
    assert(after.persisted().columns == before.persisted().columns);
}

} // verus!
