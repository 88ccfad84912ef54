//! Values that are kept from frame to frame and computed anew when what they were
//! computed from has changed.

use crate::color;
use crate::color::{parse_color, Rgb};
use crate::config::ColorsConfig;
use crate::filter;
use crate::filter::FilterSpec;
use crate::model::{level_index, LevelMask, Model};
use crate::picker;
use crate::picker::{build_sorted_options, PickerCol, PickerOption};
use crate::split;
use crate::split::{copy_texts, same_texts};
use crate::text::same_text;
use crate::ui::UiState;
use vstd::prelude::*;

verus! {

/// The colors that texts stand for.
pub open spec fn palette_of(texts: Seq<Seq<char>>) -> Seq<Rgb> {
    texts.map_values(|s: Seq<char>| color::color_of(color::color_number(s)))
}

/// The colors that texts stand for.
pub fn parse_palette(texts: &Vec<String>) -> (r: Vec<Rgb>)
    ensures
        r@ == palette_of(split::texts(texts@)),
{
    let mut out: Vec<Rgb> = Vec::new();
    let n: usize = texts.len();
    for i in 0..n
        invariant
            n == texts@.len(),
            out@.len() == i,
            forall|j: int|
                0 <= j < i ==> #[trigger] out@[j] == color::color_of(
                    color::color_number(texts@[j]@),
                ),
    {
        out.push(parse_color(texts[i].as_str()));
    }
    assert(out@ =~= palette_of(split::texts(texts@)));
    out
}

/// The text of a filter that is switched on, and nothing otherwise.
pub open spec fn active_text(on: bool, text: Seq<char>) -> Seq<char> {
    if on {
        text
    } else {
        seq![]
    }
}

/// The text of a filter that is switched on, and nothing otherwise.
fn active(on: bool, text: &String) -> (r: String)
    ensures
        r@ == active_text(on, text@),
{
    if on {
        text.clone()
    } else {
        String::new()
    }
}

/// The terms of an active text.
pub open spec fn active_terms(raw: Seq<char>) -> Seq<Seq<char>> {
    if raw.len() == 0 {
        seq![]
    } else {
        filter::token_texts(raw)
    }
}

/// The terms of an active text.
fn terms_of(raw: &String) -> (r: Vec<String>)
    ensures
        split::texts(r@) == active_terms(raw@),
{
    if raw.as_str().is_empty() {
        let r: Vec<String> = Vec::new();
        assert(split::texts(r@) =~= Seq::<Seq<char>>::empty());
        r
    } else {
        FilterSpec::tokens(raw.as_str())
    }
}

/// What the cells are highlighted with.
pub struct HighlightCache {
    /// The colors of highlighted terms.
    pub palette: Vec<Rgb>,
    /// The texts of the colors.
    pub palette_raw: Vec<String>,
    pub highlight_tokens: Vec<String>,
    pub find_tokens: Vec<String>,
    /// The texts of the terms.
    pub highlight_raw: String,
    pub find_raw: String,
}

impl HighlightCache {
    /// The values are those of the texts that they are kept with.
    pub open spec fn wf(&self) -> bool {
        &&& self.palette@ == palette_of(split::texts(self.palette_raw@))
        &&& split::texts(self.highlight_tokens@) == active_terms(self.highlight_raw@)
        &&& split::texts(self.find_tokens@) == active_terms(self.find_raw@)
    }

    /// The values are those of the settings and the filter bar.
    pub open spec fn is_current(&self, colors: &ColorsConfig, ui: &UiState) -> bool {
        &&& self.wf()
        &&& split::texts(self.palette_raw@) == split::texts(colors.highlights@)
        &&& self.highlight_raw@ == active_text(ui.highlight_on, ui.highlight@)
        &&& self.find_raw@ == active_text(ui.find_on, ui.find@)
    }

    /// The values of the settings and the filter bar.
    pub fn new(colors: &ColorsConfig, ui: &UiState) -> (r: Self)
        ensures
            r.is_current(colors, ui),
    {
        let highlight_raw = active(ui.highlight_on, &ui.highlight);
        let find_raw = active(ui.find_on, &ui.find);
        HighlightCache {
            palette: parse_palette(&colors.highlights),
            palette_raw: copy_texts(&colors.highlights),
            highlight_tokens: terms_of(&highlight_raw),
            find_tokens: terms_of(&find_raw),
            highlight_raw,
            find_raw,
        }
    }

    /// Takes over the colors of the settings.
    pub fn set_palette(&mut self, colors: &ColorsConfig)
        requires
            old(self).wf(),
        ensures
            final(self).wf(),
            split::texts(final(self).palette_raw@) == split::texts(colors.highlights@),
            final(self).highlight_raw == old(self).highlight_raw,
            final(self).find_raw == old(self).find_raw,
    {
        self.palette = parse_palette(&colors.highlights);
        self.palette_raw = copy_texts(&colors.highlights);
    }

    /// Computes anew what is not current. A color that has changed counts, though
    /// the number of colors has not.
    pub fn refresh_highlight_caches(&mut self, colors: &ColorsConfig, ui: &UiState)
        requires
            old(self).wf(),
        ensures
            final(self).is_current(colors, ui),
    {
        if !same_texts(&self.palette_raw, &colors.highlights) {
            self.set_palette(colors);
        }
        let highlight_raw = active(ui.highlight_on, &ui.highlight);
        if !same_text(self.highlight_raw.as_str(), highlight_raw.as_str()) {
            self.highlight_tokens = terms_of(&highlight_raw);
            self.highlight_raw = highlight_raw;
        }
        let find_raw = active(ui.find_on, &ui.find);
        if !same_text(self.find_raw.as_str(), find_raw.as_str()) {
            self.find_tokens = terms_of(&find_raw);
            self.find_raw = find_raw;
        }
    }

    /// Whether there is anything to highlight.
    pub fn highlights_anything(&self) -> (r: bool)
        ensures
            r == (self.highlight_tokens@.len() > 0 || self.find_tokens@.len() > 0),
    {
        self.highlight_tokens.len() > 0 || self.find_tokens.len() > 0
    }
}

/// What is kept depends on the settings and the filter bar alone, not on what was
/// kept before.
pub proof fn current_is_determined(
    one: HighlightCache,
    other: HighlightCache,
    colors: ColorsConfig,
    ui: UiState,
)
    requires
        one.is_current(&colors, &ui),
        other.is_current(&colors, &ui),
    ensures
        one.palette@ == other.palette@,
        split::texts(one.highlight_tokens@) == split::texts(other.highlight_tokens@),
        split::texts(one.find_tokens@) == split::texts(other.find_tokens@),
{
}

/// The colors of the levels, from verbose to fatal.
pub open spec fn level_palette(colors: ColorsConfig) -> Seq<Rgb> {
    palette_of(
        seq![
            colors.level_v@,
            colors.level_d@,
            colors.level_i@,
            colors.level_w@,
            colors.level_e@,
            colors.level_f@,
        ],
    )
}

/// The colors of the levels, from verbose to fatal.
pub fn parse_level_colors(colors: &ColorsConfig) -> (r: [Rgb; 6])
    ensures
        r@ == level_palette(*colors),
{
    let r = [
        parse_color(colors.level_v.as_str()),
        parse_color(colors.level_d.as_str()),
        parse_color(colors.level_i.as_str()),
        parse_color(colors.level_w.as_str()),
        parse_color(colors.level_e.as_str()),
        parse_color(colors.level_f.as_str()),
    ];
    assert(r@ =~= level_palette(*colors));
    r
}

/// The color of a level; that of verbose if it is not one level.
pub fn level_color(level: LevelMask, colors: &[Rgb; 6]) -> (r: Rgb)
    ensures
        r == match level_index(level) {
            Some(i) => colors@[i as int],
            None => colors@[0],
        },
{
    match level_index(level) {
        Some(i) => colors[i],
        None => colors[0],
    }
}

/// The options of the open picker.
pub struct PickerCache {
    pub col: Option<PickerCol>,
    pub options: Vec<PickerOption>,
    /// Number of entries of the log when the options were computed.
    pub entries_len: usize,
}

impl PickerCache {
    /// No options.
    pub fn new() -> (r: Self)
        ensures
            r.col is None,
            r.options@.len() == 0,
            r.entries_len == 0,
    {
        PickerCache { col: None, options: Vec::new(), entries_len: 0 }
    }

    /// The options were computed for the column when the log had as many entries.
    pub open spec fn is_for(&self, col: PickerCol, entries_len: nat) -> bool {
        self.col == Some(col) && self.entries_len == entries_len
    }

    /// Computes the options of a column, unless they were computed for it when the
    /// log had as many entries.
    pub fn refresh(&mut self, model: &Model, col: PickerCol)
        ensures
            final(self).is_for(col, model.entries@.len()),
            old(self).is_for(col, model.entries@.len()) ==> *final(self) == *old(self),
            !old(self).is_for(col, model.entries@.len()) ==> picker::options_of(
                *model,
                col,
                picker::option_views(final(self).options@),
            ),
    {
        let same = match self.col {
            Some(c) => c == col,
            None => false,
        };
        if !same || self.entries_len != model.entries.len() {
            self.options = build_sorted_options(model, col);
            self.col = Some(col);
            self.entries_len = model.entries.len();
        }
    }
}

/// Each text of a color gives one color, in its place.
pub proof fn every_color_is_read(texts: Seq<Seq<char>>, i: int)
    requires
        0 <= i < texts.len(),
    ensures
        palette_of(texts).len() == texts.len(),
        palette_of(texts)[i] == color::color_of(color::color_number(texts[i])),
{
}

/// Each level has its own color, from verbose to fatal.
pub proof fn levels_have_their_colors(colors: ColorsConfig)
    ensures
        level_palette(colors).len() == 6,
        level_palette(colors)[0] == color::color_of(color::color_number(colors.level_v@)),
        level_palette(colors)[1] == color::color_of(color::color_number(colors.level_d@)),
        level_palette(colors)[2] == color::color_of(color::color_number(colors.level_i@)),
        level_palette(colors)[3] == color::color_of(color::color_number(colors.level_w@)),
        level_palette(colors)[4] == color::color_of(color::color_number(colors.level_e@)),
        level_palette(colors)[5] == color::color_of(color::color_number(colors.level_f@)),
{
}

/// What is kept for highlighting are the terms of the texts that are switched on, and none
/// of those that are not, and the colors of the settings.
pub proof fn switched_on_texts_are_kept(cache: HighlightCache, colors: ColorsConfig, ui: UiState)
    requires
        cache.is_current(&colors, &ui),
    ensures
        !ui.highlight_on ==> cache.highlight_tokens@.len() == 0,
        !ui.find_on ==> cache.find_tokens@.len() == 0,
        ui.highlight_on && ui.highlight@.len() > 0 ==> split::texts(cache.highlight_tokens@)
            == filter::token_texts(ui.highlight@),
        ui.find_on && ui.find@.len() > 0 ==> split::texts(cache.find_tokens@)
            == filter::token_texts(ui.find@),
        cache.palette@.len() == colors.highlights@.len(),
        forall|i: int|
            0 <= i < cache.palette@.len() ==> #[trigger] cache.palette@[i] == color::color_of(
                color::color_number(colors.highlights@[i]@),
            ),
{
    assert(split::texts(cache.highlight_tokens@).len() == cache.highlight_tokens@.len());
    assert(split::texts(cache.find_tokens@).len() == cache.find_tokens@.len());
    let texts = split::texts(colors.highlights@);
    assert(texts.len() == colors.highlights@.len());
    assert forall|i: int| 0 <= i < cache.palette@.len() implies #[trigger] cache.palette@[i]
        == color::color_of(color::color_number(colors.highlights@[i]@)) by {
        assert(texts[i] == colors.highlights@[i]@);
    }
}

/// The options that were computed for a column are kept only for that column, and only
/// while the log has as many entries.
pub proof fn options_are_kept_for_one_column(
    cache: PickerCache,
    col: PickerCol,
    other: PickerCol,
    len: nat,
    more: nat,
)
    requires
        cache.is_for(col, len),
    ensures
        cache.col == Some(col),
        cache.entries_len == len,
        other != col ==> !cache.is_for(other, more),
        more != len ==> !cache.is_for(other, more),
{
}

} // verus!
