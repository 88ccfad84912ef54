//! The keyboard: which key does what, and the list of keys that an empty table
//! shows.

use vstd::prelude::*;

verus! {

/// A key or key combination.
#[derive(Debug, Clone, Copy, PartialEq, Eq, Structural)]
pub enum Shortcut {
    /// Command and `S`.
    Save,
    /// Command and `=`.
    LargerFont,
    /// Command and `-`.
    SmallerFont,
    /// Command and `0`.
    DefaultFont,
    /// Command and F2.
    ToggleBookmark,
    /// F2.
    PreviousBookmark,
    /// F3.
    NextBookmark,
    /// Page up.
    PageUp,
    /// Page down.
    PageDown,
    /// Shift and arrow up.
    ExtendUp,
    /// Arrow up.
    Up,
    /// Shift and arrow down.
    ExtendDown,
    /// Arrow down.
    Down,
}

/// The keys in the order in which they are looked for.
pub open spec fn key_order() -> Seq<Shortcut> {
    seq![
        Shortcut::Save,
        Shortcut::LargerFont,
        Shortcut::SmallerFont,
        Shortcut::DefaultFont,
        Shortcut::ToggleBookmark,
        Shortcut::PreviousBookmark,
        Shortcut::NextBookmark,
        Shortcut::PageUp,
        Shortcut::PageDown,
        Shortcut::ExtendUp,
        Shortcut::Up,
        Shortcut::ExtendDown,
        Shortcut::Down,
    ]
}

/// The keys in the order in which they are looked for; the first one that is
/// pressed counts.
pub fn shortcuts() -> (r: [Shortcut; 13])
    ensures
        r@ == key_order(),
{
    let r = [
        Shortcut::Save,
        Shortcut::LargerFont,
        Shortcut::SmallerFont,
        Shortcut::DefaultFont,
        Shortcut::ToggleBookmark,
        Shortcut::PreviousBookmark,
        Shortcut::NextBookmark,
        Shortcut::PageUp,
        Shortcut::PageDown,
        Shortcut::ExtendUp,
        Shortcut::Up,
        Shortcut::ExtendDown,
        Shortcut::Down,
    ];
    assert(r@ =~= key_order());
    r
}

/// What the keyboard is for in a frame.
#[derive(Debug, Clone, Copy, PartialEq, Eq, Structural)]
pub enum Keyboard {
    /// A text field has it.
    Field,
    /// The selected rows are to be copied.
    Copy,
    /// There was a wish to copy, but nothing is selected.
    Nothing,
    /// It moves about in the table.
    Table,
}

/// What the keyboard is for: a text field keeps it, and a wish to copy goes before
/// all keys.
pub fn keyboard_use(field_focused: bool, copy_wished: bool, rows_selected: bool) -> (r: Keyboard)
    ensures
        r == if field_focused {
            Keyboard::Field
        } else if copy_wished {
            if rows_selected {
                Keyboard::Copy
            } else {
                Keyboard::Nothing
            }
        } else {
            Keyboard::Table
        },
{
    if field_focused {
        Keyboard::Field
    } else if copy_wished {
        if rows_selected {
            Keyboard::Copy
        } else {
            Keyboard::Nothing
        }
    } else {
        Keyboard::Table
    }
}

/// Number of empty rows above the list of keys.
pub const EMPTY_SHORTCUT_TOP_PADDING_ROWS: usize = 3;

/// The translated names of the list of keys.
#[derive(Debug)]
pub struct ShortcutLabels {
    pub file: String,
    pub bookmarks: String,
    pub line: String,
    pub font: String,
    pub save: String,
    pub toggle_bookmark: String,
    pub prev_bookmark: String,
    pub next_bookmark: String,
    pub copy_selected: String,
    pub page_up_down: String,
    pub double_click_keys: String,
    pub double_click: String,
    pub alt_click_keys: String,
    pub alt_click: String,
    pub font_size: String,
    pub reset_font: String,
}

/// A row of the list of keys: what it is about, and the key and what it does.
#[derive(Debug)]
pub struct EmptyShortcutRow {
    pub tag: String,
    pub message: String,
}

/// A row of the list of keys.
#[verifier::ext_equal]
pub struct ShortcutRowView {
    pub tag: Seq<char>,
    pub message: Seq<char>,
}

impl View for EmptyShortcutRow {
    type V = ShortcutRowView;

    open spec fn view(&self) -> ShortcutRowView {
        ShortcutRowView { tag: self.tag@, message: self.message@ }
    }
}

/// The key and what it does.
pub open spec fn explained(keys: Seq<char>, what: Seq<char>) -> Seq<char> {
    keys + " - "@ + what
}

/// The rows of the list of keys.
pub open spec fn shortcut_rows(l: ShortcutLabels) -> Seq<ShortcutRowView> {
    seq![
        ShortcutRowView { tag: l.file@, message: explained("Ctrl/Cmd+S"@, l.save@) },
        ShortcutRowView {
            tag: l.bookmarks@,
            message: explained("Ctrl/Cmd+F2"@, l.toggle_bookmark@),
        },
        ShortcutRowView { tag: l.bookmarks@, message: explained("F2"@, l.prev_bookmark@) },
        ShortcutRowView { tag: l.bookmarks@, message: explained("F3"@, l.next_bookmark@) },
        ShortcutRowView { tag: l.line@, message: explained("Ctrl/Cmd+C"@, l.copy_selected@) },
        ShortcutRowView {
            tag: l.line@,
            message: explained("PageUp / PageDown"@, l.page_up_down@),
        },
        ShortcutRowView {
            tag: l.line@,
            message: explained(l.double_click_keys@, l.double_click@),
        },
        ShortcutRowView { tag: l.line@, message: explained(l.alt_click_keys@, l.alt_click@) },
        ShortcutRowView {
            tag: l.font@,
            message: explained("Ctrl/Cmd+Plus / Ctrl/Cmd+Minus"@, l.font_size@),
        },
        ShortcutRowView { tag: l.font@, message: explained("Ctrl/Cmd+0"@, l.reset_font@) },
    ]
}

/// A row of the list of keys.
fn shortcut_row(tag: &String, keys: &str, what: &String) -> (r: EmptyShortcutRow)
    ensures
        r@ == (ShortcutRowView { tag: tag@, message: explained(keys@, what@) }),
{
    let mut message = keys.to_string();
    message.append(" - ");
    message.append(what.as_str());
    EmptyShortcutRow { tag: tag.clone(), message }
}

/// The rows of the list of keys that an empty table shows.
pub fn empty_shortcut_rows(l: &ShortcutLabels) -> (r: Vec<EmptyShortcutRow>)
    ensures
        r@.map_values(|row: EmptyShortcutRow| row@) == shortcut_rows(*l),
{
    let mut out: Vec<EmptyShortcutRow> = Vec::new();
    out.push(shortcut_row(&l.file, "Ctrl/Cmd+S", &l.save));
    out.push(shortcut_row(&l.bookmarks, "Ctrl/Cmd+F2", &l.toggle_bookmark));
    out.push(shortcut_row(&l.bookmarks, "F2", &l.prev_bookmark));
    out.push(shortcut_row(&l.bookmarks, "F3", &l.next_bookmark));
    out.push(shortcut_row(&l.line, "Ctrl/Cmd+C", &l.copy_selected));
    out.push(shortcut_row(&l.line, "PageUp / PageDown", &l.page_up_down));
    out.push(shortcut_row(&l.line, l.double_click_keys.as_str(), &l.double_click));
    out.push(shortcut_row(&l.line, l.alt_click_keys.as_str(), &l.alt_click));
    out.push(shortcut_row(&l.font, "Ctrl/Cmd+Plus / Ctrl/Cmd+Minus", &l.font_size));
    out.push(shortcut_row(&l.font, "Ctrl/Cmd+0", &l.reset_font));
    assert(out@.map_values(|row: EmptyShortcutRow| row@) =~= shortcut_rows(*l));
    out
}

/// A key is looked for together with another one before it is looked for alone, so that
/// the combination is not taken for the key; and each is looked for once.
pub proof fn combinations_come_first(i: int, j: int)
    requires
        0 <= i < key_order().len(),
        0 <= j < key_order().len(),
    ensures
        i != j ==> key_order()[i] != key_order()[j],
        key_order()[i] == Shortcut::ToggleBookmark && key_order()[j] == Shortcut::PreviousBookmark
            ==> i < j,
        key_order()[i] == Shortcut::ExtendUp && key_order()[j] == Shortcut::Up ==> i < j,
        key_order()[i] == Shortcut::ExtendDown && key_order()[j] == Shortcut::Down ==> i < j,
{
}

/// A row of the list of keys says the key first and then what it does.
pub proof fn rows_say_key_and_use(keys: Seq<char>, what: Seq<char>)
    ensures
        explained(keys, what).take(keys.len() as int) == keys,
        explained(keys, what).skip(keys.len() + 3 as int) == what,
        explained(keys, what).subrange(keys.len() as int, keys.len() + 3 as int) == " - "@,
{
    reveal_strlit(" - ");
    assert(explained(keys, what).take(keys.len() as int) =~= keys);
    assert(explained(keys, what).skip(keys.len() + 3 as int) =~= what);
    assert(explained(keys, what).subrange(keys.len() as int, keys.len() + 3 as int) =~= " - "@);
}

} // verus!
