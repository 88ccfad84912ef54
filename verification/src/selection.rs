//! The selected rows of the table.
//!
//! Rows are positions in the filtered log. A selection has a fixed end, its
//! anchor, and a moving end, its cursor.

use crate::model::Model;
use std::collections::HashSet;
use vstd::prelude::*;
use vstd::std_specs::hash::*;

verus! {

broadcast use group_hash_axioms;

/// A row, or the last one if it is behind it; none if there are no rows.
#[verifier::allow_in_spec]
pub fn clamp_filtered_row(row: usize, len: usize) -> Option<usize>
    returns
        (if len == 0 {
            None
        } else if row < len {
            Some(row)
        } else {
            Some((len - 1) as usize)
        }),
{
    if len == 0 {
        None
    } else if row < len {
        Some(row)
    } else {
        Some(len - 1)
    }
}

/// The row at most `last` that is nearest to `row`.
pub open spec fn at_most(row: int, last: int) -> int {
    if row < last {
        row
    } else {
        last
    }
}

/// The row one page away, at the ends of the table if there is no such row. A
/// page has at least one row.
pub open spec fn paged(selected: Option<usize>, len: usize, visible_rows: usize, forward: bool) -> int {
    let from = match selected {
        Some(row) => row as int,
        None => 0,
    };
    let current = at_most(from, len - 1);
    let page = if visible_rows == 0 {
        1
    } else {
        visible_rows as int
    };
    if forward {
        at_most(current + page, len - 1)
    } else if current < page {
        0
    } else {
        current - page
    }
}

/// The row one page away; none if there are no rows.
pub fn page_row(
    selected: Option<usize>,
    len: usize,
    visible_rows: usize,
    forward: bool,
) -> (r: Option<usize>)
    ensures
        match r {
            Some(row) => len > 0 && row == paged(selected, len, visible_rows, forward) && row < len,
            None => len == 0,
        },
{
    if len == 0 {
        return None;
    }
    let from: usize = match selected {
        Some(row) => row,
        None => 0,
    };
    let current: usize = if from < len - 1 {
        from
    } else {
        len - 1
    };
    let page: usize = if visible_rows == 0 {
        1
    } else {
        visible_rows
    };
    if forward {
        if page >= len - 1 - current {
            Some(len - 1)
        } else {
            Some(current + page)
        }
    } else if current < page {
        Some(0)
    } else {
        Some(current - page)
    }
}

/// The selected rows, the ends of the selection, and the row to scroll to.
#[verifier::ext_equal]
pub struct SelectionView {
    pub rows: Set<usize>,
    pub anchor: Option<usize>,
    pub cursor: Option<usize>,
    pub scroll: Option<usize>,
}

/// The rows from `lo` to `hi`.
pub open spec fn row_range(lo: int, hi: int) -> Set<usize> {
    Set::new(|i: usize| lo <= i <= hi)
}

/// The rows between two rows.
pub open spec fn rows_between(a: int, b: int) -> Set<usize> {
    if b < a {
        row_range(b, a)
    } else {
        row_range(a, b)
    }
}

/// Nothing selected; a pending scroll stays.
pub open spec fn cleared(s: SelectionView) -> SelectionView {
    SelectionView { rows: Set::empty(), anchor: None, cursor: None, scroll: s.scroll }
}

/// One row selected.
pub open spec fn single(s: SelectionView, row: usize) -> SelectionView {
    SelectionView {
        rows: Set::empty().insert(row),
        anchor: Some(row),
        cursor: Some(row),
        scroll: s.scroll,
    }
}

/// One row selected and scrolled to.
pub open spec fn single_shown(s: SelectionView, row: usize) -> SelectionView {
    SelectionView { scroll: Some(row), ..single(s, row) }
}

/// The neighbour of a row; the row itself at the end of the table.
pub open spec fn neighbour(row: int, up: bool, len: int) -> int {
    if up {
        if row > 0 {
            row - 1
        } else {
            0
        }
    } else {
        at_most(row + 1, len - 1)
    }
}

/// The selection after an arrow key. The first one selects the first row.
pub open spec fn moved(s: SelectionView, up: bool, len: int) -> SelectionView {
    if len == 0 {
        s
    } else {
        match s.cursor {
            None => single_shown(s, 0),
            Some(row) => single_shown(s, neighbour(at_most(row as int, len - 1), up, len) as usize),
        }
    }
}

/// The fixed end of the selection, within the table.
pub open spec fn anchor_row(s: SelectionView, len: int) -> int {
    match s.anchor {
        Some(row) => at_most(row as int, len - 1),
        None => 0,
    }
}

/// The moving end of the selection, within the table.
pub open spec fn cursor_row(s: SelectionView, len: int) -> int {
    match s.cursor {
        Some(row) => at_most(row as int, len - 1),
        None => anchor_row(s, len),
    }
}

/// The selection after an arrow key with shift: the moving end goes one row on,
/// and the rows between the ends are selected.
pub open spec fn extended(s: SelectionView, up: bool, len: int) -> SelectionView {
    if len == 0 {
        s
    } else {
        let new = neighbour(cursor_row(s, len), up, len);
        SelectionView {
            rows: rows_between(anchor_row(s, len), new),
            anchor: s.anchor,
            cursor: Some(new as usize),
            scroll: Some(new as usize),
        }
    }
}

/// The row that a page key or a bookmark key starts from.
pub open spec fn base_row(s: SelectionView) -> Option<usize> {
    match s.cursor {
        Some(row) => Some(row),
        None => s.anchor,
    }
}

/// The row that a bookmark key starts from, within the table.
pub open spec fn bookmark_base(s: SelectionView, len: int) -> int {
    match base_row(s) {
        Some(row) => at_most(row as int, len - 1),
        None => at_most(0, len - 1),
    }
}

/// The last row.
pub open spec fn last_row(len: int) -> int {
    if len > 0 {
        len - 1
    } else {
        0
    }
}

/// The selection after a click with shift: the rows between the fixed end and
/// the clicked row are added.
pub open spec fn range_clicked(s: SelectionView, row: usize, len: int) -> SelectionView {
    let r = at_most(row as int, last_row(len));
    let a = match s.anchor {
        Some(anchor) => at_most(anchor as int, last_row(len)),
        None => r,
    };
    SelectionView { rows: s.rows.union(rows_between(a, r)), cursor: Some(r as usize), ..s }
}

/// The selection after a click with the control key: the row is added or taken
/// out.
pub open spec fn toggled(s: SelectionView, row: usize) -> SelectionView {
    SelectionView {
        rows: if s.rows.contains(row) {
            s.rows.remove(row)
        } else {
            s.rows.insert(row)
        },
        ..s
    }
}

/// The row holds a bookmarked entry.
pub open spec fn is_bookmark_row(filtered: Seq<u32>, bookmarks: Set<u32>, row: int) -> bool {
    0 <= row < filtered.len() && bookmarks.contains(filtered[row])
}

/// `row` is the next bookmarked row from `current`: the nearest one behind it, or
/// the first of all if there is none behind it; backwards, the nearest one before
/// it, or the last of all.
pub open spec fn is_next_bookmark(
    filtered: Seq<u32>,
    bookmarks: Set<u32>,
    current: int,
    forward: bool,
    row: int,
) -> bool {
    &&& is_bookmark_row(filtered, bookmarks, row)
    &&& if forward {
        ||| (row > current && forall|k: int|
            current < k < row ==> !is_bookmark_row(filtered, bookmarks, k))
        ||| ((forall|k: int| k > current ==> !is_bookmark_row(filtered, bookmarks, k))
            && forall|k: int| k < row ==> !is_bookmark_row(filtered, bookmarks, k))
    } else {
        ||| (row < current && forall|k: int|
            row < k < current ==> !is_bookmark_row(filtered, bookmarks, k))
        ||| ((forall|k: int| k < current ==> !is_bookmark_row(filtered, bookmarks, k))
            && forall|k: int| k > row ==> !is_bookmark_row(filtered, bookmarks, k))
    }
}

/// The selection after a bookmark key: the next bookmarked row, if there is any.
pub open spec fn jumped(
    before: SelectionView,
    filtered: Seq<u32>,
    bookmarks: Set<u32>,
    forward: bool,
    after: SelectionView,
) -> bool {
    &&& (forall|k: int| !is_bookmark_row(filtered, bookmarks, k)) ==> after == before
    &&& (exists|k: int| is_bookmark_row(filtered, bookmarks, k)) ==> exists|row: usize| #[trigger]
        is_next_bookmark(
            filtered,
            bookmarks,
            bookmark_base(before, filtered.len() as int),
            forward,
            row as int,
        ) && after == single_shown(before, row)
}

/// The rows that are selected in the table.
pub struct Selection {
    pub selected_rows: HashSet<usize>,
    /// The fixed end of a range.
    pub selection_anchor: Option<usize>,
    /// The moving end of a range.
    pub selection_cursor: Option<usize>,
    /// The row to scroll to.
    pub pending_scroll: Option<usize>,
}

impl View for Selection {
    type V = SelectionView;

    open spec fn view(&self) -> SelectionView {
        SelectionView {
            rows: self.selected_rows@,
            anchor: self.selection_anchor,
            cursor: self.selection_cursor,
            scroll: self.pending_scroll,
        }
    }
}

impl Selection {
    /// Nothing selected.
    pub fn new() -> (r: Self)
        ensures
            r@ == (SelectionView { rows: Set::empty(), anchor: None, cursor: None, scroll: None }),
    {
        Selection {
            selected_rows: HashSet::new(),
            selection_anchor: None,
            selection_cursor: None,
            pending_scroll: None,
        }
    }

    /// Selects nothing.
    pub fn clear(&mut self)
        ensures
            final(self)@ == cleared(old(self)@),
    {
        self.selected_rows.clear();
        self.selection_anchor = None;
        self.selection_cursor = None;
    }

    /// Selects one row.
    pub fn select_only(&mut self, row: usize)
        ensures
            final(self)@ == single(old(self)@, row),
    {
        self.selected_rows.clear();
        self.selected_rows.insert(row);
        self.selection_anchor = Some(row);
        self.selection_cursor = Some(row);
    }

    /// Selects one row and scrolls to it.
    pub fn select_and_show(&mut self, row: usize)
        ensures
            final(self)@ == single_shown(old(self)@, row),
    {
        self.select_only(row);
        self.pending_scroll = Some(row);
    }

    /// Selects a row, or the last one if it is behind it, and scrolls to it.
    pub fn select_filtered_row_with_len(&mut self, row: usize, len: usize)
        ensures
            match clamp_filtered_row(row, len) {
                Some(r) => final(self)@ == single_shown(old(self)@, r),
                None => *final(self) == *old(self),
            },
    {
        if let Some(row) = clamp_filtered_row(row, len) {
            self.select_and_show(row);
        }
    }

    /// Selects the row one page away.
    pub fn page_selected_row(&mut self, forward: bool, len: usize, visible_rows: usize)
        ensures
            len == 0 ==> *final(self) == *old(self),
            len > 0 ==> final(self)@ == single_shown(
                old(self)@,
                paged(base_row(old(self)@), len, visible_rows, forward) as usize,
            ),
    {
        let cursor = match self.selection_cursor {
            Some(row) => Some(row),
            None => self.selection_anchor,
        };
        if let Some(row) = page_row(cursor, len, visible_rows, forward) {
            self.select_filtered_row_with_len(row, len);
        }
    }

    /// Moves the selection one row up, if `delta` is negative, or down.
    pub fn move_selected_row(&mut self, delta: isize, len: usize)
        ensures
            final(self)@ == moved(old(self)@, delta < 0, len as int),
    {
        if len == 0 {
            return;
        }
        let new: usize = match self.selection_cursor {
            None => 0,
            Some(cursor) => step_row(cursor, delta, len),
        };
        self.select_and_show(new);
    }

    /// Moves the moving end of the selection one row up, if `delta` is negative, or
    /// down, and selects the rows between the ends.
    pub fn extend_selection(&mut self, delta: isize, len: usize)
        ensures
            final(self)@ == extended(old(self)@, delta < 0, len as int),
    {
        if len == 0 {
            return;
        }
        let anchor: usize = match self.selection_anchor {
            Some(row) => if row < len - 1 {
                row
            } else {
                len - 1
            },
            None => 0,
        };
        let cursor: usize = match self.selection_cursor {
            Some(row) => row,
            None => anchor,
        };
        let new: usize = step_row(cursor, delta, len);
        self.selected_rows.clear();
        if new < anchor {
            self.insert_range(new, anchor);
        } else {
            self.insert_range(anchor, new);
        }
        assert(self.selected_rows@ =~= rows_between(anchor as int, new as int));
        self.pending_scroll = Some(new);
        self.selection_cursor = Some(new);
    }

    /// Adds the rows from `lo` to `hi`.
    fn insert_range(&mut self, lo: usize, hi: usize)
        requires
            lo <= hi < usize::MAX,
        ensures
            final(self)@ == (SelectionView {
                rows: old(self)@.rows.union(row_range(lo as int, hi as int)),
                ..old(self)@
            }),
    {
        let ghost before = self@.rows;
        let mut i: usize = lo;
        assert(before.union(row_range(lo as int, lo - 1)) =~= before);
        while i <= hi
            invariant
                lo <= i <= hi + 1,
                hi < usize::MAX,
                self@.rows == before.union(row_range(lo as int, i - 1)),
                self@.anchor == old(self)@.anchor,
                self@.cursor == old(self)@.cursor,
                self@.scroll == old(self)@.scroll,
            decreases hi + 1 - i,
        {
            self.selected_rows.insert(i);
            assert(self@.rows =~= before.union(row_range(lo as int, i as int)));
            i = i + 1;
        }
    }

    /// A click with shift.
    pub fn click_range(&mut self, row: usize, len: usize)
        ensures
            final(self)@ == range_clicked(old(self)@, row, len as int),
    {
        let max: usize = if len > 0 {
            len - 1
        } else {
            0
        };
        let r: usize = if row < max {
            row
        } else {
            max
        };
        let anchor: usize = match self.selection_anchor {
            Some(a) => if a < max {
                a
            } else {
                max
            },
            None => r,
        };
        if r < anchor {
            self.insert_range(r, anchor);
        } else {
            self.insert_range(anchor, r);
        }
        self.selection_cursor = Some(r);
    }

    /// A click with the control key.
    pub fn click_toggle(&mut self, row: usize)
        ensures
            final(self)@ == toggled(old(self)@, row),
    {
        if self.selected_rows.contains(&row) {
            self.selected_rows.remove(&row);
        } else {
            self.selected_rows.insert(row);
        }
    }

    /// Selects the next bookmarked row and scrolls to it, if there is one.
    pub fn jump_bookmark(&mut self, model: &Model, forward: bool)
        ensures
            jumped(
                old(self)@,
                model.filtered@,
                model.bookmarks@,
                forward,
                final(self)@,
            ),
    {
        let len: usize = model.filtered.len();
        if len == 0 {
            return;
        }
        let from: usize = match self.selection_cursor {
            Some(row) => row,
            None => match self.selection_anchor {
                Some(row) => row,
                None => 0,
            },
        };
        let current: usize = if from < len - 1 {
            from
        } else {
            len - 1
        };
        let found = next_bookmark(model, current, forward);
        if let Some(row) = found {
            assert(is_next_bookmark(
                model.filtered@,
                model.bookmarks@,
                bookmark_base(old(self)@, model.filtered@.len() as int),
                forward,
                row as int,
            ));
            self.select_and_show(row);
        }
    }
}

/// The neighbour of a row of a table that is not empty.
fn step_row(row: usize, delta: isize, len: usize) -> (r: usize)
    requires
        len > 0,
    ensures
        r == neighbour(at_most(row as int, len - 1), delta < 0, len as int),
        r < len,
{
    let current: usize = if row < len - 1 {
        row
    } else {
        len - 1
    };
    if delta < 0 {
        if current > 0 {
            current - 1
        } else {
            0
        }
    } else if current + 1 < len {
        current + 1
    } else {
        len - 1
    }
}

/// The next bookmarked row from `current`, if there is any.
pub fn next_bookmark(model: &Model, current: usize, forward: bool) -> (r: Option<usize>)
    requires
        current < model.filtered@.len(),
    ensures
        match r {
            Some(row) => is_next_bookmark(
                model.filtered@,
                model.bookmarks@,
                current as int,
                forward,
                row as int,
            ),
            None => forall|k: int| !is_bookmark_row(model.filtered@, model.bookmarks@, k),
        },
{
    let len: usize = model.filtered.len();
    let ghost filtered = model.filtered@;
    let ghost bookmarks = model.bookmarks@;
    if forward {
        let mut first: Option<usize> = None;
        let mut i: usize = 0;
        while i < len
            invariant
                forward,
                i <= len,
                len == model.filtered@.len(),
                filtered == model.filtered@,
                bookmarks == model.bookmarks@,
                forall|k: int| current < k < i ==> !is_bookmark_row(filtered, bookmarks, k),
                match first {
                    Some(row) => is_bookmark_row(filtered, bookmarks, row as int) && forall|k: int|
                        k < row ==> !is_bookmark_row(filtered, bookmarks, k),
                    None => forall|k: int| k < i ==> !is_bookmark_row(filtered, bookmarks, k),
                },
            decreases len - i,
        {
            if model.bookmarks.contains(&model.filtered[i]) {
                assert(is_bookmark_row(filtered, bookmarks, i as int));
                if i > current {
                    return Some(i);
                }
                if first.is_none() {
                    first = Some(i);
                }
            } else {
                assert(!is_bookmark_row(filtered, bookmarks, i as int));
            }
            i = i + 1;
        }
        first
    } else {
        let mut last: Option<usize> = None;
        let mut i: usize = len;
        while i > 0
            invariant
                !forward,
                i <= len,
                len == model.filtered@.len(),
                filtered == model.filtered@,
                bookmarks == model.bookmarks@,
                forall|k: int| i <= k < current ==> !is_bookmark_row(filtered, bookmarks, k),
                match last {
                    Some(row) => is_bookmark_row(filtered, bookmarks, row as int) && forall|k: int|
                        k > row ==> !is_bookmark_row(filtered, bookmarks, k),
                    None => forall|k: int| k >= i ==> !is_bookmark_row(filtered, bookmarks, k),
                },
            decreases i,
        {
            i = i - 1;
            if model.bookmarks.contains(&model.filtered[i]) {
                assert(is_bookmark_row(filtered, bookmarks, i as int));
                if i < current {
                    return Some(i);
                }
                if last.is_none() {
                    last = Some(i);
                }
            } else {
                assert(!is_bookmark_row(filtered, bookmarks, i as int));
            }
        }
        last
    }
}

/// The keys that move or extend the selection keep it within the table.
pub proof fn keys_stay_in_table(s: SelectionView, up: bool, len: int)
    requires
        0 < len <= usize::MAX,
    ensures
        forall|r: usize| #[trigger] moved(s, up, len).rows.contains(r) ==> r < len,
        forall|r: usize| #[trigger] extended(s, up, len).rows.contains(r) ==> r < len,
        moved(s, up, len).cursor matches Some(c) ==> c < len,
        extended(s, up, len).cursor matches Some(c) ==> c < len,
{
}

/// A step of shift and an arrow key is undone by the step the other way, as long
/// as the first one did not stop at the end of the table.
pub proof fn extending_back_undoes(s: SelectionView, up: bool, len: int)
    requires
        0 < len <= usize::MAX,
        s.anchor matches Some(a) && a < len,
        s.cursor matches Some(c) && c < len,
        s.rows == rows_between(anchor_row(s, len), cursor_row(s, len)),
        neighbour(cursor_row(s, len), up, len) != cursor_row(s, len),
    ensures
        extended(extended(s, up, len), !up, len).rows == s.rows,
        extended(extended(s, up, len), !up, len).cursor == s.cursor,
        extended(extended(s, up, len), !up, len).anchor == s.anchor,
{
}

/// Both ends are always part of an extended selection.
pub proof fn extension_holds_both_ends(s: SelectionView, up: bool, len: int)
    requires
        0 < len <= usize::MAX,
    ensures
        extended(s, up, len).rows.contains(anchor_row(s, len) as usize),
        extended(s, up, len).rows.contains(
            neighbour(cursor_row(s, len), up, len) as usize,
        ),
{
}

/// Toggling a row twice changes nothing.
pub proof fn toggling_twice_restores(s: SelectionView, row: usize)
    ensures
        toggled(toggled(s, row), row) == s,
{
    assert(toggled(toggled(s, row), row).rows =~= s.rows);
}

/// There is one next bookmark: the row that the key jumps to is determined.
pub proof fn next_bookmark_unique(
    filtered: Seq<u32>,
    bookmarks: Set<u32>,
    current: int,
    forward: bool,
    one: int,
    other: int,
)
    requires
        is_next_bookmark(filtered, bookmarks, current, forward, one),
        is_next_bookmark(filtered, bookmarks, current, forward, other),
    ensures
        one == other,
{
    if one < other {
        assert(is_bookmark_row(filtered, bookmarks, one));
        assert(is_bookmark_row(filtered, bookmarks, other));
    } else if other < one {
        assert(is_bookmark_row(filtered, bookmarks, one));
        assert(is_bookmark_row(filtered, bookmarks, other));
    }
}

/// Selecting one row takes in that row and no other, and makes it both ends of the
/// selection; selecting nothing leaves no row and no end.
pub proof fn one_row_is_selected(s: SelectionView, row: usize, other: usize)
    ensures
        single(s, row).rows.contains(other) <==> other == row,
        single(s, row).anchor == Some(row) && single(s, row).cursor == Some(row),
        single(s, row).scroll == s.scroll,
        single_shown(s, row).rows == single(s, row).rows,
        single_shown(s, row).anchor == Some(row) && single_shown(s, row).cursor == Some(row),
        single_shown(s, row).scroll == Some(row),
        !cleared(s).rows.contains(other),
        cleared(s).anchor is None && cleared(s).cursor is None,
        cleared(s).scroll == s.scroll,
{
}

/// An arrow key selects the row above or below, stops at the ends of the table, and
/// selects the first row where nothing was selected. From behind the end of the table it
/// starts at the last row.
pub proof fn arrow_keys_go_one_row(s: SelectionView, up: bool, len: int)
    requires
        0 < len <= usize::MAX,
    ensures
        ({
            let t = moved(s, up, len);
            &&& t.cursor is Some && t.anchor == t.cursor && t.scroll == t.cursor
            &&& forall|r: usize| #[trigger] t.rows.contains(r) <==> t.cursor == Some(r)
            &&& s.cursor is None ==> t.cursor == Some(0usize)
            &&& s.cursor matches Some(row) ==> {
                &&& up && 0 < row < len ==> t.cursor->0 == row - 1
                &&& up && row == 0 ==> t.cursor->0 == 0
                &&& !up && row + 1 < len ==> t.cursor->0 == row + 1
                &&& !up && row + 1 >= len ==> t.cursor->0 == len - 1
                &&& up && row >= len > 1 ==> t.cursor->0 == len - 2
                &&& up && len == 1 ==> t.cursor->0 == 0
            }
        }),
        moved(s, up, 0) == s,
{
}

/// An arrow key with shift moves one end of the selection one row, keeps the other, and
/// selects the rows from one to the other.
pub proof fn shift_selects_between_the_ends(s: SelectionView, up: bool, len: int, r: usize)
    requires
        0 < len <= usize::MAX,
        s.anchor matches Some(a) && a < len,
        s.cursor matches Some(c) && c < len,
    ensures
        ({
            let t = extended(s, up, len);
            let a = s.anchor->0;
            let c = s.cursor->0;
            let n = t.cursor->0;
            &&& t.cursor is Some && t.scroll == t.cursor && t.anchor == s.anchor
            &&& up && c > 0 ==> n == c - 1
            &&& up && c == 0 ==> n == 0
            &&& !up && c + 1 < len ==> n == c + 1
            &&& !up && c + 1 == len ==> n == c
            &&& t.rows.contains(r) <==> a <= r <= n || n <= r <= a
        }),
        extended(s, up, 0) == s,
{
}

/// A selection without ends is extended from the first row; one whose ends are behind the
/// end of the table, from the last one.
pub proof fn shift_starts_within_the_table(s: SelectionView, up: bool, len: int, r: usize)
    requires
        0 < len <= usize::MAX,
    ensures
        ({
            let t = extended(s, up, len);
            let n = t.cursor->0;
            &&& t.cursor is Some && n < len && t.anchor == s.anchor
            &&& s.anchor is None && s.cursor is None && up ==> n == 0 && (t.rows.contains(r) <==> r
                == 0)
            &&& s.anchor is None && s.cursor is None && !up && len > 1 ==> n == 1 && (
            t.rows.contains(r) <==> r <= 1)
            &&& s.anchor is Some && s.anchor->0 >= len && s.cursor is Some && s.cursor->0 >= len && up && len > 1 ==> n == len - 2 && (t.rows.contains(r) <==> len - 2 <= r < len)
            &&& s.anchor is Some && s.cursor is None && !up && s.anchor->0 + 1 < len ==> n == s.anchor->0 + 1
        }),
{
}

/// A page key goes on by the rows that are visible, by one if none are, and stops at the
/// ends of the table. It starts at the first row where nothing was selected.
pub proof fn page_keys_go_one_page(
    selected: Option<usize>,
    len: usize,
    visible_rows: usize,
    forward: bool,
)
    requires
        len > 0,
    ensures
        ({
            let to = paged(selected, len, visible_rows, forward);
            let from = match selected {
                Some(row) => if row < len {
                    row as int
                } else {
                    len - 1
                },
                None => 0,
            };
            &&& 0 <= to < len
            &&& forward && visible_rows > 0 && from + visible_rows < len ==> to == from
                + visible_rows
            &&& forward && visible_rows == 0 && from + 1 < len ==> to == from + 1
            &&& forward && (from + visible_rows >= len || from + 1 == len) ==> to == len - 1
            &&& !forward && 0 < visible_rows <= from ==> to == from - visible_rows
            &&& !forward && visible_rows == 0 && from > 0 ==> to == from - 1
            &&& !forward && (visible_rows > from || from == 0) ==> to == 0
        }),
{
}

/// A click with shift adds the rows between the fixed end and the clicked row to those
/// that are selected, and keeps the fixed end.
pub proof fn click_with_shift_adds_a_range(s: SelectionView, row: usize, len: int, r: usize)
    requires
        row < len,
    ensures
        ({
            let t = range_clicked(s, row, len);
            &&& t.anchor == s.anchor && t.cursor == Some(row) && t.scroll == s.scroll
            &&& s.rows.contains(r) ==> t.rows.contains(r)
            &&& s.anchor is None && !s.rows.contains(r) ==> (t.rows.contains(r) <==> r == row)
            &&& s.anchor is Some && s.anchor->0 < len && !s.rows.contains(r) ==> (t.rows.contains(r)
                <==> s.anchor->0 <= r <= row || row <= r <= s.anchor->0)
            &&& s.anchor is Some && s.anchor->0 >= len && !s.rows.contains(r) ==> (t.rows.contains(r)
                <==> row <= r < len)
        }),
{
}

/// A click with the control key takes in the clicked row, or takes it out, and changes
/// nothing else.
pub proof fn click_with_control_changes_one_row(s: SelectionView, row: usize, other: usize)
    ensures
        toggled(s, row).rows.contains(row) <==> !s.rows.contains(row),
        other != row ==> (toggled(s, row).rows.contains(other) <==> s.rows.contains(other)),
        toggled(s, row).anchor == s.anchor,
        toggled(s, row).cursor == s.cursor,
        toggled(s, row).scroll == s.scroll,
{
}

/// A bookmark key goes to a bookmarked row. Forwards no bookmarked row is passed over on
/// the way down, and only where none is left below does it begin again at the top;
/// backwards the other way round.
pub proof fn bookmark_keys_pass_over_none(
    before: SelectionView,
    filtered: Seq<u32>,
    bookmarks: Set<u32>,
    forward: bool,
    after: SelectionView,
    k: int,
)
    requires
        filtered.len() <= usize::MAX,
        jumped(before, filtered, bookmarks, forward, after),
        0 <= k < filtered.len(),
        bookmarks.contains(filtered[k]),
        before.cursor matches Some(c) && c < filtered.len(),
    ensures
        ({
            let c = before.cursor->0;
            let n = after.cursor->0;
            &&& after.cursor is Some && n < filtered.len() && bookmarks.contains(filtered[n as int])
            &&& after.anchor == Some(n) && after.scroll == Some(n)
            &&& forall|r: usize| #[trigger] after.rows.contains(r) <==> r == n
            &&& forward && k > c ==> c < n <= k
            &&& forward && n <= c ==> n <= k <= c
            &&& !forward && k < c ==> k <= n < c
            &&& !forward && n >= c ==> c <= k <= n
        }),
{
    let c = before.cursor->0;
    assert(is_bookmark_row(filtered, bookmarks, k));
    let row = choose|row: usize| #[trigger]
        is_next_bookmark(
            filtered,
            bookmarks,
            bookmark_base(before, filtered.len() as int),
            forward,
            row as int,
        ) && after == single_shown(before, row);
    assert(bookmark_base(before, filtered.len() as int) == c);
    assert(is_bookmark_row(filtered, bookmarks, row as int));
}

/// Without bookmarked rows a bookmark key changes nothing, and where nothing is selected
/// it starts at the first row, or at the fixed end of the selection.
pub proof fn bookmark_keys_start_somewhere(
    before: SelectionView,
    filtered: Seq<u32>,
    bookmarks: Set<u32>,
    forward: bool,
    after: SelectionView,
)
    requires
        jumped(before, filtered, bookmarks, forward, after),
        filtered.len() > 0,
    ensures
        (forall|k: int| 0 <= k < filtered.len() ==> !bookmarks.contains(#[trigger] filtered[k]))
            ==> after == before,
        (exists|k: int| 0 <= k < filtered.len() && bookmarks.contains(#[trigger] filtered[k]))
            && before.cursor is None && before.anchor is None ==> jumped(
            SelectionView { cursor: Some(0usize), ..before },
            filtered,
            bookmarks,
            forward,
            after,
        ),
        (exists|k: int| 0 <= k < filtered.len() && bookmarks.contains(#[trigger] filtered[k]))
            && before.cursor is None && before.anchor is Some ==> jumped(
            SelectionView { cursor: before.anchor, ..before },
            filtered,
            bookmarks,
            forward,
            after,
        ),
{
    if forall|k: int| 0 <= k < filtered.len() ==> !bookmarks.contains(#[trigger] filtered[k]) {
        assert forall|k: int| !is_bookmark_row(filtered, bookmarks, k) by {}
    } else {
        let k = choose|k: int|
            0 <= k < filtered.len() && bookmarks.contains(#[trigger] filtered[k]);
        assert(is_bookmark_row(filtered, bookmarks, k));
    }
    if exists|k: int| is_bookmark_row(filtered, bookmarks, k) {
        let row = choose|row: usize| #[trigger]
            is_next_bookmark(
                filtered,
                bookmarks,
                bookmark_base(before, filtered.len() as int),
                forward,
                row as int,
            ) && after == single_shown(before, row);
        let start = match before.anchor {
            Some(a) => a,
            None => 0usize,
        };
        if before.cursor is None {
            let same = SelectionView { cursor: Some(start), ..before };
            assert(bookmark_base(same, filtered.len() as int) == bookmark_base(
                before,
                filtered.len() as int,
            ));
            assert(is_next_bookmark(
                filtered,
                bookmarks,
                bookmark_base(same, filtered.len() as int),
                forward,
                row as int,
            ) && after == single_shown(same, row));
        }
    }
}

/// A row within the table is itself, one behind it is the last, and a table without rows
/// has none.
pub proof fn rows_are_clamped(row: usize, len: usize)
    ensures
        row < len ==> clamp_filtered_row(row, len) == Some(row),
        row >= len > 0 ==> clamp_filtered_row(row, len) == Some((len - 1) as usize),
        len == 0 ==> clamp_filtered_row(row, len) is None,
{
}

} // verus!
