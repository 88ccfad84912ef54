//! The rows that the bar beside the table points out, and jumping to a line.

use crate::model::Model;
use crate::number;
use crate::number::parse_unsigned;
use crate::text;
use crate::text::{chars_of, trim_chars};
use std::collections::HashSet;
use vstd::prelude::*;
use vstd::std_specs::hash::*;

verus! {

broadcast use group_hash_axioms;

/// The list is ascending, without repetitions.
pub open spec fn ascending(v: Seq<u32>) -> bool {
    forall|i: int, j: int| 0 <= i < j < v.len() ==> v[i] < v[j]
}

/// Number of items at the beginning of an ascending list that are less than `x`.
pub fn partition_point(v: &Vec<u32>, x: usize) -> (r: usize)
    requires
        ascending(v@),
    ensures
        r <= v@.len(),
        forall|i: int| 0 <= i < r ==> (#[trigger] v@[i]) < x,
        forall|i: int| r <= i < v@.len() ==> (#[trigger] v@[i]) >= x,
{
    let mut lo: usize = 0;
    let mut hi: usize = v.len();
    while lo < hi
        invariant
            ascending(v@),
            lo <= hi <= v@.len(),
            forall|i: int| 0 <= i < lo ==> (#[trigger] v@[i]) < x,
            forall|i: int| hi <= i < v@.len() ==> (#[trigger] v@[i]) >= x,
        decreases hi - lo,
    {
        let mid: usize = lo + (hi - lo) / 2;
        if (v[mid] as usize) < x {
            lo = mid + 1;
        } else {
            hi = mid;
        }
    }
    lo
}

/// The row of an entry in the filtered log, if it is in it.
pub fn find_row(filtered: &Vec<u32>, entry: u32) -> (r: Option<usize>)
    requires
        ascending(filtered@),
    ensures
        match r {
            Some(row) => row < filtered@.len() && filtered@[row as int] == entry,
            None => !filtered@.contains(entry),
        },
{
    let at = partition_point(filtered, entry as usize);
    if at < filtered.len() && filtered[at] == entry {
        return Some(at);
    }
    proof {
        if filtered@.contains(entry) {
            let i = choose|i: int| 0 <= i < filtered@.len() && filtered@[i] == entry;
            if at < filtered@.len() && i > at {
                assert(filtered@[at as int] < filtered@[i]);
            }
        }
    }
    None
}

/// The rows whose entries are among the given ones.
fn rows_of(filtered: &Vec<u32>, marks: &Vec<u32>) -> (r: Vec<usize>)
    requires
        ascending(filtered@),
    ensures
        forall|row: usize| #[trigger]
            r@.contains(row) <==> row < filtered@.len() && marks@.contains(filtered@[row as int]),
        marks@.no_duplicates() ==> r@.no_duplicates(),
        ascending(marks@) ==> forall|i: int, j: int| 0 <= i < j < r@.len() ==> r@[i] < r@[j],
{
    let mut out: Vec<usize> = Vec::new();
    let n: usize = marks.len();
    for i in 0..n
        invariant
            n == marks@.len(),
            ascending(filtered@),
            forall|k: int|
                0 <= k < out@.len() ==> (#[trigger] out@[k]) < filtered@.len() && marks@.contains(
                    filtered@[out@[k] as int],
                ),
            forall|row: usize|
                row < filtered@.len() && marks@.take(i as int).contains(filtered@[row as int])
                    ==> #[trigger] out@.contains(row),
            marks@.no_duplicates() ==> out@.no_duplicates(),
            marks@.no_duplicates() ==> forall|a: int, k: int|
                0 <= a < out@.len() && i <= k < n ==> filtered@[(#[trigger] out@[a]) as int]
                    != #[trigger] marks@[k],
            ascending(marks@) ==> forall|a: int, b: int| 0 <= a < b < out@.len() ==> out@[a] < out@[b],
            ascending(marks@) ==> forall|a: int, k: int|
                0 <= a < out@.len() && i <= k < n ==> filtered@[(#[trigger] out@[a]) as int]
                    < #[trigger] marks@[k],
    {
        let entry = marks[i];
        let ghost before = out@;
        assert(marks@[i as int] == entry);
        let found = find_row(filtered, entry);
        if let Some(row) = found {
            out.push(row);
            assert(marks@.contains(filtered@[row as int]));
            proof {
                if ascending(marks@) {
                    assert forall|a: int| 0 <= a < before.len() implies (#[trigger] before[a])
                        < row by {
                        assert(filtered@[before[a] as int] < marks@[i as int]);
                        if row < before[a] {
                            assert(filtered@[row as int] < filtered@[before[a] as int]);
                        }
                    }
                }
                if marks@.no_duplicates() {
                    assert forall|a: int| 0 <= a < before.len() implies (#[trigger] before[a])
                        != row by {
                        assert(filtered@[before[a] as int] != marks@[i as int]);
                    }
                }
            }
        }
        proof {
            let head = marks@.take(i + 1);
            assert forall|row: usize|
                row < filtered@.len() && head.contains(
                    filtered@[row as int],
                ) implies #[trigger] out@.contains(row) by {
                let k = choose|k: int| 0 <= k < head.len() && head[k] == filtered@[row as int];
                if k < i {
                    assert(marks@.take(i as int)[k] == filtered@[row as int]);
                    assert(before.contains(row));
                    let p = choose|p: int| 0 <= p < before.len() && before[p] == row;
                    assert(out@[p] == row);
                } else {
                    assert(filtered@.contains(entry));
                    let found_row = found->0;
                    if found_row < row {
                        assert(filtered@[found_row as int] < filtered@[row as int]);
                    } else if row < found_row {
                        assert(filtered@[row as int] < filtered@[found_row as int]);
                    }
                    assert(out@[before.len() as int] == row);
                }
            }
        }
    }
    assert(marks@.take(n as int) == marks@);
    out
}

/// The rows whose entries are error lines.
pub fn error_rows(model: &Model) -> (r: Vec<usize>)
    requires
        ascending(model.filtered@),
    ensures
        forall|row: usize| #[trigger]
            r@.contains(row) <==> row < model.filtered@.len() && model.error_lines@.contains(
                model.filtered@[row as int],
            ),
        ascending(model.error_lines@) ==> forall|i: int, j: int|
            0 <= i < j < r@.len() ==> r@[i] < r@[j],
{
    rows_of(&model.filtered, &model.error_lines)
}

/// The rows whose entries are bookmarked.
pub fn bookmark_rows(model: &Model) -> (r: Vec<usize>)
    requires
        ascending(model.filtered@),
    ensures
        forall|row: usize| #[trigger]
            r@.contains(row) <==> row < model.filtered@.len() && model.bookmarks@.contains(
                model.filtered@[row as int],
            ),
        r@.no_duplicates(),
{
    let mut marks: Vec<u32> = Vec::new();
    let ghost all = vstd::std_specs::iter::IteratorSpec::remaining(
        &spec_hash_keys_iter(&model.bookmarks),
    ).unref();
    for x in it: model.bookmarks.iter()
        invariant
            it.seq().unref() == all,
            marks@ == all.take(it.index() as int),
    {
        marks.push(*x);
        assert(all.take(it.index() as int).push(*x) =~= all.take(it.index() + 1));
    }
    assert(marks@ =~= all);
    proof {
        let keys = vstd::std_specs::iter::IteratorSpec::remaining(
            &spec_hash_keys_iter(&model.bookmarks),
        );
        assert forall|i: int, j: int| 0 <= i < j < all.len() implies all[i] != all[j] by {
            assert(keys[i] != keys[j]);
        }
    }
    let rows = rows_of(&model.filtered, &marks);
    proof {
        assert forall|row: usize| #[trigger] rows@.contains(row) <==> row < model.filtered@.len()
            && model.bookmarks@.contains(model.filtered@[row as int]) by {
            if row < model.filtered@.len() {
                assert(all.to_set().contains(model.filtered@[row as int]) == all.contains(
                    model.filtered@[row as int],
                ));
            }
        }
    }
    rows
}

/// Where a jump to an entry leads.
#[derive(Debug, Clone, Copy, PartialEq, Eq, Structural)]
pub enum GotoOutcome {
    /// There is no such entry.
    OutOfRange,
    /// The entry is shown in this row.
    Visible(usize),
    /// The entry is hidden; this row is the nearest.
    Hidden(Option<usize>),
}

/// How far two entries are apart.
pub open spec fn apart(a: int, b: int) -> int {
    if a < b {
        b - a
    } else {
        a - b
    }
}

/// The row whose entry is the least far from `entry`, and of two that are equally
/// far the later one; none if there are no rows.
pub open spec fn is_nearest(filtered: Seq<u32>, entry: int, near: Option<usize>) -> bool {
    match near {
        None => filtered.len() == 0,
        Some(row) => {
            &&& row < filtered.len()
            &&& forall|i: int|
                0 <= i < row ==> apart(filtered[row as int] as int, entry) <= apart(
                    #[trigger] filtered[i] as int,
                    entry,
                )
            &&& forall|i: int|
                row < i < filtered.len() ==> apart(filtered[row as int] as int, entry) < apart(
                    #[trigger] filtered[i] as int,
                    entry,
                )
        },
    }
}

/// There is one nearest row at most.
pub proof fn nearest_is_unique(
    filtered: Seq<u32>,
    entry: int,
    one: Option<usize>,
    other: Option<usize>,
)
    requires
        is_nearest(filtered, entry, one),
        is_nearest(filtered, entry, other),
    ensures
        one == other,
{
    if let (Some(a), Some(b)) = (one, other) {
        let x = filtered[a as int];
        let y = filtered[b as int];
        assert(a == b);
    }
}

/// Where a jump to the entry at position `entry` leads.
pub fn goto_entry(model: &Model, entry: usize) -> (r: GotoOutcome)
    requires
        ascending(model.filtered@),
    ensures
        match r {
            GotoOutcome::OutOfRange => entry >= model.entries@.len(),
            GotoOutcome::Visible(row) => entry < model.entries@.len() && row
                < model.filtered@.len() && model.filtered@[row as int] == entry,
            GotoOutcome::Hidden(near) => {
                &&& entry < model.entries@.len()
                &&& forall|i: int| 0 <= i < model.filtered@.len() ==> #[trigger] model.filtered@[i] != entry
                &&& is_nearest(model.filtered@, entry as int, near)
            },
        },
{
    if entry >= model.entries.len() {
        return GotoOutcome::OutOfRange;
    }
    let at = partition_point(&model.filtered, entry);
    let len: usize = model.filtered.len();
    if at < len && model.filtered[at] as usize == entry {
        return GotoOutcome::Visible(at);
    }
    proof {
        assert forall|i: int| 0 <= i < model.filtered@.len() implies #[trigger] model.filtered@[i]
            != entry by {
            if i > at {
                assert(model.filtered@[at as int] < model.filtered@[i]);
            }
        }
    }
    if len == 0 {
        return GotoOutcome::Hidden(None);
    }
    let before = at > 0 && (at == len || entry - (model.filtered[at - 1] as usize) < (
    model.filtered[at] as usize) - entry);
    let row: usize = if before {
        at - 1
    } else {
        at
    };
    assert(is_nearest(model.filtered@, entry as int, Some(row))) by {
        let v = model.filtered@;
        assert forall|i: int| 0 <= i < row implies apart(v[row as int] as int, entry as int)
            <= apart(#[trigger] v[i] as int, entry as int) by {
            if i < at - 1 {
                assert(v[i] < v[at - 1]);
            }
        }
        assert forall|i: int| row < i < v.len() implies apart(v[row as int] as int, entry as int)
            < apart(#[trigger] v[i] as int, entry as int) by {
            if i > at {
                assert(v[at as int] < v[i]);
            }
        }
    }
    GotoOutcome::Hidden(Some(row))
}

/// The position that a line number stands for, if the text is one.
pub open spec fn line_position(s: Seq<char>) -> Option<nat> {
    match number::unsigned(text::trim(s), 10, usize::MAX as nat) {
        Some(n) => if n > 0 {
            Some((n - 1) as nat)
        } else {
            None
        },
        None => None,
    }
}

/// The position of the entry whose line number was typed.
pub fn goto_target(s: &str) -> (r: Option<usize>)
    ensures
        match r {
            Some(n) => line_position(s@) == Some(n as nat),
            None => line_position(s@) is None,
        },
{
    let chars = chars_of(s);
    match parse_unsigned(trim_chars(chars.as_slice()), 10, usize::MAX as u64) {
        Some(n) => if n > 0 {
            Some((n - 1) as usize)
        } else {
            None
        },
        None => None,
    }
}

/// The nearest row is at most as far from the wanted entry as any other, and lies behind
/// one that is as far.
pub proof fn nearest_row_is_no_farther(filtered: Seq<u32>, entry: int, row: usize, i: int)
    requires
        is_nearest(filtered, entry, Some(row)),
        0 <= i < filtered.len(),
    ensures
        row < filtered.len(),
        ({
            let d = filtered[row as int] - entry;
            let e = filtered[i] - entry;
            &&& d <= e || d <= -e
            &&& -d <= e || -d <= -e
            &&& (d == e || d == -e) ==> i <= row
        }),
{
}

/// A number that is typed leads to the entry that is shown with that line number: the
/// first line has the number one. Zero leads nowhere.
pub proof fn typed_numbers_lead_to_lines(n: nat)
    requires
        n <= usize::MAX,
    ensures
        n > 0 ==> line_position(number::decimal(n)) == Some((n - 1) as nat),
        n == 0 ==> line_position(number::decimal(n)) is None,
{
    let s = number::decimal(n);
    number::decimal_and_back(n);
    assert('0' <= s[0] <= '9');
    assert('0' <= s[s.len() - 1] <= '9');
    assert(text::trim(s) == s);
}

} // verus!
