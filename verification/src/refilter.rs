//! Keeping the filtered positions up to date while the log grows.
//!
//! A pass looks at the entries in chunks, so that the log can be changed between
//! them. It looks at all entries where the filter changed or the log shrank, and
//! at the new ones otherwise. A pass whose filter or log changed underneath is
//! given up, and the next one starts afresh.

use crate::filter;
use crate::filter::{FilterSpec, FilterView};
use crate::indicator;
use crate::model::{EntryView, Model};
use crate::ui;
use vstd::prelude::*;
use vstd::std_specs::hash::*;

verus! {

broadcast use group_hash_axioms;

/// Number of entries of a chunk.
pub const CHUNK: usize = 4096;

/// Positions of the entries from `from` up to `to` that pass a filter.
pub open spec fn shown(
    log: Seq<EntryView>,
    f: FilterView,
    bookmarks: Set<u32>,
    from: int,
    to: int,
) -> Seq<u32>
    decreases to - from,
{
    if to <= from {
        seq![]
    } else {
        let before = shown(log, f, bookmarks, from, to - 1);
        if filter::passes(f, log[to - 1], (to - 1) as u32, bookmarks) {
            before.push((to - 1) as u32)
        } else {
            before
        }
    }
}

/// What the last pass has done.
#[derive(Debug)]
pub struct FilterProgress {
    /// Generation of the filter that the filtered positions were made with, if
    /// they are complete.
    pub last_gen: Option<u64>,
    /// Number of entries that the filtered positions reflect.
    pub processed_len: usize,
}

/// A pass over the log.
#[derive(Debug)]
pub struct FilterPass {
    /// Generation of the filter.
    pub gen: u64,
    /// Whether the pass looks at all entries.
    pub full: bool,
    /// The first entry of the pass.
    pub start: usize,
    /// The next entry to look at.
    pub next: usize,
    /// The end of the pass.
    pub target: usize,
    /// Positions that were found so far.
    pub out: Vec<u32>,
}

impl FilterPass {
    /// The pass has found what passes among the entries that it looked at.
    pub open spec fn exact(&self, log: Seq<EntryView>, f: FilterView, bookmarks: Set<u32>) -> bool {
        &&& self.start <= self.next
        &&& self.out@ == shown(log, f, bookmarks, self.start as int, self.next as int)
    }

    /// Whether the pass has looked at all that it has to.
    pub fn is_done(&self) -> (r: bool)
        ensures
            r == (self.next >= self.target),
    {
        self.next >= self.target
    }

    /// Looks at the next chunk. Gives false if the pass is to be given up: because
    /// the filter has changed, which `gen_now` tells, or because the log is shorter
    /// than it was.
    pub fn step(&mut self, spec: &FilterSpec, model: &Model, gen_now: u64) -> (r: bool)
        requires
            old(self).next < old(self).target,
            model.entries@.len() <= u32::MAX,
        ensures
            final(self).gen == old(self).gen,
            final(self).full == old(self).full,
            final(self).start == old(self).start,
            final(self).target == old(self).target,
            ({
                let end = if old(self).target - old(self).next > CHUNK {
                    old(self).next + CHUNK
                } else {
                    old(self).target as int
                };
                &&& r == (gen_now == old(self).gen && model.entries@.len() >= end)
                &&& r ==> final(self).next == end && final(self).out@ == old(self).out@ + shown(
                    model.log(),
                    spec@,
                    model.bookmarks@,
                    old(self).next as int,
                    end,
                )
            }),
    {
        if gen_now != self.gen {
            return false;
        }
        let end: usize = if self.target - self.next > CHUNK {
            self.next + CHUNK
        } else {
            self.target
        };
        if model.entries.len() < end {
            return false;
        }
        let ghost log = model.log();
        let ghost found = self.out@;
        let first: usize = self.next;
        let mut j: usize = first;
        assert(found + Seq::<u32>::empty() == found);
        while j < end
            invariant
                first <= j <= end <= model.entries@.len() <= u32::MAX,
                log == model.log(),
                self.gen == old(self).gen,
                self.full == old(self).full,
                self.start == old(self).start,
                self.target == old(self).target,
                self.out@ == found + shown(
                    log,
                    spec@,
                    model.bookmarks@,
                    first as int,
                    j as int,
                ),
            decreases end - j,
        {
            assert(log[j as int] == model.entries@[j as int]@);
            let ghost before = shown(log, spec@, model.bookmarks@, first as int, j as int);
            if spec.matches(&model.entries[j], j as u32, &model.bookmarks) {
                self.out.push(j as u32);
                assert((found + before).push(j as u32) == found + before.push(j as u32));
            }
            j = j + 1;
        }
        self.next = end;
        true
    }
}

impl FilterProgress {
    /// Nothing has been done.
    pub fn new() -> (r: Self)
        ensures
            r.last_gen is None,
            r.processed_len == 0,
    {
        FilterProgress { last_gen: None, processed_len: 0 }
    }

    /// The filtered positions are those of the entries that were looked at.
    pub open spec fn current(&self, model: &Model, f: FilterView) -> bool {
        &&& self.processed_len <= model.entries@.len()
        &&& model.filtered@ == shown(
            model.log(),
            f,
            model.bookmarks@,
            0,
            self.processed_len as int,
        )
    }

    /// Begins a pass for a filter generation and a number of entries.
    pub fn begin(&self, gen: u64, entries_len: usize) -> (r: FilterPass)
        ensures
            r.gen == gen,
            r.full == (self.last_gen != Some(gen) || entries_len < self.processed_len),
            r.start == if r.full {
                0
            } else {
                self.processed_len
            },
            r.next == r.start,
            r.target == entries_len,
            r.out@ == Seq::<u32>::empty(),
    {
        let known = match self.last_gen {
            Some(last) => last == gen,
            None => false,
        };
        let full = !known || entries_len < self.processed_len;
        let start: usize = if full {
            0
        } else {
            self.processed_len
        };
        FilterPass { gen, full, start, next: start, target: entries_len, out: Vec::new() }
    }

    /// Gives a pass up: the next one looks at all entries.
    pub fn give_up(&mut self)
        ensures
            final(self).last_gen is None,
            final(self).processed_len == 0,
    {
        self.last_gen = None;
        self.processed_len = 0;
    }

    /// Puts the result of a finished pass into the log, unless the filter has
    /// changed meanwhile or the log is shorter than it was: then the pass is given
    /// up. Tells whether the result was put in.
    pub fn commit(&mut self, pass: FilterPass, model: &mut Model, gen_now: u64) -> (r: bool)
        requires
            pass.next >= pass.target,
        ensures
            r == (gen_now == pass.gen && old(model).entries@.len() >= pass.target),
            r ==> {
                &&& final(model).filtered@ == if pass.full {
                    pass.out@
                } else {
                    old(model).filtered@ + pass.out@
                }
                &&& final(self).last_gen == Some(pass.gen)
                &&& final(self).processed_len == pass.target
            },
            !r ==> {
                &&& final(model).filtered == old(model).filtered
                &&& final(self).last_gen is None
                &&& final(self).processed_len == 0
            },
            final(model).entries == old(model).entries,
            final(model).bookmarks == old(model).bookmarks,
            final(model).error_lines == old(model).error_lines,
            final(model).file_path == old(model).file_path,
            final(model).pid_counts == old(model).pid_counts,
            final(model).tid_counts == old(model).tid_counts,
            final(model).tag_counts == old(model).tag_counts,
            final(model).level_counts == old(model).level_counts,
    {
        if gen_now != pass.gen || model.entries.len() < pass.target {
            self.give_up();
            return false;
        }
        let FilterPass { gen, full, start: _, next: _, target, mut out } = pass;
        if full {
            model.filtered = out;
        } else {
            model.filtered.append(&mut out);
        }
        self.processed_len = target;
        self.last_gen = Some(gen);
        true
    }
}

/// Filtering in parts gives what filtering at once gives.
pub proof fn parts_equal_whole(
    log: Seq<EntryView>,
    f: FilterView,
    bookmarks: Set<u32>,
    from: int,
    mid: int,
    to: int,
)
    requires
        from <= mid <= to,
    ensures
        shown(log, f, bookmarks, from, to) == shown(log, f, bookmarks, from, mid) + shown(
            log,
            f,
            bookmarks,
            mid,
            to,
        ),
    decreases to - mid,
{
    if mid < to {
        parts_equal_whole(log, f, bookmarks, from, mid, to - 1);
        let a = shown(log, f, bookmarks, from, mid);
        let b = shown(log, f, bookmarks, mid, to - 1);
        assert((a + b).push((to - 1) as u32) == a + b.push((to - 1) as u32));
    } else {
        assert(shown(log, f, bookmarks, from, mid) + Seq::<u32>::empty() == shown(
            log,
            f,
            bookmarks,
            from,
            mid,
        ));
    }
}

/// Entries that come later do not change what was found among the earlier ones.
pub proof fn growth_keeps_prefix(
    log: Seq<EntryView>,
    grown: Seq<EntryView>,
    f: FilterView,
    bookmarks: Set<u32>,
    from: int,
    to: int,
)
    requires
        0 <= from,
        to <= log.len() <= grown.len(),
        grown.take(log.len() as int) == log,
    ensures
        shown(grown, f, bookmarks, from, to) == shown(log, f, bookmarks, from, to),
    decreases to - from,
{
    if from < to {
        growth_keeps_prefix(log, grown, f, bookmarks, from, to - 1);
        assert(grown.take(log.len() as int)[to - 1] == log[to - 1]);
    }
}

/// The positions found are ascending, lie in the range that was looked at, and
/// are exactly those of the entries that pass.
pub proof fn shown_exact(
    log: Seq<EntryView>,
    f: FilterView,
    bookmarks: Set<u32>,
    from: int,
    to: int,
)
    requires
        0 <= from <= to <= log.len() <= u32::MAX,
    ensures
        forall|i: int|
            0 <= i < shown(log, f, bookmarks, from, to).len() ==> from <= (#[trigger] shown(
                log,
                f,
                bookmarks,
                from,
                to,
            )[i]) < to,
        forall|i: int, j: int|
            0 <= i < j < shown(log, f, bookmarks, from, to).len() ==> shown(
                log,
                f,
                bookmarks,
                from,
                to,
            )[i] < shown(log, f, bookmarks, from, to)[j],
        forall|p: int|
            from <= p < to ==> (#[trigger] shown(log, f, bookmarks, from, to).contains(p as u32)
                <==> filter::passes(f, log[p], p as u32, bookmarks)),
    decreases to - from,
{
    if from < to {
        shown_exact(log, f, bookmarks, from, to - 1);
        let before = shown(log, f, bookmarks, from, to - 1);
        let all = shown(log, f, bookmarks, from, to);
        assert forall|p: int| from <= p < to implies (#[trigger] all.contains(p as u32)
            <==> filter::passes(f, log[p], p as u32, bookmarks)) by {
            if p < to - 1 {
                assert(before.contains(p as u32) <==> filter::passes(
                    f,
                    log[p],
                    p as u32,
                    bookmarks,
                ));
                if before.contains(p as u32) {
                    let i = choose|i: int| 0 <= i < before.len() && before[i] == p as u32;
                    assert(all[i] == p as u32);
                }
                if all.contains(p as u32) {
                    let i = choose|i: int| 0 <= i < all.len() && all[i] == p as u32;
                    assert(before[i] == p as u32);
                }
            } else {
                if filter::passes(f, log[p], p as u32, bookmarks) {
                    assert(all[before.len() as int] == p as u32);
                } else if all.contains(p as u32) {
                    let i = choose|i: int| 0 <= i < all.len() && all[i] == p as u32;
                    assert(before[i] < to - 1);
                }
            }
        }
    }
}

/// A pass that found what passes among its entries, put into a log whose
/// positions were current before it, makes them current again: filtering only
/// what is new gives the same as filtering everything.
pub proof fn commit_makes_current(
    log: Seq<EntryView>,
    f: FilterView,
    bookmarks: Set<u32>,
    before: Seq<u32>,
    pass: FilterPass,
)
    requires
        pass.exact(log, f, bookmarks),
        pass.next == pass.target,
        pass.full ==> pass.start == 0,
        !pass.full ==> before == shown(log, f, bookmarks, 0, pass.start as int),
    ensures
        (if pass.full {
            pass.out@
        } else {
            before + pass.out@
        }) == shown(log, f, bookmarks, 0, pass.target as int),
{
    if !pass.full {
        parts_equal_whole(log, f, bookmarks, 0, pass.start as int, pass.target as int);
    }
}

/// Rows that are up to date stand for entries of the log, in the order of the log.
pub proof fn current_rows_are_in_order(progress: FilterProgress, model: &Model, f: FilterView)
    requires
        progress.current(model, f),
        model.entries@.len() <= u32::MAX,
    ensures
        indicator::ascending(model.filtered@),
        ui::rows_ok(model),
{
    shown_exact(model.log(), f, model.bookmarks@, 0, progress.processed_len as int);
}

} // verus!
