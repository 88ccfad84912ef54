//! Taking lines into the log.
//!
//! Every line carries the number of the source that it comes from. Lines of a
//! source that has been replaced are dropped.

use crate::model;
use crate::model::{EntryView, LogFormat, Model};
use crate::parser;
use crate::parser::LinePatterns;
use vstd::prelude::*;
use vstd::utf8::*;

verus! {

/// A log and the format that is expected of the next line.
pub struct IngestView {
    pub log: Seq<EntryView>,
    pub hint: LogFormat,
}

/// The expected format after a line: the first known format that was found
/// stays.
pub open spec fn next_hint(hint: LogFormat, found: LogFormat) -> LogFormat {
    if hint == LogFormat::Unknown {
        found
    } else {
        hint
    }
}

/// The log after one line.
pub open spec fn ingest_line(state: IngestView, line: Seq<char>) -> IngestView {
    let format = parser::format_of(line, state.hint);
    IngestView {
        log: state.log.push(
            model::numbered(parser::entry_in(line, format), (state.log.len() + 1) as u64),
        ),
        hint: next_hint(state.hint, format),
    }
}

/// The log after some lines, of which those of the source `current` count.
pub open spec fn ingest_lines(
    state: IngestView,
    lines: Seq<(u64, Seq<char>)>,
    current: u64,
) -> IngestView
    decreases lines.len(),
{
    if lines.len() == 0 {
        state
    } else {
        let before = ingest_lines(state, lines.drop_last(), current);
        if lines.last().0 == current {
            ingest_line(before, lines.last().1)
        } else {
            before
        }
    }
}

/// The lines with their sources.
pub open spec fn line_views(lines: Seq<(u64, String)>) -> Seq<(u64, Seq<char>)> {
    lines.map_values(|l: (u64, String)| (l.0, l.1@))
}

/// Every line is short enough for its byte positions to be recorded.
pub open spec fn lines_fit(lines: Seq<(u64, String)>) -> bool {
    forall|i: int| 0 <= i < lines.len() ==> encode_utf8((#[trigger] lines[i]).1@).len() <= u32::MAX
}

/// What taking in lines carries from one batch to the next.
pub struct Ingest {
    patterns: LinePatterns,
    hint: LogFormat,
    hint_epoch: Option<u64>,
}

impl Ingest {
    /// The expected format for lines of the source `current`, whose own expected
    /// format is `source_hint`: a new source begins with its own.
    pub closed spec fn hint_for(&self, current: u64, source_hint: LogFormat) -> LogFormat {
        if self.hint_epoch == Some(current) {
            self.hint
        } else {
            source_hint
        }
    }

    /// Nothing has been taken in.
    pub fn new() -> (r: Self)
        ensures
            forall|current: u64, source_hint: LogFormat| #[trigger]
                r.hint_for(current, source_hint) == source_hint,
    {
        Ingest { patterns: LinePatterns::new(), hint: LogFormat::Unknown, hint_epoch: None }
    }

    /// Takes a batch of lines into the log. Tells whether the log has grown.
    pub fn batch(
        &mut self,
        model: &mut Model,
        lines: Vec<(u64, String)>,
        current: u64,
        source_hint: LogFormat,
    ) -> (r: bool)
        requires
            old(model).wf(),
            old(model).entries@.len() + lines@.len() <= u32::MAX,
            lines_fit(lines@),
        ensures
            final(model).wf(),
            ({
                let before = IngestView {
                    log: old(model).log(),
                    hint: old(self).hint_for(current, source_hint),
                };
                let after = ingest_lines(before, line_views(lines@), current);
                &&& final(model).log() == after.log
                &&& forall|other: LogFormat| #[trigger]
                    final(self).hint_for(current, other) == after.hint
                &&& r == (after.log.len() > before.log.len())
            }),
            forall|epoch: u64, other: LogFormat|
                epoch != current ==> #[trigger] final(self).hint_for(epoch, other) == other,
            final(model).filtered == old(model).filtered,
            final(model).bookmarks == old(model).bookmarks,
            final(model).file_path == old(model).file_path,
    {
        let known = match self.hint_epoch {
            Some(epoch) => epoch == current,
            None => false,
        };
        if !known {
            self.hint = source_hint;
            self.hint_epoch = Some(current);
        }
        let ghost start = IngestView { log: model.log(), hint: self.hint };
        let ghost all = line_views(lines@);
        let ghost total = lines@;
        let before: usize = model.entries.len();
        assert(all.take(0) == Seq::<(u64, Seq<char>)>::empty());
        for item in it: lines
            invariant
                it.seq() == total,
                all == line_views(total),
                lines_fit(total),
                model.wf(),
                before == start.log.len(),
                before + total.len() <= u32::MAX,
                before <= model.entries@.len() <= before + it.index(),
                self.hint_epoch == Some(current),
                model.log() == ingest_lines(start, all.take(it.index() as int), current).log,
                self.hint == ingest_lines(start, all.take(it.index() as int), current).hint,
                model.filtered == old(model).filtered,
                model.bookmarks == old(model).bookmarks,
                model.file_path == old(model).file_path,
        {
            let ghost i = it.index() as int;
            assert(item == total[i]);
            assert(all.take(i + 1).drop_last() == all.take(i));
            assert(all.take(i + 1).last() == (item.0, item.1@));
            let (epoch, line) = item;
            if epoch == current {
                let (entry, format) = self.patterns.parse(line, self.hint);
                if self.hint == LogFormat::Unknown {
                    self.hint = format;
                }
                model.append(entry);
            }
        }
        assert(all.take(total.len() as int) == all);
        model.entries.len() > before
    }
}

/// Lines of replaced sources leave no trace.
pub proof fn replaced_sources_are_dropped(
    state: IngestView,
    lines: Seq<(u64, Seq<char>)>,
    current: u64,
)
    requires
        forall|i: int| 0 <= i < lines.len() ==> (#[trigger] lines[i]).0 != current,
    ensures
        ingest_lines(state, lines, current) == state,
    decreases lines.len(),
{
    if lines.len() > 0 {
        let rest = lines.drop_last();
        assert forall|i: int| 0 <= i < rest.len() implies (#[trigger] rest[i]).0 != current by {
            assert(rest[i] == lines[i]);
        }
        replaced_sources_are_dropped(state, rest, current);
        assert(lines.last() == lines[lines.len() - 1]);
    }
}

/// How the lines are cut into batches does not matter.
pub proof fn batches_compose(
    state: IngestView,
    first: Seq<(u64, Seq<char>)>,
    second: Seq<(u64, Seq<char>)>,
    current: u64,
)
    ensures
        ingest_lines(state, first + second, current) == ingest_lines(
            ingest_lines(state, first, current),
            second,
            current,
        ),
    decreases second.len(),
{
    if second.len() == 0 {
        assert(first + second == first);
    } else {
        batches_compose(state, first, second.drop_last(), current);
        assert((first + second).drop_last() == first + second.drop_last());
        assert((first + second).last() == second.last());
    }
}

/// Every line of the current source becomes one entry, in order, and the entry
/// holds the line unchanged.
pub proof fn every_line_is_kept(state: IngestView, lines: Seq<(u64, Seq<char>)>, current: u64, i: int)
    requires
        forall|k: int| 0 <= k < lines.len() ==> (#[trigger] lines[k]).0 == current,
        0 <= i < lines.len(),
    ensures
        ingest_lines(state, lines, current).log.len() == state.log.len() + lines.len(),
        ingest_lines(state, lines, current).log[state.log.len() + i].raw == lines[i].1,
    decreases lines.len(),
{
    let rest = lines.drop_last();
    assert forall|k: int| 0 <= k < rest.len() implies (#[trigger] rest[k]).0 == current by {
        assert(rest[k] == lines[k]);
    }
    assert(lines[lines.len() - 1].0 == current);
    if rest.len() > 0 {
        every_line_is_kept(state, rest, current, if i < rest.len() {
            i
        } else {
            0
        });
    }
}

/// What was in the log stays, and the new entries are numbered on from there.
pub proof fn log_only_grows(state: IngestView, lines: Seq<(u64, Seq<char>)>, current: u64, i: int)
    requires
        state.log.len() + lines.len() <= u64::MAX,
        0 <= i < ingest_lines(state, lines, current).log.len(),
    ensures
        i < state.log.len() ==> ingest_lines(state, lines, current).log[i] == state.log[i],
        i >= state.log.len() ==> ingest_lines(state, lines, current).log[i].line_no == i + 1,
        ingest_lines(state, lines, current).log.len() <= state.log.len() + lines.len(),
    decreases lines.len(),
{
    if lines.len() > 0 {
        let before = ingest_lines(state, lines.drop_last(), current);
        if i < before.log.len() {
            log_only_grows(state, lines.drop_last(), current, i);
        } else if before.log.len() > 0 {
            log_only_grows(state, lines.drop_last(), current, before.log.len() - 1);
        }
        lemma_log_len(state, lines.drop_last(), current);
    }
}

proof fn lemma_log_len(state: IngestView, lines: Seq<(u64, Seq<char>)>, current: u64)
    ensures
        state.log.len() <= ingest_lines(state, lines, current).log.len() <= state.log.len()
            + lines.len(),
    decreases lines.len(),
{
    if lines.len() > 0 {
        lemma_log_len(state, lines.drop_last(), current);
    }
}

/// Once a format is expected it stays the expected one, and until then the format of the
/// line that was read last is.
pub proof fn expected_format_stays(
    state: IngestView,
    lines: Seq<(u64, Seq<char>)>,
    current: u64,
    line: Seq<char>,
)
    ensures
        state.hint != LogFormat::Unknown ==> ingest_lines(state, lines, current).hint
            == state.hint,
        state.hint == LogFormat::Unknown ==> ingest_line(state, line).hint == parser::format_of(
            line,
            LogFormat::Unknown,
        ),
    decreases lines.len(),
{
    if lines.len() > 0 {
        expected_format_stays(state, lines.drop_last(), current, line);
    }
}

} // verus!
