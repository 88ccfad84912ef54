//! Log entries and the log that is being viewed.

use crate::collections::Counts;
use crate::utf8;
use crate::utf8::slice_str;
use std::collections::HashSet;
use vstd::prelude::*;
use vstd::std_specs::hash::*;
use vstd::utf8::*;

verus! {

broadcast use group_hash_axioms;

/// `String::into_boxed_str` keeps the text of the string.
pub assume_specification[ String::into_boxed_str ](s: String) -> (b: Box<str>)
    ensures
        b@ == s@,
;

/// A set of log levels.
#[derive(Debug, Clone, Copy, PartialEq, Eq, Structural, Hash)]
pub struct LevelMask {
    pub bits: u8,
}

impl LevelMask {
    /// The level verbose.
    #[verifier::allow_in_spec]
    pub fn verbose() -> Self
        returns
            (LevelMask { bits: 1 }),
    {
        LevelMask { bits: 1 }
    }

    /// The level debug.
    #[verifier::allow_in_spec]
    pub fn debug() -> Self
        returns
            (LevelMask { bits: 2 }),
    {
        LevelMask { bits: 2 }
    }

    /// The level info.
    #[verifier::allow_in_spec]
    pub fn info() -> Self
        returns
            (LevelMask { bits: 4 }),
    {
        LevelMask { bits: 4 }
    }

    /// The level warning.
    #[verifier::allow_in_spec]
    pub fn warn() -> Self
        returns
            (LevelMask { bits: 8 }),
    {
        LevelMask { bits: 8 }
    }

    /// The level error.
    #[verifier::allow_in_spec]
    pub fn error() -> Self
        returns
            (LevelMask { bits: 16 }),
    {
        LevelMask { bits: 16 }
    }

    /// The level fatal.
    #[verifier::allow_in_spec]
    pub fn fatal() -> Self
        returns
            (LevelMask { bits: 32 }),
    {
        LevelMask { bits: 32 }
    }

    /// No level.
    #[verifier::allow_in_spec]
    pub fn empty() -> Self
        returns
            (LevelMask { bits: 0 }),
    {
        LevelMask { bits: 0 }
    }

    /// Every level.
    #[verifier::allow_in_spec]
    pub fn all() -> Self
        returns
            (LevelMask { bits: 63 }),
    {
        LevelMask { bits: 63 }
    }

    /// Whether every level of `other` is in this set.
    #[verifier::allow_in_spec]
    pub fn contains(self, other: Self) -> bool
        returns
            self.bits & other.bits == other.bits,
    {
        self.bits & other.bits == other.bits
    }

    /// Whether some level of `other` is in this set.
    #[verifier::allow_in_spec]
    pub fn intersects(self, other: Self) -> bool
        returns
            self.bits & other.bits != 0,
    {
        self.bits & other.bits != 0
    }

    /// The levels of both sets.
    #[verifier::allow_in_spec]
    pub fn union(self, other: Self) -> Self
        returns
            (LevelMask { bits: self.bits | other.bits }),
    {
        LevelMask { bits: self.bits | other.bits }
    }

    /// The level that a letter of a log line stands for.
    #[verifier::allow_in_spec]
    pub fn from_char(c: char) -> Option<Self>
        returns
            (match c {
                'V' | 'v' => Some(LevelMask::verbose()),
                'D' | 'd' => Some(LevelMask::debug()),
                'I' | 'i' => Some(LevelMask::info()),
                'W' | 'w' => Some(LevelMask::warn()),
                'E' | 'e' => Some(LevelMask::error()),
                'F' | 'f' | 'A' | 'a' => Some(LevelMask::fatal()),
                _ => None,
            }),
    {
        match c {
            'V' | 'v' => Some(LevelMask::verbose()),
            'D' | 'd' => Some(LevelMask::debug()),
            'I' | 'i' => Some(LevelMask::info()),
            'W' | 'w' => Some(LevelMask::warn()),
            'E' | 'e' => Some(LevelMask::error()),
            'F' | 'f' | 'A' | 'a' => Some(LevelMask::fatal()),
            _ => None,
        }
    }

    /// The letter of a single level, and `?` for any other set.
    #[verifier::allow_in_spec]
    pub fn as_char(self) -> char
        returns
            (if self == LevelMask::verbose() {
                'V'
            } else if self == LevelMask::debug() {
                'D'
            } else if self == LevelMask::info() {
                'I'
            } else if self == LevelMask::warn() {
                'W'
            } else if self == LevelMask::error() {
                'E'
            } else if self == LevelMask::fatal() {
                'F'
            } else {
                '?'
            }),
    {
        if self == LevelMask::verbose() {
            'V'
        } else if self == LevelMask::debug() {
            'D'
        } else if self == LevelMask::info() {
            'I'
        } else if self == LevelMask::warn() {
            'W'
        } else if self == LevelMask::error() {
            'E'
        } else if self == LevelMask::fatal() {
            'F'
        } else {
            '?'
        }
    }

    /// The level of a kernel log priority.
    #[verifier::allow_in_spec]
    pub fn from_kernel_digit(d: u8) -> Self
        returns
            (if d <= 2 {
                LevelMask::fatal()
            } else if d == 3 {
                LevelMask::error()
            } else if d == 4 {
                LevelMask::warn()
            } else if d <= 6 {
                LevelMask::info()
            } else {
                LevelMask::debug()
            }),
    {
        if d <= 2 {
            LevelMask::fatal()
        } else if d == 3 {
            LevelMask::error()
        } else if d == 4 {
            LevelMask::warn()
        } else if d <= 6 {
            LevelMask::info()
        } else {
            LevelMask::debug()
        }
    }

    /// Whether an entry of this level is an error line.
    #[verifier::allow_in_spec]
    pub fn is_error(self) -> bool
        returns
            self.contains(LevelMask::error()) || self.contains(LevelMask::fatal()),
    {
        self.contains(LevelMask::error()) || self.contains(LevelMask::fatal())
    }
}

/// The single levels, from verbose to fatal.
pub open spec fn level_mask_at(i: int) -> LevelMask {
    if i == 0 {
        LevelMask::verbose()
    } else if i == 1 {
        LevelMask::debug()
    } else if i == 2 {
        LevelMask::info()
    } else if i == 3 {
        LevelMask::warn()
    } else if i == 4 {
        LevelMask::error()
    } else {
        LevelMask::fatal()
    }
}

/// The single levels, from verbose to fatal.
pub fn level_masks() -> (r: [LevelMask; 6])
    ensures
        forall|i: int| 0 <= i < 6 ==> #[trigger] r@[i] == level_mask_at(i),
{
    [
        LevelMask::verbose(),
        LevelMask::debug(),
        LevelMask::info(),
        LevelMask::warn(),
        LevelMask::error(),
        LevelMask::fatal(),
    ]
}

/// Position of the first level of a set among the single levels.
#[verifier::allow_in_spec]
pub fn level_index(lv: LevelMask) -> Option<usize>
    returns
        (if lv.contains(LevelMask::verbose()) {
            Some(0usize)
        } else if lv.contains(LevelMask::debug()) {
            Some(1usize)
        } else if lv.contains(LevelMask::info()) {
            Some(2usize)
        } else if lv.contains(LevelMask::warn()) {
            Some(3usize)
        } else if lv.contains(LevelMask::error()) {
            Some(4usize)
        } else if lv.contains(LevelMask::fatal()) {
            Some(5usize)
        } else {
            None
        }),
{
    if lv.contains(LevelMask::verbose()) {
        Some(0)
    } else if lv.contains(LevelMask::debug()) {
        Some(1)
    } else if lv.contains(LevelMask::info()) {
        Some(2)
    } else if lv.contains(LevelMask::warn()) {
        Some(3)
    } else if lv.contains(LevelMask::error()) {
        Some(4)
    } else if lv.contains(LevelMask::fatal()) {
        Some(5)
    } else {
        None
    }
}

/// The single levels stand at their own positions, and a level's letter stands
/// for it.
pub proof fn level_positions(i: int)
    requires
        0 <= i < 6,
    ensures
        level_index(level_mask_at(i)) == Some(i as usize),
        LevelMask::from_char(level_mask_at(i).as_char()) == Some(level_mask_at(i)),
{
    assert(1u8 & 1 == 1 && 2u8 & 1 == 0 && 4u8 & 1 == 0 && 8u8 & 1 == 0 && 16u8 & 1 == 0 && 32u8 & 1
        == 0) by (bit_vector);
    assert(2u8 & 2 == 2 && 4u8 & 2 == 0 && 8u8 & 2 == 0 && 16u8 & 2 == 0 && 32u8 & 2 == 0)
        by (bit_vector);
    assert(4u8 & 4 == 4 && 8u8 & 4 == 0 && 16u8 & 4 == 0 && 32u8 & 4 == 0) by (bit_vector);
    assert(8u8 & 8 == 8 && 16u8 & 8 == 0 && 32u8 & 8 == 0) by (bit_vector);
    assert(16u8 & 16 == 16 && 32u8 & 16 == 0 && 32u8 & 32 == 32) by (bit_vector);
}

/// The formats of log lines.
#[derive(Debug, Clone, Copy, PartialEq, Eq, Structural)]
pub enum LogFormat {
    Brief,
    Time,
    ThreadTime,
    HiLog,
    Kernel,
    Unknown,
}

/// Byte range of a field within its line.
pub type Span = (u32, u32);

/// The range is made of whole characters of the line.
pub open spec fn span_ok(line: Seq<char>, span: Span) -> bool {
    utf8::whole_chars(line, span.0 as int, span.1 as int)
}

/// The text of a range of the line.
pub open spec fn span_text(line: Seq<char>, span: Span) -> Seq<char> {
    utf8::byte_slice(line, span.0 as int, span.1 as int)
}

/// A line and the ranges of its fields: one allocation for the whole entry.
#[derive(Debug)]
pub struct Line {
    raw: Box<str>,
    date: Span,
    time: Span,
    pid: Span,
    tid: Span,
    uid: Span,
    tag: Span,
    message: Span,
}

/// The text of a line and of its fields.
#[verifier::ext_equal]
pub struct LineView {
    pub raw: Seq<char>,
    pub date: Seq<char>,
    pub time: Seq<char>,
    pub pid: Seq<char>,
    pub tid: Seq<char>,
    pub uid: Seq<char>,
    pub tag: Seq<char>,
    pub message: Seq<char>,
}

impl View for Line {
    type V = LineView;

    closed spec fn view(&self) -> LineView {
        LineView {
            raw: self.raw@,
            date: span_text(self.raw@, self.date),
            time: span_text(self.raw@, self.time),
            pid: span_text(self.raw@, self.pid),
            tid: span_text(self.raw@, self.tid),
            uid: span_text(self.raw@, self.uid),
            tag: span_text(self.raw@, self.tag),
            message: span_text(self.raw@, self.message),
        }
    }
}

impl Line {
    #[verifier::type_invariant]
    spec fn type_inv(self) -> bool {
        &&& span_ok(self.raw@, self.date)
        &&& span_ok(self.raw@, self.time)
        &&& span_ok(self.raw@, self.pid)
        &&& span_ok(self.raw@, self.tid)
        &&& span_ok(self.raw@, self.uid)
        &&& span_ok(self.raw@, self.tag)
        &&& span_ok(self.raw@, self.message)
    }
}

/// What a log entry holds.
#[verifier::ext_equal]
pub struct EntryView {
    pub raw: Seq<char>,
    pub line_no: u64,
    pub level: LevelMask,
    pub date: Seq<char>,
    pub time: Seq<char>,
    pub pid: Seq<char>,
    pub tid: Seq<char>,
    pub uid: Seq<char>,
    pub tag: Seq<char>,
    pub message: Seq<char>,
}

/// One line of a log. The line is kept as it came; each field is a range of it.
#[derive(Debug)]
pub struct LogEntry {
    pub line: Line,
    pub line_no: u64,
    pub level: LevelMask,
}

impl View for LogEntry {
    type V = EntryView;

    open spec fn view(&self) -> EntryView {
        EntryView {
            raw: self.line@.raw,
            line_no: self.line_no,
            level: self.level,
            date: self.line@.date,
            time: self.line@.time,
            pid: self.line@.pid,
            tid: self.line@.tid,
            uid: self.line@.uid,
            tag: self.line@.tag,
            message: self.line@.message,
        }
    }
}

impl LogEntry {
    /// An entry with the given line and field ranges, not yet numbered.
    pub fn new(
        raw: Box<str>,
        level: LevelMask,
        date: Span,
        time: Span,
        pid: Span,
        tid: Span,
        uid: Span,
        tag: Span,
        message: Span,
    ) -> (r: Self)
        requires
            span_ok(raw@, date),
            span_ok(raw@, time),
            span_ok(raw@, pid),
            span_ok(raw@, tid),
            span_ok(raw@, uid),
            span_ok(raw@, tag),
            span_ok(raw@, message),
        ensures
            r@ == (EntryView {
                raw: raw@,
                line_no: 0,
                level,
                date: span_text(raw@, date),
                time: span_text(raw@, time),
                pid: span_text(raw@, pid),
                tid: span_text(raw@, tid),
                uid: span_text(raw@, uid),
                tag: span_text(raw@, tag),
                message: span_text(raw@, message),
            }),
    {
        LogEntry {
            line: Line { raw, date, time, pid, tid, uid, tag, message },
            line_no: 0,
            level,
        }
    }

    /// The text of a range of the line.
    fn slice(&self, s: Span) -> (r: &str)
        requires
            span_ok(self@.raw, s),
        ensures
            r@ == span_text(self@.raw, s),
    {
        slice_str(&*self.line.raw, s.0 as usize, s.1 as usize)
    }

    /// The line as it came.
    pub fn raw(&self) -> (r: &str)
        ensures
            r@ == self@.raw,
    {
        &*self.line.raw
    }

    /// The date field.
    pub fn date(&self) -> (r: &str)
        ensures
            r@ == self@.date,
    {
        proof {
            use_type_invariant(&self.line);
        }
        self.slice(self.line.date)
    }

    /// The time field.
    pub fn time(&self) -> (r: &str)
        ensures
            r@ == self@.time,
    {
        proof {
            use_type_invariant(&self.line);
        }
        self.slice(self.line.time)
    }

    /// The process id.
    pub fn pid(&self) -> (r: &str)
        ensures
            r@ == self@.pid,
    {
        proof {
            use_type_invariant(&self.line);
        }
        self.slice(self.line.pid)
    }

    /// The thread id.
    pub fn tid(&self) -> (r: &str)
        ensures
            r@ == self@.tid,
    {
        proof {
            use_type_invariant(&self.line);
        }
        self.slice(self.line.tid)
    }

    /// The user id.
    pub fn uid(&self) -> (r: &str)
        ensures
            r@ == self@.uid,
    {
        proof {
            use_type_invariant(&self.line);
        }
        self.slice(self.line.uid)
    }

    /// The tag.
    pub fn tag(&self) -> (r: &str)
        ensures
            r@ == self@.tag,
    {
        proof {
            use_type_invariant(&self.line);
        }
        self.slice(self.line.tag)
    }

    /// The message.
    pub fn message(&self) -> (r: &str)
        ensures
            r@ == self@.message,
    {
        proof {
            use_type_invariant(&self.line);
        }
        self.slice(self.line.message)
    }

    /// An entry made of separate fields, whose line is the fields in a row.
    pub fn from_fields(
        date: &str,
        time: &str,
        level: LevelMask,
        pid: &str,
        tid: &str,
        tag: &str,
        message: &str,
    ) -> (r: Self)
        requires
            encode_utf8(date@ + time@ + pid@ + tid@ + tag@ + message@).len() <= u32::MAX,
        ensures
            r@ == (EntryView {
                raw: date@ + time@ + pid@ + tid@ + tag@ + message@,
                line_no: 1,
                level,
                date: date@,
                time: time@,
                pid: pid@,
                tid: tid@,
                uid: seq![],
                tag: tag@,
                message: message@,
            }),
    {
        let ghost all = date@ + time@ + pid@ + tid@ + tag@ + message@;
        let mut raw = String::new();
        assert(all.take((raw@ + date@).len() as int) == raw@ + date@);
        let d = push_field(&mut raw, date, Ghost(all));
        assert(all.take((raw@ + time@).len() as int) == raw@ + time@);
        let t = push_field(&mut raw, time, Ghost(all));
        assert(all.take((raw@ + pid@).len() as int) == raw@ + pid@);
        let p = push_field(&mut raw, pid, Ghost(all));
        assert(all.take((raw@ + tid@).len() as int) == raw@ + tid@);
        let i = push_field(&mut raw, tid, Ghost(all));
        assert(all.take((raw@ + tag@).len() as int) == raw@ + tag@);
        let g = push_field(&mut raw, tag, Ghost(all));
        assert(all.take((raw@ + message@).len() as int) == raw@ + message@);
        let m = push_field(&mut raw, message, Ghost(all));
        assert(raw@ == all);
        proof {
            utf8::lemma_byte_offset_boundary(all, 0);
            utf8::lemma_byte_offset_end(all);
            utf8::lemma_byte_slice_chars(all, 0, 0);
        }
        LogEntry {
            line: Line {
                raw: raw.into_boxed_str(),
                date: d,
                time: t,
                pid: p,
                tid: i,
                uid: (0, 0),
                tag: g,
                message: m,
            },
            line_no: 1,
            level,
        }
    }
}

/// Appends a field to a line that will in the end be `all`, and gives its range.
fn push_field(raw: &mut String, s: &str, all: Ghost<Seq<char>>) -> (r: Span)
    requires
        encode_utf8(all@).len() <= u32::MAX,
        (old(raw)@ + s@).len() <= all@.len(),
        all@.take((old(raw)@ + s@).len() as int) == old(raw)@ + s@,
    ensures
        final(raw)@ == old(raw)@ + s@,
        span_ok(all@, r),
        span_text(all@, r) == s@,
{
    let ghost before = raw@;
    let ghost i = before.len() as int;
    let ghost j = (before + s@).len() as int;
    proof {
        let head = all@.take(j);
        assert(all@.take(i) == head.take(i));
        assert(head.take(i) == before);
        assert(all@.subrange(i, j) == head.subrange(i, j));
        assert(head.subrange(i, j) == s@);
        utf8::lemma_byte_offset_grows(all@, i, j);
        utf8::lemma_byte_offset_boundary(all@, i);
        utf8::lemma_byte_offset_boundary(all@, j);
        utf8::lemma_byte_slice_chars(all@, i, j);
    }
    let start = raw.as_str().as_bytes().len() as u32;
    raw.append(s);
    let end = raw.as_str().as_bytes().len() as u32;
    (start, end)
}

/// Which encoding a file is read with.
#[derive(Debug, Clone, Copy, PartialEq, Eq, Structural)]
pub enum EncodingChoice {
    Utf8,
    Local,
}

impl Default for EncodingChoice {
    fn default() -> (r: Self)
        ensures
            r == EncodingChoice::Utf8,
    {
        EncodingChoice::Utf8
    }
}

/// How often `x` stands in `s`.
pub open spec fn occurrences(s: Seq<Seq<char>>, x: Seq<char>) -> nat
    decreases s.len(),
{
    if s.len() == 0 {
        0
    } else {
        occurrences(s.drop_last(), x) + if s.last() == x {
            1nat
        } else {
            0nat
        }
    }
}

/// The values that occur, other than the empty one, and how often.
pub open spec fn tally(s: Seq<Seq<char>>) -> Map<Seq<char>, nat> {
    Map::new(
        |x: Seq<char>| x.len() > 0 && occurrences(s, x) > 0,
        |x: Seq<char>| occurrences(s, x),
    )
}

/// What the entries hold.
pub open spec fn views(entries: Seq<LogEntry>) -> Seq<EntryView> {
    entries.map_values(|e: LogEntry| e@)
}

/// The process ids of the entries.
pub open spec fn pids(log: Seq<EntryView>) -> Seq<Seq<char>> {
    log.map_values(|e: EntryView| e.pid)
}

/// The thread ids of the entries.
pub open spec fn tids(log: Seq<EntryView>) -> Seq<Seq<char>> {
    log.map_values(|e: EntryView| e.tid)
}

/// The tags of the entries.
pub open spec fn tags(log: Seq<EntryView>) -> Seq<Seq<char>> {
    log.map_values(|e: EntryView| e.tag)
}

/// Number of entries whose level stands at position `k` of the levels.
pub open spec fn level_tally(log: Seq<EntryView>, k: int) -> nat
    decreases log.len(),
{
    if log.len() == 0 {
        0
    } else {
        level_tally(log.drop_last(), k) + if level_index(log.last().level) == Some(k as usize) {
            1nat
        } else {
            0nat
        }
    }
}

/// Positions of the entries that are error lines.
pub open spec fn error_positions(log: Seq<EntryView>) -> Seq<u32>
    decreases log.len(),
{
    if log.len() == 0 {
        seq![]
    } else if log.last().level.is_error() {
        error_positions(log.drop_last()).push((log.len() - 1) as u32)
    } else {
        error_positions(log.drop_last())
    }
}

/// An entry with its line number.
pub open spec fn numbered(e: EntryView, line_no: u64) -> EntryView {
    EntryView { line_no, ..e }
}

/// The log that is being viewed.
pub struct Model {
    pub entries: Vec<LogEntry>,
    /// Positions of the entries that pass the filter, ascending.
    pub filtered: Vec<u32>,
    pub bookmarks: HashSet<u32>,
    pub error_lines: Vec<u32>,
    pub file_path: Option<String>,
    pub pid_counts: Counts,
    pub tid_counts: Counts,
    pub tag_counts: Counts,
    /// Number of entries of each level, from verbose to fatal.
    pub level_counts: [usize; 6],
}

impl Model {
    /// What the entries hold.
    pub open spec fn log(&self) -> Seq<EntryView> {
        views(self.entries@)
    }

    /// What the log knows of its entries agrees with them: they are numbered in
    /// order, and the error lines and counts are theirs.
    pub open spec fn wf(&self) -> bool {
        &&& self.entries@.len() <= u32::MAX
        &&& forall|i: int| 0 <= i < self.log().len() ==> (#[trigger] self.log()[i]).line_no == i + 1
        &&& self.error_lines@ == error_positions(self.log())
        &&& self.pid_counts@ == tally(pids(self.log()))
        &&& self.tid_counts@ == tally(tids(self.log()))
        &&& self.tag_counts@ == tally(tags(self.log()))
        &&& forall|k: int|
            0 <= k < 6 ==> #[trigger] self.level_counts@[k] == level_tally(self.log(), k)
    }

    /// The log holds nothing.
    pub open spec fn is_clear(&self) -> bool {
        &&& self.wf()
        &&& self.entries@.len() == 0
        &&& self.filtered@.len() == 0
        &&& self.bookmarks@ == Set::<u32>::empty()
        &&& self.error_lines@.len() == 0
        &&& self.file_path is None
        &&& self.pid_counts@ == Map::<Seq<char>, nat>::empty()
        &&& self.tid_counts@ == Map::<Seq<char>, nat>::empty()
        &&& self.tag_counts@ == Map::<Seq<char>, nat>::empty()
        &&& forall|k: int| 0 <= k < 6 ==> #[trigger] self.level_counts@[k] == 0
    }

    /// Forgets everything.
    pub fn clear(&mut self)
        ensures
            final(self).is_clear(),
    {
        self.entries.clear();
        self.filtered.clear();
        self.bookmarks.clear();
        self.error_lines.clear();
        self.file_path = None;
        self.pid_counts.clear();
        self.tid_counts.clear();
        self.tag_counts.clear();
        self.level_counts = [0, 0, 0, 0, 0, 0];
        proof {
            assert(self.log() == Seq::<EntryView>::empty());
            assert(pids(self.log()) == Seq::<Seq<char>>::empty());
            assert(tids(self.log()) == Seq::<Seq<char>>::empty());
            assert(tags(self.log()) == Seq::<Seq<char>>::empty());
            assert(tally(Seq::<Seq<char>>::empty()) =~= Map::<Seq<char>, nat>::empty());
        }
    }

    /// Numbers an entry and puts it at the end of the log.
    pub fn append(&mut self, entry: LogEntry)
        requires
            old(self).wf(),
            old(self).entries@.len() < u32::MAX,
        ensures
            final(self).wf(),
            final(self).log() == old(self).log().push(
                numbered(entry@, (old(self).log().len() + 1) as u64),
            ),
            final(self).filtered == old(self).filtered,
            final(self).bookmarks == old(self).bookmarks,
            final(self).file_path == old(self).file_path,
    {
        let ghost before = self.log();
        let mut entry = entry;
        let position: usize = self.entries.len();
        entry.line_no = (position as u64) + 1;
        if entry.level.is_error() {
            self.error_lines.push(position as u32);
        }
        proof {
            lemma_occurrences_bounded(pids(before), entry@.pid);
            lemma_occurrences_bounded(tids(before), entry@.tid);
            lemma_occurrences_bounded(tags(before), entry@.tag);
            lemma_tally_push(pids(before), entry@.pid);
            lemma_tally_push(tids(before), entry@.tid);
            lemma_tally_push(tags(before), entry@.tag);
        }
        bump_count(&mut self.pid_counts, entry.pid());
        bump_count(&mut self.tid_counts, entry.tid());
        bump_count(&mut self.tag_counts, entry.tag());
        let slot = level_index(entry.level);
        if let Some(idx) = slot {
            proof {
                lemma_level_tally_bounded(before, idx as int);
            }
            self.level_counts[idx] = self.level_counts[idx] + 1;
        }
        let ghost added = entry@;
        self.entries.push(entry);
        proof {
            let log = self.log();
            assert(log == before.push(added));
            assert(log.drop_last() == before);
            assert(pids(log) == pids(before).push(added.pid));
            assert(tids(log) == tids(before).push(added.tid));
            assert(tags(log) == tags(before).push(added.tag));
        }
    }
}

impl Default for Model {
    fn default() -> (r: Self)
        ensures
            r.is_clear(),
    {
        let mut m = Model {
            entries: Vec::new(),
            filtered: Vec::new(),
            bookmarks: HashSet::new(),
            error_lines: Vec::new(),
            file_path: None,
            pid_counts: Counts::new(),
            tid_counts: Counts::new(),
            tag_counts: Counts::new(),
            level_counts: [0, 0, 0, 0, 0, 0],
        };
        m.clear();
        m
    }
}

/// The counts after one more occurrence of `key`; an empty key is not counted.
pub open spec fn bumped(counts: Map<Seq<char>, nat>, key: Seq<char>) -> Map<Seq<char>, nat> {
    if key.len() == 0 {
        counts
    } else if counts.contains_key(key) {
        counts.insert(key, counts[key] + 1)
    } else {
        counts.insert(key, 1)
    }
}

/// Counts one more occurrence of `key`, unless it is empty.
pub fn bump_count(map: &mut Counts, key: &str)
    requires
        old(map)@.contains_key(key@) ==> old(map)@[key@] < usize::MAX,
    ensures
        final(map)@ == bumped(old(map)@, key@),
{
    if key.is_empty() {
        return;
    }
    map.bump(key);
}

/// A value occurs at most as often as there are values.
proof fn lemma_occurrences_bounded(s: Seq<Seq<char>>, x: Seq<char>)
    ensures
        occurrences(s, x) <= s.len(),
    decreases s.len(),
{
    if s.len() > 0 {
        lemma_occurrences_bounded(s.drop_last(), x);
    }
}

/// A level counts at most as often as there are entries.
proof fn lemma_level_tally_bounded(log: Seq<EntryView>, k: int)
    ensures
        level_tally(log, k) <= log.len(),
    decreases log.len(),
{
    if log.len() > 0 {
        lemma_level_tally_bounded(log.drop_last(), k);
    }
}

/// One more value is one more count.
pub proof fn lemma_tally_push(s: Seq<Seq<char>>, x: Seq<char>)
    ensures
        tally(s.push(x)) == bumped(tally(s), x),
{
    assert(s.push(x).drop_last() == s);
    assert(tally(s.push(x)) =~= bumped(tally(s), x));
}

/// A value occurs if and only if it stands somewhere.
pub proof fn occurrences_positive(s: Seq<Seq<char>>, x: Seq<char>)
    ensures
        occurrences(s, x) > 0 <==> s.contains(x),
    decreases s.len(),
{
    if s.len() > 0 {
        occurrences_positive(s.drop_last(), x);
        if s.contains(x) && s.last() != x {
            let i = choose|i: int| 0 <= i < s.len() && s[i] == x;
            assert(s.drop_last()[i] == x);
        }
        if s.drop_last().contains(x) {
            let i = choose|i: int| 0 <= i < s.drop_last().len() && s.drop_last()[i] == x;
            assert(s[i] == x);
        }
        assert(s[s.len() - 1] == s.last());
    }
}

/// The error lines are exactly the positions of the entries of level error or
/// fatal, in ascending order and each once.
pub proof fn error_lines_exact(log: Seq<EntryView>, i: int)
    requires
        0 <= i < log.len() <= u32::MAX,
    ensures
        error_positions(log).contains(i as u32) <==> log[i].level.is_error(),
        forall|j: int|
            0 <= j < error_positions(log).len() ==> (#[trigger] error_positions(log)[j])
                < log.len(),
        forall|j: int, k: int|
            0 <= j < k < error_positions(log).len() ==> error_positions(log)[j]
                < error_positions(log)[k],
    decreases log.len(),
{
    let rest = log.drop_last();
    let before = error_positions(rest);
    if rest.len() > 0 {
        error_lines_exact(rest, if i < rest.len() {
            i
        } else {
            0
        });
    }
    let all = error_positions(log);
    if log.last().level.is_error() {
        assert(all[before.len() as int] == (log.len() - 1) as u32);
        if i < rest.len() {
            if before.contains(i as u32) {
                let j = choose|j: int| 0 <= j < before.len() && before[j] == i as u32;
                assert(all[j] == i as u32);
            }
            if all.contains(i as u32) {
                let j = choose|j: int| 0 <= j < all.len() && all[j] == i as u32;
                assert(before[j] == i as u32);
            }
        }
    }
}

/// Counting adds up: a value stands in two lists in a row as often as in both, and in a
/// list of one value once if it is that.
pub proof fn occurrences_add_up(a: Seq<Seq<char>>, b: Seq<Seq<char>>, x: Seq<char>, y: Seq<char>)
    ensures
        occurrences(a + b, x) == occurrences(a, x) + occurrences(b, x),
        occurrences(seq![y], x) == if x == y {
            1nat
        } else {
            0nat
        },
    decreases b.len(),
{
    assert(seq![y].drop_last() =~= Seq::<Seq<char>>::empty());
    assert(occurrences(seq![y].drop_last(), x) == 0);
    if b.len() == 0 {
        assert(a + b =~= a);
    } else {
        assert((a + b).drop_last() =~= a + b.drop_last());
        occurrences_add_up(a, b.drop_last(), x, y);
    }
}

/// The entries of each level are counted: the counts of two logs in a row add up, and an
/// entry counts for its own level.
pub proof fn level_counts_add_up(a: Seq<EntryView>, b: Seq<EntryView>, e: EntryView, k: int)
    requires
        0 <= k < 6,
    ensures
        level_tally(a + b, k) == level_tally(a, k) + level_tally(b, k),
        e.level == level_mask_at(k) ==> level_tally(seq![e], k) == 1,
        forall|j: int|
            0 <= j < 6 && j != k && e.level == #[trigger] level_mask_at(j) ==> level_tally(
                seq![e],
                k,
            ) == 0,
    decreases b.len(),
{
    level_positions(k);
    assert(seq![e].drop_last() =~= Seq::<EntryView>::empty());
    assert(level_tally(seq![e].drop_last(), k) == 0);
    assert forall|j: int|
        0 <= j < 6 && j != k && e.level == #[trigger] level_mask_at(j) implies level_tally(
        seq![e],
        k,
    ) == 0 by {
        level_positions(j);
    }
    if b.len() == 0 {
        assert(a + b =~= a);
    } else {
        assert((a + b).drop_last() =~= a + b.drop_last());
        level_counts_add_up(a, b.drop_last(), e, k);
    }
}

/// The process, the thread and the tag of each entry are counted, each among its own
/// values, unless they are empty; and nothing else is.
pub proof fn values_of_entries_are_counted(m: Model, i: int, x: Seq<char>)
    requires
        m.wf(),
        0 <= i < m.entries@.len(),
    ensures
        ({
            let e = m.entries@[i]@;
            &&& e.pid.len() > 0 ==> m.pid_counts@.contains_key(e.pid) && m.pid_counts@[e.pid] > 0
            &&& e.tid.len() > 0 ==> m.tid_counts@.contains_key(e.tid) && m.tid_counts@[e.tid] > 0
            &&& e.tag.len() > 0 ==> m.tag_counts@.contains_key(e.tag) && m.tag_counts@[e.tag] > 0
        }),
        m.pid_counts@.contains_key(x) ==> x.len() > 0 && exists|j: int|
            0 <= j < m.entries@.len() && (#[trigger] m.entries@[j])@.pid == x,
        m.tid_counts@.contains_key(x) ==> x.len() > 0 && exists|j: int|
            0 <= j < m.entries@.len() && (#[trigger] m.entries@[j])@.tid == x,
        m.tag_counts@.contains_key(x) ==> x.len() > 0 && exists|j: int|
            0 <= j < m.entries@.len() && (#[trigger] m.entries@[j])@.tag == x,
{
    let e = m.entries@[i]@;
    let log = m.log();
    assert(pids(log)[i] == e.pid);
    assert(tids(log)[i] == e.tid);
    assert(tags(log)[i] == e.tag);
    occurrences_positive(pids(log), e.pid);
    occurrences_positive(tids(log), e.tid);
    occurrences_positive(tags(log), e.tag);
    occurrences_positive(pids(log), x);
    occurrences_positive(tids(log), x);
    occurrences_positive(tags(log), x);
    if m.pid_counts@.contains_key(x) {
        let j = choose|j: int| 0 <= j < pids(log).len() && pids(log)[j] == x;
        assert(m.entries@[j]@.pid == x);
    }
    if m.tid_counts@.contains_key(x) {
        let j = choose|j: int| 0 <= j < tids(log).len() && tids(log)[j] == x;
        assert(m.entries@[j]@.tid == x);
    }
    if m.tag_counts@.contains_key(x) {
        let j = choose|j: int| 0 <= j < tags(log).len() && tags(log)[j] == x;
        assert(m.entries@[j]@.tag == x);
    }
}

/// The letters of errors are those of error and fatal, and the priorities of errors in
/// the kernel are the lowest four; a lower priority is never a lesser level.
pub proof fn errors_are_told_by_letter_and_priority(c: char, d: u8, more: u8)
    requires
        d <= more,
    ensures
        (match LevelMask::from_char(c) {
            Some(m) => m.is_error(),
            None => false,
        }) <==> c == 'E' || c == 'e' || c == 'F' || c == 'f' || c == 'A' || c == 'a',
        LevelMask::from_kernel_digit(d).is_error() <==> d <= 3,
        LevelMask::from_kernel_digit(d).bits >= LevelMask::from_kernel_digit(more).bits,
{
    assert(1u8 & 16 == 0 && 2u8 & 16 == 0 && 4u8 & 16 == 0 && 8u8 & 16 == 0 && 16u8 & 16 == 16
        && 1u8 & 32 == 0 && 2u8 & 32 == 0 && 4u8 & 32 == 0 && 8u8 & 32 == 0 && 32u8 & 32 == 32)
        by (bit_vector);
}

/// A letter stands for the same level in either case, and each of the six levels has a
/// letter of its own.
pub proof fn letters_stand_for_levels(upper: char, lower: char, i: int)
    requires
        'A' <= upper <= 'Z',
        lower as u32 == upper as u32 + 32,
        0 <= i < 6,
    ensures
        LevelMask::from_char(lower) == LevelMask::from_char(upper),
        LevelMask::from_char(seq!['V', 'D', 'I', 'W', 'E', 'F'][i]) == Some(level_mask_at(i)),
        level_mask_at(i).as_char() == seq!['V', 'D', 'I', 'W', 'E', 'F'][i],
        !seq!['V', 'D', 'I', 'W', 'E', 'F', 'A'].contains(upper) ==> LevelMask::from_char(upper)
            is None,
{
    let letters = seq!['V', 'D', 'I', 'W', 'E', 'F', 'A'];
    assert(letters[0] == 'V' && letters[1] == 'D' && letters[2] == 'I' && letters[3] == 'W'
        && letters[4] == 'E' && letters[5] == 'F' && letters[6] == 'A');
    assert(letters.contains(letters[0]) && letters.contains(letters[1]) && letters.contains(
        letters[2],
    ) && letters.contains(letters[3]) && letters.contains(letters[4]) && letters.contains(
        letters[5],
    ) && letters.contains(letters[6]));
}

/// The priorities of the kernel become levels: the three gravest ones fatal, errors and
/// warnings such, notices and information info, and what is less debug.
pub proof fn priorities_stand_for_levels(d: u8)
    ensures
        d < 3 ==> LevelMask::from_kernel_digit(d) == level_mask_at(5),
        d == 3 ==> LevelMask::from_kernel_digit(d) == level_mask_at(4),
        d == 4 ==> LevelMask::from_kernel_digit(d) == level_mask_at(3),
        d == 5 || d == 6 ==> LevelMask::from_kernel_digit(d) == level_mask_at(2),
        d > 6 ==> LevelMask::from_kernel_digit(d) == level_mask_at(1),
{
}

/// Masks are sets of levels: a union holds what either holds, two of them meet where they
/// share a level, the empty one holds none and the full one holds all.
pub proof fn masks_are_sets_of_levels(a: LevelMask, b: LevelMask, i: int)
    requires
        0 <= i < 6,
    ensures
        a.union(b).contains(level_mask_at(i)) <==> a.contains(level_mask_at(i)) || b.contains(
            level_mask_at(i),
        ),
        a.contains(level_mask_at(i)) && b.contains(level_mask_at(i)) ==> a.intersects(b),
        a.intersects(level_mask_at(i)) <==> a.contains(level_mask_at(i)),
        !LevelMask::empty().contains(level_mask_at(i)),
        LevelMask::all().contains(level_mask_at(i)),
        !a.intersects(LevelMask::empty()),
        a.contains(b) && b.contains(level_mask_at(i)) ==> a.contains(level_mask_at(i)),
{
    let x = a.bits;
    let y = b.bits;
    let m = level_mask_at(i).bits;
    assert(m == 1 || m == 2 || m == 4 || m == 8 || m == 16 || m == 32);
    assert((((x | y) & m == m) <==> (x & m == m || y & m == m)) && (x & m == m && y & m == m ==> x
        & y != 0) && ((x & m != 0) <==> (x & m == m)) && 0u8 & m != m && 63u8 & m == m && x & 0u8
        == 0 && (x & y == y && y & m == m ==> x & m == m)) by (bit_vector)
        requires
            m == 1 || m == 2 || m == 4 || m == 8 || m == 16 || m == 32,
    ;
}

/// A log that was forgotten holds no entry, shows none, marks none, counts nothing and
/// comes from no file.
pub proof fn a_clear_log_holds_nothing(m: Model, entry: u32, value: Seq<char>, k: int)
    requires
        m.is_clear(),
        0 <= k < 6,
    ensures
        m.wf(),
        m.log().len() == 0,
        m.filtered@.len() == 0,
        !m.bookmarks@.contains(entry),
        m.error_lines@.len() == 0,
        m.file_path is None,
        !m.pid_counts@.contains_key(value),
        !m.tid_counts@.contains_key(value),
        !m.tag_counts@.contains_key(value),
        m.level_counts@[k] == 0,
{
}

} // verus!
