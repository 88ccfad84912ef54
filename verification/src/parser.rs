//! Parsing of log lines in the formats of Android, HarmonyOS and the kernel.

use crate::model;
use crate::model::{EntryView, LevelMask, LogEntry, LogFormat, Span};
use crate::number;
use crate::number::parse_unsigned;
use crate::split;
use crate::text;
use crate::text::chars_of;
use crate::utf8;
use crate::utf8::slice_str;
use regex::Regex;
use vstd::prelude::*;
use vstd::utf8::*;

verus! {

/// `MM-DD HH:MM:SS.mmm PID TID [UID] LEVEL TAG: MESSAGE`.
pub const THREADTIME: &'static str =
    r"^(?P<date>\d{2}-\d{2})\s+(?P<time>\d{2}:\d{2}:\d{2}\.\d{3})\s+(?P<pid>\d+)\s+(?P<tid>\d+)\s+(?:(?P<uid>\d+)\s+)?(?P<lv>[VDIWEFA])\s+(?P<tag>[^:]+?):\s?(?P<msg>.*)$";

/// `MM-DD HH:MM:SS.mmm PID TID LEVEL DOMAIN/TAG: MESSAGE`, with three to nine
/// fractional digits. The domain is an upper case letter and at least four hex
/// digits, so that a tag such as `DB/query` is not taken for one.
pub const HILOG: &'static str =
    r"^(?P<date>\d{2}-\d{2})\s+(?P<time>\d{2}:\d{2}:\d{2}\.\d{3,9})\s+(?P<pid>\d+)\s+(?P<tid>\d+)\s+(?P<lv>[VDIWEFA])\s+(?P<domain>[A-Z][0-9A-Fa-f]{4,})/(?P<tag>[^:]+?):\s?(?P<msg>.*)$";

/// `MM-DD HH:MM:SS.mmm LEVEL/TAG(PID): MESSAGE`.
pub const TIME: &'static str =
    r"^(?P<date>\d{2}-\d{2})\s+(?P<time>\d{2}:\d{2}:\d{2}\.\d{3})\s+(?P<lv>[VDIWEFA])/(?P<tag>[^()]+?)\(\s*(?P<pid>\d+)\s*\):\s?(?P<msg>.*)$";

/// `LEVEL/TAG(PID): MESSAGE`.
pub const BRIEF: &'static str =
    r"^(?P<lv>[VDIWEFA])/(?P<tag>[^()]+?)\(\s*(?P<pid>\d+)\s*\):\s?(?P<msg>.*)$";

/// `<PRIORITY>[TIME] MESSAGE`.
pub const KERNEL: &'static str = r"^<(?P<lv>[0-7])>\[?\s*(?P<time>[\d.]+)\]?\s?(?P<msg>.*)$";

/// The regular expression of `regex::Regex`.
#[verifier::external_type_specification]
#[verifier::external_body]
pub struct ExRegex(Regex);

/// The pattern that a `regex::Regex` was compiled from, as `Regex::as_str`
/// returns it.
pub uninterp spec fn pattern_of(re: Regex) -> Seq<char>;

/// The groups of the leftmost match of a pattern in a line, as
/// `Regex::captures` gives them: the whole match first, then the groups in the
/// order of their opening parentheses, each with its byte range if it took part.
pub uninterp spec fn captures_of(
    pattern: Seq<char>,
    line: Seq<char>,
) -> Option<Seq<Option<(usize, usize)>>>;

/// `Regex::new` on one of the patterns of this module. Each of them is a valid
/// pattern below the default size limit, so it compiles. What the expression matches
/// is made up as the pattern is written; of that, what tells the formats apart and what
/// their groups have in common is stated in [`reads_as`].
#[verifier::external_body]
fn compile(source: &str) -> (re: Regex)
    requires
        is_line_pattern(source@),
    ensures
        pattern_of(re) == source@,
        forall|format: LogFormat, line: Seq<char>|
            pattern(format) == pattern_of(re) ==> #[trigger] matches_as_written(format, line),
{
    Regex::new(source).unwrap()
}

/// `Regex::captures` and the ranges of the groups. A group's range lies in the
/// line, its start is not behind its end, and both are on character boundaries.
#[verifier::external_body]
fn captures(re: &Regex, line: &str) -> (r: Option<Vec<Option<(usize, usize)>>>)
    ensures
        match r {
            Some(groups) => captures_of(pattern_of(*re), line@) == Some(groups@) && groups_ok(
                line@,
                groups@,
            ),
            None => captures_of(pattern_of(*re), line@) is None,
        },
{
    re.captures(line).map(|c| c.iter().map(|m| m.map(|m| (m.start(), m.end()))).collect())
}

/// The patterns of this module.
pub open spec fn is_line_pattern(p: Seq<char>) -> bool {
    p == THREADTIME@ || p == HILOG@ || p == TIME@ || p == BRIEF@ || p == KERNEL@
}

/// The ranges of the groups are whole characters of the line.
pub open spec fn groups_ok(line: Seq<char>, groups: Seq<Option<(usize, usize)>>) -> bool {
    forall|i: int|
        0 <= i < groups.len() ==> (#[trigger] groups[i] matches Some(g) ==> utf8::whole_chars(
            line,
            g.0 as int,
            g.1 as int,
        ))
}

/// The range of a group; the empty range at the beginning if there is none.
pub open spec fn group_range(groups: Seq<Option<(usize, usize)>>, i: int) -> (int, int) {
    if 0 <= i < groups.len() {
        match groups[i] {
            Some((from, to)) => (from as int, to as int),
            None => (0, 0),
        }
    } else {
        (0, 0)
    }
}

/// The text of a group.
pub open spec fn group_text(
    line: Seq<char>,
    groups: Seq<Option<(usize, usize)>>,
    i: int,
) -> Seq<char> {
    utf8::byte_slice(line, group_range(groups, i).0, group_range(groups, i).1)
}

/// The level that a letter group stands for; verbose if it stands for none.
pub open spec fn letter_level(letters: Seq<char>) -> LevelMask {
    if letters.len() > 0 && LevelMask::from_char(letters[0]) is Some {
        LevelMask::from_char(letters[0])->0
    } else {
        LevelMask::verbose()
    }
}

/// The level of a kernel priority group.
pub open spec fn priority_level(digits: Seq<char>) -> LevelMask {
    match number::unsigned(digits, 10, 255) {
        Some(n) => LevelMask::from_kernel_digit(n as u8),
        None => LevelMask::from_kernel_digit(7),
    }
}

/// The tag of a HarmonyOS line: from the beginning of its domain to the end of
/// its tag.
pub open spec fn hilog_tag(line: Seq<char>, groups: Seq<Option<(usize, usize)>>) -> Seq<char> {
    let from = group_range(groups, 6).0;
    let to = group_range(groups, 7).1;
    if from <= to {
        text::trim_ascii(utf8::byte_slice(line, from, to))
    } else {
        seq![]
    }
}

/// The pattern of a format.
pub open spec fn pattern(format: LogFormat) -> Seq<char> {
    match format {
        LogFormat::ThreadTime => THREADTIME@,
        LogFormat::HiLog => HILOG@,
        LogFormat::Time => TIME@,
        LogFormat::Brief => BRIEF@,
        LogFormat::Kernel => KERNEL@,
        LogFormat::Unknown => seq![],
    }
}

/// The first word of a text that begins with one: what stands before the first white
/// space.
pub open spec fn first_word(s: Seq<char>) -> Seq<char> {
    s.take(split::find_white_space(s) as int)
}

/// What stands behind the first word of a text and the white space that follows it.
pub open spec fn behind_word(s: Seq<char>) -> Seq<char> {
    text::trim_start(s.skip(split::find_white_space(s) as int))
}

/// What stands before the first of a character in a text.
pub open spec fn before_char(s: Seq<char>, c: char) -> Seq<char> {
    s.take(split::find_char(s, c) as int)
}

/// What stands behind the first of a character in a text.
pub open spec fn behind_char(s: Seq<char>, c: char) -> Seq<char> {
    s.skip(split::find_char(s, c) as int + 1)
}

/// What stands before the first colon of a text.
pub open spec fn before_colon(s: Seq<char>) -> Seq<char> {
    s.take(split::find_char(s, ':') as int)
}

/// What stands behind the first colon of a text, without one white space character at
/// its beginning.
pub open spec fn behind_colon(s: Seq<char>) -> Seq<char> {
    let rest = s.skip(split::find_char(s, ':') as int + 1);
    if rest.len() > 0 && text::white_space(rest[0]) {
        rest.drop_first()
    } else {
        rest
    }
}

/// A text begins with an upper case letter of ASCII.
pub open spec fn begins_upper(s: Seq<char>) -> bool {
    s.len() > 0 && 'A' <= s[0] <= 'Z'
}

/// A text begins with a character.
pub open spec fn begins_with(s: Seq<char>, c: char) -> bool {
    s.len() > 0 && s[0] == c
}

/// The part of a line from its third word on.
pub open spec fn from_third(line: Seq<char>) -> Seq<char> {
    behind_word(behind_word(line))
}

/// The part of a line from its fifth word on.
pub open spec fn from_fifth(line: Seq<char>) -> Seq<char> {
    from_third(from_third(line))
}

/// The first four groups are the first four words of the line, of which the first and
/// the third begin with a digit.
pub open spec fn reads_stamp(line: Seq<char>, groups: Seq<Option<(usize, usize)>>) -> bool {
    &&& groups.len() == 9
    &&& !begins_upper(line) && !begins_with(line, '<')
    &&& group_text(line, groups, 1) == first_word(line)
    &&& group_text(line, groups, 2) == first_word(behind_word(line))
    &&& !begins_upper(from_third(line))
    &&& group_text(line, groups, 3) == first_word(from_third(line))
    &&& group_text(line, groups, 4) == first_word(behind_word(from_third(line)))
}

/// The groups from `first` on of a text of the form `LEVEL/TAG(PID): MESSAGE`.
pub open spec fn reads_slashed(
    line: Seq<char>,
    groups: Seq<Option<(usize, usize)>>,
    on: Seq<char>,
    first: int,
) -> bool {
    let tag_on = on.skip(2);
    let pid_on = behind_char(tag_on, '(');
    &&& begins_upper(on) && on.len() > 2 && on[1] == '/'
    &&& group_text(line, groups, first) == on.take(1)
    &&& group_text(line, groups, first + 1) == before_char(tag_on, '(')
    &&& group_text(line, groups, first + 2) == text::trim(before_char(pid_on, ')'))
    &&& group_text(line, groups, first + 3) == behind_colon(behind_char(pid_on, ')'))
}

/// A text begins with an ASCII digit or a point.
pub open spec fn begins_numeric(s: Seq<char>) -> bool {
    s.len() > 0 && ('0' <= s[0] <= '9' || s[0] == '.')
}

/// A text without a bracket, if it begins with that, and without white space behind it.
pub open spec fn behind_open_bracket(s: Seq<char>) -> Seq<char> {
    text::trim_start(if begins_with(s, '[') {
        s.skip(1)
    } else {
        s
    })
}

/// A text without a closing bracket, if it begins with that, and without one white space
/// character behind it.
pub open spec fn behind_close_bracket(s: Seq<char>) -> Seq<char> {
    let rest = if begins_with(s, ']') {
        s.skip(1)
    } else {
        s
    };
    if rest.len() > 0 && text::white_space(rest[0]) {
        rest.skip(1)
    } else {
        rest
    }
}

/// The groups of a kernel line: the digit of its priority, its time, and the rest. The
/// time is as long as digits and points go on; which characters beyond ASCII are digits
/// is not said.
pub open spec fn reads_kernel(line: Seq<char>, groups: Seq<Option<(usize, usize)>>) -> bool {
    let time = group_text(line, groups, 2);
    let time_on = behind_open_bracket(line.skip(3));
    let rest = time_on.skip(time.len() as int);
    &&& line.len() > 3 && line[0] == '<' && '0' <= line[1] <= '7' && line[2] == '>'
    &&& group_text(line, groups, 1) == line.subrange(1, 2)
    &&& time.len() > 0 && text::starts_with(time_on, time)
    &&& forall|i: int|
        0 <= i < time.len() ==> !text::white_space(#[trigger] time[i]) && (time[i] <= '\u{7f}'
            ==> '0' <= time[i] <= '9' || time[i] == '.')
    &&& !begins_numeric(rest)
    &&& group_text(line, groups, 3) == behind_close_bracket(rest)
}

/// How the groups of a format's pattern lie in a line that it matches. Each clause is
/// read off the pattern: `\d` is neither white space nor an upper case letter, `\s+` is
/// all the white space up to what follows it, a tag ends at the first colon or
/// parenthesis, and the message is all that stands behind it and one white space
/// character.
pub open spec fn reads_as(
    format: LogFormat,
    line: Seq<char>,
    groups: Seq<Option<(usize, usize)>>,
) -> bool {
    let level_on = from_fifth(line);
    let tag_on = behind_word(level_on);
    match format {
        LogFormat::ThreadTime => {
            &&& reads_stamp(line, groups)
            // With a user id the fifth word is that, and begins with a digit.
            &&& groups[5] is Some ==> {
                let later_tag_on = behind_word(behind_word(level_on));
                &&& !begins_upper(level_on)
                &&& group_text(line, groups, 5) == first_word(level_on)
                &&& group_text(line, groups, 6) == first_word(behind_word(level_on))
                &&& !begins_with(later_tag_on, ':') ==> group_text(line, groups, 7)
                    == before_colon(later_tag_on)
                &&& group_text(line, groups, 8) == behind_colon(later_tag_on)
            }
            &&& groups[5] is None ==> {
                &&& begins_upper(level_on)
                &&& group_text(line, groups, 6) == first_word(level_on)
                // A tag of white space takes the last of it.
                &&& !begins_with(tag_on, ':') ==> group_text(line, groups, 7) == before_colon(
                    tag_on,
                )
                &&& group_text(line, groups, 8) == behind_colon(tag_on)
            }
        },
        LogFormat::HiLog => {
            &&& reads_stamp(line, groups)
            &&& begins_upper(level_on)
            &&& group_text(line, groups, 5) == first_word(level_on)
            &&& begins_upper(tag_on)
            &&& group_range(groups, 6).0 <= group_range(groups, 7).1
            &&& utf8::byte_slice(line, group_range(groups, 6).0, group_range(groups, 7).1)
                == before_colon(tag_on)
            &&& group_text(line, groups, 8) == behind_colon(tag_on)
        },
        LogFormat::Time => {
            &&& !begins_upper(line) && !begins_with(line, '<')
            &&& group_text(line, groups, 1) == first_word(line)
            &&& group_text(line, groups, 2) == first_word(behind_word(line))
            &&& reads_slashed(line, groups, from_third(line), 3)
        },
        LogFormat::Brief => reads_slashed(line, groups, line, 1),
        LogFormat::Kernel => reads_kernel(line, groups),
        LogFormat::Unknown => true,
    }
}

/// If the pattern of a format matches a line, its groups lie in it as written.
pub open spec fn matches_as_written(format: LogFormat, line: Seq<char>) -> bool {
    captures_of(pattern(format), line) matches Some(groups) ==> reads_as(format, line, groups)
}

/// The entry of a line in a format, from the groups of the format's pattern. A
/// line in no format is all message.
pub open spec fn entry_view(
    format: LogFormat,
    line: Seq<char>,
    groups: Seq<Option<(usize, usize)>>,
) -> EntryView {
    let none: Seq<char> = seq![];
    match format {
        LogFormat::ThreadTime => EntryView {
            raw: line,
            line_no: 0,
            level: letter_level(group_text(line, groups, 6)),
            date: group_text(line, groups, 1),
            time: group_text(line, groups, 2),
            pid: group_text(line, groups, 3),
            tid: group_text(line, groups, 4),
            uid: group_text(line, groups, 5),
            tag: text::trim_ascii(group_text(line, groups, 7)),
            message: group_text(line, groups, 8),
        },
        LogFormat::HiLog => EntryView {
            raw: line,
            line_no: 0,
            level: letter_level(group_text(line, groups, 5)),
            date: group_text(line, groups, 1),
            time: group_text(line, groups, 2),
            pid: group_text(line, groups, 3),
            tid: group_text(line, groups, 4),
            uid: none,
            tag: hilog_tag(line, groups),
            message: group_text(line, groups, 8),
        },
        LogFormat::Time => EntryView {
            raw: line,
            line_no: 0,
            level: letter_level(group_text(line, groups, 3)),
            date: group_text(line, groups, 1),
            time: group_text(line, groups, 2),
            pid: group_text(line, groups, 5),
            tid: none,
            uid: none,
            tag: text::trim_ascii(group_text(line, groups, 4)),
            message: group_text(line, groups, 6),
        },
        LogFormat::Brief => EntryView {
            raw: line,
            line_no: 0,
            level: letter_level(group_text(line, groups, 1)),
            date: none,
            time: none,
            pid: group_text(line, groups, 3),
            tid: none,
            uid: none,
            tag: text::trim_ascii(group_text(line, groups, 2)),
            message: group_text(line, groups, 4),
        },
        LogFormat::Kernel => EntryView {
            raw: line,
            line_no: 0,
            level: priority_level(group_text(line, groups, 1)),
            date: none,
            time: group_text(line, groups, 2),
            pid: none,
            tid: none,
            uid: none,
            tag: none,
            message: group_text(line, groups, 3),
        },
        LogFormat::Unknown => EntryView {
            raw: line,
            line_no: 0,
            level: LevelMask::verbose(),
            date: none,
            time: none,
            pid: none,
            tid: none,
            uid: none,
            tag: none,
            message: line,
        },
    }
}

/// Whether a line is in a format.
pub open spec fn is_in_format(format: LogFormat, line: Seq<char>) -> bool {
    format != LogFormat::Unknown && captures_of(pattern(format), line) is Some
}

/// The format of a line: the expected one if the line is in it, else the first
/// that the line is in, else unknown. HarmonyOS goes before the thread time
/// format, which would take a HarmonyOS line with the domain as part of the tag.
pub open spec fn format_of(line: Seq<char>, hint: LogFormat) -> LogFormat {
    if is_in_format(hint, line) {
        hint
    } else if is_in_format(LogFormat::HiLog, line) {
        LogFormat::HiLog
    } else if is_in_format(LogFormat::ThreadTime, line) {
        LogFormat::ThreadTime
    } else if is_in_format(LogFormat::Time, line) {
        LogFormat::Time
    } else if is_in_format(LogFormat::Brief, line) {
        LogFormat::Brief
    } else if is_in_format(LogFormat::Kernel, line) {
        LogFormat::Kernel
    } else {
        LogFormat::Unknown
    }
}

/// The entry of a line in a format that it is in.
pub open spec fn entry_in(line: Seq<char>, format: LogFormat) -> EntryView {
    entry_view(
        format,
        line,
        match captures_of(pattern(format), line) {
            Some(groups) => groups,
            None => seq![],
        },
    )
}

/// The white space among the ASCII bytes.
fn is_ascii_space(b: u8) -> (r: bool)
    ensures
        r == (b == 32 || b == 9 || b == 10 || b == 12 || b == 13),
{
    b == 32 || b == 9 || b == 10 || b == 12 || b == 13
}

/// The byte of an ASCII character is its number.
proof fn lemma_ascii_cast(c: char)
    ensures
        (c as u32) < 0x80 ==> (c as u8) as int == c as int,
{
}

/// A byte that is ASCII white space is a character that is, and the other way
/// round for the first byte of a character.
proof fn lemma_space_byte(line: Seq<char>, i: int)
    requires
        0 <= i < line.len(),
    ensures
        ({
            let at = utf8::byte_offset(line, i);
            let b = encode_utf8(line)[at];
            &&& 0 <= at < encode_utf8(line).len()
            &&& text::ascii_white_space(line[i]) <==> (b == 32 || b == 9 || b == 10 || b == 12 || b
                == 13)
            &&& text::ascii_white_space(line[i]) ==> utf8::byte_offset(line, i + 1) == at + 1
        }),
{
    utf8::lemma_char_bytes(line, i);
    lemma_ascii_cast(line[i]);
}

/// The same range without ASCII white space at either end.
pub fn trim_span(line: &str, sp: Span) -> (r: Span)
    requires
        model::span_ok(line@, sp),
    ensures
        model::span_ok(line@, r),
        model::span_text(line@, r) == text::trim_ascii(model::span_text(line@, sp)),
        sp.0 <= r.0 <= r.1 <= sp.1,
        model::span_text(line@, r).len() == 0 ==> r == (sp.0, sp.0),
{
    let ghost s = line@;
    let ghost (first, last) = utf8::lemma_whole_chars(s, sp.0 as int, sp.1 as int);
    let ghost whole = s.subrange(first, last);
    let bytes = line.as_bytes();
    let mut start: u32 = sp.0;
    let ghost mut i = first;
    while start < sp.1 && is_ascii_space(bytes[start as usize])
        invariant
            bytes@ == encode_utf8(s),
            sp.0 <= start <= sp.1 <= bytes@.len(),
            0 <= first <= i <= last <= s.len(),
            whole == s.subrange(first, last),
            utf8::byte_offset(s, i) == start,
            utf8::byte_offset(s, last) == sp.1,
            text::trim_ascii_start(s.subrange(i, last)) == text::trim_ascii_start(whole),
        decreases sp.1 - start,
    {
        proof {
            if i == last {
                assert(false);
            }
            lemma_space_byte(s, i);
            assert(s.subrange(i, last).drop_first() == s.subrange(i + 1, last));
            i = i + 1;
            utf8::lemma_byte_offset_grows(s, i, last);
        }
        start = start + 1;
    }
    proof {
        if i < last {
            utf8::lemma_byte_offset_grows(s, i, last);
            lemma_space_byte(s, i);
        }
        assert(text::trim_ascii_start(whole) == s.subrange(i, last));
    }
    let mut end: u32 = sp.1;
    let ghost mut j = last;
    while start < end && is_ascii_space(bytes[end as usize - 1])
        invariant
            bytes@ == encode_utf8(s),
            start <= end <= sp.1 <= bytes@.len(),
            0 <= i <= j <= last <= s.len(),
            utf8::byte_offset(s, i) == start,
            utf8::byte_offset(s, j) == end,
            text::trim_ascii_end(s.subrange(i, j)) == text::trim_ascii_end(s.subrange(i, last)),
        decreases end - start,
    {
        proof {
            let at = end - 1;
            encode_utf8_valid_utf8(s);
            is_char_boundary_iff_not_is_continuation_byte(encode_utf8(s), at);
            let k = utf8::lemma_boundary_index(s, at);
            if k >= j {
                utf8::lemma_byte_offset_grows(s, j, k);
            }
            lemma_space_byte(s, k);
            if k + 1 < j {
                utf8::lemma_byte_offset_grows(s, k + 1, j);
            }
            if k < i {
                utf8::lemma_byte_offset_grows(s, k + 1, i);
            }
            assert(k + 1 == j);
            assert(s.subrange(i, j).drop_last() == s.subrange(i, k));
            j = k;
        }
        end = end - 1;
    }
    proof {
        if i < j {
            utf8::lemma_byte_offset_grows(s, i, j);
            lemma_space_byte(s, j - 1);
            assert(s.subrange(i, j).last() == s[j - 1]);
        }
        assert(text::trim_ascii(whole) == s.subrange(i, j));
        utf8::lemma_byte_offset_boundary(s, i);
        utf8::lemma_byte_offset_boundary(s, j);
        utf8::lemma_byte_slice_chars(s, i, j);
    }
    if start == end {
        proof {
            if i < j {
                utf8::lemma_byte_offset_grows(s, i, j);
            }
            utf8::lemma_byte_slice_chars(s, first, first);
            assert(s.subrange(first, first) == s.subrange(i, j));
        }
        return (sp.0, sp.0);
    }
    (start, end)
}

/// The range of a group; the empty range at the beginning if there is none.
pub fn span(line: &str, groups: &Vec<Option<(usize, usize)>>, i: usize) -> (r: Span)
    requires
        encode_utf8(line@).len() <= u32::MAX,
        groups_ok(line@, groups@),
    ensures
        r.0 == group_range(groups@, i as int).0,
        r.1 == group_range(groups@, i as int).1,
        model::span_ok(line@, r),
        model::span_text(line@, r) == group_text(line@, groups@, i as int),
{
    proof {
        utf8::lemma_byte_offset_boundary(line@, 0);
        utf8::lemma_byte_offset_end(line@);
    }
    if i < groups.len() {
        if let Some(range) = groups[i] {
            return (range.0 as u32, range.1 as u32);
        }
    }
    (0, 0)
}

/// The level that a letter group stands for; verbose if it stands for none.
fn level_of_letters(line: &str, sp: Span) -> (r: LevelMask)
    requires
        model::span_ok(line@, sp),
    ensures
        r == letter_level(model::span_text(line@, sp)),
{
    let letters = slice_str(line, sp.0 as usize, sp.1 as usize);
    if letters.is_empty() {
        return LevelMask::verbose();
    }
    match LevelMask::from_char(letters.get_char(0)) {
        Some(level) => level,
        None => LevelMask::verbose(),
    }
}

/// The level of a kernel priority group.
fn level_of_priority(line: &str, sp: Span) -> (r: LevelMask)
    requires
        model::span_ok(line@, sp),
    ensures
        r == priority_level(model::span_text(line@, sp)),
{
    let digits = chars_of(slice_str(line, sp.0 as usize, sp.1 as usize));
    match parse_unsigned(digits.as_slice(), 10, 255) {
        Some(n) => LevelMask::from_kernel_digit(n as u8),
        None => LevelMask::from_kernel_digit(7),
    }
}

/// The entry of a line in a format, from the groups of the format's pattern.
pub fn entry_from_groups(
    format: LogFormat,
    line: String,
    groups: &Vec<Option<(usize, usize)>>,
) -> (r: LogEntry)
    requires
        encode_utf8(line@).len() <= u32::MAX,
        groups_ok(line@, groups@),
    ensures
        r@ == entry_view(format, line@, groups@),
{
    let ghost text = line@;
    proof {
        utf8::lemma_byte_offset_boundary(text, 0);
        utf8::lemma_byte_offset_boundary(text, text.len() as int);
        utf8::lemma_byte_offset_end(text);
        utf8::lemma_byte_slice_chars(text, 0, 0);
        utf8::lemma_byte_slice_chars(text, 0, text.len() as int);
        assert(text.subrange(0, 0) == Seq::<char>::empty());
        assert(text.subrange(0, text.len() as int) == text);
    }
    let s = line.as_str();
    let none: Span = (0, 0);
    match format {
        LogFormat::ThreadTime => {
            let level = level_of_letters(s, span(s, groups, 6));
            let date = span(s, groups, 1);
            let time = span(s, groups, 2);
            let pid = span(s, groups, 3);
            let tid = span(s, groups, 4);
            let uid = span(s, groups, 5);
            let tag = trim_span(s, span(s, groups, 7));
            let message = span(s, groups, 8);
            LogEntry::new(line.into_boxed_str(), level, date, time, pid, tid, uid, tag, message)
        },
        LogFormat::HiLog => {
            let level = level_of_letters(s, span(s, groups, 5));
            let date = span(s, groups, 1);
            let time = span(s, groups, 2);
            let pid = span(s, groups, 3);
            let tid = span(s, groups, 4);
            let from: u32 = span(s, groups, 6).0;
            let to: u32 = span(s, groups, 7).1;
            let tag = if from <= to {
                trim_span(s, (from, to))
            } else {
                none
            };
            let message = span(s, groups, 8);
            LogEntry::new(line.into_boxed_str(), level, date, time, pid, tid, none, tag, message)
        },
        LogFormat::Time => {
            let level = level_of_letters(s, span(s, groups, 3));
            let date = span(s, groups, 1);
            let time = span(s, groups, 2);
            let pid = span(s, groups, 5);
            let tag = trim_span(s, span(s, groups, 4));
            let message = span(s, groups, 6);
            LogEntry::new(line.into_boxed_str(), level, date, time, pid, none, none, tag, message)
        },
        LogFormat::Brief => {
            let level = level_of_letters(s, span(s, groups, 1));
            let pid = span(s, groups, 3);
            let tag = trim_span(s, span(s, groups, 2));
            let message = span(s, groups, 4);
            LogEntry::new(line.into_boxed_str(), level, none, none, pid, none, none, tag, message)
        },
        LogFormat::Kernel => {
            let level = level_of_priority(s, span(s, groups, 1));
            let time = span(s, groups, 2);
            let message = span(s, groups, 3);
            LogEntry::new(line.into_boxed_str(), level, none, time, none, none, none, none, message)
        },
        LogFormat::Unknown => {
            let end = s.as_bytes().len() as u32;
            let message: Span = (0, end);
            LogEntry::new(
                line.into_boxed_str(),
                LevelMask::verbose(),
                none,
                none,
                none,
                none,
                none,
                none,
                message,
            )
        },
    }
}

/// The format that was found with a hint is the one that is found without; only a
/// HarmonyOS line is found to be in the thread time format if it is in that too and
/// that is expected.
pub open spec fn same_but_hilog(found: LogFormat, hint: LogFormat, unhinted: LogFormat) -> bool {
    found == unhinted || (found == LogFormat::ThreadTime && hint == LogFormat::ThreadTime
        && unhinted == LogFormat::HiLog)
}

/// A hint changes nothing of the entry, and little of the format.
proof fn lemma_hint_keeps_entry(line: Seq<char>, hint: LogFormat)
    requires
        forall|format: LogFormat| #[trigger] matches_as_written(format, line),
    ensures
        entry_in(line, format_of(line, hint)) == entry_in(line, format_of(line, LogFormat::Unknown)),
        same_but_hilog(format_of(line, hint), hint, format_of(line, LogFormat::Unknown)),
{
    assert(matches_as_written(LogFormat::HiLog, line));
    assert(matches_as_written(LogFormat::ThreadTime, line));
    assert(matches_as_written(LogFormat::Time, line));
    assert(matches_as_written(LogFormat::Brief, line));
    assert(matches_as_written(LogFormat::Kernel, line));
    if is_in_format(LogFormat::HiLog, line) && is_in_format(LogFormat::ThreadTime, line) {
        utf8::lemma_byte_offset_end(line);
        utf8::lemma_byte_slice_chars(line, 0, 0);
        assert(line.subrange(0, 0) == Seq::<char>::empty());
        assert(entry_in(line, LogFormat::HiLog) == entry_in(line, LogFormat::ThreadTime));
    }
}

/// The compiled patterns of the formats.
pub struct LinePatterns {
    threadtime: Regex,
    hilog: Regex,
    time: Regex,
    brief: Regex,
    kernel: Regex,
}

impl LinePatterns {
    /// The pattern that lines of a format are matched with; lines of no format are
    /// matched with none.
    pub closed spec fn matched_with(&self, format: LogFormat) -> Seq<char> {
        match format {
            LogFormat::ThreadTime => pattern_of(self.threadtime),
            LogFormat::HiLog => pattern_of(self.hilog),
            LogFormat::Time => pattern_of(self.time),
            LogFormat::Brief => pattern_of(self.brief),
            LogFormat::Kernel => pattern_of(self.kernel),
            LogFormat::Unknown => seq![],
        }
    }

    #[verifier::type_invariant]
    spec fn type_inv(self) -> bool {
        &&& forall|format: LogFormat| #[trigger] self.matched_with(format) == pattern(format)
        &&& forall|format: LogFormat, line: Seq<char>| #[trigger] matches_as_written(format, line)
    }

    /// Compiles the patterns, each for its format.
    pub fn new() -> (r: Self)
        ensures
            forall|format: LogFormat| #[trigger] r.matched_with(format) == pattern(format),
    {
        let threadtime = compile(THREADTIME);
        let hilog = compile(HILOG);
        let time = compile(TIME);
        let brief = compile(BRIEF);
        let kernel = compile(KERNEL);
        proof {
            assert forall|format: LogFormat, line: Seq<char>| #[trigger]
                matches_as_written(format, line) by {
                assert(format == LogFormat::Unknown || pattern(format) == pattern_of(threadtime)
                    || pattern(format) == pattern_of(hilog) || pattern(format) == pattern_of(time)
                    || pattern(format) == pattern_of(brief) || pattern(format) == pattern_of(
                    kernel,
                ));
            }
        }
        LinePatterns { threadtime, hilog, time, brief, kernel }
    }

    /// The groups of a line in a format, if it is in it.
    fn groups(&self, format: LogFormat, line: &str) -> (r: Option<Vec<Option<(usize, usize)>>>)
        ensures
            match r {
                Some(groups) => is_in_format(format, line@) && captures_of(
                    pattern(format),
                    line@,
                ) == Some(groups@) && groups_ok(line@, groups@),
                None => !is_in_format(format, line@),
            },
    {
        proof {
            use_type_invariant(self);
            assert(self.matched_with(format) == pattern(format));
        }
        match format {
            LogFormat::ThreadTime => captures(&self.threadtime, line),
            LogFormat::HiLog => captures(&self.hilog, line),
            LogFormat::Time => captures(&self.time, line),
            LogFormat::Brief => captures(&self.brief, line),
            LogFormat::Kernel => captures(&self.kernel, line),
            LogFormat::Unknown => None,
        }
    }

    /// Parses a line, trying the format `hint` first. The entry is the one that parsing
    /// without a hint gives, whatever the hint.
    pub fn parse(&self, line: String, hint: LogFormat) -> (r: (LogEntry, LogFormat))
        requires
            encode_utf8(line@).len() <= u32::MAX,
        ensures
            r.1 == format_of(line@, hint),
            r.0@ == entry_in(line@, r.1),
            matches_as_written(r.1, line@),
            r.0@ == entry_in(line@, format_of(line@, LogFormat::Unknown)),
            same_but_hilog(r.1, hint, format_of(line@, LogFormat::Unknown)),
    {
        proof {
            use_type_invariant(self);
            lemma_hint_keeps_entry(line@, hint);
        }
        if let Some(groups) = self.groups(hint, line.as_str()) {
            return (entry_from_groups(hint, line, &groups), hint);
        }
        let order = [
            LogFormat::HiLog,
            LogFormat::ThreadTime,
            LogFormat::Time,
            LogFormat::Brief,
            LogFormat::Kernel,
        ];
        let mut i: usize = 0;
        while i < 5
            invariant
                i <= 5,
                order@ == seq![
                    LogFormat::HiLog,
                    LogFormat::ThreadTime,
                    LogFormat::Time,
                    LogFormat::Brief,
                    LogFormat::Kernel,
                ],
                encode_utf8(line@).len() <= u32::MAX,
                !is_in_format(hint, line@),
                forall|k: int| 0 <= k < i ==> !is_in_format(#[trigger] order@[k], line@),
                forall|f: LogFormat| #[trigger] matches_as_written(f, line@),
                entry_in(line@, format_of(line@, hint)) == entry_in(
                    line@,
                    format_of(line@, LogFormat::Unknown),
                ),
            decreases 5 - i,
        {
            let format = order[i];
            if format != hint {
                if let Some(groups) = self.groups(format, line.as_str()) {
                    assert(i > 0 ==> order@[0] == LogFormat::HiLog);
                    assert(i > 1 ==> order@[1] == LogFormat::ThreadTime);
                    assert(i > 2 ==> order@[2] == LogFormat::Time);
                    assert(i > 3 ==> order@[3] == LogFormat::Brief);
                    return (entry_from_groups(format, line, &groups), format);
                }
            }
            i = i + 1;
        }
        assert(order@[0] == LogFormat::HiLog);
        assert(order@[1] == LogFormat::ThreadTime);
        assert(order@[2] == LogFormat::Time);
        assert(order@[3] == LogFormat::Brief);
        assert(order@[4] == LogFormat::Kernel);
        let groups: Vec<Option<(usize, usize)>> = Vec::new();
        (entry_from_groups(LogFormat::Unknown, line, &groups), LogFormat::Unknown)
    }
}

/// Parses a line.
pub fn parse_line(line: String) -> (r: (LogEntry, LogFormat))
    requires
        encode_utf8(line@).len() <= u32::MAX,
    ensures
        r.1 == format_of(line@, LogFormat::Unknown),
        r.0@ == entry_in(line@, r.1),
        matches_as_written(r.1, line@),
{
    parse_line_hinted(line, LogFormat::Unknown)
}

/// Parses a line, trying the format `hint` first. The entry is the one that
/// [`parse_line`] gives, whatever the hint. Where many lines are parsed,
/// [`LinePatterns`] saves compiling the patterns for each.
pub fn parse_line_hinted(line: String, hint: LogFormat) -> (r: (LogEntry, LogFormat))
    requires
        encode_utf8(line@).len() <= u32::MAX,
    ensures
        r.1 == format_of(line@, hint),
        r.0@ == entry_in(line@, r.1),
        matches_as_written(r.1, line@),
        r.0@ == entry_in(line@, format_of(line@, LogFormat::Unknown)),
        same_but_hilog(r.1, hint, format_of(line@, LogFormat::Unknown)),
{
    LinePatterns::new().parse(line, hint)
}

/// A line in the thread time format is read by its words: date, time, process and
/// thread, a user id if the fifth word does not begin with a letter, the level, the tag
/// up to the colon, and the message.
pub proof fn threadtime_lines_are_read(line: Seq<char>)
    requires
        is_in_format(LogFormat::ThreadTime, line),
        matches_as_written(LogFormat::ThreadTime, line),
    ensures
        ({
            let e = entry_in(line, LogFormat::ThreadTime);
            let fifth = from_fifth(line);
            let level_on = if begins_upper(fifth) {
                fifth
            } else {
                behind_word(fifth)
            };
            let tag_on = behind_word(level_on);
            &&& e.raw == line
            &&& e.date == first_word(line)
            &&& e.time == first_word(behind_word(line))
            &&& e.pid == first_word(from_third(line))
            &&& e.tid == first_word(behind_word(from_third(line)))
            &&& e.uid == if begins_upper(fifth) {
                seq![]
            } else {
                first_word(fifth)
            }
            &&& first_word(level_on).len() > 0 ==> match LevelMask::from_char(
                first_word(level_on)[0],
            ) {
                Some(m) => e.level == m,
                None => e.level == LevelMask::verbose(),
            }
            &&& !begins_with(tag_on, ':') ==> e.tag == text::trim_ascii(before_colon(tag_on))
            &&& e.message == behind_colon(tag_on)
        }),
{
    utf8::lemma_byte_offset_end(line);
    utf8::lemma_byte_slice_chars(line, 0, 0);
    assert(line.subrange(0, 0) == Seq::<char>::empty());
}

/// A HarmonyOS line is read by its words: date, time, process and thread, the level, the
/// tag with its domain up to the colon, and the message.
pub proof fn hilog_lines_are_read(line: Seq<char>)
    requires
        is_in_format(LogFormat::HiLog, line),
        matches_as_written(LogFormat::HiLog, line),
    ensures
        ({
            let e = entry_in(line, LogFormat::HiLog);
            let level_on = from_fifth(line);
            let tag_on = behind_word(level_on);
            &&& e.raw == line
            &&& e.date == first_word(line)
            &&& e.time == first_word(behind_word(line))
            &&& e.pid == first_word(from_third(line))
            &&& e.tid == first_word(behind_word(from_third(line)))
            &&& e.uid == Seq::<char>::empty()
            &&& first_word(level_on).len() > 0 ==> match LevelMask::from_char(
                first_word(level_on)[0],
            ) {
                Some(m) => e.level == m,
                None => e.level == LevelMask::verbose(),
            }
            &&& e.tag == text::trim_ascii(before_colon(tag_on))
            &&& e.message == behind_colon(tag_on)
        }),
{
}

/// A line in the time format is read by its words: the date, the time, and then the
/// level before the slash, the tag before the parenthesis, the process in it, and the
/// message behind the colon.
pub proof fn time_lines_are_read(line: Seq<char>)
    requires
        is_in_format(LogFormat::Time, line),
        matches_as_written(LogFormat::Time, line),
    ensures
        ({
            let e = entry_in(line, LogFormat::Time);
            let level_on = from_third(line);
            let tag_on = level_on.skip(2);
            let pid_on = behind_char(tag_on, '(');
            &&& e.raw == line
            &&& e.date == first_word(line)
            &&& e.time == first_word(behind_word(line))
            &&& match LevelMask::from_char(level_on[0]) {
                Some(m) => e.level == m,
                None => e.level == LevelMask::verbose(),
            }
            &&& e.tag == text::trim_ascii(before_char(tag_on, '('))
            &&& e.pid == text::trim(before_char(pid_on, ')'))
            &&& e.tid == Seq::<char>::empty()
            &&& e.uid == Seq::<char>::empty()
            &&& e.message == behind_colon(behind_char(pid_on, ')'))
        }),
{
    assert(from_third(line).take(1)[0] == from_third(line)[0]);
}

/// A line in the brief format is read as the time format is, without date and time.
pub proof fn brief_lines_are_read(line: Seq<char>)
    requires
        is_in_format(LogFormat::Brief, line),
        matches_as_written(LogFormat::Brief, line),
    ensures
        ({
            let e = entry_in(line, LogFormat::Brief);
            let tag_on = line.skip(2);
            let pid_on = behind_char(tag_on, '(');
            &&& e.raw == line
            &&& e.date == Seq::<char>::empty()
            &&& e.time == Seq::<char>::empty()
            &&& match LevelMask::from_char(line[0]) {
                Some(m) => e.level == m,
                None => e.level == LevelMask::verbose(),
            }
            &&& e.tag == text::trim_ascii(before_char(tag_on, '('))
            &&& e.pid == text::trim(before_char(pid_on, ')'))
            &&& e.tid == Seq::<char>::empty()
            &&& e.uid == Seq::<char>::empty()
            &&& e.message == behind_colon(behind_char(pid_on, ')'))
        }),
{
    assert(line.take(1)[0] == line[0]);
}

/// A kernel line is read as the priority between the angle brackets, the time behind
/// them, with or without square brackets, and the message. It is cut nowhere else: what
/// stands before the message is the beginning of the line.
pub proof fn kernel_lines_are_read(line: Seq<char>)
    requires
        is_in_format(LogFormat::Kernel, line),
        matches_as_written(LogFormat::Kernel, line),
    ensures
        ({
            let e = entry_in(line, LogFormat::Kernel);
            let time_on = behind_open_bracket(line.skip(3));
            let rest = time_on.skip(e.time.len() as int);
            &&& e.raw == line
            &&& '0' <= line[1] <= '7'
            &&& e.level == LevelMask::from_kernel_digit((line[1] as u8 - '0' as u8) as u8)
            &&& e.time.len() > 0
            &&& text::starts_with(time_on, e.time)
            &&& !begins_numeric(rest)
            &&& e.message == behind_close_bracket(rest)
            &&& e.date == Seq::<char>::empty()
            &&& e.pid == Seq::<char>::empty()
            &&& e.tid == Seq::<char>::empty()
            &&& e.uid == Seq::<char>::empty()
            &&& e.tag == Seq::<char>::empty()
        }),
{
    let digits = line.subrange(1, 2);
    assert(digits =~= seq![line[1]]);
    assert(digits.drop_last() =~= Seq::<char>::empty());
    reveal_with_fuel(number::digits_value, 3);
}

/// The first word of a text ends at the first white space, and what follows it begins
/// behind all the white space there.
pub proof fn words_end_at_white_space(s: Seq<char>)
    ensures
        first_word(s).len() <= s.len(),
        s.take(first_word(s).len() as int) == first_word(s),
        forall|i: int| 0 <= i < first_word(s).len() ==> !text::white_space(#[trigger] s[i]),
        first_word(s).len() < s.len() ==> text::white_space(s[first_word(s).len() as int]),
        behind_word(s).len() <= s.len() - first_word(s).len(),
        s.skip(s.len() - behind_word(s).len()) == behind_word(s),
        forall|i: int|
            first_word(s).len() <= i < s.len() - behind_word(s).len() ==> text::white_space(
                #[trigger] s[i],
            ),
        behind_word(s).len() > 0 ==> !text::white_space(behind_word(s)[0]),
{
    split::white_space_is_found(s);
    let rest = s.skip(split::find_white_space(s) as int);
    text::start_is_trimmed(rest);
    let n = text::trim_start(rest).len() as int;
    assert(rest.skip(rest.len() - n) =~= s.skip(s.len() - n));
    assert forall|i: int| first_word(s).len() <= i < s.len() - n implies text::white_space(
        #[trigger] s[i],
    ) by {
        assert(rest[i - first_word(s).len()] == s[i]);
    }
}

/// Parsing keeps the line: whatever its format, the entry holds it unchanged.
pub proof fn parsing_keeps_line(line: Seq<char>, hint: LogFormat)
    ensures
        entry_in(line, format_of(line, hint)).raw == line,
{
}

/// A line that is in no format is kept whole as the message of a verbose entry
/// without other fields, whatever format was expected.
pub proof fn unmatched_line_is_message(line: Seq<char>, hint: LogFormat)
    requires
        forall|format: LogFormat| !is_in_format(format, line),
    ensures
        format_of(line, hint) == LogFormat::Unknown,
        entry_in(line, LogFormat::Unknown).message == line,
        entry_in(line, LogFormat::Unknown).level == LevelMask::verbose(),
        entry_in(line, LogFormat::Unknown).tag == Seq::<char>::empty(),
{
}

/// A line is found to be in some format if and only if it is in one: a wrong
/// expectation never hides its format.
pub proof fn hint_never_hides_format(line: Seq<char>, hint: LogFormat)
    ensures
        format_of(line, hint) == LogFormat::Unknown <==> (forall|format: LogFormat|
            !is_in_format(format, line)),
        format_of(line, hint) != LogFormat::Unknown ==> is_in_format(format_of(line, hint), line),
{
    let found = format_of(line, hint);
    if found == LogFormat::Unknown {
        assert forall|format: LogFormat| !is_in_format(format, line) by {
            match format {
                LogFormat::Brief => {},
                LogFormat::Time => {},
                LogFormat::ThreadTime => {},
                LogFormat::HiLog => {},
                LogFormat::Kernel => {},
                LogFormat::Unknown => {},
            }
        }
    }
}

/// The expected format decides only between formats that a line is in: if it is
/// in at most one, every expectation gives the same entry.
pub proof fn hint_is_only_a_hint(line: Seq<char>, one: LogFormat, other: LogFormat)
    requires
        forall|f: LogFormat, g: LogFormat|
            is_in_format(f, line) && is_in_format(g, line) ==> f == g,
    ensures
        format_of(line, one) == format_of(line, other),
        entry_in(line, format_of(line, one)) == entry_in(line, format_of(line, other)),
{
    hint_never_hides_format(line, one);
    hint_never_hides_format(line, other);
}

/// A line that is in the expected format is taken to be in that. Otherwise the formats are
/// tried from the one that says most of a line to the one that says least, and the first
/// that the line is in counts.
pub proof fn formats_are_tried_in_order(line: Seq<char>, hint: LogFormat, i: int)
    requires
        0 <= i < 5,
    ensures
        is_in_format(hint, line) ==> format_of(line, hint) == hint,
        ({
            let formats = seq![
                LogFormat::HiLog,
                LogFormat::ThreadTime,
                LogFormat::Time,
                LogFormat::Brief,
                LogFormat::Kernel,
            ];
            !is_in_format(hint, line) && is_in_format(formats[i], line) && (forall|j: int|
                0 <= j < i ==> !is_in_format(#[trigger] formats[j], line)) ==> format_of(line, hint)
                == formats[i]
        }),
{
    let formats = seq![
        LogFormat::HiLog,
        LogFormat::ThreadTime,
        LogFormat::Time,
        LogFormat::Brief,
        LogFormat::Kernel,
    ];
    assert(formats[0] == LogFormat::HiLog && formats[1] == LogFormat::ThreadTime && formats[2]
        == LogFormat::Time && formats[3] == LogFormat::Brief && formats[4] == LogFormat::Kernel);
}

/// An entry of no known format has nothing but its line.
pub proof fn unmatched_line_has_no_fields(line: Seq<char>)
    ensures
        entry_in(line, LogFormat::Unknown).raw == line,
        entry_in(line, LogFormat::Unknown).date.len() == 0,
        entry_in(line, LogFormat::Unknown).time.len() == 0,
        entry_in(line, LogFormat::Unknown).pid.len() == 0,
        entry_in(line, LogFormat::Unknown).tid.len() == 0,
        entry_in(line, LogFormat::Unknown).uid.len() == 0,
{
}

} // verus!
