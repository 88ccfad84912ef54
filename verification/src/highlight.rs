//! Marking search terms in a text.

use crate::color;
use crate::color::{contrast, Rgb};
use crate::filter;
use crate::split;
use crate::text;
use crate::text::{chars_occur_at, chars_of, same_chars, string_of, to_ascii_lower};
use vstd::prelude::*;
use vstd::slice::slice_subrange;
use vstd::utf8::*;

verus! {

/// The lower case of a character, as `char::to_lowercase` gives it.
pub uninterp spec fn char_lowercased(c: char) -> Seq<char>;

/// `char::to_lowercase`. The lower case of an ASCII character is one character.
#[verifier::external_body]
fn lower_char(c: char) -> (r: Vec<char>)
    ensures
        r@ == char_lowercased(c),
        (c as u32) < 0x80 ==> r@ == seq![text::ascii_lower(c)],
{
    c.to_lowercase().collect()
}

/// A stretch of a text that is marked: for the highlight term of that number, or
/// because it was searched for.
#[derive(Debug, Clone, Copy, PartialEq, Eq, Structural)]
pub struct Mark {
    pub start: usize,
    pub end: usize,
    pub kind: Option<usize>,
}

/// How a piece of text is shown.
#[derive(Debug, Clone, Copy, PartialEq, Eq, Structural)]
pub enum Style {
    Plain,
    Colored { background: Rgb, foreground: Rgb },
    Underlined,
}

/// A piece of text and how it is shown.
#[derive(Debug)]
pub struct Segment {
    pub text: String,
    pub style: Style,
}

/// A piece of text and how it is shown.
#[verifier::ext_equal]
pub struct SegmentView {
    pub text: Seq<char>,
    pub style: Style,
}

impl View for Segment {
    type V = SegmentView;

    open spec fn view(&self) -> SegmentView {
        SegmentView { text: self.text@, style: self.style }
    }
}

/// The pieces.
pub open spec fn segment_views(v: Seq<Segment>) -> Seq<SegmentView> {
    v.map_values(|s: Segment| s@)
}

/// All places below `n` where a term stands in a text of ASCII characters, up to
/// the case of letters. The places may overlap.
pub open spec fn ascii_hits(
    text: Seq<char>,
    term: Seq<char>,
    kind: Option<usize>,
    n: int,
) -> Seq<Mark>
    decreases n,
{
    if n <= 0 || term.len() == 0 {
        seq![]
    } else {
        let before = ascii_hits(text, term, kind, n - 1);
        if text::occurs_at(filter::ascii_lowered(text), filter::ascii_lowered(term), n - 1) {
            before.push(Mark { start: (n - 1) as usize, end: (n - 1 + term.len()) as usize, kind })
        } else {
            before
        }
    }
}

/// A term stands in a text at `at`, where characters with the same lower case
/// are the same.
pub open spec fn folded_at(text: Seq<char>, term: Seq<char>, at: int) -> bool {
    &&& 0 <= at
    &&& at + term.len() <= text.len()
    &&& forall|j: int|
        0 <= j < term.len() ==> char_lowercased(#[trigger] text[at + j]) == char_lowercased(term[j])
}

/// The places from `from` on where a term stands in a text, from left to right
/// without overlaps.
pub open spec fn folded_hits(
    text: Seq<char>,
    term: Seq<char>,
    kind: Option<usize>,
    from: int,
) -> Seq<Mark>
    decreases text.len() - from,
{
    if term.len() == 0 || from + term.len() > text.len() {
        seq![]
    } else if folded_at(text, term, from) {
        seq![Mark { start: from as usize, end: (from + term.len()) as usize, kind }] + folded_hits(
            text,
            term,
            kind,
            from + term.len(),
        )
    } else {
        folded_hits(text, term, kind, from + 1)
    }
}

/// All terms are ASCII.
pub open spec fn all_ascii(terms: Seq<Seq<char>>) -> bool {
    forall|i: int| 0 <= i < terms.len() ==> is_ascii_chars(#[trigger] terms[i])
}

/// The places where a term stands.
pub open spec fn term_hits(
    text: Seq<char>,
    term: Seq<char>,
    kind: Option<usize>,
    ascii: bool,
) -> Seq<Mark> {
    if ascii {
        ascii_hits(text, term, kind, text.len() as int)
    } else {
        folded_hits(text, term, kind, 0)
    }
}

/// The places of the first `n` highlight terms, each marked with its number.
pub open spec fn highlight_hits(
    text: Seq<char>,
    terms: Seq<Seq<char>>,
    ascii: bool,
    n: int,
) -> Seq<Mark>
    decreases n,
{
    if n <= 0 {
        seq![]
    } else {
        highlight_hits(text, terms, ascii, n - 1) + term_hits(
            text,
            terms[n - 1],
            Some((n - 1) as usize),
            ascii,
        )
    }
}

/// The places of the first `n` search terms.
pub open spec fn find_hits(
    text: Seq<char>,
    terms: Seq<Seq<char>>,
    ascii: bool,
    n: int,
) -> Seq<Mark>
    decreases n,
{
    if n <= 0 {
        seq![]
    } else {
        find_hits(text, terms, ascii, n - 1) + term_hits(text, terms[n - 1], None, ascii)
    }
}

/// The places of all terms: the highlight terms first, then the search terms.
pub open spec fn hits(
    text: Seq<char>,
    highlights: Seq<Seq<char>>,
    finds: Seq<Seq<char>>,
) -> Seq<Mark> {
    let ascii = is_ascii_chars(text) && all_ascii(highlights) && all_ascii(finds);
    highlight_hits(text, highlights, ascii, highlights.len() as int) + find_hits(
        text,
        finds,
        ascii,
        finds.len() as int,
    )
}

/// The order of places: by start, then by end.
pub open spec fn not_after(a: Mark, b: Mark) -> bool {
    a.start < b.start || (a.start == b.start && a.end <= b.end)
}

/// A place put into an ordered list, behind those that it is not before.
pub open spec fn inserted(s: Seq<Mark>, m: Mark) -> Seq<Mark>
    decreases s.len(),
{
    if s.len() > 0 && !not_after(s.last(), m) {
        inserted(s.drop_last(), m).push(s.last())
    } else {
        s.push(m)
    }
}

/// The places in order; equal ones stay as they came.
pub open spec fn ordered(s: Seq<Mark>) -> Seq<Mark>
    decreases s.len(),
{
    if s.len() == 0 {
        seq![]
    } else {
        inserted(ordered(s.drop_last()), s.last())
    }
}

/// The ordered places with those that overlap joined; the first of them gives
/// the kind.
pub open spec fn merged(s: Seq<Mark>) -> Seq<Mark>
    decreases s.len(),
{
    if s.len() == 0 {
        seq![]
    } else {
        let before = merged(s.drop_last());
        let m = s.last();
        if before.len() > 0 && m.start < before.last().end {
            before.drop_last().push(
                Mark {
                    end: if m.end > before.last().end {
                        m.end
                    } else {
                        before.last().end
                    },
                    ..before.last()
                },
            )
        } else {
            before.push(m)
        }
    }
}

/// How a mark is shown: a highlight term has the palette's color of its number,
/// if there is a palette; all other marks are underlined.
pub open spec fn style_of(kind: Option<usize>, palette: Seq<Rgb>) -> Style {
    match kind {
        Some(i) => if palette.len() > 0 {
            let background = palette[i as int % palette.len() as int];
            Style::Colored { background, foreground: color::contrast_spec(background) }
        } else {
            Style::Underlined
        },
        None => Style::Underlined,
    }
}

/// Where the first `n` marks end.
pub open spec fn marks_end(marks: Seq<Mark>, n: int) -> int {
    if n <= 0 {
        0
    } else {
        marks[n - 1].end as int
    }
}

/// The pieces of a text up to the end of its first `n` marks.
pub open spec fn pieces(
    text: Seq<char>,
    marks: Seq<Mark>,
    palette: Seq<Rgb>,
    n: int,
) -> Seq<SegmentView>
    decreases n,
{
    if n <= 0 {
        seq![]
    } else {
        let before = pieces(text, marks, palette, n - 1);
        let cursor = marks_end(marks, n - 1);
        let m = marks[n - 1];
        let marked = SegmentView {
            text: text.subrange(m.start as int, m.end as int),
            style: style_of(m.kind, palette),
        };
        if m.start > cursor {
            before.push(
                SegmentView { text: text.subrange(cursor, m.start as int), style: Style::Plain },
            ).push(marked)
        } else {
            before.push(marked)
        }
    }
}

/// The pieces of a text with its marks.
pub open spec fn segments(
    text: Seq<char>,
    marks: Seq<Mark>,
    palette: Seq<Rgb>,
) -> Seq<SegmentView> {
    let all = pieces(text, marks, palette, marks.len() as int);
    let cursor = marks_end(marks, marks.len() as int);
    if cursor < text.len() {
        all.push(SegmentView { text: text.skip(cursor), style: Style::Plain })
    } else {
        all
    }
}

/// The marks of a text.
pub open spec fn marks_of(
    text: Seq<char>,
    highlights: Seq<Seq<char>>,
    finds: Seq<Seq<char>>,
) -> Seq<Mark> {
    merged(ordered(hits(text, highlights, finds)))
}

/// The place lies in the text and is not empty.
pub open spec fn mark_in(m: Mark, len: int) -> bool {
    m.start < m.end && m.end <= len
}

/// The places lie in the text and are not empty.
pub open spec fn marks_in(s: Seq<Mark>, len: int) -> bool {
    forall|i: int| 0 <= i < s.len() ==> mark_in(#[trigger] s[i], len)
}

/// The marks follow each other without overlaps.
pub open spec fn marks_apart(s: Seq<Mark>) -> bool {
    forall|i: int, j: int| 0 <= i < j < s.len() ==> (#[trigger] s[i]).end <= (#[trigger] s[j]).start
}

/// Whether all terms are ASCII.
fn terms_are_ascii(terms: &Vec<String>) -> (r: bool)
    ensures
        r == all_ascii(split::texts(terms@)),
{
    let n: usize = terms.len();
    for i in 0..n
        invariant
            n == terms@.len(),
            forall|j: int| 0 <= j < i ==> is_ascii_chars(#[trigger] split::texts(terms@)[j]),
    {
        assert(split::texts(terms@)[i as int] == terms@[i as int]@);
        if !terms[i].as_str().is_ascii() {
            return false;
        }
    }
    true
}

/// Puts the places of a term into the list.
fn push_ascii_hits(
    out: &mut Vec<Mark>,
    lowered: &Vec<char>,
    term: &Vec<char>,
    kind: Option<usize>,
    text: Ghost<Seq<char>>,
)
    requires
        lowered@ == filter::ascii_lowered(text@),
    ensures
        final(out)@ == old(out)@ + ascii_hits(text@, term@, kind, text@.len() as int),
{
    let ghost before = out@;
    if term.len() == 0 {
        assert(before + Seq::<Mark>::empty() == before);
        return;
    }
    let word = lower_ascii(term);
    let n: usize = lowered.len();
    assert(before + Seq::<Mark>::empty() == before);
    for s in 0..n
        invariant
            n == lowered@.len(),
            lowered@ == filter::ascii_lowered(text@),
            word@ == filter::ascii_lowered(term@),
            term@.len() > 0,
            out@ == before + ascii_hits(text@, term@, kind, s as int),
    {
        if chars_occur_at(lowered.as_slice(), word.as_slice(), s) {
            let ghost found = ascii_hits(text@, term@, kind, s as int);
            let m = Mark { start: s, end: s + term.len(), kind };
            out.push(m);
            assert((before + found).push(m) == before + found.push(m));
        }
    }
}

/// The lower case of each character.
fn lower_each(chars: &Vec<char>) -> (r: Vec<Vec<char>>)
    ensures
        r@.len() == chars@.len(),
        forall|i: int| 0 <= i < chars@.len() ==> (#[trigger] r@[i])@ == char_lowercased(chars@[i]),
{
    let mut out: Vec<Vec<char>> = Vec::new();
    let n: usize = chars.len();
    for i in 0..n
        invariant
            n == chars@.len(),
            out@.len() == i,
            forall|j: int| 0 <= j < i ==> (#[trigger] out@[j])@ == char_lowercased(chars@[j]),
    {
        out.push(lower_char(chars[i]));
    }
    out
}

/// Whether the lower cases of a term stand in those of a text at `at`.
fn lowered_at(
    hay: &Vec<Vec<char>>,
    term: &Vec<Vec<char>>,
    at: usize,
    text: Ghost<Seq<char>>,
    word: Ghost<Seq<char>>,
) -> (r: bool)
    requires
        hay@.len() == text@.len(),
        term@.len() == word@.len(),
        at + term@.len() <= hay@.len(),
        forall|i: int| 0 <= i < hay@.len() ==> (#[trigger] hay@[i])@ == char_lowercased(text@[i]),
        forall|i: int| 0 <= i < term@.len() ==> (#[trigger] term@[i])@ == char_lowercased(word@[i]),
    ensures
        r == folded_at(text@, word@, at as int),
{
    let n: usize = term.len();
    let total: usize = hay.len();
    for j in 0..n
        invariant
            n == term@.len(),
            total == hay@.len(),
            hay@.len() == text@.len(),
            term@.len() == word@.len(),
            at + n <= total,
            forall|i: int|
                0 <= i < hay@.len() ==> (#[trigger] hay@[i])@ == char_lowercased(text@[i]),
            forall|i: int|
                0 <= i < term@.len() ==> (#[trigger] term@[i])@ == char_lowercased(word@[i]),
            forall|i: int|
                0 <= i < j ==> char_lowercased(#[trigger] text@[at + i]) == char_lowercased(
                    word@[i],
                ),
    {
        assert(hay@[at + (j as int)]@ == char_lowercased(text@[at + (j as int)]));
        if !same_chars(hay[at + j].as_slice(), term[j].as_slice()) {
            assert(char_lowercased(text@[at + (j as int)]) != char_lowercased(word@[j as int]));
            return false;
        }
    }
    true
}

/// Puts the places of a term into the list.
fn push_folded_hits(
    out: &mut Vec<Mark>,
    hay: &Vec<Vec<char>>,
    term: &Vec<char>,
    kind: Option<usize>,
    text: Ghost<Seq<char>>,
)
    requires
        hay@.len() == text@.len(),
        forall|i: int| 0 <= i < hay@.len() ==> (#[trigger] hay@[i])@ == char_lowercased(text@[i]),
    ensures
        final(out)@ == old(out)@ + folded_hits(text@, term@, kind, 0),
{
    let ghost before = out@;
    let m: usize = term.len();
    let n: usize = hay.len();
    if m == 0 || m > n {
        assert(before + Seq::<Mark>::empty() == before);
        return;
    }
    let folded = lower_each(term);
    let mut i: usize = 0;
    while i <= n - m
        invariant
            n == hay@.len(),
            n == text@.len(),
            m == term@.len(),
            0 < m <= n,
            folded@.len() == m,
            i <= n,
            forall|k: int|
                0 <= k < hay@.len() ==> (#[trigger] hay@[k])@ == char_lowercased(text@[k]),
            forall|k: int|
                0 <= k < folded@.len() ==> (#[trigger] folded@[k])@ == char_lowercased(term@[k]),
            out@ + folded_hits(text@, term@, kind, i as int) == before + folded_hits(
                text@,
                term@,
                kind,
                0,
            ),
        decreases n - i,
    {
        if lowered_at(hay, &folded, i, text, Ghost(term@)) {
            let mark = Mark { start: i, end: i + m, kind };
            let ghost so_far = out@;
            let ghost rest = folded_hits(text@, term@, kind, i + m);
            out.push(mark);
            assert(so_far.push(mark) + rest == so_far + (seq![mark] + rest));
            i = i + m;
        } else {
            i = i + 1;
        }
    }
    assert(out@ + Seq::<Mark>::empty() == out@);
}

/// Puts a place into an ordered list.
fn insert_mark(list: &mut Vec<Mark>, m: Mark)
    ensures
        final(list)@ == inserted(old(list)@, m),
{
    let ghost s = list@;
    let mut i: usize = list.len();
    assert(s.take(i as int) == s);
    assert(inserted(s, m) + Seq::<Mark>::empty() == inserted(s, m));
    assert(s.skip(i as int) == Seq::<Mark>::empty());
    while i > 0 && !(list[i - 1].start < m.start || (list[i - 1].start == m.start && list[i - 1].end
        <= m.end))
        invariant
            i <= s.len(),
            s == list@,
            inserted(s, m) == inserted(s.take(i as int), m) + s.skip(i as int),
        decreases i,
    {
        let ghost head = s.take(i as int);
        assert(head.drop_last() == s.take(i - 1));
        assert(inserted(s.take(i - 1), m).push(s[i - 1]) + s.skip(i as int) == inserted(
            s.take(i - 1),
            m,
        ) + s.skip(i - 1));
        i = i - 1;
    }
    assert(inserted(s.take(i as int), m) == s.take(i as int).push(m));
    list.insert(i, m);
    assert(list@ == s.take(i as int).push(m) + s.skip(i as int));
}

/// The places in order.
fn order_marks(list: &Vec<Mark>) -> (r: Vec<Mark>)
    ensures
        r@ == ordered(list@),
{
    let mut out: Vec<Mark> = Vec::new();
    let n: usize = list.len();
    for i in 0..n
        invariant
            n == list@.len(),
            out@ == ordered(list@.take(i as int)),
    {
        assert(list@.take(i + 1).drop_last() == list@.take(i as int));
        insert_mark(&mut out, list[i]);
    }
    assert(list@.take(n as int) == list@);
    out
}

/// The ordered places with those that overlap joined.
pub fn merge_marks(list: &Vec<Mark>) -> (r: Vec<Mark>)
    ensures
        r@ == merged(list@),
{
    let mut out: Vec<Mark> = Vec::new();
    let n: usize = list.len();
    for i in 0..n
        invariant
            n == list@.len(),
            out@ == merged(list@.take(i as int)),
    {
        assert(list@.take(i + 1).drop_last() == list@.take(i as int));
        let m = list[i];
        let ghost before = out@;
        let k: usize = out.len();
        if k > 0 && m.start < out[k - 1].end {
            let last = out[k - 1];
            let end: usize = if m.end > last.end {
                m.end
            } else {
                last.end
            };
            let joined = Mark { start: last.start, end, kind: last.kind };
            out.set(k - 1, joined);
            assert(out@ == before.drop_last().push(joined));
        } else {
            out.push(m);
        }
    }
    assert(list@.take(n as int) == list@);
    out
}

/// How a mark is shown.
pub fn mark_style(kind: Option<usize>, palette: &Vec<Rgb>) -> (r: Style)
    ensures
        r == style_of(kind, palette@),
{
    match kind {
        Some(i) => {
            if palette.len() > 0 {
                let background = palette[i % palette.len()];
                Style::Colored { background, foreground: contrast(background) }
            } else {
                Style::Underlined
            }
        },
        None => Style::Underlined,
    }
}

/// The pieces of a text with its marks.
pub fn cut_segments(text: &Vec<char>, marks: &Vec<Mark>, palette: &Vec<Rgb>) -> (r: Vec<Segment>)
    requires
        marks_in(marks@, text@.len() as int),
        marks_apart(marks@),
    ensures
        segment_views(r@) == segments(text@, marks@, palette@),
{
    let mut out: Vec<Segment> = Vec::new();
    let mut cursor: usize = 0;
    let n: usize = marks.len();
    assert(segment_views(out@) =~= Seq::<SegmentView>::empty());
    for i in 0..n
        invariant
            n == marks@.len(),
            marks_in(marks@, text@.len() as int),
            marks_apart(marks@),
            cursor == marks_end(marks@, i as int),
            cursor <= text@.len(),
            segment_views(out@) == pieces(text@, marks@, palette@, i as int),
    {
        let m = marks[i];
        assert(mark_in(marks@[i as int], text@.len() as int));
        if i > 0 {
            assert(marks@[i - 1].end <= marks@[i as int].start);
        }
        let ghost before = segment_views(out@);
        if m.start > cursor {
            let plain = Segment {
                text: string_of(slice_subrange(text.as_slice(), cursor, m.start)),
                style: Style::Plain,
            };
            out.push(plain);
            assert(segment_views(out@) =~= before.push(plain@));
        }
        let ghost middle = segment_views(out@);
        let marked = Segment {
            text: string_of(slice_subrange(text.as_slice(), m.start, m.end)),
            style: mark_style(m.kind, palette),
        };
        out.push(marked);
        assert(segment_views(out@) =~= middle.push(marked@));
        cursor = m.end;
    }
    if cursor < text.len() {
        let ghost before = segment_views(out@);
        let rest = Segment {
            text: string_of(slice_subrange(text.as_slice(), cursor, text.len())),
            style: Style::Plain,
        };
        assert(rest.text@ == text@.skip(cursor as int));
        out.push(rest);
        assert(segment_views(out@) =~= before.push(rest@));
    }
    out
}

/// The places of all terms.
fn collect_hits(text: &Vec<char>, highlights: &Vec<String>, finds: &Vec<String>) -> (r: Vec<Mark>)
    ensures
        r@ == hits(text@, split::texts(highlights@), split::texts(finds@)),
{
    let ghost hs = split::texts(highlights@);
    let ghost fs = split::texts(finds@);
    let mut out: Vec<Mark> = Vec::new();
    let ascii = chars_are_ascii(text) && terms_are_ascii(highlights) && terms_are_ascii(finds);
    let lowered = if ascii {
        lower_ascii(text)
    } else {
        Vec::new()
    };
    let folded = if ascii {
        Vec::new()
    } else {
        lower_each(text)
    };
    let n: usize = highlights.len();
    for i in 0..n
        invariant
            n == highlights@.len(),
            hs == split::texts(highlights@),
            ascii ==> lowered@ == filter::ascii_lowered(text@),
            !ascii ==> folded@.len() == text@.len(),
            !ascii ==> forall|k: int|
                0 <= k < folded@.len() ==> (#[trigger] folded@[k])@ == char_lowercased(text@[k]),
            out@ == highlight_hits(text@, hs, ascii, i as int),
    {
        let term = chars_of(highlights[i].as_str());
        assert(hs[i as int] == term@);
        if ascii {
            push_ascii_hits(&mut out, &lowered, &term, Some(i), Ghost(text@));
        } else {
            push_folded_hits(&mut out, &folded, &term, Some(i), Ghost(text@));
        }
    }
    let ghost first = out@;
    assert(first + Seq::<Mark>::empty() == first);
    let m: usize = finds.len();
    for i in 0..m
        invariant
            m == finds@.len(),
            fs == split::texts(finds@),
            ascii ==> lowered@ == filter::ascii_lowered(text@),
            !ascii ==> folded@.len() == text@.len(),
            !ascii ==> forall|k: int|
                0 <= k < folded@.len() ==> (#[trigger] folded@[k])@ == char_lowercased(text@[k]),
            out@ == first + find_hits(text@, fs, ascii, i as int),
    {
        let term = chars_of(finds[i].as_str());
        assert(fs[i as int] == term@);
        let ghost found = find_hits(text@, fs, ascii, i as int);
        if ascii {
            push_ascii_hits(&mut out, &lowered, &term, None, Ghost(text@));
        } else {
            push_folded_hits(&mut out, &folded, &term, None, Ghost(text@));
        }
        let ghost more = term_hits(text@, term@, None, ascii);
        assert((first + found) + more == first + (found + more));
    }
    out
}

/// No character comes before the first.
proof fn lemma_char_from_zero(c: char)
    ensures
        '\0' <= c,
{
}

/// Whether all characters are ASCII.
fn chars_are_ascii(chars: &Vec<char>) -> (r: bool)
    ensures
        r == is_ascii_chars(chars@),
{
    let n: usize = chars.len();
    for i in 0..n
        invariant
            n == chars@.len(),
            forall|j: int| 0 <= j < i ==> '\0' <= #[trigger] chars@[j] <= '\u{7f}',
    {
        let c = chars[i];
        if c > '\u{7f}' {
            assert(!('\0' <= chars@[i as int] <= '\u{7f}'));
            return false;
        }
        proof {
            lemma_char_from_zero(c);
        }
    }
    true
}

/// The characters with ASCII letters in lower case.
fn lower_ascii(chars: &Vec<char>) -> (r: Vec<char>)
    ensures
        r@ == filter::ascii_lowered(chars@),
{
    let mut out: Vec<char> = Vec::new();
    let n: usize = chars.len();
    for i in 0..n
        invariant
            n == chars@.len(),
            out@.len() == i,
            forall|j: int| 0 <= j < i ==> #[trigger] out@[j] == text::ascii_lower(chars@[j]),
    {
        out.push(to_ascii_lower(chars[i]));
    }
    assert(out@ =~= filter::ascii_lowered(chars@));
    out
}

/// The marks of the terms in a text: highlight terms, whose number the mark
/// carries, and search terms. Places that overlap are one mark.
pub fn find_marks(text: &Vec<char>, highlights: &Vec<String>, finds: &Vec<String>) -> (r: Vec<Mark>)
    ensures
        r@ == marks_of(text@, split::texts(highlights@), split::texts(finds@)),
{
    let list = collect_hits(text, highlights, finds);
    let in_order = order_marks(&list);
    merge_marks(&in_order)
}

/// A text cut into pieces, with highlight terms on colors of the palette and
/// search terms underlined.
pub fn build_highlighted(
    text: &str,
    highlights: &Vec<String>,
    finds: &Vec<String>,
    palette: &Vec<Rgb>,
) -> (r: Vec<Segment>)
    ensures
        segment_views(r@) == segments(
            text@,
            marks_of(text@, split::texts(highlights@), split::texts(finds@)),
            palette@,
        ),
{
    let chars = chars_of(text);
    let marks = find_marks(&chars, highlights, finds);
    proof {
        marks_are_apart(text@, split::texts(highlights@), split::texts(finds@));
    }
    cut_segments(&chars, &marks, palette)
}

/// Places of a term lie in the text.
proof fn lemma_ascii_hits_in(text: Seq<char>, term: Seq<char>, kind: Option<usize>, n: int)
    requires
        n <= text.len() <= usize::MAX,
    ensures
        marks_in(ascii_hits(text, term, kind, n), text.len() as int),
    decreases n,
{
    if n > 0 {
        lemma_ascii_hits_in(text, term, kind, n - 1);
    }
}

/// Places of a term lie in the text.
proof fn lemma_folded_hits_in(text: Seq<char>, term: Seq<char>, kind: Option<usize>, from: int)
    requires
        0 <= from,
        text.len() <= usize::MAX,
    ensures
        marks_in(folded_hits(text, term, kind, from), text.len() as int),
    decreases text.len() - from,
{
    if term.len() > 0 && from + term.len() <= text.len() {
        if folded_at(text, term, from) {
            lemma_folded_hits_in(text, term, kind, from + term.len());
        } else {
            lemma_folded_hits_in(text, term, kind, from + 1);
        }
    }
}

/// Places of the terms lie in the text.
proof fn lemma_hits_in(text: Seq<char>, highlights: Seq<Seq<char>>, finds: Seq<Seq<char>>)
    requires
        text.len() <= usize::MAX,
    ensures
        marks_in(hits(text, highlights, finds), text.len() as int),
{
    let ascii = is_ascii_chars(text) && all_ascii(highlights) && all_ascii(finds);
    lemma_highlight_hits_in(text, highlights, ascii, highlights.len() as int);
    lemma_find_hits_in(text, finds, ascii, finds.len() as int);
}

proof fn lemma_highlight_hits_in(text: Seq<char>, terms: Seq<Seq<char>>, ascii: bool, n: int)
    requires
        text.len() <= usize::MAX,
    ensures
        marks_in(highlight_hits(text, terms, ascii, n), text.len() as int),
    decreases n,
{
    if n > 0 {
        lemma_highlight_hits_in(text, terms, ascii, n - 1);
        lemma_ascii_hits_in(text, terms[n - 1], Some((n - 1) as usize), text.len() as int);
        lemma_folded_hits_in(text, terms[n - 1], Some((n - 1) as usize), 0);
    }
}

proof fn lemma_find_hits_in(text: Seq<char>, terms: Seq<Seq<char>>, ascii: bool, n: int)
    requires
        text.len() <= usize::MAX,
    ensures
        marks_in(find_hits(text, terms, ascii, n), text.len() as int),
    decreases n,
{
    if n > 0 {
        lemma_find_hits_in(text, terms, ascii, n - 1);
        lemma_ascii_hits_in(text, terms[n - 1], None, text.len() as int);
        lemma_folded_hits_in(text, terms[n - 1], None, 0);
    }
}

/// The places are in order.
pub open spec fn in_order(s: Seq<Mark>) -> bool {
    forall|i: int, j: int| 0 <= i < j < s.len() ==> not_after(#[trigger] s[i], #[trigger] s[j])
}

/// Putting a place into an ordered list keeps the order and the places.
proof fn lemma_inserted(s: Seq<Mark>, m: Mark, len: int)
    requires
        in_order(s),
        marks_in(s, len),
        mark_in(m, len),
    ensures
        in_order(inserted(s, m)),
        marks_in(inserted(s, m), len),
        inserted(s, m).contains(m),
        forall|x: Mark| s.contains(x) ==> inserted(s, m).contains(x),
        forall|x: Mark| inserted(s, m).contains(x) ==> s.contains(x) || x == m,
    decreases s.len(),
{
    let r = inserted(s, m);
    if s.len() > 0 && !not_after(s.last(), m) {
        let head = s.drop_last();
        let before = inserted(head, m);
        assert forall|i: int, j: int| 0 <= i < j < head.len() implies not_after(
            #[trigger] head[i],
            #[trigger] head[j],
        ) by {
            assert(not_after(s[i], s[j]));
        }
        lemma_inserted(head, m, len);
        assert(r == before.push(s.last()));
        assert(r[before.len() as int] == s.last());
        assert forall|i: int, j: int| 0 <= i < j < r.len() implies not_after(
            #[trigger] r[i],
            #[trigger] r[j],
        ) by {
            if j == before.len() {
                assert(before.contains(r[i]));
                if head.contains(r[i]) {
                    let k = choose|k: int| 0 <= k < head.len() && head[k] == r[i];
                    assert(not_after(s[k], s[s.len() - 1]));
                }
            }
        }
        assert forall|x: Mark| s.contains(x) implies r.contains(x) by {
            let k = choose|k: int| 0 <= k < s.len() && s[k] == x;
            if k < head.len() {
                assert(head[k] == x);
                assert(head.contains(x));
                assert(before.contains(x));
                let i = choose|i: int| 0 <= i < before.len() && before[i] == x;
                assert(r[i] == x);
            }
        }
        assert(before.contains(m));
        let at = choose|i: int| 0 <= i < before.len() && before[i] == m;
        assert(r[at] == m);
        assert forall|x: Mark| r.contains(x) implies s.contains(x) || x == m by {
            let k = choose|k: int| 0 <= k < r.len() && r[k] == x;
            if k < before.len() {
                assert(before[k] == x);
                assert(before.contains(x));
                if head.contains(x) {
                    let i = choose|i: int| 0 <= i < head.len() && head[i] == x;
                    assert(s[i] == x);
                }
            } else {
                assert(s[s.len() - 1] == x);
            }
        }
        assert forall|i: int| 0 <= i < r.len() implies mark_in(#[trigger] r[i], len) by {
            if i < before.len() {
                assert(before[i] == r[i]);
            } else {
                assert(mark_in(s[s.len() - 1], len));
            }
        }
    } else {
        assert(r == s.push(m));
        assert forall|i: int, j: int| 0 <= i < j < r.len() implies not_after(
            #[trigger] r[i],
            #[trigger] r[j],
        ) by {
            if j == s.len() && i < s.len() - 1 {
                assert(not_after(s[i], s[s.len() - 1]));
            }
        }
        assert(r[s.len() as int] == m);
        assert forall|x: Mark| s.contains(x) implies r.contains(x) by {
            let k = choose|k: int| 0 <= k < s.len() && s[k] == x;
            assert(r[k] == x);
        }
        assert forall|x: Mark| r.contains(x) implies s.contains(x) || x == m by {
            let k = choose|k: int| 0 <= k < r.len() && r[k] == x;
            if k < s.len() {
                assert(s[k] == x);
            }
        }
        assert forall|i: int| 0 <= i < r.len() implies mark_in(#[trigger] r[i], len) by {
            if i < s.len() {
                assert(mark_in(s[i], len));
            }
        }
    }
}

/// Ordering keeps the places.
proof fn lemma_ordered(s: Seq<Mark>, len: int)
    requires
        marks_in(s, len),
    ensures
        in_order(ordered(s)),
        marks_in(ordered(s), len),
        forall|x: Mark| s.contains(x) ==> ordered(s).contains(x),
        forall|x: Mark| ordered(s).contains(x) ==> s.contains(x),
    decreases s.len(),
{
    if s.len() > 0 {
        let head = s.drop_last();
        assert forall|i: int| 0 <= i < head.len() implies mark_in(#[trigger] head[i], len) by {
            assert(mark_in(s[i], len));
        }
        lemma_ordered(head, len);
        assert(mark_in(s[s.len() - 1], len));
        lemma_inserted(ordered(head), s.last(), len);
        assert forall|x: Mark| s.contains(x) implies ordered(s).contains(x) by {
            let k = choose|k: int| 0 <= k < s.len() && s[k] == x;
            if k < head.len() {
                assert(head[k] == x);
                assert(head.contains(x));
            }
        }
        assert forall|x: Mark| ordered(s).contains(x) implies s.contains(x) by {
            if ordered(head).contains(x) {
                assert(head.contains(x));
                let k = choose|k: int| 0 <= k < head.len() && head[k] == x;
                assert(s[k] == x);
            } else {
                assert(s[s.len() - 1] == x);
            }
        }
    }
}

/// A place lies in a mark.
pub open spec fn within(m: Mark, mark: Mark) -> bool {
    mark.start <= m.start && m.end <= mark.end
}

/// A place lies in one of the marks.
pub open spec fn covered(m: Mark, marks: Seq<Mark>) -> bool {
    exists|i: int| 0 <= i < marks.len() && within(m, #[trigger] marks[i])
}

/// Joining ordered places gives marks that are apart and hold every place.
proof fn lemma_merged(s: Seq<Mark>, len: int)
    requires
        in_order(s),
        marks_in(s, len),
    ensures
        marks_in(merged(s), len),
        marks_apart(merged(s)),
        s.len() > 0 ==> merged(s).len() > 0 && merged(s).last().start <= s.last().start,
        forall|i: int| 0 <= i < s.len() ==> covered(#[trigger] s[i], merged(s)),
    decreases s.len(),
{
    if s.len() > 0 {
        let head = s.drop_last();
        let m = s.last();
        assert(m == s[s.len() - 1]);
        assert forall|i: int, j: int| 0 <= i < j < head.len() implies not_after(
            #[trigger] head[i],
            #[trigger] head[j],
        ) by {
            assert(not_after(s[i], s[j]));
        }
        assert forall|i: int| 0 <= i < head.len() implies mark_in(#[trigger] head[i], len) by {
            assert(mark_in(s[i], len));
        }
        lemma_merged(head, len);
        assert(mark_in(m, len));
        let before = merged(head);
        let after = merged(s);
        if head.len() > 0 {
            assert(not_after(s[head.len() - 1], s[s.len() - 1]));
            assert(head.last() == s[head.len() - 1]);
        } else {
            assert(before.len() == 0);
        }
        if before.len() > 0 && m.start < before.last().end {
            let k = before.len() - 1;
            assert(mark_in(before[k], len));
            assert(after.len() == before.len());
            assert(after[k].start == before[k].start);
            assert(after[k].end >= before[k].end);
            assert(forall|i: int| 0 <= i < k ==> after[i] == before[i]);
            assert forall|i: int| 0 <= i < after.len() implies mark_in(#[trigger] after[i], len) by {
                assert(mark_in(before[i], len));
            }
            assert forall|i: int, j: int| 0 <= i < j < after.len() implies (
            #[trigger] after[i]).end <= (#[trigger] after[j]).start by {
                assert(before[i].end <= before[j].start);
            }
            assert forall|i: int| 0 <= i < s.len() implies covered(#[trigger] s[i], after) by {
                if i < head.len() {
                    assert(covered(head[i], before));
                    let j = choose|j: int| 0 <= j < before.len() && within(head[i], before[j]);
                    assert(within(s[i], after[j]));
                } else {
                    assert(within(m, after[k]));
                }
            }
        } else {
            let k = before.len() as int;
            assert(after[k] == m);
            assert(forall|i: int| 0 <= i < k ==> after[i] == before[i]);
            assert forall|i: int| 0 <= i < after.len() implies mark_in(#[trigger] after[i], len) by {
                if i < k {
                    assert(mark_in(before[i], len));
                }
            }
            assert forall|i: int, j: int| 0 <= i < j < after.len() implies (
            #[trigger] after[i]).end <= (#[trigger] after[j]).start by {
                if j < k {
                    assert(before[i].end <= before[j].start);
                } else if i < k - 1 {
                    assert(before[i].end <= before[k - 1].start);
                    assert(mark_in(before[k - 1], len));
                }
            }
            assert forall|i: int| 0 <= i < s.len() implies covered(#[trigger] s[i], after) by {
                if i < head.len() {
                    assert(covered(head[i], before));
                    let j = choose|j: int| 0 <= j < before.len() && within(head[i], before[j]);
                    assert(within(s[i], after[j]));
                } else {
                    assert(within(m, after[k]));
                }
            }
        }
    }
}

/// The marks of a text lie in it, are not empty, and follow each other without
/// overlaps.
pub proof fn marks_are_apart(text: Seq<char>, highlights: Seq<Seq<char>>, finds: Seq<Seq<char>>)
    requires
        text.len() <= usize::MAX,
    ensures
        marks_in(marks_of(text, highlights, finds), text.len() as int),
        marks_apart(marks_of(text, highlights, finds)),
{
    let found = hits(text, highlights, finds);
    lemma_hits_in(text, highlights, finds);
    lemma_ordered(found, text.len() as int);
    lemma_merged(ordered(found), text.len() as int);
}

/// Every place where a term stands is marked.
pub proof fn every_hit_is_marked(
    text: Seq<char>,
    highlights: Seq<Seq<char>>,
    finds: Seq<Seq<char>>,
    m: Mark,
)
    requires
        text.len() <= usize::MAX,
        hits(text, highlights, finds).contains(m),
    ensures
        covered(m, marks_of(text, highlights, finds)),
{
    let found = hits(text, highlights, finds);
    lemma_hits_in(text, highlights, finds);
    lemma_ordered(found, text.len() as int);
    lemma_merged(ordered(found), text.len() as int);
    let list = ordered(found);
    let i = choose|i: int| 0 <= i < list.len() && list[i] == m;
    assert(covered(list[i], merged(list)));
}

/// A position lies in one of the places.
pub open spec fn touched(p: int, s: Seq<Mark>) -> bool {
    exists|i: int| 0 <= i < s.len() && (#[trigger] s[i]).start <= p < s[i].end
}

/// Joining places adds no positions.
proof fn lemma_merged_adds_nothing(s: Seq<Mark>, p: int)
    requires
        touched(p, merged(s)),
    ensures
        touched(p, s),
    decreases s.len(),
{
    let after = merged(s);
    let i = choose|i: int| 0 <= i < after.len() && (#[trigger] after[i]).start <= p < after[i].end;
    let head = s.drop_last();
    let m = s.last();
    let before = merged(head);
    assert(m == s[s.len() - 1]);
    if !(m.start <= p < m.end) {
        if i < before.len() {
            assert(before[i].start <= p < before[i].end);
        }
        lemma_merged_adds_nothing(head, p);
        let k = choose|k: int| 0 <= k < head.len() && (#[trigger] head[k]).start <= p < head[k].end;
        assert(s[k] == head[k]);
    }
}

/// Nothing else is marked: a marked position lies in a place where a term stands.
pub proof fn only_hits_are_marked(
    text: Seq<char>,
    highlights: Seq<Seq<char>>,
    finds: Seq<Seq<char>>,
    p: int,
)
    requires
        text.len() <= usize::MAX,
        touched(p, marks_of(text, highlights, finds)),
    ensures
        touched(p, hits(text, highlights, finds)),
{
    let found = hits(text, highlights, finds);
    let list = ordered(found);
    lemma_hits_in(text, highlights, finds);
    lemma_ordered(found, text.len() as int);
    lemma_merged_adds_nothing(list, p);
    let i = choose|i: int| 0 <= i < list.len() && (#[trigger] list[i]).start <= p < list[i].end;
    assert(list.contains(list[i]));
    assert(found.contains(list[i]));
    let k = choose|k: int| 0 <= k < found.len() && found[k] == list[i];
    assert(found[k].start <= p < found[k].end);
}

/// The texts of some pieces in a row.
pub open spec fn joined(s: Seq<SegmentView>) -> Seq<char>
    decreases s.len(),
{
    if s.len() == 0 {
        seq![]
    } else {
        joined(s.drop_last()) + s.last().text
    }
}

/// One more piece is its text more.
proof fn lemma_joined_push(s: Seq<SegmentView>, x: SegmentView)
    ensures
        joined(s.push(x)) == joined(s) + x.text,
{
    assert(s.push(x).drop_last() == s);
}

/// The pieces up to a mark are the text up to its end.
proof fn lemma_pieces_join(text: Seq<char>, marks: Seq<Mark>, palette: Seq<Rgb>, n: int)
    requires
        marks_in(marks, text.len() as int),
        marks_apart(marks),
        0 <= n <= marks.len(),
    ensures
        0 <= marks_end(marks, n) <= text.len(),
        joined(pieces(text, marks, palette, n)) == text.take(marks_end(marks, n)),
    decreases n,
{
    if n > 0 {
        lemma_pieces_join(text, marks, palette, n - 1);
        let before = pieces(text, marks, palette, n - 1);
        let cursor = marks_end(marks, n - 1);
        let m = marks[n - 1];
        assert(mark_in(m, text.len() as int));
        if n > 1 {
            assert(marks[n - 2].end <= marks[n - 1].start);
        }
        let marked = SegmentView {
            text: text.subrange(m.start as int, m.end as int),
            style: style_of(m.kind, palette),
        };
        if m.start > cursor {
            let plain = SegmentView {
                text: text.subrange(cursor, m.start as int),
                style: Style::Plain,
            };
            lemma_joined_push(before, plain);
            lemma_joined_push(before.push(plain), marked);
            assert(text.take(cursor) + plain.text == text.take(m.start as int));
        } else {
            lemma_joined_push(before, marked);
        }
        assert(text.take(m.start as int) + marked.text == text.take(m.end as int));
    } else {
        assert(text.take(0) == Seq::<char>::empty());
    }
}

/// Marking terms changes nothing of the text: its pieces in a row are the text.
pub proof fn highlighting_keeps_text(text: Seq<char>, marks: Seq<Mark>, palette: Seq<Rgb>)
    requires
        marks_in(marks, text.len() as int),
        marks_apart(marks),
    ensures
        joined(segments(text, marks, palette)) == text,
{
    let n = marks.len() as int;
    lemma_pieces_join(text, marks, palette, n);
    let all = pieces(text, marks, palette, n);
    let cursor = marks_end(marks, n);
    if cursor < text.len() {
        let rest = SegmentView { text: text.skip(cursor), style: Style::Plain };
        lemma_joined_push(all, rest);
        assert(text.take(cursor) + text.skip(cursor) == text);
    } else {
        assert(text.take(cursor) == text);
    }
}

/// Without terms a text is one plain piece.
pub proof fn no_terms_no_marks(text: Seq<char>, palette: Seq<Rgb>)
    requires
        text.len() > 0,
    ensures
        segments(text, marks_of(text, seq![], seq![]), palette) == seq![
            SegmentView { text, style: Style::Plain },
        ],
{
    let none: Seq<Seq<char>> = seq![];
    assert(hits(text, none, none) == Seq::<Mark>::empty());
    assert(ordered(hits(text, none, none)) == Seq::<Mark>::empty());
    assert(marks_of(text, none, none) == Seq::<Mark>::empty());
    assert(text.skip(0) == text);
}

/// Two lists of ASCII terms that differ in case only.
pub open spec fn same_but_case(one: Seq<Seq<char>>, other: Seq<Seq<char>>) -> bool {
    &&& all_ascii(one)
    &&& all_ascii(other)
    &&& one.len() == other.len()
    &&& forall|i: int|
        0 <= i < one.len() ==> filter::ascii_lowered(#[trigger] one[i]) == filter::ascii_lowered(
            other[i],
        )
}

/// The case of terms and of the text does not matter: ASCII terms that differ in case
/// only are marked in the same places of ASCII texts that differ in case only.
pub proof fn highlighting_ignores_case(
    one: Seq<char>,
    other: Seq<char>,
    highlights: Seq<Seq<char>>,
    other_highlights: Seq<Seq<char>>,
    finds: Seq<Seq<char>>,
    other_finds: Seq<Seq<char>>,
)
    requires
        is_ascii_chars(one),
        is_ascii_chars(other),
        filter::ascii_lowered(one) == filter::ascii_lowered(other),
        same_but_case(highlights, other_highlights),
        same_but_case(finds, other_finds),
    ensures
        marks_of(one, highlights, finds) == marks_of(other, other_highlights, other_finds),
{
    lemma_highlights_ignore_case(one, other, highlights, other_highlights, highlights.len() as int);
    lemma_finds_ignore_case(one, other, finds, other_finds, finds.len() as int);
}

proof fn lemma_hits_ignore_case(
    one: Seq<char>,
    other: Seq<char>,
    term: Seq<char>,
    other_term: Seq<char>,
    kind: Option<usize>,
    n: int,
)
    requires
        filter::ascii_lowered(one) == filter::ascii_lowered(other),
        filter::ascii_lowered(term) == filter::ascii_lowered(other_term),
    ensures
        ascii_hits(one, term, kind, n) == ascii_hits(other, other_term, kind, n),
    decreases n,
{
    assert(filter::ascii_lowered(term).len() == term.len());
    assert(filter::ascii_lowered(other_term).len() == other_term.len());
    if n > 0 {
        lemma_hits_ignore_case(one, other, term, other_term, kind, n - 1);
    }
}

proof fn lemma_highlights_ignore_case(
    one: Seq<char>,
    other: Seq<char>,
    terms: Seq<Seq<char>>,
    other_terms: Seq<Seq<char>>,
    n: int,
)
    requires
        filter::ascii_lowered(one) == filter::ascii_lowered(other),
        same_but_case(terms, other_terms),
        n <= terms.len(),
    ensures
        highlight_hits(one, terms, true, n) == highlight_hits(other, other_terms, true, n),
    decreases n,
{
    assert(filter::ascii_lowered(one).len() == one.len());
    assert(filter::ascii_lowered(other).len() == other.len());
    if n > 0 {
        lemma_highlights_ignore_case(one, other, terms, other_terms, n - 1);
        lemma_hits_ignore_case(
            one,
            other,
            terms[n - 1],
            other_terms[n - 1],
            Some((n - 1) as usize),
            one.len() as int,
        );
    }
}

proof fn lemma_finds_ignore_case(
    one: Seq<char>,
    other: Seq<char>,
    terms: Seq<Seq<char>>,
    other_terms: Seq<Seq<char>>,
    n: int,
)
    requires
        filter::ascii_lowered(one) == filter::ascii_lowered(other),
        same_but_case(terms, other_terms),
        n <= terms.len(),
    ensures
        find_hits(one, terms, true, n) == find_hits(other, other_terms, true, n),
    decreases n,
{
    assert(filter::ascii_lowered(one).len() == one.len());
    assert(filter::ascii_lowered(other).len() == other.len());
    if n > 0 {
        lemma_finds_ignore_case(one, other, terms, other_terms, n - 1);
        lemma_hits_ignore_case(
            one,
            other,
            terms[n - 1],
            other_terms[n - 1],
            None,
            one.len() as int,
        );
    }
}

/// How the character at a position of some pieces in a row is shown, if there is one.
pub open spec fn style_at(s: Seq<SegmentView>, p: int) -> Option<Style>
    decreases s.len(),
{
    if s.len() == 0 {
        None
    } else {
        let before = joined(s.drop_last()).len();
        if p < before {
            style_at(s.drop_last(), p)
        } else if p < before + s.last().text.len() {
            Some(s.last().style)
        } else {
            None
        }
    }
}

/// A term stands in a text at `at`, whatever the case of letters: in a text of ASCII
/// characters that of ASCII letters, in any other that of all letters.
pub open spec fn stands_at(text: Seq<char>, term: Seq<char>, at: int, ascii: bool) -> bool {
    &&& term.len() > 0
    &&& 0 <= at
    &&& at + term.len() <= text.len()
    &&& forall|j: int|
        0 <= j < term.len() ==> if ascii {
            text::ascii_lower(#[trigger] text[at + j]) == text::ascii_lower(term[j])
        } else {
            char_lowercased(text[at + j]) == char_lowercased(term[j])
        }
}

/// The text and all terms are ASCII.
pub open spec fn is_plain_case(
    text: Seq<char>,
    highlights: Seq<Seq<char>>,
    finds: Seq<Seq<char>>,
) -> bool {
    is_ascii_chars(text) && all_ascii(highlights) && all_ascii(finds)
}

/// In an ASCII text every place of every term is marked, all of its characters: those of
/// each highlight term and those of each search term, however many there are.
pub proof fn every_term_is_marked(
    text: Seq<char>,
    highlights: Seq<Seq<char>>,
    finds: Seq<Seq<char>>,
    palette: Seq<Rgb>,
    i: int,
    at: int,
    p: int,
)
    requires
        text.len() <= usize::MAX,
        is_ascii_chars(text),
        all_ascii(highlights),
        all_ascii(finds),
    ensures
        ({
            let shown = style_at(segments(text, marks_of(text, highlights, finds), palette), p);
            &&& 0 <= i < highlights.len() && stands_at(text, highlights[i], at, true) && at <= p < at
                + highlights[i].len() ==> shown is Some && shown != Some(Style::Plain)
            &&& 0 <= i < finds.len() && stands_at(text, finds[i], at, true) && at <= p < at
                + finds[i].len() ==> shown is Some && shown != Some(Style::Plain)
        }),
{
    let marks = marks_of(text, highlights, finds);
    if 0 <= i < highlights.len() && stands_at(text, highlights[i], at, true) && at <= p < at
        + highlights[i].len() {
        lemma_highlight_is_hit(text, highlights, finds, i, at);
        let m = Mark {
            start: at as usize,
            end: (at + highlights[i].len()) as usize,
            kind: Some(i as usize),
        };
        every_hit_is_marked(text, highlights, finds, m);
        let k = choose|k: int| 0 <= k < marks.len() && within(m, #[trigger] marks[k]);
        lemma_style_of_mark(text, highlights, finds, palette, k, p);
    }
    if 0 <= i < finds.len() && stands_at(text, finds[i], at, true) && at <= p < at
        + finds[i].len() {
        lemma_find_is_hit(text, highlights, finds, i, at);
        let m = Mark { start: at as usize, end: (at + finds[i].len()) as usize, kind: None };
        every_hit_is_marked(text, highlights, finds, m);
        let k = choose|k: int| 0 <= k < marks.len() && within(m, #[trigger] marks[k]);
        lemma_style_of_mark(text, highlights, finds, palette, k, p);
    }
}

/// In any text a place of a term begins with a marked character.
pub proof fn every_term_is_touched(
    text: Seq<char>,
    highlights: Seq<Seq<char>>,
    finds: Seq<Seq<char>>,
    palette: Seq<Rgb>,
    i: int,
    at: int,
)
    requires
        text.len() <= usize::MAX,
        !is_plain_case(text, highlights, finds),
    ensures
        ({
            let shown = style_at(segments(text, marks_of(text, highlights, finds), palette), at);
            &&& 0 <= i < highlights.len() && stands_at(text, highlights[i], at, false) ==> shown
                is Some && shown != Some(Style::Plain)
            &&& 0 <= i < finds.len() && stands_at(text, finds[i], at, false) ==> shown is Some
                && shown != Some(Style::Plain)
        }),
{
    let marks = marks_of(text, highlights, finds);
    let found = hits(text, highlights, finds);
    if 0 <= i < highlights.len() && stands_at(text, highlights[i], at, false) {
        let own = folded_hits(text, highlights[i], Some(i as usize), 0);
        lemma_folded_touched(text, highlights[i], Some(i as usize), 0, at);
        let k = choose|k: int| 0 <= k < own.len() && (#[trigger] own[k]).start <= at < own[k].end;
        assert(own.contains(own[k]));
        lemma_highlight_hits_hold(text, highlights, false, highlights.len() as int, i, own[k]);
        lemma_either_holds(
            highlight_hits(text, highlights, false, highlights.len() as int),
            find_hits(text, finds, false, finds.len() as int),
            own[k],
        );
        every_hit_is_marked(text, highlights, finds, own[k]);
        let j = choose|j: int| 0 <= j < marks.len() && within(own[k], #[trigger] marks[j]);
        lemma_style_of_mark(text, highlights, finds, palette, j, at);
    }
    if 0 <= i < finds.len() && stands_at(text, finds[i], at, false) {
        let own = folded_hits(text, finds[i], None, 0);
        lemma_folded_touched(text, finds[i], None, 0, at);
        let k = choose|k: int| 0 <= k < own.len() && (#[trigger] own[k]).start <= at < own[k].end;
        assert(own.contains(own[k]));
        lemma_find_hits_hold(text, finds, false, finds.len() as int, i, own[k]);
        lemma_either_holds(
            highlight_hits(text, highlights, false, highlights.len() as int),
            find_hits(text, finds, false, finds.len() as int),
            own[k],
        );
        every_hit_is_marked(text, highlights, finds, own[k]);
        let j = choose|j: int| 0 <= j < marks.len() && within(own[k], #[trigger] marks[j]);
        lemma_style_of_mark(text, highlights, finds, palette, j, at);
    }
}

/// A character that is not plain belongs to a place where a highlight term or a search
/// term stands.
pub proof fn only_terms_are_marked(
    text: Seq<char>,
    highlights: Seq<Seq<char>>,
    finds: Seq<Seq<char>>,
    palette: Seq<Rgb>,
    p: int,
)
    requires
        0 <= p < text.len() <= usize::MAX,
        style_at(segments(text, marks_of(text, highlights, finds), palette), p) != Some(
            Style::Plain,
        ),
    ensures
        exists|i: int, at: int|
            at <= p && ((0 <= i < highlights.len() && p < at + highlights[i].len()
                && #[trigger] stands_at(
                text,
                highlights[i],
                at,
                is_plain_case(text, highlights, finds),
            )) || (0 <= i < finds.len() && p < at + finds[i].len() && stands_at(
                text,
                finds[i],
                at,
                is_plain_case(text, highlights, finds),
            ))),
{
    let ascii = is_plain_case(text, highlights, finds);
    let marks = marks_of(text, highlights, finds);
    if !touched(p, marks) {
        lemma_style_of_rest(text, highlights, finds, palette, p);
    }
    only_hits_are_marked(text, highlights, finds, p);
    let found = hits(text, highlights, finds);
    let k = choose|k: int| 0 <= k < found.len() && (#[trigger] found[k]).start <= p < found[k].end;
    let first = highlight_hits(text, highlights, ascii, highlights.len() as int);
    let at = found[k].start as int;
    if k < first.len() {
        assert(first.contains(found[k]));
        let i = lemma_highlight_hits_stand(
            text,
            highlights,
            ascii,
            highlights.len() as int,
            found[k],
        );
        assert(stands_at(text, highlights[i], at, ascii));
    } else {
        let second = find_hits(text, finds, ascii, finds.len() as int);
        assert(second[k - first.len()] == found[k]);
        assert(second.contains(found[k]));
        let i = lemma_find_hits_stand(text, finds, ascii, finds.len() as int, found[k]);
        assert(stands_at(text, finds[i], at, ascii));
        if 0 <= i < highlights.len() {
            let _ = stands_at(text, highlights[i], at, ascii);
        }
    }
}

/// A highlight term has the color of its number, the palette beginning anew when it is
/// used up, and a search term is underlined, wherever no other place of a term overlaps.
pub proof fn terms_have_their_styles(
    text: Seq<char>,
    highlights: Seq<Seq<char>>,
    finds: Seq<Seq<char>>,
    palette: Seq<Rgb>,
    m: Mark,
    p: int,
)
    requires
        text.len() <= usize::MAX,
        is_ascii_chars(text),
        all_ascii(highlights),
        all_ascii(finds),
        m.start <= p < m.end,
        forall|k: int|
            0 <= k < hits(text, highlights, finds).len() && (#[trigger] hits(
                text,
                highlights,
                finds,
            )[k]).start < m.end && m.start < hits(text, highlights, finds)[k].end ==> hits(
                text,
                highlights,
                finds,
            )[k] == m,
    ensures
        ({
            let shown = style_at(segments(text, marks_of(text, highlights, finds), palette), p);
            &&& match m.kind {
                Some(i) => i < highlights.len() && m.end == m.start + highlights[i as int].len()
                    && stands_at(text, highlights[i as int], m.start as int, true) && palette.len()
                    > 0 ==> match shown {
                    Some(Style::Colored { background, .. }) => background == palette[i as int
                        % palette.len() as int],
                    _ => false,
                },
                None => true,
            }
            &&& forall|i: int|
                m.kind is None && 0 <= i < finds.len() && m.end == m.start + finds[i].len()
                    && #[trigger] stands_at(text, finds[i], m.start as int, true) ==> shown == Some(
                    Style::Underlined,
                )
        }),
{
    let found = hits(text, highlights, finds);
    if let Some(i) = m.kind {
        if i < highlights.len() && m.end == m.start + highlights[i as int].len() && stands_at(
            text,
            highlights[i as int],
            m.start as int,
            true,
        ) {
            lemma_highlight_is_hit(text, highlights, finds, i as int, m.start as int);
            lemma_lone_hit(text, highlights, finds, palette, m, p);
        }
    } else {
        assert forall|i: int|
            0 <= i < finds.len() && m.end == m.start + finds[i].len() && #[trigger] stands_at(
                text,
                finds[i],
                m.start as int,
                true,
            ) implies style_at(segments(text, marks_of(text, highlights, finds), palette), p)
            == Some(Style::Underlined) by {
            lemma_find_is_hit(text, highlights, finds, i, m.start as int);
            lemma_lone_hit(text, highlights, finds, palette, m, p);
        }
    }
}

/// A place that no other one overlaps is a mark of its own.
proof fn lemma_lone_hit(
    text: Seq<char>,
    highlights: Seq<Seq<char>>,
    finds: Seq<Seq<char>>,
    palette: Seq<Rgb>,
    m: Mark,
    p: int,
)
    requires
        text.len() <= usize::MAX,
        m.start <= p < m.end,
        hits(text, highlights, finds).contains(m),
        forall|k: int|
            0 <= k < hits(text, highlights, finds).len() && (#[trigger] hits(
                text,
                highlights,
                finds,
            )[k]).start < m.end && m.start < hits(text, highlights, finds)[k].end ==> hits(
                text,
                highlights,
                finds,
            )[k] == m,
    ensures
        style_at(segments(text, marks_of(text, highlights, finds), palette), p) == Some(
            style_of(m.kind, palette),
        ),
{
    let found = hits(text, highlights, finds);
    let list = ordered(found);
    let marks = merged(list);
    every_hit_is_marked(text, highlights, finds, m);
    let k = choose|k: int| 0 <= k < marks.len() && within(m, #[trigger] marks[k]);
    lemma_hits_in(text, highlights, finds);
    lemma_ordered(found, text.len() as int);
    lemma_merged_is_connected(list, text.len() as int, k);
    assert forall|h: Mark| list.contains(h) && h.start < m.end && m.start < h.end implies h == m by {
        assert(found.contains(h));
        let j = choose|j: int| 0 <= j < found.len() && found[j] == h;
        assert(found[j] == m);
    }
    if marks[k].start < m.start {
        let h = choose|h: Mark| #[trigger] list.contains(h) && h.start < m.start < h.end;
        assert(crossed(list, m.start as int));
    }
    if m.end < marks[k].end {
        assert(crossed(list, m.end as int));
        let h = choose|h: Mark| #[trigger] list.contains(h) && h.start < m.end < h.end;
    }
    let h = choose|h: Mark| #[trigger]
        list.contains(h) && h.start == marks[k].start && h.end <= marks[k].end && h.kind
            == marks[k].kind;
    assert(exists_origin(list, marks[k]));
    assert(mark_in_list(list, h, text.len() as int));
    lemma_style_of_mark(text, highlights, finds, palette, k, p);
}

/// A place of the list goes over a boundary.
spec fn crossed(list: Seq<Mark>, q: int) -> bool {
    exists|h: Mark| #[trigger] list.contains(h) && h.start < q < h.end
}

/// A place of the list begins a mark and gives it its kind.
spec fn exists_origin(list: Seq<Mark>, m: Mark) -> bool {
    exists|h: Mark| #[trigger]
        list.contains(h) && h.start == m.start && h.end <= m.end && h.kind == m.kind
}

/// A place of the list lies in the text.
spec fn mark_in_list(list: Seq<Mark>, h: Mark, len: int) -> bool {
    list.contains(h) ==> mark_in(h, len)
}

/// Where places are joined, one of them goes over each boundary, and the first gives the
/// kind.
proof fn lemma_merged_is_connected(s: Seq<Mark>, len: int, k: int)
    requires
        in_order(s),
        marks_in(s, len),
        0 <= k < merged(s).len(),
    ensures
        forall|q: int| merged(s)[k].start < q < merged(s)[k].end ==> #[trigger] crossed(s, q),
        exists_origin(s, merged(s)[k]),
    decreases s.len(),
{
    let head = s.drop_last();
    let m = s.last();
    let before = merged(head);
    let after = merged(s);
    assert(m == s[s.len() - 1]);
    assert(s.contains(m));
    assert forall|h: Mark| #[trigger] head.contains(h) implies s.contains(h) by {
        let j = choose|j: int| 0 <= j < head.len() && head[j] == h;
        assert(s[j] == h);
    }
    assert forall|i: int, j: int| 0 <= i < j < head.len() implies not_after(
        #[trigger] head[i],
        #[trigger] head[j],
    ) by {
        assert(not_after(s[i], s[j]));
    }
    assert forall|i: int| 0 <= i < head.len() implies mark_in(#[trigger] head[i], len) by {
        assert(mark_in(s[i], len));
    }
    if k < before.len() {
        lemma_merged_is_connected(head, len, k);
        assert forall|q: int| after[k].start < q < after[k].end implies #[trigger] crossed(s, q) by {
            if q < before[k].end {
                assert(crossed(head, q));
                let h = choose|h: Mark| #[trigger] head.contains(h) && h.start < q < h.end;
                assert(s.contains(h));
            } else {
                assert(s.contains(m) && m.start < q < m.end);
            }
        }
        let h = choose|h: Mark| #[trigger]
            head.contains(h) && h.start == before[k].start && h.end <= before[k].end && h.kind
                == before[k].kind;
        assert(s.contains(h));
    } else {
        assert(after[k] == m);
    }
}

/// The places of a term in an ASCII text are where it stands.
proof fn lemma_ascii_hits_hold(
    text: Seq<char>,
    term: Seq<char>,
    kind: Option<usize>,
    n: int,
    at: int,
)
    requires
        n <= text.len() <= usize::MAX,
        at < n,
        stands_at(text, term, at, true),
    ensures
        ascii_hits(text, term, kind, n).contains(
            Mark { start: at as usize, end: (at + term.len()) as usize, kind },
        ),
    decreases n,
{
    let all = ascii_hits(text, term, kind, n);
    let before = ascii_hits(text, term, kind, n - 1);
    let m = Mark { start: at as usize, end: (at + term.len()) as usize, kind };
    if at == n - 1 {
        let low = filter::ascii_lowered(text);
        let word = filter::ascii_lowered(term);
        assert forall|j: int| 0 <= j < word.len() implies low.subrange(at, at + word.len())[j]
            == word[j] by {
            assert(text::ascii_lower(text[at + j]) == text::ascii_lower(term[j]));
        }
        assert(low.subrange(at, at + word.len()) =~= word);
        assert(all[before.len() as int] == m);
    } else {
        lemma_ascii_hits_hold(text, term, kind, n - 1, at);
        let k = choose|k: int| 0 <= k < before.len() && before[k] == m;
        assert(all[k] == m);
    }
}

proof fn lemma_ascii_hits_stand(
    text: Seq<char>,
    term: Seq<char>,
    kind: Option<usize>,
    n: int,
    m: Mark,
)
    requires
        n <= text.len() <= usize::MAX,
        ascii_hits(text, term, kind, n).contains(m),
    ensures
        stands_at(text, term, m.start as int, true),
        m.end == m.start + term.len(),
    decreases n,
{
    let all = ascii_hits(text, term, kind, n);
    let before = ascii_hits(text, term, kind, n - 1);
    let k = choose|k: int| 0 <= k < all.len() && all[k] == m;
    if n > 0 && k < before.len() {
        assert(before[k] == m);
        lemma_ascii_hits_stand(text, term, kind, n - 1, m);
    } else {
        let low = filter::ascii_lowered(text);
        let word = filter::ascii_lowered(term);
        assert forall|j: int| 0 <= j < term.len() implies text::ascii_lower(
            #[trigger] text[n - 1 + j],
        ) == text::ascii_lower(term[j]) by {
            assert(low.subrange(n - 1, n - 1 + word.len())[j] == word[j]);
        }
    }
}

proof fn lemma_folded_touched(
    text: Seq<char>,
    term: Seq<char>,
    kind: Option<usize>,
    from: int,
    at: int,
)
    requires
        text.len() <= usize::MAX,
        0 <= from <= at,
        stands_at(text, term, at, false),
    ensures
        touched(at, folded_hits(text, term, kind, from)),
    decreases text.len() - from,
{
    let all = folded_hits(text, term, kind, from);
    assert(folded_at(text, term, at)) by {
        assert forall|j: int| 0 <= j < term.len() implies char_lowercased(#[trigger] text[at + j])
            == char_lowercased(term[j]) by {
            assert(text::ascii_lower(text[at + j]) == text::ascii_lower(text[at + j]));
        }
    }
    if folded_at(text, term, from) {
        if at < from + term.len() {
            assert(all[0].start <= at < all[0].end);
        } else {
            let rest = folded_hits(text, term, kind, from + term.len());
            lemma_folded_touched(text, term, kind, from + term.len(), at);
            let k = choose|k: int|
                0 <= k < rest.len() && (#[trigger] rest[k]).start <= at < rest[k].end;
            assert(all[k + 1] == rest[k]);
        }
    } else {
        lemma_folded_touched(text, term, kind, from + 1, at);
    }
}

proof fn lemma_folded_hits_stand(
    text: Seq<char>,
    term: Seq<char>,
    kind: Option<usize>,
    from: int,
    m: Mark,
)
    requires
        0 <= from,
        text.len() <= usize::MAX,
        folded_hits(text, term, kind, from).contains(m),
    ensures
        stands_at(text, term, m.start as int, false),
        m.end == m.start + term.len(),
    decreases text.len() - from,
{
    let all = folded_hits(text, term, kind, from);
    let k = choose|k: int| 0 <= k < all.len() && all[k] == m;
    if folded_at(text, term, from) {
        if k > 0 {
            let rest = folded_hits(text, term, kind, from + term.len());
            assert(rest[k - 1] == m);
            assert(rest.contains(m));
            lemma_folded_hits_stand(text, term, kind, from + term.len(), m);
        }
    } else {
        lemma_folded_hits_stand(text, term, kind, from + 1, m);
    }
}

proof fn lemma_either_holds(a: Seq<Mark>, b: Seq<Mark>, m: Mark)
    ensures
        a.contains(m) || b.contains(m) ==> (a + b).contains(m),
{
    if a.contains(m) {
        let k = choose|k: int| 0 <= k < a.len() && a[k] == m;
        assert((a + b)[k] == m);
    }
    if b.contains(m) {
        let k = choose|k: int| 0 <= k < b.len() && b[k] == m;
        assert((a + b)[a.len() + k] == m);
    }
}

proof fn lemma_highlight_hits_hold(
    text: Seq<char>,
    terms: Seq<Seq<char>>,
    ascii: bool,
    n: int,
    i: int,
    m: Mark,
)
    requires
        0 <= i < n <= terms.len(),
        term_hits(text, terms[i], Some(i as usize), ascii).contains(m),
    ensures
        highlight_hits(text, terms, ascii, n).contains(m),
    decreases n,
{
    if i < n - 1 {
        lemma_highlight_hits_hold(text, terms, ascii, n - 1, i, m);
    }
    lemma_either_holds(
        highlight_hits(text, terms, ascii, n - 1),
        term_hits(text, terms[n - 1], Some((n - 1) as usize), ascii),
        m,
    );
}

proof fn lemma_find_hits_hold(
    text: Seq<char>,
    terms: Seq<Seq<char>>,
    ascii: bool,
    n: int,
    i: int,
    m: Mark,
)
    requires
        0 <= i < n <= terms.len(),
        term_hits(text, terms[i], None, ascii).contains(m),
    ensures
        find_hits(text, terms, ascii, n).contains(m),
    decreases n,
{
    if i < n - 1 {
        lemma_find_hits_hold(text, terms, ascii, n - 1, i, m);
    }
    lemma_either_holds(
        find_hits(text, terms, ascii, n - 1),
        term_hits(text, terms[n - 1], None, ascii),
        m,
    );
}

proof fn lemma_term_hits_stand(
    text: Seq<char>,
    term: Seq<char>,
    kind: Option<usize>,
    ascii: bool,
    m: Mark,
)
    requires
        text.len() <= usize::MAX,
        term_hits(text, term, kind, ascii).contains(m),
    ensures
        stands_at(text, term, m.start as int, ascii),
        m.end == m.start + term.len(),
{
    if ascii {
        lemma_ascii_hits_stand(text, term, kind, text.len() as int, m);
    } else {
        lemma_folded_hits_stand(text, term, kind, 0, m);
    }
}

proof fn lemma_highlight_hits_stand(
    text: Seq<char>,
    terms: Seq<Seq<char>>,
    ascii: bool,
    n: int,
    m: Mark,
) -> (i: int)
    requires
        n <= terms.len(),
        text.len() <= usize::MAX,
        highlight_hits(text, terms, ascii, n).contains(m),
    ensures
        0 <= i < terms.len(),
        stands_at(text, terms[i], m.start as int, ascii),
        m.end == m.start + terms[i].len(),
    decreases n,
{
    let all = highlight_hits(text, terms, ascii, n);
    let k = choose|k: int| 0 <= k < all.len() && all[k] == m;
    let before = highlight_hits(text, terms, ascii, n - 1);
    let own = term_hits(text, terms[n - 1], Some((n - 1) as usize), ascii);
    if k < before.len() {
        assert(before[k] == m);
        lemma_highlight_hits_stand(text, terms, ascii, n - 1, m)
    } else {
        assert(own[k - before.len()] == m);
        lemma_term_hits_stand(text, terms[n - 1], Some((n - 1) as usize), ascii, m);
        n - 1
    }
}

proof fn lemma_find_hits_stand(
    text: Seq<char>,
    terms: Seq<Seq<char>>,
    ascii: bool,
    n: int,
    m: Mark,
) -> (i: int)
    requires
        n <= terms.len(),
        text.len() <= usize::MAX,
        find_hits(text, terms, ascii, n).contains(m),
    ensures
        0 <= i < terms.len(),
        stands_at(text, terms[i], m.start as int, ascii),
        m.end == m.start + terms[i].len(),
    decreases n,
{
    let all = find_hits(text, terms, ascii, n);
    let k = choose|k: int| 0 <= k < all.len() && all[k] == m;
    let before = find_hits(text, terms, ascii, n - 1);
    let own = term_hits(text, terms[n - 1], None, ascii);
    if k < before.len() {
        assert(before[k] == m);
        lemma_find_hits_stand(text, terms, ascii, n - 1, m)
    } else {
        assert(own[k - before.len()] == m);
        lemma_term_hits_stand(text, terms[n - 1], None, ascii, m);
        n - 1
    }
}

proof fn lemma_highlight_is_hit(
    text: Seq<char>,
    highlights: Seq<Seq<char>>,
    finds: Seq<Seq<char>>,
    i: int,
    at: int,
)
    requires
        text.len() <= usize::MAX,
        is_plain_case(text, highlights, finds),
        0 <= i < highlights.len(),
        stands_at(text, highlights[i], at, true),
    ensures
        hits(text, highlights, finds).contains(
            Mark {
                start: at as usize,
                end: (at + highlights[i].len()) as usize,
                kind: Some(i as usize),
            },
        ),
{
    let m = Mark {
        start: at as usize,
        end: (at + highlights[i].len()) as usize,
        kind: Some(i as usize),
    };
    lemma_ascii_hits_hold(text, highlights[i], Some(i as usize), text.len() as int, at);
    lemma_highlight_hits_hold(text, highlights, true, highlights.len() as int, i, m);
    lemma_either_holds(
        highlight_hits(text, highlights, true, highlights.len() as int),
        find_hits(text, finds, true, finds.len() as int),
        m,
    );
}

proof fn lemma_find_is_hit(
    text: Seq<char>,
    highlights: Seq<Seq<char>>,
    finds: Seq<Seq<char>>,
    i: int,
    at: int,
)
    requires
        text.len() <= usize::MAX,
        is_plain_case(text, highlights, finds),
        0 <= i < finds.len(),
        stands_at(text, finds[i], at, true),
    ensures
        hits(text, highlights, finds).contains(
            Mark { start: at as usize, end: (at + finds[i].len()) as usize, kind: None },
        ),
{
    let m = Mark { start: at as usize, end: (at + finds[i].len()) as usize, kind: None };
    lemma_ascii_hits_hold(text, finds[i], None, text.len() as int, at);
    lemma_find_hits_hold(text, finds, true, finds.len() as int, i, m);
    lemma_either_holds(
        highlight_hits(text, highlights, true, highlights.len() as int),
        find_hits(text, finds, true, finds.len() as int),
        m,
    );
}

/// How the characters of one more piece are shown.
proof fn lemma_style_push(s: Seq<SegmentView>, x: SegmentView, p: int)
    ensures
        style_at(s.push(x), p) == if p < joined(s).len() {
            style_at(s, p)
        } else if p < joined(s).len() + x.text.len() {
            Some(x.style)
        } else {
            None
        },
{
    assert(s.push(x).drop_last() =~= s);
}

/// How the characters of the pieces up to a mark are shown.
proof fn lemma_pieces_style(text: Seq<char>, marks: Seq<Mark>, palette: Seq<Rgb>, n: int, p: int)
    requires
        marks_in(marks, text.len() as int),
        marks_apart(marks),
        0 <= n <= marks.len(),
        0 <= p < marks_end(marks, n),
    ensures
        forall|k: int|
            0 <= k < n && (#[trigger] marks[k]).start <= p < marks[k].end ==> style_at(
                pieces(text, marks, palette, n),
                p,
            ) == Some(style_of(marks[k].kind, palette)),
        !touched(p, marks) ==> style_at(pieces(text, marks, palette, n), p) == Some(Style::Plain),
    decreases n,
{
    let before = pieces(text, marks, palette, n - 1);
    let cursor = marks_end(marks, n - 1);
    let m = marks[n - 1];
    lemma_pieces_join(text, marks, palette, n - 1);
    assert(mark_in(m, text.len() as int));
    if n > 1 {
        assert(marks[n - 2].end <= marks[n - 1].start);
    }
    let marked = SegmentView {
        text: text.subrange(m.start as int, m.end as int),
        style: style_of(m.kind, palette),
    };
    let plain = SegmentView { text: text.subrange(cursor, m.start as int), style: Style::Plain };
    assert(joined(before).len() == cursor);
    assert forall|k: int| 0 <= k < n - 1 implies (#[trigger] marks[k]).end <= cursor by {
        if k < n - 2 {
            assert(marks[k].end <= marks[n - 2].start);
            assert(mark_in(marks[n - 2], text.len() as int));
        }
    }
    if m.start > cursor {
        lemma_joined_push(before, plain);
        lemma_style_push(before, plain, p);
        lemma_style_push(before.push(plain), marked, p);
    } else {
        lemma_style_push(before, marked, p);
    }
    if p < cursor {
        lemma_pieces_style(text, marks, palette, n - 1, p);
    } else if p >= m.start {
        assert(touched(p, marks));
    }
}

/// How a marked character is shown.
proof fn lemma_style_of_mark(
    text: Seq<char>,
    highlights: Seq<Seq<char>>,
    finds: Seq<Seq<char>>,
    palette: Seq<Rgb>,
    k: int,
    p: int,
)
    requires
        text.len() <= usize::MAX,
        0 <= k < marks_of(text, highlights, finds).len(),
        marks_of(text, highlights, finds)[k].start <= p < marks_of(text, highlights, finds)[k].end,
    ensures
        style_at(segments(text, marks_of(text, highlights, finds), palette), p) == Some(
            style_of(marks_of(text, highlights, finds)[k].kind, palette),
        ),
{
    let marks = marks_of(text, highlights, finds);
    let n = marks.len() as int;
    marks_are_apart(text, highlights, finds);
    if k < n - 1 {
        assert(marks[k].end <= marks[n - 1].start);
        assert(mark_in(marks[n - 1], text.len() as int));
    }
    lemma_pieces_style(text, marks, palette, n, p);
    lemma_pieces_join(text, marks, palette, n);
    let all = pieces(text, marks, palette, n);
    let cursor = marks_end(marks, n);
    if cursor < text.len() {
        let rest = SegmentView { text: text.skip(cursor), style: Style::Plain };
        assert(all.push(rest).drop_last() =~= all);
    }
}

/// A character that is in no mark is plain.
proof fn lemma_style_of_rest(
    text: Seq<char>,
    highlights: Seq<Seq<char>>,
    finds: Seq<Seq<char>>,
    palette: Seq<Rgb>,
    p: int,
)
    requires
        0 <= p < text.len() <= usize::MAX,
        !touched(p, marks_of(text, highlights, finds)),
    ensures
        style_at(segments(text, marks_of(text, highlights, finds), palette), p) == Some(
            Style::Plain,
        ),
{
    let marks = marks_of(text, highlights, finds);
    let n = marks.len() as int;
    marks_are_apart(text, highlights, finds);
    lemma_pieces_join(text, marks, palette, n);
    let all = pieces(text, marks, palette, n);
    let cursor = marks_end(marks, n);
    if p < cursor {
        lemma_pieces_style(text, marks, palette, n, p);
    }
    if cursor < text.len() {
        let rest = SegmentView { text: text.skip(cursor), style: Style::Plain };
        assert(all.push(rest).drop_last() =~= all);
    }
}

/// Where places of terms overlap, the whole is shown as the first of them: the one that
/// begins first, of those the shortest, and of those a highlight term before a search term
/// and a highlight term before later ones.
pub proof fn first_of_overlapping_terms_is_shown(
    text: Seq<char>,
    highlights: Seq<Seq<char>>,
    finds: Seq<Seq<char>>,
    palette: Seq<Rgb>,
    k: int,
    p: int,
) -> (first: Mark)
    requires
        text.len() <= usize::MAX,
        highlights.len() <= usize::MAX,
        0 <= k < marks_of(text, highlights, finds).len(),
        marks_of(text, highlights, finds)[k].start <= p < marks_of(text, highlights, finds)[k].end,
    ensures
        hits(text, highlights, finds).contains(first),
        first.start == marks_of(text, highlights, finds)[k].start,
        forall|d: int|
            0 <= d < hits(text, highlights, finds).len() ==> {
                let mark = marks_of(text, highlights, finds)[k];
                let other = #[trigger] hits(text, highlights, finds)[d];
                other.start < mark.end && mark.start < other.end ==> {
                    &&& first.start < other.start || (first.start == other.start && first.end
                        <= other.end)
                    &&& first.start == other.start && first.end == other.end ==> (other.kind is None
                        || (first.kind is Some && first.kind->0 <= other.kind->0))
                }
            },
        ({
            let shown = style_at(segments(text, marks_of(text, highlights, finds), palette), p);
            &&& first.kind is None || palette.len() == 0 ==> shown == Some(Style::Underlined)
            &&& first.kind is Some && palette.len() > 0 ==> match shown {
                Some(Style::Colored { background, foreground }) => background
                    == palette[first.kind->0 as int % palette.len() as int] && foreground
                    == color::contrast_spec(background),
                _ => false,
            }
        }),
{
    let found = hits(text, highlights, finds);
    let list = ordered(found);
    let marks = merged(list);
    let mark = marks[k];
    lemma_hits_in(text, highlights, finds);
    lemma_ordered(found, text.len() as int);
    let a = lemma_first_of_mark(list, text.len() as int, k);
    let first = list[a];
    assert(mark_in(list[a], text.len() as int));
    assert forall|b: int| 0 <= b < a implies !same_span(#[trigger] list[b], first) by {
        assert(list[b].end <= mark.start);
    }
    let c = lemma_ordered_is_stable(found, text.len() as int, a);
    assert(found.contains(found[c]));
    assert forall|d: int| 0 <= d < found.len() implies {
        let other = #[trigger] found[d];
        other.start < mark.end && mark.start < other.end ==> {
            &&& first.start < other.start || (first.start == other.start && first.end <= other.end)
            &&& first.start == other.start && first.end == other.end ==> (other.kind is None || (
            first.kind is Some && first.kind->0 <= other.kind->0))
        }
    } by {
        let other = found[d];
        if other.start < mark.end && mark.start < other.end {
            assert(found.contains(other));
            assert(list.contains(other));
            let e = choose|e: int| 0 <= e < list.len() && list[e] == other;
            if e < a {
                assert(list[e].end <= mark.start);
            } else if e > a {
                assert(not_after(list[a], list[e]));
            }
            if same_span(other, first) {
                if d < c {
                    assert(!same_span(found[d], found[c]));
                } else if d > c {
                    lemma_hit_kinds(text, highlights, finds, c, d);
                }
            }
        }
    }
    lemma_style_of_mark(text, highlights, finds, palette, k, p);
    first
}

/// Two places are the same stretch.
spec fn same_span(a: Mark, b: Mark) -> bool {
    a.start == b.start && a.end == b.end
}

/// A mark begins with a place that gives it its kind, and the places before that end before
/// the mark.
proof fn lemma_first_of_mark(s: Seq<Mark>, len: int, k: int) -> (a: int)
    requires
        in_order(s),
        marks_in(s, len),
        0 <= k < merged(s).len(),
    ensures
        0 <= a < s.len(),
        s[a].start == merged(s)[k].start,
        s[a].kind == merged(s)[k].kind,
        forall|b: int| 0 <= b < a ==> (#[trigger] s[b]).end <= merged(s)[k].start,
    decreases s.len(),
{
    let head = s.drop_last();
    let before = merged(head);
    assert forall|i: int, j: int| 0 <= i < j < head.len() implies not_after(
        #[trigger] head[i],
        #[trigger] head[j],
    ) by {
        assert(not_after(s[i], s[j]));
    }
    assert forall|i: int| 0 <= i < head.len() implies mark_in(#[trigger] head[i], len) by {
        assert(mark_in(s[i], len));
    }
    if k < before.len() {
        let a = lemma_first_of_mark(head, len, k);
        assert forall|b: int| 0 <= b < a implies (#[trigger] s[b]).end <= merged(s)[k].start by {
            assert(head[b] == s[b]);
        }
        a
    } else {
        let m = s.last();
        lemma_merged(head, len);
        assert forall|b: int| 0 <= b < s.len() - 1 implies (#[trigger] s[b]).end
            <= merged(s)[k].start by {
            assert(head[b] == s[b]);
            assert(covered(head[b], before));
            let i = choose|i: int| 0 <= i < before.len() && within(head[b], #[trigger] before[i]);
            if i < before.len() - 1 {
                assert(before[i].end <= before[before.len() - 1].start);
                assert(mark_in(before[before.len() - 1], len));
            }
        }
        s.len() - 1
    }
}

/// A place is put behind those that it is not before.
proof fn lemma_where_inserted(s: Seq<Mark>, m: Mark) -> (p: int)
    ensures
        0 <= p <= s.len(),
        inserted(s, m) == s.take(p).push(m) + s.skip(p),
        forall|i: int| p <= i < s.len() ==> !not_after(#[trigger] s[i], m),
    decreases s.len(),
{
    if s.len() > 0 && !not_after(s.last(), m) {
        let head = s.drop_last();
        let p = lemma_where_inserted(head, m);
        assert(head.take(p) =~= s.take(p));
        assert((head.take(p).push(m) + head.skip(p)).push(s.last()) =~= s.take(p).push(m) + s.skip(
            p,
        ));
        assert forall|i: int| p <= i < s.len() implies !not_after(#[trigger] s[i], m) by {
            if i < head.len() {
                assert(head[i] == s[i]);
            }
        }
        p
    } else {
        assert(s.take(s.len() as int).push(m) + s.skip(s.len() as int) =~= s.push(m));
        s.len() as int
    }
}

/// Ordering places leaves those that are the same stretch in the order in which they came.
proof fn lemma_ordered_is_stable(s: Seq<Mark>, len: int, a: int) -> (c: int)
    requires
        marks_in(s, len),
        0 <= a < ordered(s).len(),
        forall|b: int| 0 <= b < a ==> !same_span(#[trigger] ordered(s)[b], ordered(s)[a]),
    ensures
        0 <= c < s.len(),
        s[c] == ordered(s)[a],
        forall|d: int| 0 <= d < c ==> !same_span(#[trigger] s[d], s[c]),
    decreases s.len(),
{
    let head = s.drop_last();
    let m = s.last();
    let o = ordered(head);
    let all = ordered(s);
    assert forall|i: int| 0 <= i < head.len() implies mark_in(#[trigger] head[i], len) by {
        assert(mark_in(s[i], len));
    }
    let p = lemma_where_inserted(o, m);
    if a == p {
        lemma_ordered(head, len);
        assert(all[a] == m);
        assert forall|d: int| 0 <= d < s.len() - 1 implies !same_span(#[trigger] s[d], m) by {
            assert(head[d] == s[d]);
            assert(head.contains(head[d]));
            assert(o.contains(head[d]));
            let i = choose|i: int| 0 <= i < o.len() && o[i] == head[d];
            if i < p {
                assert(all[i] == o[i]);
            } else {
                assert(!not_after(o[i], m));
            }
        }
        s.len() - 1
    } else {
        let at = if a < p {
            a
        } else {
            a - 1
        };
        assert(all[a] == o[at]);
        assert forall|b: int| 0 <= b < at implies !same_span(#[trigger] o[b], o[at]) by {
            if b < p {
                assert(all[b] == o[b]);
            } else {
                assert(all[b + 1] == o[b]);
            }
        }
        let c = lemma_ordered_is_stable(head, len, at);
        assert forall|d: int| 0 <= d < c implies !same_span(#[trigger] s[d], s[c]) by {
            assert(head[d] == s[d]);
        }
        c
    }
}

/// The places of a term have its kind.
proof fn lemma_ascii_kind(text: Seq<char>, term: Seq<char>, kind: Option<usize>, n: int, i: int)
    requires
        0 <= i < ascii_hits(text, term, kind, n).len(),
    ensures
        ascii_hits(text, term, kind, n)[i].kind == kind,
    decreases n,
{
    let before = ascii_hits(text, term, kind, n - 1);
    if i < before.len() {
        lemma_ascii_kind(text, term, kind, n - 1, i);
    }
}

proof fn lemma_folded_kind(text: Seq<char>, term: Seq<char>, kind: Option<usize>, from: int, i: int)
    requires
        0 <= i < folded_hits(text, term, kind, from).len(),
    ensures
        folded_hits(text, term, kind, from)[i].kind == kind,
    decreases text.len() - from,
{
    if folded_at(text, term, from) {
        if i > 0 {
            lemma_folded_kind(text, term, kind, from + term.len(), i - 1);
        }
    } else {
        lemma_folded_kind(text, term, kind, from + 1, i);
    }
}

proof fn lemma_term_kind(text: Seq<char>, term: Seq<char>, kind: Option<usize>, ascii: bool, i: int)
    requires
        0 <= i < term_hits(text, term, kind, ascii).len(),
    ensures
        term_hits(text, term, kind, ascii)[i].kind == kind,
{
    if ascii {
        lemma_ascii_kind(text, term, kind, text.len() as int, i);
    } else {
        lemma_folded_kind(text, term, kind, 0, i);
    }
}

/// The places of highlight terms come in the order of their numbers.
proof fn lemma_highlight_kinds(
    text: Seq<char>,
    terms: Seq<Seq<char>>,
    ascii: bool,
    n: int,
    i: int,
    j: int,
)
    requires
        0 <= n <= terms.len() <= usize::MAX,
        0 <= i <= j < highlight_hits(text, terms, ascii, n).len(),
    ensures
        highlight_hits(text, terms, ascii, n)[i].kind is Some,
        highlight_hits(text, terms, ascii, n)[j].kind is Some,
        highlight_hits(text, terms, ascii, n)[i].kind->0 <= highlight_hits(
            text,
            terms,
            ascii,
            n,
        )[j].kind->0 < n,
    decreases n,
{
    let before = highlight_hits(text, terms, ascii, n - 1);
    let kind = Some((n - 1) as usize);
    if j < before.len() {
        lemma_highlight_kinds(text, terms, ascii, n - 1, i, j);
    } else {
        lemma_term_kind(text, terms[n - 1], kind, ascii, j - before.len());
        if i < before.len() {
            lemma_highlight_kinds(text, terms, ascii, n - 1, i, i);
        } else {
            lemma_term_kind(text, terms[n - 1], kind, ascii, i - before.len());
        }
    }
}

/// The places of search terms have no number.
proof fn lemma_find_kinds(text: Seq<char>, terms: Seq<Seq<char>>, ascii: bool, n: int, i: int)
    requires
        0 <= n <= terms.len(),
        0 <= i < find_hits(text, terms, ascii, n).len(),
    ensures
        find_hits(text, terms, ascii, n)[i].kind is None,
    decreases n,
{
    let before = find_hits(text, terms, ascii, n - 1);
    if i < before.len() {
        lemma_find_kinds(text, terms, ascii, n - 1, i);
    } else {
        lemma_term_kind(text, terms[n - 1], None, ascii, i - before.len());
    }
}

/// The places come in the order of the terms: highlight terms by their numbers, and then
/// search terms.
proof fn lemma_hit_kinds(
    text: Seq<char>,
    highlights: Seq<Seq<char>>,
    finds: Seq<Seq<char>>,
    i: int,
    j: int,
)
    requires
        highlights.len() <= usize::MAX,
        0 <= i <= j < hits(text, highlights, finds).len(),
    ensures
        ({
            let a = hits(text, highlights, finds)[i];
            let b = hits(text, highlights, finds)[j];
            b.kind is None || (a.kind is Some && a.kind->0 <= b.kind->0)
        }),
{
    let ascii = is_plain_case(text, highlights, finds);
    let first = highlight_hits(text, highlights, ascii, highlights.len() as int);
    if j < first.len() {
        lemma_highlight_kinds(text, highlights, ascii, highlights.len() as int, i, j);
    } else {
        lemma_find_kinds(text, finds, ascii, finds.len() as int, j - first.len());
    }
}

} // verus!
