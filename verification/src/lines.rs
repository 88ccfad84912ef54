//! Cutting text that arrives in pieces into lines.

use crate::split;
use crate::split::find_char_from;
use crate::text;
use crate::text::{string_of, trim_line_end_chars};
use vstd::prelude::*;
use vstd::slice::slice_subrange;

verus! {

/// The lines of a text that are ended by `\n`, without their line endings.
pub open spec fn ended_lines(s: Seq<char>) -> Seq<Seq<char>>
    decreases s.len(),
{
    let k = split::find_char(s, '\n') as int;
    if k >= s.len() {
        seq![]
    } else {
        seq![text::trim_line_end(s.take(k))] + ended_lines(s.skip(k + 1))
    }
}

/// What stands behind the last `\n` of a text.
pub open spec fn unended(s: Seq<char>) -> Seq<char>
    decreases s.len(),
{
    let k = split::find_char(s, '\n') as int;
    if k >= s.len() {
        s
    } else {
        unended(s.skip(k + 1))
    }
}

/// The lines of a whole text: those that are ended, and what stands behind them
/// unless that is nothing.
pub open spec fn all_lines(s: Seq<char>) -> Seq<Seq<char>> {
    let rest = unended(s);
    if rest.len() == 0 {
        ended_lines(s)
    } else {
        ended_lines(s).push(text::trim_line_end(rest))
    }
}

/// The first `\n` of two texts in a row.
pub proof fn lemma_find_char_append(a: Seq<char>, b: Seq<char>, c: char)
    ensures
        split::find_char(a, c) <= a.len(),
        split::find_char(a, c) < a.len() ==> split::find_char(a + b, c) == split::find_char(a, c)
            && a[split::find_char(a, c) as int] == c,
        split::find_char(a, c) >= a.len() ==> split::find_char(a + b, c) == a.len()
            + split::find_char(b, c),
    decreases a.len(),
{
    if a.len() == 0 {
        assert(a + b == b);
    } else if a[0] != c {
        assert((a + b).drop_first() == a.drop_first() + b);
        lemma_find_char_append(a.drop_first(), b, c);
    }
}

/// Cutting a text into lines piece by piece, with the text behind the last line
/// held back for the next piece, gives the lines of the whole.
pub proof fn pieces_give_the_same_lines(a: Seq<char>, b: Seq<char>)
    ensures
        ended_lines(a + b) == ended_lines(a) + ended_lines(unended(a) + b),
        unended(a + b) == unended(unended(a) + b),
    decreases a.len(),
{
    let k = split::find_char(a, '\n') as int;
    lemma_find_char_append(a, b, '\n');
    if k < a.len() {
        let rest = a.skip(k + 1);
        assert((a + b).take(k) == a.take(k));
        assert((a + b).skip(k + 1) == rest + b);
        pieces_give_the_same_lines(rest, b);
        let first = seq![text::trim_line_end(a.take(k))];
        assert(first + (ended_lines(rest) + ended_lines(unended(rest) + b)) == (first + ended_lines(
            rest,
        )) + ended_lines(unended(rest) + b));
    } else {
        assert(ended_lines(a) + ended_lines(a + b) == ended_lines(a + b));
    }
}

/// What stands behind the last line has no line ending, and is the end of the
/// text.
pub proof fn unended_is_last(s: Seq<char>)
    ensures
        unended(s).len() <= s.len(),
        s.skip(s.len() - unended(s).len()) == unended(s),
        unended(s).len() < s.len() ==> s[s.len() - unended(s).len() - 1] == '\n',
        forall|i: int| 0 <= i < unended(s).len() ==> unended(s)[i] != '\n',
        ended_lines(unended(s)).len() == 0,
    decreases s.len(),
{
    let k = split::find_char(s, '\n') as int;
    lemma_find_char_append(s, seq![], '\n');
    if k < s.len() {
        let rest = s.skip(k + 1);
        unended_is_last(rest);
        let n = unended(rest).len();
        assert(s.skip(s.len() - n) == rest.skip(rest.len() - n));
    } else {
        lemma_absent(s, '\n');
        assert(s.skip(0) == s);
    }
}

/// A text in which the search for a character ends behind it does not hold it.
proof fn lemma_absent(s: Seq<char>, c: char)
    requires
        split::find_char(s, c) >= s.len(),
    ensures
        forall|i: int| 0 <= i < s.len() ==> s[i] != c,
    decreases s.len(),
{
    if s.len() > 0 {
        lemma_absent(s.drop_first(), c);
        assert forall|i: int| 0 <= i < s.len() implies s[i] != c by {
            if i > 0 {
                assert(s.drop_first()[i - 1] == s[i]);
            }
        }
    }
}

/// The text of a slice without trailing line breaks.
pub fn line_text(s: &[char]) -> (r: String)
    ensures
        r@ == text::trim_line_end(s@),
{
    string_of(trim_line_end_chars(s))
}

/// Takes the ended lines off the beginning of a text: the lines, and how many
/// characters they take up with their endings.
pub fn flush_lines(buf: &[char]) -> (r: (Vec<String>, usize))
    ensures
        split::texts(r.0@) == ended_lines(buf@),
        r.1 <= buf@.len(),
        buf@.skip(r.1 as int) == unended(buf@),
{
    let mut out: Vec<String> = Vec::new();
    let mut consumed: usize = 0;
    assert(buf@.skip(0) == buf@);
    assert(split::texts(out@) + ended_lines(buf@) == ended_lines(buf@));
    loop
        invariant
            consumed <= buf@.len(),
            split::texts(out@) + ended_lines(buf@.skip(consumed as int)) == ended_lines(buf@),
            unended(buf@.skip(consumed as int)) == unended(buf@),
        decreases buf@.len() - consumed,
    {
        let k = find_char_from(buf, '\n', consumed);
        let ghost rest = buf@.skip(consumed as int);
        let ghost before = split::texts(out@);
        if k >= buf.len() {
            assert(before + ended_lines(rest) == before);
            return (out, consumed);
        }
        let line = line_text(slice_subrange(buf, consumed, k));
        assert(rest.take(k - consumed) == buf@.subrange(consumed as int, k as int));
        assert(rest.skip(k - consumed + 1) == buf@.skip(k + 1));
        out.push(line);
        assert(split::texts(out@) == before.push(line@));
        assert(before.push(line@) + ended_lines(buf@.skip(k + 1)) == before + (seq![line@]
            + ended_lines(buf@.skip(k + 1))));
        consumed = k + 1;
    }
}

/// The lines of a text are what stands between its line feeds, without line breaks at
/// the end, in order and none left out: each field of the text is a line, but for an
/// empty one at the end. What stands behind the last line feed is the last field.
pub proof fn lines_are_the_fields(s: Seq<char>)
    ensures
        ({
            let parts = split::fields(s, '\n');
            &&& parts.len() > 0
            &&& ended_lines(s).len() == parts.len() - 1
            &&& forall|i: int|
                0 <= i < parts.len() - 1 ==> #[trigger] ended_lines(s)[i] == text::trim_line_end(
                    parts[i],
                )
            &&& unended(s) == parts.last()
            &&& all_lines(s).len() == if parts.last().len() == 0 {
                parts.len() - 1
            } else {
                parts.len() as int
            }
            &&& forall|i: int|
                0 <= i < all_lines(s).len() ==> #[trigger] all_lines(s)[i] == text::trim_line_end(
                    parts[i],
                )
        }),
    decreases s.len(),
{
    let k = split::find_char(s, '\n') as int;
    let parts = split::fields(s, '\n');
    if k < s.len() {
        let rest = s.skip(k + 1);
        lines_are_the_fields(rest);
        let more = split::fields(rest, '\n');
        assert(parts == seq![s.take(k)] + more);
        assert forall|i: int| 0 <= i < parts.len() - 1 implies #[trigger] ended_lines(s)[i]
            == text::trim_line_end(parts[i]) by {
            if i > 0 {
                assert(ended_lines(s)[i] == ended_lines(rest)[i - 1]);
                assert(parts[i] == more[i - 1]);
            }
        }
        assert(parts.last() == more.last());
    }
    assert forall|i: int| 0 <= i < all_lines(s).len() implies #[trigger] all_lines(s)[i]
        == text::trim_line_end(parts[i]) by {
        if i < ended_lines(s).len() {
            assert(all_lines(s)[i] == ended_lines(s)[i]);
        }
    }
}

} // verus!
