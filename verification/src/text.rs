//! Character classes, trimming, comparison and searching of text.
//!
//! Text is modelled as a `Seq<char>`; the functions here work on slices of
//! characters, so that every position is a character position.

use vstd::prelude::*;
use vstd::slice::slice_subrange;
use vstd::utf8::*;

verus! {

/// `String::push` appends the given character to the end of the string.
pub assume_specification[ String::push ](s: &mut String, c: char)
    ensures
        final(s)@ == old(s)@.push(c),
;

/// The characters with the Unicode `White_Space` property.
pub open spec fn white_space(c: char) -> bool {
    ||| '\u{9}' <= c <= '\u{d}'
    ||| c == ' '
    ||| c == '\u{85}'
    ||| c == '\u{a0}'
    ||| c == '\u{1680}'
    ||| '\u{2000}' <= c <= '\u{200a}'
    ||| c == '\u{2028}'
    ||| c == '\u{2029}'
    ||| c == '\u{202f}'
    ||| c == '\u{205f}'
    ||| c == '\u{3000}'
}

/// Whether `c` has the Unicode `White_Space` property.
pub fn is_white_space(c: char) -> (b: bool)
    ensures
        b == white_space(c),
{
    ('\u{9}' <= c && c <= '\u{d}') || c == ' ' || c == '\u{85}' || c == '\u{a0}' || c == '\u{1680}'
        || ('\u{2000}' <= c && c <= '\u{200a}') || c == '\u{2028}' || c == '\u{2029}' || c
        == '\u{202f}' || c == '\u{205f}' || c == '\u{3000}'
}

/// The white space among the ASCII characters.
pub open spec fn ascii_white_space(c: char) -> bool {
    c == ' ' || c == '\t' || c == '\n' || c == '\u{c}' || c == '\r'
}

/// The text without ASCII white space at its beginning.
pub open spec fn trim_ascii_start(s: Seq<char>) -> Seq<char>
    decreases s.len(),
{
    if s.len() > 0 && ascii_white_space(s[0]) {
        trim_ascii_start(s.drop_first())
    } else {
        s
    }
}

/// The text without ASCII white space at its end.
pub open spec fn trim_ascii_end(s: Seq<char>) -> Seq<char>
    decreases s.len(),
{
    if s.len() > 0 && ascii_white_space(s.last()) {
        trim_ascii_end(s.drop_last())
    } else {
        s
    }
}

/// The text without ASCII white space at either end.
pub open spec fn trim_ascii(s: Seq<char>) -> Seq<char> {
    trim_ascii_end(trim_ascii_start(s))
}

/// A line break character.
pub open spec fn line_break(c: char) -> bool {
    c == '\n' || c == '\r'
}

/// The text without its leading white space.
pub open spec fn trim_start(s: Seq<char>) -> Seq<char>
    decreases s.len(),
{
    if s.len() > 0 && white_space(s[0]) {
        trim_start(s.drop_first())
    } else {
        s
    }
}

/// The text without its trailing white space.
pub open spec fn trim_end(s: Seq<char>) -> Seq<char>
    decreases s.len(),
{
    if s.len() > 0 && white_space(s.last()) {
        trim_end(s.drop_last())
    } else {
        s
    }
}

/// The text without white space at either end.
pub open spec fn trim(s: Seq<char>) -> Seq<char> {
    trim_end(trim_start(s))
}

/// The text without trailing line break characters.
pub open spec fn trim_line_end(s: Seq<char>) -> Seq<char>
    decreases s.len(),
{
    if s.len() > 0 && line_break(s.last()) {
        trim_line_end(s.drop_last())
    } else {
        s
    }
}

/// The text without any leading repetitions of `prefix`.
pub open spec fn strip_prefixes(s: Seq<char>, prefix: Seq<char>) -> Seq<char>
    decreases s.len(),
{
    if prefix.len() > 0 && starts_with(s, prefix) {
        strip_prefixes(s.skip(prefix.len() as int), prefix)
    } else {
        s
    }
}

/// `s` begins with `prefix`.
pub open spec fn starts_with(s: Seq<char>, prefix: Seq<char>) -> bool {
    prefix.len() <= s.len() && s.take(prefix.len() as int) == prefix
}

/// `needle` stands in `hay` at character position `at`.
pub open spec fn occurs_at(hay: Seq<char>, needle: Seq<char>, at: int) -> bool {
    0 <= at && at + needle.len() <= hay.len() && hay.subrange(at, at + needle.len()) == needle
}

/// `needle` stands somewhere in `hay`.
pub open spec fn has_substring(hay: Seq<char>, needle: Seq<char>) -> bool {
    exists|at: int| #[trigger] occurs_at(hay, needle, at)
}

/// The lower case of an ASCII letter, and every other character as it is.
pub open spec fn ascii_lower(c: char) -> char {
    if 'A' <= c <= 'Z' {
        ((c as u32) + 32) as char
    } else {
        c
    }
}

/// The characters of a string.
pub fn chars_of(s: &str) -> (v: Vec<char>)
    ensures
        v@ == s@,
{
    let mut v: Vec<char> = Vec::new();
    for c in it: s.chars()
        invariant
            v@ == it.seq().take(it.index() as int),
    {
        v.push(c);
    }
    assert(v@ == s@);
    v
}

/// The string made of the given characters.
pub fn string_of(chars: &[char]) -> (s: String)
    ensures
        s@ == chars@,
{
    let mut s = String::new();
    let n: usize = chars.len();
    for i in 0..n
        invariant
            n == chars@.len(),
            s@ == chars@.take(i as int),
    {
        s.push(chars[i]);
        assert(chars@.take(i as int).push(chars@[i as int]) == chars@.take(i + 1));
    }
    assert(chars@.take(n as int) == chars@);
    s
}

/// Whether two sequences of characters are the same.
pub fn same_chars(a: &[char], b: &[char]) -> (r: bool)
    ensures
        r == (a@ == b@),
{
    if a.len() != b.len() {
        return false;
    }
    let n: usize = a.len();
    for i in 0..n
        invariant
            n == a@.len(),
            n == b@.len(),
            forall|j: int| 0 <= j < i ==> a@[j] == b@[j],
    {
        if a[i] != b[i] {
            assert(a@[i as int] != b@[i as int]);
            return false;
        }
    }
    assert(a@ =~= b@);
    true
}

/// Whether two sequences of bytes are the same.
pub fn same_bytes(a: &[u8], b: &[u8]) -> (r: bool)
    ensures
        r == (a@ == b@),
{
    if a.len() != b.len() {
        return false;
    }
    let n: usize = a.len();
    for i in 0..n
        invariant
            n == a@.len(),
            n == b@.len(),
            forall|j: int| 0 <= j < i ==> a@[j] == b@[j],
    {
        if a[i] != b[i] {
            assert(a@[i as int] != b@[i as int]);
            return false;
        }
    }
    assert(a@ =~= b@);
    true
}

/// Whether two strings hold the same text.
pub fn same_text(a: &str, b: &str) -> (r: bool)
    ensures
        r == (a@ == b@),
{
    proof {
        encode_utf8_decode_utf8(a@);
        encode_utf8_decode_utf8(b@);
    }
    same_bytes(a.as_bytes(), b.as_bytes())
}

/// The text without its leading white space.
pub fn trim_start_chars(s: &[char]) -> (r: &[char])
    ensures
        r@ == trim_start(s@),
        r@ == s@.skip(s@.len() - r@.len()),
{
    let mut i: usize = 0;
    assert(s@.skip(0) == s@);
    while i < s.len() && is_white_space(s[i])
        invariant
            i <= s@.len(),
            trim_start(s@.skip(i as int)) == trim_start(s@),
        decreases s@.len() - i,
    {
        assert(s@.skip(i as int).drop_first() == s@.skip(i + 1));
        i = i + 1;
    }
    slice_subrange(s, i, s.len())
}

/// The text without its trailing white space.
pub fn trim_end_chars(s: &[char]) -> (r: &[char])
    ensures
        r@ == trim_end(s@),
        r@ == s@.take(r@.len() as int),
{
    let mut i: usize = s.len();
    assert(s@.take(s@.len() as int) == s@);
    while i > 0 && is_white_space(s[i - 1])
        invariant
            i <= s@.len(),
            trim_end(s@.take(i as int)) == trim_end(s@),
        decreases i,
    {
        assert(s@.take(i as int).drop_last() == s@.take(i - 1));
        i = i - 1;
    }
    slice_subrange(s, 0, i)
}

/// The text without white space at either end.
pub fn trim_chars(s: &[char]) -> (r: &[char])
    ensures
        r@ == trim(s@),
{
    trim_end_chars(trim_start_chars(s))
}

/// The text without trailing line break characters.
pub fn trim_line_end_chars(s: &[char]) -> (r: &[char])
    ensures
        r@ == trim_line_end(s@),
        r@ == s@.take(r@.len() as int),
{
    let mut i: usize = s.len();
    assert(s@.take(s@.len() as int) == s@);
    while i > 0 && (s[i - 1] == '\n' || s[i - 1] == '\r')
        invariant
            i <= s@.len(),
            trim_line_end(s@.take(i as int)) == trim_line_end(s@),
        decreases i,
    {
        assert(s@.take(i as int).drop_last() == s@.take(i - 1));
        i = i - 1;
    }
    slice_subrange(s, 0, i)
}

/// Whether `s` begins with `prefix`.
pub fn chars_start_with(s: &[char], prefix: &[char]) -> (r: bool)
    ensures
        r == starts_with(s@, prefix@),
{
    if prefix.len() > s.len() {
        return false;
    }
    same_chars(slice_subrange(s, 0, prefix.len()), prefix)
}

/// The text without any leading repetitions of `prefix`.
pub fn strip_prefixes_chars<'a>(s: &'a [char], prefix: &[char]) -> (r: &'a [char])
    ensures
        r@ == strip_prefixes(s@, prefix@),
{
    let mut i: usize = 0;
    assert(s@.skip(0) == s@);
    while prefix.len() > 0 && chars_start_with(slice_subrange(s, i, s.len()), prefix)
        invariant
            i <= s@.len(),
            strip_prefixes(s@.skip(i as int), prefix@) == strip_prefixes(s@, prefix@),
        decreases s@.len() - i,
    {
        assert(s@.subrange(i as int, s@.len() as int) == s@.skip(i as int));
        assert(s@.skip(i as int).skip(prefix@.len() as int) == s@.skip(i + prefix@.len()));
        i = i + prefix.len();
    }
    assert(s@.subrange(i as int, s@.len() as int) == s@.skip(i as int));
    slice_subrange(s, i, s.len())
}

/// Whether `needle` stands in `hay` at position `at`.
pub fn chars_occur_at(hay: &[char], needle: &[char], at: usize) -> (r: bool)
    requires
        at <= hay@.len(),
    ensures
        r == occurs_at(hay@, needle@, at as int),
{
    if needle.len() > hay.len() - at {
        return false;
    }
    same_chars(slice_subrange(hay, at, at + needle.len()), needle)
}

/// Whether `needle` stands somewhere in `hay`.
pub fn chars_contain(hay: &[char], needle: &[char]) -> (r: bool)
    ensures
        r == has_substring(hay@, needle@),
{
    let mut at: usize = 0;
    while at < hay.len()
        invariant
            at <= hay@.len(),
            forall|k: int| 0 <= k < at ==> !occurs_at(hay@, needle@, k),
        decreases hay@.len() - at,
    {
        if chars_occur_at(hay, needle, at) {
            return true;
        }
        at = at + 1;
    }
    chars_occur_at(hay, needle, at)
}

/// The lower case of an ASCII letter, and every other character as it is.
pub fn to_ascii_lower(c: char) -> (r: char)
    ensures
        r == ascii_lower(c),
{
    if 'A' <= c && c <= 'Z' {
        ((c as u8) + 32) as char
    } else {
        c
    }
}

/// Trimming the beginning of a text takes off white space there, all of it, and nothing
/// else.
pub proof fn start_is_trimmed(s: Seq<char>)
    ensures
        trim_start(s).len() <= s.len(),
        s.skip(s.len() - trim_start(s).len()) == trim_start(s),
        forall|i: int| 0 <= i < s.len() - trim_start(s).len() ==> white_space(#[trigger] s[i]),
        trim_start(s).len() > 0 ==> !white_space(trim_start(s)[0]),
    decreases s.len(),
{
    if s.len() > 0 && white_space(s[0]) {
        let rest = s.drop_first();
        start_is_trimmed(rest);
        let n = trim_start(s).len();
        assert(rest.skip(rest.len() - n) =~= s.skip(s.len() - n));
        assert forall|i: int| 0 <= i < s.len() - n implies white_space(#[trigger] s[i]) by {
            if i > 0 {
                assert(rest[i - 1] == s[i]);
            }
        }
    } else {
        assert(s.skip(0) =~= s);
    }
}

/// Trimming the end of a text takes off white space there, all of it, and nothing else.
pub proof fn end_is_trimmed(s: Seq<char>)
    ensures
        trim_end(s).len() <= s.len(),
        s.take(trim_end(s).len() as int) == trim_end(s),
        forall|i: int| trim_end(s).len() <= i < s.len() ==> white_space(#[trigger] s[i]),
        trim_end(s).len() > 0 ==> !white_space(trim_end(s).last()),
    decreases s.len(),
{
    if s.len() > 0 && white_space(s.last()) {
        let rest = s.drop_last();
        end_is_trimmed(rest);
        let n = trim_end(s).len() as int;
        assert(rest.take(n) =~= s.take(n));
        assert forall|i: int| n <= i < s.len() implies white_space(#[trigger] s[i]) by {
            if i < s.len() - 1 {
                assert(rest[i] == s[i]);
            }
        }
    } else {
        assert(s.take(s.len() as int) =~= s);
    }
}

/// Trimming a text takes off white space at its two ends, all of it, and nothing else.
pub proof fn both_ends_are_trimmed(s: Seq<char>) -> (at: int)
    ensures
        0 <= at <= at + trim(s).len() <= s.len(),
        s.subrange(at, at + trim(s).len()) == trim(s),
        forall|i: int| 0 <= i < at ==> white_space(#[trigger] s[i]),
        forall|i: int| at + trim(s).len() <= i < s.len() ==> white_space(#[trigger] s[i]),
        trim(s).len() > 0 ==> !white_space(trim(s)[0]) && !white_space(trim(s).last()),
{
    let front = trim_start(s);
    start_is_trimmed(s);
    end_is_trimmed(front);
    let at = s.len() - front.len();
    let n = trim(s).len() as int;
    assert(s.subrange(at, at + n) =~= front.take(n));
    assert forall|i: int| at + n <= i < s.len() implies white_space(#[trigger] s[i]) by {
        assert(front[i - at] == s[i]);
    }
    at
}

/// Trimming the beginning of a text of ASCII white space takes off that, all of it, and
/// nothing else.
proof fn lemma_ascii_start(s: Seq<char>)
    ensures
        trim_ascii_start(s).len() <= s.len(),
        s.skip(s.len() - trim_ascii_start(s).len()) == trim_ascii_start(s),
        forall|i: int|
            0 <= i < s.len() - trim_ascii_start(s).len() ==> ascii_white_space(#[trigger] s[i]),
        trim_ascii_start(s).len() > 0 ==> !ascii_white_space(trim_ascii_start(s)[0]),
    decreases s.len(),
{
    if s.len() > 0 && ascii_white_space(s[0]) {
        let rest = s.drop_first();
        lemma_ascii_start(rest);
        let n = trim_ascii_start(s).len();
        assert(rest.skip(rest.len() - n) =~= s.skip(s.len() - n));
        assert forall|i: int| 0 <= i < s.len() - n implies ascii_white_space(#[trigger] s[i]) by {
            if i > 0 {
                assert(rest[i - 1] == s[i]);
            }
        }
    } else {
        assert(s.skip(0) =~= s);
    }
}

proof fn lemma_ascii_end(s: Seq<char>)
    ensures
        trim_ascii_end(s).len() <= s.len(),
        s.take(trim_ascii_end(s).len() as int) == trim_ascii_end(s),
        forall|i: int|
            trim_ascii_end(s).len() <= i < s.len() ==> ascii_white_space(#[trigger] s[i]),
        trim_ascii_end(s).len() > 0 ==> !ascii_white_space(trim_ascii_end(s).last()),
    decreases s.len(),
{
    if s.len() > 0 && ascii_white_space(s.last()) {
        let rest = s.drop_last();
        lemma_ascii_end(rest);
        let n = trim_ascii_end(s).len() as int;
        assert(rest.take(n) =~= s.take(n));
        assert forall|i: int| n <= i < s.len() implies ascii_white_space(#[trigger] s[i]) by {
            if i < s.len() - 1 {
                assert(rest[i] == s[i]);
            }
        }
    } else {
        assert(s.take(s.len() as int) =~= s);
    }
}

/// Trimming a text of ASCII white space takes off that at its two ends, all of it, and
/// nothing else.
pub proof fn both_ascii_ends_are_trimmed(s: Seq<char>) -> (at: int)
    ensures
        0 <= at <= at + trim_ascii(s).len() <= s.len(),
        s.subrange(at, at + trim_ascii(s).len()) == trim_ascii(s),
        forall|i: int| 0 <= i < at ==> ascii_white_space(#[trigger] s[i]),
        forall|i: int|
            at + trim_ascii(s).len() <= i < s.len() ==> ascii_white_space(#[trigger] s[i]),
        trim_ascii(s).len() > 0 ==> !ascii_white_space(trim_ascii(s)[0]) && !ascii_white_space(
            trim_ascii(s).last(),
        ),
{
    let front = trim_ascii_start(s);
    lemma_ascii_start(s);
    lemma_ascii_end(front);
    let at = s.len() - front.len();
    let n = trim_ascii(s).len() as int;
    assert(s.subrange(at, at + n) =~= front.take(n));
    assert forall|i: int| at + n <= i < s.len() implies ascii_white_space(#[trigger] s[i]) by {
        assert(front[i - at] == s[i]);
    }
    at
}

/// Taking line breaks off the end of a text takes off line feeds and carriage returns
/// there, all of them, and nothing else: the rest of the text is kept.
pub proof fn only_line_breaks_are_taken_off(s: Seq<char>)
    ensures
        trim_line_end(s).len() <= s.len(),
        s.take(trim_line_end(s).len() as int) == trim_line_end(s),
        forall|i: int|
            trim_line_end(s).len() <= i < s.len() ==> #[trigger] s[i] == '\n' || s[i] == '\r',
        trim_line_end(s).len() > 0 ==> trim_line_end(s).last() != '\n' && trim_line_end(s).last()
            != '\r',
    decreases s.len(),
{
    if s.len() > 0 && line_break(s.last()) {
        let rest = s.drop_last();
        only_line_breaks_are_taken_off(rest);
        let n = trim_line_end(s).len() as int;
        assert(rest.take(n) =~= s.take(n));
        assert forall|i: int| n <= i < s.len() implies #[trigger] s[i] == '\n' || s[i]
            == '\r' by {
            if i < s.len() - 1 {
                assert(rest[i] == s[i]);
            }
        }
    } else {
        assert(s.take(s.len() as int) =~= s);
    }
}

/// White space is what the Unicode standard counts as such: five control characters and
/// the blank of ASCII, the two of Latin-1, and seventeen characters beyond.
pub proof fn white_space_is_that_of_unicode(c: char)
    ensures
        (c as u32) < 0x80 ==> (white_space(c) <==> c == ' ' || 9 <= c as u32 <= 13),
        0x80 <= (c as u32) < 0x100 ==> (white_space(c) <==> c as u32 == 0x85 || c as u32 == 0xa0),
        0x100 <= (c as u32) < 0x2000 ==> (white_space(c) <==> c as u32 == 0x1680),
        0x2000 <= (c as u32) < 0x2010 ==> (white_space(c) <==> (c as u32) < 0x200b),
        0x2010 <= (c as u32) < 0x2100 ==> (white_space(c) <==> c as u32 == 0x2028 || c as u32
            == 0x2029 || c as u32 == 0x202f || c as u32 == 0x205f),
        (c as u32) >= 0x2100 ==> (white_space(c) <==> c as u32 == 0x3000),
        ascii_white_space(c) ==> white_space(c) && (c as u32) < 0x80,
        white_space(c) && (c as u32) < 0x80 && c as u32 != 0xb ==> ascii_white_space(c),
        !ascii_white_space(0xbu32 as char),
{
}

/// Upper case letters of ASCII become those of the same place in the alphabet, and all else
/// stays.
pub proof fn ascii_letters_are_lowered(c: char)
    ensures
        'A' <= c <= 'Z' ==> ascii_lower(c) as int - 'a' as int == c as int - 'A' as int,
        !('A' <= c <= 'Z') ==> ascii_lower(c) == c,
{
}

/// All of the prefixes at the beginning of a text are taken off, and nothing else.
pub proof fn all_prefixes_are_stripped(s: Seq<char>, prefix: Seq<char>)
    requires
        prefix.len() > 0,
    ensures
        strip_prefixes(prefix + s, prefix) == strip_prefixes(s, prefix),
        !starts_with(s, prefix) ==> strip_prefixes(s, prefix) == s,
        !starts_with(strip_prefixes(s, prefix), prefix),
    decreases s.len(),
{
    assert((prefix + s).take(prefix.len() as int) =~= prefix);
    assert((prefix + s).skip(prefix.len() as int) =~= s);
    if starts_with(s, prefix) {
        all_prefixes_are_stripped(s.skip(prefix.len() as int), prefix);
    }
}

/// A text stands in another at a place exactly if that many characters stand before it, and
/// in it somewhere exactly if there is such a place.
pub proof fn texts_stand_between_others(
    hay: Seq<char>,
    before: Seq<char>,
    needle: Seq<char>,
    behind: Seq<char>,
    at: int,
)
    requires
        hay == before + needle + behind,
    ensures
        occurs_at(hay, needle, before.len() as int),
        has_substring(hay, needle),
        occurs_at(hay, needle, at) ==> 0 <= at <= at + needle.len() <= hay.len() && hay == hay.take(
            at,
        ) + needle + hay.skip(at + needle.len()),
{
    let n = before.len() as int;
    assert(hay.subrange(n, n + needle.len()) =~= needle);
    assert(occurs_at(hay, needle, n));
    if occurs_at(hay, needle, at) {
        assert(hay =~= hay.take(at) + hay.subrange(at, at + needle.len()) + hay.skip(
            at + needle.len(),
        ));
    }
}

} // verus!
