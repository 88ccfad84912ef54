//! Reading of property files: lines of keys and values.

use crate::split;
use crate::split::split_lines;
use crate::text;
use crate::text::{chars_of, string_of, trim_chars, trim_start_chars};
use vstd::hash_map::StringHashMap;
use vstd::prelude::*;
use vstd::slice::slice_subrange;

verus! {

/// Position of the first `=` or `:` at or behind `i` that no backslash stands
/// before, or the length of the text. A backslash takes the next character along.
pub open spec fn separator(s: Seq<char>, i: int) -> int
    decreases s.len() - i,
{
    if i < 0 || i >= s.len() {
        s.len() as int
    } else if s[i] == '\\' {
        if i + 2 < s.len() {
            separator(s, i + 2)
        } else {
            s.len() as int
        }
    } else if s[i] == '=' || s[i] == ':' {
        i
    } else {
        separator(s, i + 1)
    }
}

/// The character that a backslash and `c` stand for.
pub open spec fn escaped(c: char) -> char {
    if c == 'n' {
        '\n'
    } else if c == 't' {
        '\t'
    } else if c == 'r' {
        '\r'
    } else {
        c
    }
}

/// A value with its escapes resolved; a backslash at the end is dropped.
pub open spec fn unescaped(s: Seq<char>) -> Seq<char>
    decreases s.len(),
{
    if s.len() == 0 {
        seq![]
    } else if s[0] == '\\' {
        if s.len() == 1 {
            seq![]
        } else {
            seq![escaped(s[1])] + unescaped(s.skip(2))
        }
    } else {
        seq![s[0]] + unescaped(s.skip(1))
    }
}

/// The key and the value of a line, if it has them and is no comment.
pub open spec fn property_of(raw: Seq<char>) -> Option<(Seq<char>, Seq<char>)> {
    let line = text::trim_start(raw);
    let at = separator(line, 0);
    if line.len() == 0 || line[0] == '#' || line[0] == '!' || at >= line.len() {
        None
    } else {
        Some((text::trim(line.take(at)), unescaped(text::trim_start(line.skip(at + 1)))))
    }
}

/// The keys and values of some lines; the last value of a key counts.
pub open spec fn properties_of(lines: Seq<Seq<char>>) -> Map<Seq<char>, Seq<char>>
    decreases lines.len(),
{
    if lines.len() == 0 {
        Map::empty()
    } else {
        let before = properties_of(lines.drop_last());
        match property_of(lines.last()) {
            Some((key, value)) => before.insert(key, value),
            None => before,
        }
    }
}

/// Keys and their values.
pub struct Properties {
    map: StringHashMap<String>,
}

impl View for Properties {
    type V = Map<Seq<char>, Seq<char>>;

    closed spec fn view(&self) -> Map<Seq<char>, Seq<char>> {
        Map::new(|k: Seq<char>| self.map@.contains_key(k), |k: Seq<char>| self.map@[k]@)
    }
}

impl Properties {
    /// The value of a key.
    pub fn get(&self, key: &str) -> (r: Option<&String>)
        ensures
            match r {
                Some(v) => self@.contains_key(key@) && v@ == self@[key@],
                None => !self@.contains_key(key@),
            },
    {
        self.map.get(key)
    }

    /// Whether there is a value for a key.
    pub fn contains_key(&self, key: &str) -> (r: bool)
        ensures
            r == self@.contains_key(key@),
    {
        self.map.contains_key(key)
    }
}

/// Position of the separator of a line.
fn find_separator(s: &[char]) -> (r: usize)
    ensures
        r == separator(s@, 0),
        r <= s@.len(),
{
    let n: usize = s.len();
    let mut i: usize = 0;
    while i < n
        invariant
            n == s@.len(),
            separator(s@, i as int) == separator(s@, 0),
        decreases n - i,
    {
        let c = s[i];
        if c == '\\' {
            if n - i <= 2 {
                return n;
            }
            i = i + 2;
        } else if c == '=' || c == ':' {
            return i;
        } else {
            i = i + 1;
        }
    }
    n
}

/// A value with its escapes resolved.
pub fn unescape(s: &[char]) -> (r: String)
    ensures
        r@ == unescaped(s@),
{
    let mut out = String::new();
    let n: usize = s.len();
    let mut i: usize = 0;
    assert(s@.skip(0) == s@);
    assert(out@ + unescaped(s@) == unescaped(s@));
    while i < n
        invariant
            n == s@.len(),
            i <= n,
            out@ + unescaped(s@.skip(i as int)) == unescaped(s@),
        decreases n - i,
    {
        let ghost rest = s@.skip(i as int);
        let ghost before = out@;
        let c = s[i];
        if c == '\\' {
            if i + 1 >= n {
                assert(before + Seq::<char>::empty() == before);
                return out;
            }
            let e = s[i + 1];
            let x = if e == 'n' {
                '\n'
            } else if e == 't' {
                '\t'
            } else if e == 'r' {
                '\r'
            } else {
                e
            };
            out.push(x);
            assert(rest.skip(2) == s@.skip(i + 2));
            assert(before.push(x) + unescaped(s@.skip(i + 2)) == before + (seq![x] + unescaped(
                s@.skip(i + 2),
            )));
            i = i + 2;
        } else {
            out.push(c);
            assert(rest.skip(1) == s@.skip(i + 1));
            assert(before.push(c) + unescaped(s@.skip(i + 1)) == before + (seq![c] + unescaped(
                s@.skip(i + 1),
            )));
            i = i + 1;
        }
    }
    assert(s@.skip(i as int) == Seq::<char>::empty());
    assert(out@ + Seq::<char>::empty() == out@);
    out
}

/// The key and the value of a line.
pub fn parse_property(raw: &str) -> (r: Option<(String, String)>)
    ensures
        match r {
            Some((key, value)) => property_of(raw@) == Some((key@, value@)),
            None => property_of(raw@) is None,
        },
{
    let chars = chars_of(raw);
    let line = trim_start_chars(chars.as_slice());
    if line.len() == 0 || line[0] == '#' || line[0] == '!' {
        return None;
    }
    let at = find_separator(line);
    if at >= line.len() {
        return None;
    }
    let head = slice_subrange(line, 0, at);
    let tail = slice_subrange(line, at + 1, line.len());
    assert(head@ == line@.take(at as int));
    assert(tail@ == line@.skip(at + 1));
    let key = string_of(trim_chars(head));
    let value = unescape(trim_start_chars(tail));
    Some((key, value))
}

/// The keys and values of a text.
pub fn parse_properties(text: &str) -> (r: Properties)
    ensures
        r@ == properties_of(split::lines(text@)),
{
    let lines = split_lines(chars_of(text).as_slice());
    let ghost all = split::texts(lines@);
    let mut out = Properties { map: StringHashMap::new() };
    let n: usize = lines.len();
    assert(out@ =~= Map::<Seq<char>, Seq<char>>::empty());
    for i in 0..n
        invariant
            n == lines@.len(),
            all == split::texts(lines@),
            out@ == properties_of(all.take(i as int)),
    {
        assert(all.take(i + 1).drop_last() == all.take(i as int));
        assert(all[i as int] == lines@[i as int]@);
        let ghost before = out@;
        if let Some((key, value)) = parse_property(lines[i].as_str()) {
            let ghost k = key@;
            let ghost v = value@;
            out.map.insert(key, value);
            assert(out@ =~= before.insert(k, v));
        }
    }
    assert(all.take(n as int) == all);
    out
}

/// A line is a key and a value with an equals sign or a colon between them. White space
/// around the key and before the value does not count.
pub proof fn keys_and_values_are_read(
    white: char,
    key: Seq<char>,
    sep: char,
    value: Seq<char>,
)
    requires
        text::white_space(white),
        sep == '=' || sep == ':',
        key.len() > 0,
        key[0] != '#' && key[0] != '!',
        !text::white_space(key[0]) && !text::white_space(key.last()),
        forall|i: int|
            0 <= i < key.len() ==> #[trigger] key[i] != '=' && key[i] != ':' && key[i] != '\\',
        value.len() > 0 ==> !text::white_space(value[0]),
        !value.contains('\\'),
    ensures
        property_of(key.push(sep) + value) == Some((key, value)),
        property_of(seq![white] + key.push(sep) + value) == Some((key, value)),
        property_of(key.push(white).push(sep) + value) == Some((key, value)),
        property_of(key.push(sep).push(white) + value) == Some((key, value)),
{
    let n = key.len() as int;
    lemma_plain_unescaped(value);
    assert(text::trim_start(value) == value);
    assert(text::trim_start(key) == key);
    assert(text::trim_end(key) == key);
    let plain = key.push(sep) + value;
    lemma_separator_at(plain, n, 0);
    assert(plain.take(n) =~= key);
    assert(plain.skip(n + 1) =~= value);
    assert(text::trim_start(plain) == plain);
    let front = seq![white] + key.push(sep) + value;
    assert(front.drop_first() =~= plain);
    assert(text::trim_start(front) == plain);
    let wide = key.push(white);
    let before = wide.push(sep) + value;
    assert(before[n] == white);
    lemma_separator_at(before, n + 1, 0);
    assert(before.take(n + 1) =~= wide);
    assert(before.skip(n + 2) =~= value);
    assert(text::trim_start(before) == before);
    assert(text::trim_start(wide) == wide);
    assert(wide.drop_last() =~= key);
    assert(text::trim_end(wide) == key);
    let behind = key.push(sep).push(white) + value;
    lemma_separator_at(behind, n, 0);
    assert(behind.take(n) =~= key);
    assert(behind.skip(n + 1) =~= seq![white] + value);
    assert((seq![white] + value).drop_first() =~= value);
    assert(text::trim_start(seq![white] + value) == value);
    assert(text::trim_start(behind) == behind);
}

/// The separator is the first equals sign or colon.
proof fn lemma_separator_at(s: Seq<char>, at: int, i: int)
    requires
        0 <= i <= at < s.len(),
        s[at] == '=' || s[at] == ':',
        forall|j: int| 0 <= j < at ==> #[trigger] s[j] != '=' && s[j] != ':' && s[j] != '\\',
    ensures
        separator(s, i) == at,
    decreases at - i,
{
    if i < at {
        assert(s[i] != '=');
        lemma_separator_at(s, at, i + 1);
    }
}

proof fn lemma_plain_unescaped(s: Seq<char>)
    requires
        !s.contains('\\'),
    ensures
        unescaped(s) == s,
    decreases s.len(),
{
    if s.len() > 0 {
        assert(s.contains(s[0]));
        let rest = s.skip(1);
        if rest.contains('\\') {
            let i = choose|i: int| 0 <= i < rest.len() && rest[i] == '\\';
            assert(s[i + 1] == '\\');
        }
        lemma_plain_unescaped(rest);
        assert(seq![s[0]] + rest =~= s);
    }
}

/// A line without a key and a value is none: a comment, an empty line, and one without an
/// equals sign or a colon.
pub proof fn other_lines_are_skipped(line: Seq<char>)
    ensures
        line.len() == 0 ==> property_of(line) is None,
        line.len() > 0 && (line[0] == '#' || line[0] == '!') ==> property_of(line) is None,
        !line.contains('=') && !line.contains(':') ==> property_of(line) is None,
{
    let s = text::trim_start(line);
    text::start_is_trimmed(line);
    if !line.contains('=') && !line.contains(':') {
        assert forall|i: int| 0 <= i < s.len() implies #[trigger] s[i] != '=' && s[i] != ':' by {
            assert(line[line.len() - s.len() + i] == s[i]);
            assert(line.contains(s[i]));
        }
        lemma_no_separator(s, 0);
    }
}

proof fn lemma_no_separator(s: Seq<char>, i: int)
    requires
        0 <= i,
        forall|j: int| 0 <= j < s.len() ==> #[trigger] s[j] != '=' && s[j] != ':',
    ensures
        separator(s, i) == s.len(),
    decreases s.len() - i,
{
    if i < s.len() {
        lemma_no_separator(s, i + 1);
        if i + 2 < s.len() {
            lemma_no_separator(s, i + 2);
        }
    }
}

/// A backslash takes the next character along: as a line feed, a tab or a carriage return
/// for `n`, `t` and `r`, and as itself otherwise. All else stays.
pub proof fn escapes_are_resolved(a: Seq<char>, c: char, b: Seq<char>)
    requires
        !a.contains('\\'),
    ensures
        unescaped(a) == a,
        unescaped(a + b) == a + unescaped(b),
        c == 'n' ==> unescaped(a + seq!['\\', c] + b) == a.push('\n') + unescaped(b),
        c == 't' ==> unescaped(a + seq!['\\', c] + b) == a.push('\t') + unescaped(b),
        c == 'r' ==> unescaped(a + seq!['\\', c] + b) == a.push('\r') + unescaped(b),
        c != 'n' && c != 't' && c != 'r' ==> unescaped(a + seq!['\\', c] + b) == a.push(c)
            + unescaped(b),
        unescaped(a.push('\\')) == a,
{
    lemma_plain_unescaped(a);
    lemma_plain_before(a, b);
    let escape = seq!['\\', c] + b;
    lemma_plain_before(a, escape);
    assert(a + seq!['\\', c] + b =~= a + escape);
    assert(escape.skip(2) =~= b);
    assert(a + (seq![escaped(c)] + unescaped(b)) =~= a.push(escaped(c)) + unescaped(b));
    let end = seq!['\\'];
    lemma_plain_before(a, end);
    assert(a + end =~= a.push('\\'));
    assert(unescaped(end) =~= Seq::<char>::empty());
    assert(a + Seq::<char>::empty() =~= a);
}

proof fn lemma_plain_before(a: Seq<char>, b: Seq<char>)
    requires
        !a.contains('\\'),
    ensures
        unescaped(a + b) == a + unescaped(b),
    decreases a.len(),
{
    if a.len() == 0 {
        assert(a + b =~= b);
        assert(a + unescaped(b) =~= unescaped(b));
    } else {
        assert(a.contains(a[0]));
        let rest = a.skip(1);
        if rest.contains('\\') {
            let i = choose|i: int| 0 <= i < rest.len() && rest[i] == '\\';
            assert(a[i + 1] == '\\');
        }
        lemma_plain_before(rest, b);
        assert((a + b).skip(1) =~= rest + b);
        assert(seq![a[0]] + (rest + unescaped(b)) =~= a + unescaped(b));
    }
}

/// A line that is read adds its value to those of the lines before it, in the place of one
/// that its key had; a line that is not read adds none.
pub proof fn last_value_counts(lines: Seq<Seq<char>>, line: Seq<char>, other: Seq<char>)
    ensures
        ({
            let before = properties_of(lines);
            let after = properties_of(lines.push(line));
            match property_of(line) {
                Some((key, value)) => {
                    &&& after.contains_key(key) && after[key] == value
                    &&& other != key ==> (after.contains_key(other) <==> before.contains_key(other))
                    &&& other != key && before.contains_key(other) ==> after[other] == before[other]
                },
                None => after == before,
            }
        }),
        !properties_of(Seq::<Seq<char>>::empty()).contains_key(other),
{
    assert(lines.push(line).drop_last() =~= lines);
}

} // verus!
