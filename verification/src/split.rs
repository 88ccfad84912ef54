//! Splitting text into lines, words and fields, and joining it again.

use crate::text;
use crate::text::{is_white_space, string_of};
use vstd::prelude::*;
use vstd::slice::slice_subrange;

verus! {

/// The texts of a sequence of strings.
pub open spec fn texts(v: Seq<String>) -> Seq<Seq<char>> {
    v.map_values(|s: String| s@)
}

/// Position of the first `c` in `s`, or the length of `s` if it has none.
pub open spec fn find_char(s: Seq<char>, c: char) -> nat
    decreases s.len(),
{
    if s.len() == 0 || s[0] == c {
        0
    } else {
        1 + find_char(s.drop_first(), c)
    }
}

/// Position of the first white space in `s`, or the length of `s` if it has none.
pub open spec fn find_white_space(s: Seq<char>) -> nat
    decreases s.len(),
{
    if s.len() == 0 || text::white_space(s[0]) {
        0
    } else {
        1 + find_white_space(s.drop_first())
    }
}

/// The pieces of `s` between the occurrences of `sep`.
pub open spec fn fields(s: Seq<char>, sep: char) -> Seq<Seq<char>>
    decreases s.len(),
{
    let k = find_char(s, sep) as int;
    if k >= s.len() {
        seq![s]
    } else {
        seq![s.take(k)] + fields(s.skip(k + 1), sep)
    }
}

/// The text without one trailing carriage return.
pub open spec fn strip_carriage_return(s: Seq<char>) -> Seq<char> {
    if s.len() > 0 && s.last() == '\r' {
        s.drop_last()
    } else {
        s
    }
}

/// The lines of a text. A line ends in `\n` or `\r\n`, which is not part of it;
/// the last line need not have an ending.
pub open spec fn lines(s: Seq<char>) -> Seq<Seq<char>>
    decreases s.len(),
{
    let k = find_char(s, '\n') as int;
    if s.len() == 0 {
        seq![]
    } else if k >= s.len() {
        seq![s]
    } else {
        seq![strip_carriage_return(s.take(k))] + lines(s.skip(k + 1))
    }
}

/// The words of a text: its longest stretches without white space.
pub open spec fn words(s: Seq<char>) -> Seq<Seq<char>>
    decreases s.len(),
{
    if s.len() == 0 {
        seq![]
    } else if text::white_space(s[0]) {
        words(s.drop_first())
    } else {
        let k = find_white_space(s) as int;
        if k >= s.len() {
            seq![s]
        } else {
            seq![s.take(k)] + words(s.skip(k))
        }
    }
}

/// The texts one after the other, with `sep` between neighbours.
pub open spec fn join(parts: Seq<Seq<char>>, sep: char) -> Seq<char>
    decreases parts.len(),
{
    if parts.len() == 0 {
        seq![]
    } else if parts.len() == 1 {
        parts[0]
    } else {
        join(parts.drop_last(), sep).push(sep) + parts.last()
    }
}

/// Position of the first `c` in `s` at or after `from`, or the length of `s`.
pub fn find_char_from(s: &[char], c: char, from: usize) -> (k: usize)
    requires
        from <= s@.len(),
    ensures
        from <= k <= s@.len(),
        k == from + find_char(s@.skip(from as int), c),
        k < s@.len() ==> s@[k as int] == c,
        forall|j: int| from <= j < k ==> s@[j] != c,
{
    let mut k: usize = from;
    while k < s.len() && s[k] != c
        invariant
            from <= k <= s@.len(),
            from + find_char(s@.skip(from as int), c) == k + find_char(s@.skip(k as int), c),
            forall|j: int| from <= j < k ==> s@[j] != c,
        decreases s@.len() - k,
    {
        assert(s@.skip(k as int).drop_first() == s@.skip(k + 1));
        k = k + 1;
    }
    k
}

/// Position of the first white space in `s` at or after `from`, or the length
/// of `s`.
pub fn find_white_space_from(s: &[char], from: usize) -> (k: usize)
    requires
        from <= s@.len(),
    ensures
        from <= k <= s@.len(),
        k == from + find_white_space(s@.skip(from as int)),
{
    let mut k: usize = from;
    while k < s.len() && !is_white_space(s[k])
        invariant
            from <= k <= s@.len(),
            from + find_white_space(s@.skip(from as int)) == k + find_white_space(
                s@.skip(k as int),
            ),
        decreases s@.len() - k,
    {
        assert(s@.skip(k as int).drop_first() == s@.skip(k + 1));
        k = k + 1;
    }
    k
}

/// The pieces of `s` between the occurrences of `sep`.
pub fn split_fields(s: &[char], sep: char) -> (v: Vec<String>)
    ensures
        texts(v@) == fields(s@, sep),
{
    let mut out: Vec<String> = Vec::new();
    let mut from: usize = 0;
    assert(s@.skip(0) == s@);
    assert(texts(out@) + fields(s@, sep) == fields(s@, sep));
    loop
        invariant
            from <= s@.len(),
            texts(out@) + fields(s@.skip(from as int), sep) == fields(s@, sep),
        decreases s@.len() - from,
    {
        let k = find_char_from(s, sep, from);
        let piece = string_of(slice_subrange(s, from, k));
        let ghost rest = s@.skip(from as int);
        let ghost before = texts(out@);
        assert(rest.take(k - from) == s@.subrange(from as int, k as int));
        out.push(piece);
        assert(texts(out@) == before.push(piece@));
        if k >= s.len() {
            assert(rest.take(k - from) == rest);
            assert(before.push(piece@) == before + seq![rest]);
            return out;
        }
        assert(rest.skip(k - from + 1) == s@.skip(k + 1));
        assert(before.push(piece@) + fields(s@.skip(k + 1), sep) == before + (seq![piece@]
            + fields(s@.skip(k + 1), sep)));
        from = k + 1;
    }
}

/// The lines of a text.
pub fn split_lines(s: &[char]) -> (v: Vec<String>)
    ensures
        texts(v@) == lines(s@),
{
    let mut out: Vec<String> = Vec::new();
    let mut from: usize = 0;
    assert(s@.skip(0) == s@);
    assert(texts(out@) + lines(s@) == lines(s@));
    while from < s.len()
        invariant
            from <= s@.len(),
            texts(out@) + lines(s@.skip(from as int)) == lines(s@),
        decreases s@.len() - from,
    {
        let k = find_char_from(s, '\n', from);
        let ghost rest = s@.skip(from as int);
        let ghost before = texts(out@);
        assert(rest.take(k - from) == s@.subrange(from as int, k as int));
        if k >= s.len() {
            let piece = string_of(slice_subrange(s, from, k));
            out.push(piece);
            assert(texts(out@) == before.push(piece@));
            assert(rest.take(k - from) == rest);
            assert(before.push(piece@) == before + seq![rest]);
            return out;
        }
        let end: usize = if k > from && s[k - 1] == '\r' {
            k - 1
        } else {
            k
        };
        let piece = string_of(slice_subrange(s, from, end));
        assert(piece@ == strip_carriage_return(rest.take(k - from)));
        out.push(piece);
        assert(texts(out@) == before.push(piece@));
        assert(rest.skip(k - from + 1) == s@.skip(k + 1));
        assert(before.push(piece@) + lines(s@.skip(k + 1)) == before + (seq![piece@] + lines(
            s@.skip(k + 1),
        )));
        from = k + 1;
    }
    assert(s@.skip(from as int) == Seq::<char>::empty());
    assert(texts(out@) + Seq::<Seq<char>>::empty() == texts(out@));
    out
}

/// The words of a text.
pub fn split_words(s: &[char]) -> (v: Vec<String>)
    ensures
        texts(v@) == words(s@),
{
    let mut out: Vec<String> = Vec::new();
    let mut from: usize = 0;
    assert(s@.skip(0) == s@);
    assert(texts(out@) + words(s@) == words(s@));
    while from < s.len()
        invariant
            from <= s@.len(),
            texts(out@) + words(s@.skip(from as int)) == words(s@),
        decreases s@.len() - from,
    {
        let ghost rest = s@.skip(from as int);
        if is_white_space(s[from]) {
            assert(rest.drop_first() == s@.skip(from + 1));
            from = from + 1;
        } else {
            let k = find_white_space_from(s, from);
            assert(find_white_space(rest) == 1 + find_white_space(rest.drop_first()));
            let ghost before = texts(out@);
            assert(rest.take(k - from) == s@.subrange(from as int, k as int));
            let piece = string_of(slice_subrange(s, from, k));
            out.push(piece);
            assert(texts(out@) == before.push(piece@));
            assert(rest.skip(k - from) == s@.skip(k as int));
            if k >= s.len() {
                assert(rest.take(k - from) == rest);
                assert(s@.skip(k as int) == Seq::<char>::empty());
                assert(before.push(piece@) + words(s@.skip(k as int)) == before + seq![rest]);
            } else {
                assert(before.push(piece@) + words(s@.skip(k as int)) == before + (seq![piece@]
                    + words(s@.skip(k as int))));
            }
            from = k;
        }
    }
    assert(s@.skip(from as int) == Seq::<char>::empty());
    assert(texts(out@) + Seq::<Seq<char>>::empty() == texts(out@));
    out
}

/// The texts one after the other, with `sep` between neighbours.
pub fn join_texts(parts: &Vec<String>, sep: char) -> (s: String)
    ensures
        s@ == join(texts(parts@), sep),
{
    let mut out = String::new();
    let n: usize = parts.len();
    for i in 0..n
        invariant
            n == parts@.len(),
            out@ == join(texts(parts@).take(i as int), sep),
    {
        let ghost all = texts(parts@);
        if i > 0 {
            out.push(sep);
        }
        out.append(parts[i].as_str());
        assert(all.take(i + 1).drop_last() == all.take(i as int));
        assert(all[i as int] == parts@[i as int]@);
        if i == 0 {
            assert(Seq::<char>::empty() + all[0] == all[0]);
        }
    }
    assert(texts(parts@).take(n as int) == texts(parts@));
    out
}

/// A copy of the texts.
pub fn copy_texts(v: &Vec<String>) -> (r: Vec<String>)
    ensures
        texts(r@) == texts(v@),
{
    let mut out: Vec<String> = Vec::new();
    let n: usize = v.len();
    for i in 0..n
        invariant
            n == v@.len(),
            out@.len() == i,
            forall|j: int| 0 <= j < i ==> (#[trigger] out@[j])@ == v@[j]@,
    {
        out.push(v[i].clone());
    }
    assert(texts(out@) =~= texts(v@));
    out
}

/// Whether two lists hold the same texts in the same order.
pub fn same_texts(a: &Vec<String>, b: &Vec<String>) -> (r: bool)
    ensures
        r == (texts(a@) == texts(b@)),
{
    if a.len() != b.len() {
        assert(texts(a@).len() != texts(b@).len());
        return false;
    }
    let n: usize = a.len();
    for i in 0..n
        invariant
            n == a@.len(),
            n == b@.len(),
            forall|j: int| 0 <= j < i ==> (#[trigger] a@[j])@ == b@[j]@,
    {
        if !text::same_text(a[i].as_str(), b[i].as_str()) {
            assert(texts(a@)[i as int] != texts(b@)[i as int]);
            return false;
        }
    }
    assert(texts(a@) =~= texts(b@));
    true
}

/// The texts that are not empty, in order.
pub open spec fn nonempty(v: Seq<Seq<char>>) -> Seq<Seq<char>>
    decreases v.len(),
{
    if v.len() == 0 {
        seq![]
    } else if v.last().len() == 0 {
        nonempty(v.drop_last())
    } else {
        nonempty(v.drop_last()).push(v.last())
    }
}

/// The texts that are not empty, in order.
pub fn nonempty_texts(v: &Vec<String>) -> (r: Vec<String>)
    ensures
        texts(r@) == nonempty(texts(v@)),
{
    let mut out: Vec<String> = Vec::new();
    let n: usize = v.len();
    for i in 0..n
        invariant
            n == v@.len(),
            texts(out@) == nonempty(texts(v@).take(i as int)),
    {
        let ghost all = texts(v@);
        let ghost before = texts(out@);
        assert(all.take(i + 1).drop_last() == all.take(i as int));
        assert(all[i as int] == v@[i as int]@);
        if !v[i].as_str().is_empty() {
            out.push(v[i].clone());
            assert(texts(out@) == before.push(v@[i as int]@));
        }
    }
    assert(texts(v@).take(n as int) == texts(v@));
    out
}

/// A character is found where it stands first, or behind the text if it is not in it.
pub proof fn first_is_found(s: Seq<char>, c: char)
    ensures
        find_char(s, c) <= s.len(),
        find_char(s, c) < s.len() ==> s[find_char(s, c) as int] == c,
        forall|i: int| 0 <= i < find_char(s, c) ==> #[trigger] s[i] != c,
    decreases s.len(),
{
    if s.len() > 0 && s[0] != c {
        first_is_found(s.drop_first(), c);
        assert forall|i: int| 0 <= i < find_char(s, c) implies #[trigger] s[i] != c by {
            if i > 0 {
                assert(s.drop_first()[i - 1] == s[i]);
            }
        }
    }
}

/// White space is found where it stands first, or behind the text if there is none.
pub proof fn white_space_is_found(s: Seq<char>)
    ensures
        find_white_space(s) <= s.len(),
        find_white_space(s) < s.len() ==> text::white_space(s[find_white_space(s) as int]),
        forall|i: int| 0 <= i < find_white_space(s) ==> !text::white_space(#[trigger] s[i]),
    decreases s.len(),
{
    if s.len() > 0 && !text::white_space(s[0]) {
        white_space_is_found(s.drop_first());
        assert forall|i: int| 0 <= i < find_white_space(s) implies !text::white_space(
            #[trigger] s[i],
        ) by {
            if i > 0 {
                assert(s.drop_first()[i - 1] == s[i]);
            }
        }
    }
}

/// Cutting a text at a character loses nothing: the pieces with the character between
/// them are the text, and no piece holds it.
pub proof fn fields_make_up_the_text(s: Seq<char>, sep: char)
    ensures
        fields(s, sep).len() > 0,
        forall|i: int|
            0 <= i < fields(s, sep).len() ==> !(#[trigger] fields(s, sep)[i]).contains(sep),
        join(fields(s, sep), sep) == s,
    decreases s.len(),
{
    let k = find_char(s, sep) as int;
    first_is_found(s, sep);
    if k < s.len() {
        let head = s.take(k);
        let rest = s.skip(k + 1);
        let tail = fields(rest, sep);
        let all = fields(s, sep);
        fields_make_up_the_text(rest, sep);
        assert(all == seq![head] + tail);
        assert forall|i: int| 0 <= i < all.len() implies !(#[trigger] all[i]).contains(sep) by {
            if i > 0 {
                assert(all[i] == tail[i - 1]);
            } else if head.contains(sep) {
                let j = choose|j: int| 0 <= j < head.len() && head[j] == sep;
                assert(s[j] == sep);
            }
        }
        lemma_join_first(head, tail, sep);
        assert(head.push(sep) + rest =~= s);
    } else {
        if s.contains(sep) {
            let j = choose|j: int| 0 <= j < s.len() && s[j] == sep;
            assert(s[j] == sep);
        }
        assert(fields(s, sep)[0] == s);
    }
}

/// Joining texts that begin with the given one.
proof fn lemma_join_first(first: Seq<char>, rest: Seq<Seq<char>>, sep: char)
    requires
        rest.len() > 0,
    ensures
        join(seq![first] + rest, sep) == first.push(sep) + join(rest, sep),
    decreases rest.len(),
{
    let all = seq![first] + rest;
    assert(all.last() == rest.last());
    if rest.len() == 1 {
        assert(all.drop_last() =~= seq![first]);
        assert(join(seq![first], sep) == first);
        assert(join(all, sep) == first.push(sep) + rest[0]);
    } else {
        assert(all.drop_last() =~= seq![first] + rest.drop_last());
        assert(join(all, sep) == join(all.drop_last(), sep).push(sep) + rest.last());
        lemma_join_first(first, rest.drop_last(), sep);
        assert(first.push(sep) + join(rest.drop_last(), sep).push(sep) + rest.last() =~= first.push(
            sep,
        ) + (join(rest.drop_last(), sep).push(sep) + rest.last()));
        assert((first.push(sep) + join(rest.drop_last(), sep)).push(sep) =~= first.push(sep)
            + join(rest.drop_last(), sep).push(sep));
    }
}

/// Texts that are joined can be told apart again by the character between them, if none
/// of them holds it.
pub proof fn joined_texts_can_be_cut_again(parts: Seq<Seq<char>>, sep: char)
    requires
        parts.len() > 0,
        forall|i: int| 0 <= i < parts.len() ==> !(#[trigger] parts[i]).contains(sep),
    ensures
        fields(join(parts, sep), sep) == parts,
    decreases parts.len(),
{
    let first = parts[0];
    assert(!parts[0].contains(sep));
    if parts.len() == 1 {
        lemma_absent_is_behind(first, sep);
        assert(fields(first, sep) =~= parts);
    } else {
        let rest = parts.drop_first();
        assert forall|i: int| 0 <= i < rest.len() implies !(#[trigger] rest[i]).contains(sep) by {
            assert(rest[i] == parts[i + 1]);
        }
        joined_texts_can_be_cut_again(rest, sep);
        assert(seq![first] + rest =~= parts);
        lemma_join_first(first, rest, sep);
        let s = join(parts, sep);
        lemma_found_behind(first, join(rest, sep), sep);
        assert(s.take(first.len() as int) =~= first);
        assert(s.skip(first.len() + 1 as int) =~= join(rest, sep));
    }
}

proof fn lemma_absent_is_behind(s: Seq<char>, c: char)
    requires
        !s.contains(c),
    ensures
        find_char(s, c) == s.len(),
{
    first_is_found(s, c);
    if find_char(s, c) < s.len() {
        assert(s.contains(s[find_char(s, c) as int]));
    }
}

proof fn lemma_found_behind(a: Seq<char>, b: Seq<char>, c: char)
    requires
        !a.contains(c),
    ensures
        find_char(a.push(c) + b, c) == a.len(),
{
    let s = a.push(c) + b;
    let k = find_char(s, c) as int;
    first_is_found(s, c);
    assert(s[a.len() as int] == c);
    if k < a.len() {
        assert(a[k] == c);
        assert(a.contains(c));
    }
}

/// The words of a text are its stretches without white space, in their order: what white
/// space parts is apart, and what it does not part stays together.
pub proof fn words_are_parted_by_white_space(white: char, word: Seq<char>, rest: Seq<char>)
    requires
        text::white_space(white),
        word.len() > 0,
        forall|i: int| 0 <= i < word.len() ==> !text::white_space(#[trigger] word[i]),
        rest.len() > 0 ==> text::white_space(rest[0]),
    ensures
        words(seq![white] + rest) == words(rest),
        words(word + rest) == seq![word] + words(rest),
        words(word) == seq![word],
        words(Seq::<char>::empty()).len() == 0,
{
    assert((seq![white] + rest).drop_first() =~= rest);
    let all = word + rest;
    white_space_is_found(all);
    white_space_is_found(word);
    let k = find_white_space(all) as int;
    assert(find_white_space(word) == word.len()) by {
        if find_white_space(word) < word.len() {
            assert(text::white_space(word[find_white_space(word) as int]));
        }
    }
    assert(!text::white_space(word[0]));
    assert(all[0] == word[0]);
    if k < word.len() {
        assert(all[k] == word[k]);
        assert(false);
    }
    if rest.len() > 0 {
        if k > word.len() {
            assert(all[word.len() as int] == rest[0]);
            assert(false);
        }
        assert(all.take(k) =~= word);
        assert(all.skip(k) =~= rest);
    } else {
        assert(all =~= word);
        assert(words(rest) =~= Seq::<Seq<char>>::empty());
    }
    assert(words(word) == seq![word]);
    assert(seq![word] + Seq::<Seq<char>>::empty() =~= seq![word]);
}

/// The lines of a text end at its line feeds, a carriage return before one belongs to the
/// end of the line, and what stands behind the last one is a line if it is not empty.
pub proof fn lines_end_at_line_feeds(line: Seq<char>, rest: Seq<char>)
    requires
        !line.contains('\n'),
    ensures
        line.len() > 0 && line.last() == '\r' ==> lines(line.push('\n') + rest) == seq![
            line.drop_last(),
        ] + lines(rest),
        line.len() == 0 || line.last() != '\r' ==> lines(line.push('\n') + rest) == seq![line]
            + lines(rest),
        line.len() > 0 ==> lines(line) == seq![line],
        lines(Seq::<char>::empty()).len() == 0,
{
    let all = line.push('\n') + rest;
    lemma_absent_is_behind(line, '\n');
    lemma_found_behind(line, rest, '\n');
    assert(all.take(line.len() as int) =~= line);
    assert(all.skip(line.len() + 1 as int) =~= rest);
}

/// Leaving out empty texts leaves out those and keeps the others in their order.
pub proof fn empty_texts_are_left_out(a: Seq<Seq<char>>, b: Seq<Seq<char>>, t: Seq<char>)
    ensures
        nonempty(a + b) == nonempty(a) + nonempty(b),
        t.len() == 0 ==> nonempty(seq![t]).len() == 0,
        t.len() > 0 ==> nonempty(seq![t]) == seq![t],
    decreases b.len(),
{
    let none = Seq::<Seq<char>>::empty();
    assert(seq![t].drop_last() =~= none);
    assert(nonempty(none) =~= none);
    assert(none.push(t) =~= seq![t]);
    if b.len() == 0 {
        assert(a + b =~= a);
        assert(nonempty(b) =~= none);
        assert(nonempty(a) + none =~= nonempty(a));
    } else {
        empty_texts_are_left_out(a, b.drop_last(), t);
        assert((a + b).drop_last() =~= a + b.drop_last());
        assert((a + b).last() == b.last());
        assert(nonempty(a) + nonempty(b.drop_last()).push(b.last()) =~= (nonempty(a) + nonempty(
            b.drop_last(),
        )).push(b.last()));
    }
}

} // verus!
