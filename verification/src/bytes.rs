//! Lines in raw bytes, and the UTF-8 text that they hold.

use crate::lines;
use crate::lines::line_text;
use crate::split;
use crate::text;
use crate::text::chars_of;
use crate::utf8;
use vstd::prelude::*;
use vstd::slice::slice_subrange;
use vstd::utf8::*;

verus! {

/// The line feed.
pub const NEWLINE: u8 = 10;

/// Position of the first line feed, or the length of `s` if it has none.
pub open spec fn find_newline(s: Seq<u8>) -> nat
    decreases s.len(),
{
    if s.len() == 0 || s[0] == NEWLINE {
        0
    } else {
        1 + find_newline(s.drop_first())
    }
}

/// The lines of raw bytes, each with its line feed; the last one need not have
/// one.
pub open spec fn chunks(s: Seq<u8>) -> Seq<Seq<u8>>
    decreases s.len(),
{
    let k = find_newline(s) as int;
    if s.len() == 0 {
        seq![]
    } else if k >= s.len() {
        seq![s]
    } else {
        seq![s.take(k + 1)] + chunks(s.skip(k + 1))
    }
}

/// Length of the bytes up to and with the last line feed.
pub open spec fn ended_len(s: Seq<u8>) -> nat
    decreases s.len(),
{
    if s.len() == 0 || s.last() == NEWLINE {
        s.len()
    } else {
        ended_len(s.drop_last())
    }
}

/// The last line feed ends the bytes that `ended_len` counts.
pub proof fn lemma_ended_len(s: Seq<u8>)
    ensures
        ended_len(s) <= s.len(),
        ended_len(s) > 0 ==> s[ended_len(s) - 1] == NEWLINE,
        forall|i: int| ended_len(s) <= i < s.len() ==> s[i] != NEWLINE,
    decreases s.len(),
{
    if s.len() > 0 && s.last() != NEWLINE {
        let front = s.drop_last();
        lemma_ended_len(front);
        assert forall|i: int| ended_len(s) <= i < s.len() implies s[i] != NEWLINE by {
            if i < s.len() - 1 {
                assert(front[i] == s[i]);
            }
        }
    }
}

/// The bytes up to the last line feed, where a line ends at `n`.
pub proof fn lemma_ended_len_split(s: Seq<u8>, n: int)
    requires
        0 <= n <= s.len(),
        n == 0 || s[n - 1] == NEWLINE,
    ensures
        ended_len(s) == n + ended_len(s.skip(n)),
    decreases s.len(),
{
    if n == s.len() {
        assert(s.skip(n).len() == 0);
    } else if s.last() != NEWLINE {
        assert(s.skip(n).drop_last() == s.drop_last().skip(n));
        lemma_ended_len_split(s.drop_last(), n);
    }
}

/// The lines of bytes behind whole lines.
pub proof fn lemma_chunks_append(a: Seq<u8>, b: Seq<u8>)
    requires
        a.len() == 0 || a.last() == NEWLINE,
    ensures
        chunks(a + b) == chunks(a) + chunks(b),
    decreases a.len(),
{
    if a.len() == 0 {
        assert(a + b == b);
        assert(chunks(a) + chunks(b) == chunks(b));
    } else {
        let k = find_newline(a) as int;
        lemma_find_newline_append(a, b);
        let rest = a.skip(k + 1);
        assert((a + b).take(k + 1) == a.take(k + 1));
        assert((a + b).skip(k + 1) == rest + b);
        lemma_chunks_append(rest, b);
        assert(seq![a.take(k + 1)] + (chunks(rest) + chunks(b)) == (seq![a.take(k + 1)] + chunks(
            rest,
        )) + chunks(b));
    }
}

/// The first line feed of bytes that end in one.
proof fn lemma_find_newline_append(a: Seq<u8>, b: Seq<u8>)
    requires
        a.len() > 0,
        a.last() == NEWLINE,
    ensures
        find_newline(a) < a.len(),
        find_newline(a + b) == find_newline(a),
    decreases a.len(),
{
    if a[0] != NEWLINE {
        assert((a + b).drop_first() == a.drop_first() + b);
        lemma_find_newline_append(a.drop_first(), b);
    }
}

/// The text that `String::from_utf8_lossy` makes of bytes.
pub uninterp spec fn lossy(bytes: Seq<u8>) -> Seq<char>;

/// `String::from_utf8_lossy`: the text that the bytes hold as UTF-8, with the
/// replacement character in place of what is not UTF-8. Which bytes one
/// replacement character stands for is left to the name; valid UTF-8 is decoded
/// as it is.
#[verifier::external_body]
pub(crate) fn decode_lossy(bytes: &[u8]) -> (r: String)
    ensures
        r@ == lossy(bytes@),
        valid_utf8(bytes@) ==> r@ == decode_utf8(bytes@),
{
    String::from_utf8_lossy(bytes).into_owned()
}

/// Bytes that begin a character and break off before its end.
pub open spec fn cut_short(rest: Seq<u8>) -> bool {
    exists|c: char|
        0 < rest.len() < (#[trigger] encode_utf8(seq![c])).len() && encode_utf8(seq![c]).take(
            rest.len() as int,
        ) == rest
}

/// The first `n` bytes are the longest beginning of the bytes that is UTF-8.
pub open spec fn longest_valid(bytes: Seq<u8>, n: int) -> bool {
    &&& 0 <= n <= bytes.len()
    &&& valid_utf8(bytes.take(n))
    &&& forall|j: int| n < j <= bytes.len() ==> !valid_utf8(#[trigger] bytes.take(j))
}

/// `std::str::from_utf8`: nothing if the bytes are UTF-8; otherwise what its error
/// says, which is how long the longest beginning is that is UTF-8 (`valid_up_to`),
/// and whether what follows is a character that breaks off at the end of the
/// bytes (`error_len` is then `None`).
#[verifier::external_body]
fn utf8_error(bytes: &[u8]) -> (r: Option<(usize, bool)>)
    ensures
        match r {
            None => valid_utf8(bytes@),
            Some((n, cut)) => !valid_utf8(bytes@) && longest_valid(bytes@, n as int) && cut
                == cut_short(bytes@.skip(n as int)),
        },
{
    match std::str::from_utf8(bytes) {
        Ok(_) => None,
        Err(e) => Some((e.valid_up_to(), e.error_len().is_none())),
    }
}

/// The beginning of a file looks like UTF-8: it is UTF-8, or UTF-8 with the last
/// character broken off.
pub open spec fn like_utf8(bytes: Seq<u8>) -> bool {
    exists|n: int|
        #[trigger] longest_valid(bytes, n) && (n == bytes.len() || (n > 0 && cut_short(
            bytes.skip(n),
        )))
}

/// Whether the beginning of a file looks like UTF-8.
pub fn looks_like_utf8(bytes: &[u8]) -> (r: bool)
    ensures
        r == like_utf8(bytes@),
{
    let error = utf8_error(bytes);
    assert(bytes@.take(bytes@.len() as int) == bytes@);
    match error {
        None => {
            assert(longest_valid(bytes@, bytes@.len() as int));
            true
        },
        Some((n, cut)) => {
            assert forall|m: int| #[trigger] longest_valid(bytes@, m) implies m == n by {
                assert(valid_utf8(bytes@.take(m)));
                assert(valid_utf8(bytes@.take(n as int)));
            }
            assert(n != bytes@.len());
            assert(longest_valid(bytes@, n as int));
            cut && n > 0
        },
    }
}

/// Position of the first line feed at or after `from`, or the length of `s`.
pub fn find_newline_from(s: &[u8], from: usize) -> (k: usize)
    requires
        from <= s@.len(),
    ensures
        from <= k <= s@.len(),
        k == from + find_newline(s@.skip(from as int)),
{
    let mut k: usize = from;
    while k < s.len() && s[k] != NEWLINE
        invariant
            from <= k <= s@.len(),
            from + find_newline(s@.skip(from as int)) == k + find_newline(s@.skip(k as int)),
        decreases s@.len() - k,
    {
        assert(s@.skip(k as int).drop_first() == s@.skip(k + 1));
        k = k + 1;
    }
    k
}

/// The end of the first line at or after `from`: behind its line feed, or the end
/// of the bytes.
pub fn chunk_end(s: &[u8], from: usize) -> (end: usize)
    requires
        from < s@.len(),
    ensures
        from < end <= s@.len(),
        chunks(s@.skip(from as int)) == seq![s@.subrange(from as int, end as int)] + chunks(
            s@.skip(end as int),
        ),
{
    let k = find_newline_from(s, from);
    let ghost rest = s@.skip(from as int);
    if k >= s.len() {
        assert(rest == s@.subrange(from as int, s@.len() as int));
        assert(s@.skip(s@.len() as int).len() == 0);
        assert(seq![rest] + chunks(s@.skip(s@.len() as int)) == seq![rest]);
        s.len()
    } else {
        assert(rest.take(k - from + 1) == s@.subrange(from as int, k + 1));
        assert(rest.skip(k - from + 1) == s@.skip(k + 1));
        k + 1
    }
}

/// Length of the bytes up to and with the last line feed.
pub fn ended_length(s: &[u8]) -> (n: usize)
    ensures
        n == ended_len(s@),
        n <= s@.len(),
{
    let mut n: usize = s.len();
    assert(s@.take(n as int) == s@);
    while n > 0 && s[n - 1] != NEWLINE
        invariant
            n <= s@.len(),
            ended_len(s@.take(n as int)) == ended_len(s@),
        decreases n,
    {
        assert(s@.take(n as int).drop_last() == s@.take(n - 1));
        n = n - 1;
    }
    n
}

/// No byte of a character other than the line feed is a line feed.
proof fn lemma_scalar_has_no_newline(c: char)
    ensures
        c == '\n' ==> encode_scalar(c as u32) == seq![NEWLINE],
        c != '\n' ==> forall|i: int|
            0 <= i < encode_scalar(c as u32).len() ==> #[trigger] encode_scalar(c as u32)[i]
                != NEWLINE,
{
    let u = c as u32;
    char_is_scalar(c);
    if u < 0x80 {
        assert(u as u8 == leading_byte_width_1(u) && (u as u8 == 10 <==> u == 10)) by (bit_vector)
            requires
                u < 0x80,
        ;
    } else {
        assert(leading_byte_width_2(u) >= 0x80 && leading_byte_width_3(u) >= 0x80
            && leading_byte_width_4(u) >= 0x80 && last_continuation_byte(u) >= 0x80
            && second_last_continuation_byte(u) >= 0x80 && third_last_continuation_byte(u) >= 0x80)
            by (bit_vector);
    }
}

/// The first line feed of the bytes behind bytes that have none.
proof fn lemma_find_newline_skips(a: Seq<u8>, b: Seq<u8>)
    requires
        forall|i: int| 0 <= i < a.len() ==> a[i] != NEWLINE,
    ensures
        find_newline(a + b) == a.len() + find_newline(b),
    decreases a.len(),
{
    if a.len() == 0 {
        assert(a + b == b);
    } else {
        assert(a[0] != NEWLINE);
        assert forall|i: int| 0 <= i < a.drop_first().len() implies a.drop_first()[i] != NEWLINE by {
            assert(a[i + 1] != NEWLINE);
        }
        assert((a + b).drop_first() == a.drop_first() + b);
        lemma_find_newline_skips(a.drop_first(), b);
    }
}

/// The first line feed of a text and of its bytes.
proof fn lemma_newline_offset(s: Seq<char>)
    ensures
        split::find_char(s, '\n') <= s.len(),
        find_newline(encode_utf8(s)) == utf8::byte_offset(s, split::find_char(s, '\n') as int),
    decreases s.len(),
{
    if s.len() == 0 {
        assert(s.take(0) == s);
    } else {
        let rest = s.drop_first();
        let k = split::find_char(rest, '\n') as int;
        lemma_scalar_has_no_newline(s[0]);
        lemma_newline_offset(rest);
        if s[0] == '\n' {
            assert(s.take(0) == Seq::<char>::empty());
        } else {
            lemma_find_newline_skips(encode_scalar(s[0] as u32), encode_utf8(rest));
            assert(s.take(k + 1).drop_first() == rest.take(k));
        }
    }
}

/// The lines of UTF-8 bytes, each decoded by itself.
pub open spec fn utf8_lines(bytes: Seq<u8>) -> Seq<Seq<char>> {
    chunks(bytes).map_values(|c: Seq<u8>| text::trim_line_end(decode_utf8(c)))
}

/// Cutting UTF-8 bytes at line feeds cuts no character, and decoding line by line
/// gives the lines of the whole text.
pub proof fn lines_can_be_decoded_alone(bytes: Seq<u8>)
    requires
        valid_utf8(bytes),
    ensures
        forall|i: int| 0 <= i < chunks(bytes).len() ==> valid_utf8(#[trigger] chunks(bytes)[i]),
        utf8_lines(bytes) == lines::all_lines(decode_utf8(bytes)),
    decreases bytes.len(),
{
    let s = decode_utf8(bytes);
    decode_utf8_encode_utf8(bytes);
    let k = split::find_char(s, '\n') as int;
    lemma_newline_offset(s);
    lines::lemma_find_char_append(s, seq![], '\n');
    assert(s + Seq::<char>::empty() == s);
    if bytes.len() == 0 {
        assert(s.len() == 0);
        assert(utf8_lines(bytes) == lines::all_lines(s));
    } else if k >= s.len() {
        utf8::lemma_byte_offset_end(s);
        assert(s.len() > 0) by {
            if s.len() == 0 {
                assert(encode_utf8(s).len() == 0);
            }
        }
        assert(chunks(bytes) == seq![bytes]);
        assert(utf8_lines(bytes) == lines::all_lines(s));
    } else {
        utf8::lemma_char_bytes(s, k);
        let at = utf8::byte_offset(s, k);
        let head = bytes.take(at + 1);
        let rest = bytes.skip(at + 1);
        utf8::lemma_byte_slice_chars(s, 0, k + 1);
        utf8::lemma_byte_slice_chars(s, k + 1, s.len() as int);
        utf8::lemma_byte_offset_end(s);
        assert(head == bytes.subrange(0, at + 1));
        assert(rest == bytes.subrange(at + 1, bytes.len() as int));
        assert(s.subrange(k + 1, s.len() as int) == s.skip(k + 1));
        assert(s.subrange(0, k + 1) == s.take(k + 1));
        encode_utf8_valid_utf8(s.take(k + 1));
        encode_utf8_decode_utf8(s.take(k + 1));
        encode_utf8_valid_utf8(s.skip(k + 1));
        encode_utf8_decode_utf8(s.skip(k + 1));
        lines_can_be_decoded_alone(rest);
        assert(s.take(k + 1).drop_last() == s.take(k));
        let first = text::trim_line_end(s.take(k));
        assert(text::trim_line_end(decode_utf8(head)) == first);
        assert(chunks(bytes) == seq![head] + chunks(rest));
        assert forall|i: int| 0 <= i < chunks(bytes).len() implies valid_utf8(
            #[trigger] chunks(bytes)[i],
        ) by {
            if i > 0 {
                assert(chunks(bytes)[i] == chunks(rest)[i - 1]);
            }
        }
        assert(utf8_lines(bytes) == seq![first] + utf8_lines(rest));
        let tail = s.skip(k + 1);
        assert(lines::ended_lines(s) == seq![first] + lines::ended_lines(tail));
        assert(lines::unended(s) == lines::unended(tail));
        if lines::unended(s).len() > 0 {
            let last = text::trim_line_end(lines::unended(s));
            assert(seq![first] + lines::ended_lines(tail).push(last) == (seq![first]
                + lines::ended_lines(tail)).push(last));
        }
    }
}

/// The text of one line of a stream that should be UTF-8.
pub fn lossy_line(bytes: &[u8]) -> (r: String)
    ensures
        r@ == text::trim_line_end(lossy(bytes@)),
        valid_utf8(bytes@) ==> r@ == text::trim_line_end(decode_utf8(bytes@)),
{
    let decoded = decode_lossy(bytes);
    line_text(chars_of(decoded.as_str()).as_slice())
}

/// The lines of a stream that should be UTF-8.
pub open spec fn lossy_lines(bytes: Seq<u8>) -> Seq<Seq<char>> {
    chunks(bytes).map_values(|c: Seq<u8>| text::trim_line_end(lossy(c)))
}

/// The lines of a stream that should be UTF-8. Every line is kept: what is not
/// UTF-8 in it is replaced, and neither it nor a later line is dropped.
pub fn stream_lossy_lines(data: &[u8]) -> (r: Vec<String>)
    ensures
        split::texts(r@) == lossy_lines(data@),
        forall|i: int|
            0 <= i < r@.len() && valid_utf8(#[trigger] chunks(data@)[i]) ==> split::texts(r@)[i]
                == text::trim_line_end(decode_utf8(chunks(data@)[i])),
        valid_utf8(data@) ==> split::texts(r@) == lines::all_lines(decode_utf8(data@)),
{
    let mut out: Vec<String> = Vec::new();
    let mut from: usize = 0;
    assert(data@.skip(0) == data@);
    assert(split::texts(out@) + lossy_lines(data@) == lossy_lines(data@));
    assert(split::texts(out@) + utf8_lines(data@) == utf8_lines(data@));
    proof {
        if valid_utf8(data@) {
            lines_can_be_decoded_alone(data@);
        }
        assert(Seq::<Seq<u8>>::empty() + chunks(data@) == chunks(data@));
    }
    let ghost mut done: Seq<Seq<u8>> = seq![];
    while from < data.len()
        invariant
            from <= data@.len(),
            done + chunks(data@.skip(from as int)) == chunks(data@),
            done.len() == out@.len(),
            forall|i: int|
                0 <= i < out@.len() && valid_utf8(#[trigger] chunks(data@)[i]) ==> split::texts(
                    out@,
                )[i] == text::trim_line_end(decode_utf8(chunks(data@)[i])),
            valid_utf8(data@) ==> forall|i: int|
                0 <= i < chunks(data@).len() ==> valid_utf8(#[trigger] chunks(data@)[i]),
            valid_utf8(data@) ==> split::texts(out@) + utf8_lines(data@.skip(from as int))
                == utf8_lines(data@),
            split::texts(out@) + lossy_lines(data@.skip(from as int)) == lossy_lines(data@),
        decreases data@.len() - from,
    {
        let end = chunk_end(data, from);
        let line = lossy_line(slice_subrange(data, from, end));
        let ghost before = split::texts(out@);
        proof {
            let piece = data@.subrange(from as int, end as int);
            let rest = chunks(data@.skip(end as int));
            assert(done + (seq![piece] + rest) == done.push(piece) + rest);
            assert(chunks(data@)[done.len() as int] == piece);
            done = done.push(piece);
        }
        out.push(line);
        assert(split::texts(out@) == before.push(line@));
        assert(valid_utf8(data@) ==> before + utf8_lines(data@.skip(from as int)) == before.push(
            line@,
        ) + utf8_lines(data@.skip(end as int)));
        assert(before + lossy_lines(data@.skip(from as int)) == before.push(line@) + lossy_lines(
            data@.skip(end as int),
        ));
        from = end;
    }
    assert(data@.skip(from as int).len() == 0);
    assert(lossy_lines(data@.skip(from as int)).len() == 0);
    assert(split::texts(out@) + lossy_lines(data@.skip(from as int)) == split::texts(out@));
    assert(utf8_lines(data@.skip(from as int)).len() == 0);
    assert(split::texts(out@) + utf8_lines(data@.skip(from as int)) == split::texts(out@));
    out
}

/// Some pieces of bytes in a row.
pub open spec fn in_a_row(pieces: Seq<Seq<u8>>) -> Seq<u8>
    decreases pieces.len(),
{
    if pieces.len() == 0 {
        seq![]
    } else {
        pieces[0] + in_a_row(pieces.drop_first())
    }
}

/// Cutting bytes into lines loses none of them: the lines in a row are the bytes. Each
/// line ends in a line feed and has no other, but the last one may have none.
pub proof fn chunks_make_up_the_bytes(s: Seq<u8>)
    ensures
        in_a_row(chunks(s)) == s,
        forall|i: int| 0 <= i < chunks(s).len() ==> (#[trigger] chunks(s)[i]).len() > 0,
        forall|i: int, j: int|
            0 <= i < chunks(s).len() && 0 <= j < chunks(s)[i].len() - 1 ==> #[trigger] chunks(
                s,
            )[i][j] != 10,
        forall|i: int| 0 <= i < chunks(s).len() - 1 ==> (#[trigger] chunks(s)[i]).last() == 10,
    decreases s.len(),
{
    let k = find_newline(s) as int;
    lemma_newline_is_first(s);
    let all = chunks(s);
    if s.len() == 0 {
    } else if k >= s.len() {
        assert(all.drop_first() =~= Seq::<Seq<u8>>::empty());
        assert(in_a_row(all.drop_first()) =~= Seq::<u8>::empty());
        assert(s + Seq::<u8>::empty() =~= s);
    } else {
        let head = s.take(k + 1);
        let rest = s.skip(k + 1);
        chunks_make_up_the_bytes(rest);
        assert(all.drop_first() =~= chunks(rest));
        assert(all[0] == head);
        assert(head + rest =~= s);
        assert forall|i: int, j: int| 0 <= i < all.len() && 0 <= j < all[i].len()
            - 1 implies #[trigger] all[i][j] != 10 by {
            if i == 0 {
                assert(head[j] == s[j]);
            } else {
                assert(all[i] == chunks(rest)[i - 1]);
                assert(chunks(rest)[i - 1][j] != 10);
            }
        }
        assert forall|i: int| 0 <= i < all.len() - 1 implies (#[trigger] all[i]).last() == 10 by {
            if i > 0 {
                assert(all[i] == chunks(rest)[i - 1]);
            }
        }
        assert forall|i: int| 0 <= i < all.len() implies (#[trigger] all[i]).len() > 0 by {
            if i > 0 {
                assert(all[i] == chunks(rest)[i - 1]);
            }
        }
    }
}

proof fn lemma_newline_is_first(s: Seq<u8>)
    ensures
        find_newline(s) <= s.len(),
        find_newline(s) < s.len() ==> s[find_newline(s) as int] == NEWLINE,
        forall|i: int| 0 <= i < find_newline(s) ==> #[trigger] s[i] != NEWLINE,
    decreases s.len(),
{
    if s.len() > 0 && s[0] != NEWLINE {
        lemma_newline_is_first(s.drop_first());
        assert forall|i: int| 0 <= i < find_newline(s) implies #[trigger] s[i] != NEWLINE by {
            if i > 0 {
                assert(s.drop_first()[i - 1] == s[i]);
            }
        }
    }
}

/// A streamed line is the text of its bytes up to the line breaks at its end: nothing
/// else of it is lost, whatever the bytes.
pub proof fn streamed_lines_are_whole(data: Seq<u8>, i: int)
    requires
        0 <= i < chunks(data).len(),
    ensures
        lossy_lines(data).len() == chunks(data).len(),
        ({
            let said = lossy(chunks(data)[i]);
            let line = lossy_lines(data)[i];
            &&& line.len() <= said.len()
            &&& said.take(line.len() as int) == line
            &&& forall|j: int|
                line.len() <= j < said.len() ==> #[trigger] said[j] == '\n' || said[j] == '\r'
        }),
{
    text::only_line_breaks_are_taken_off(lossy(chunks(data)[i]));
}

/// UTF-8 looks like UTF-8, also where its last character is broken off behind others.
/// Bytes that hold something else behind what is UTF-8 do not.
pub proof fn utf8_is_recognised(bytes: Seq<u8>, n: int)
    requires
        longest_valid(bytes, n),
    ensures
        valid_utf8(bytes) ==> like_utf8(bytes),
        n < bytes.len() && cut_short(bytes.skip(n)) && n > 0 ==> like_utf8(bytes),
        n < bytes.len() && !cut_short(bytes.skip(n)) ==> !like_utf8(bytes),
        n == 0 && bytes.len() > 0 ==> !like_utf8(bytes),
{
    assert(bytes.take(bytes.len() as int) =~= bytes);
    if valid_utf8(bytes) {
        assert(longest_valid(bytes, bytes.len() as int));
    }
    assert forall|m: int| #[trigger] longest_valid(bytes, m) implies m == n by {
        assert(valid_utf8(bytes.take(m)));
        assert(valid_utf8(bytes.take(n)));
    }
}

} // verus!
