//! Byte positions in text: how a position in the UTF-8 form of a text relates
//! to a position in its characters.

use vstd::prelude::*;
use vstd::utf8::*;

verus! {

/// Byte position at which the character at index `i` begins.
pub open spec fn byte_offset(s: Seq<char>, i: int) -> int {
    encode_utf8(s.take(i)).len() as int
}

/// The text that stands between two byte positions of a text.
pub open spec fn byte_slice(s: Seq<char>, from: int, to: int) -> Seq<char> {
    decode_utf8(encode_utf8(s).subrange(from, to))
}

/// `at` is a byte position of `s` at which a character begins, or its end.
pub open spec fn on_boundary(s: Seq<char>, at: int) -> bool {
    0 <= at <= encode_utf8(s).len() && is_char_boundary(encode_utf8(s), at)
}

/// The bytes from `from` to `to` are whole characters of `s`.
pub open spec fn whole_chars(s: Seq<char>, from: int, to: int) -> bool {
    from <= to && on_boundary(s, from) && on_boundary(s, to)
}

/// The bytes of a text are the bytes of its parts.
pub proof fn lemma_encode_append(a: Seq<char>, b: Seq<char>)
    ensures
        encode_utf8(a + b) == encode_utf8(a) + encode_utf8(b),
    decreases a.len(),
{
    if a.len() == 0 {
        assert(a + b == b);
    } else {
        lemma_encode_append(a.drop_first(), b);
        assert((a + b).drop_first() == a.drop_first() + b);
        assert(encode_scalar(a[0] as u32) + (encode_utf8(a.drop_first()) + encode_utf8(b)) == (
        encode_scalar(a[0] as u32) + encode_utf8(a.drop_first())) + encode_utf8(b));
    }
}

/// The first byte of a character tells whether it is ASCII, and an ASCII
/// character is that one byte.
proof fn lemma_scalar_bytes(c: char)
    ensures
        1 <= encode_scalar(c as u32).len() <= 4,
        (c as u32) < 0x80 ==> encode_scalar(c as u32) == seq![c as u8] && (c as u8) < 0x80,
        (c as u32) >= 0x80 ==> encode_scalar(c as u32)[0] >= 0xc0,
{
    let u = c as u32;
    char_is_scalar(c);
    if u < 0x80 {
        assert(u as u8 == leading_byte_width_1(u)) by (bit_vector)
            requires
                u < 0x80,
        ;
    } else if has_width_2_encoding(u) {
        assert(leading_byte_width_2(u) >= 0xc0) by (bit_vector);
    } else if has_width_3_encoding(u) {
        assert(leading_byte_width_3(u) >= 0xc0) by (bit_vector);
    } else {
        assert(leading_byte_width_4(u) >= 0xc0) by (bit_vector);
    }
}

/// How the bytes of a text are made up around the character at index `i`.
pub proof fn lemma_char_bytes(s: Seq<char>, i: int)
    requires
        0 <= i < s.len(),
    ensures
        0 <= byte_offset(s, i) < byte_offset(s, i + 1) <= encode_utf8(s).len(),
        (s[i] as u32) < 0x80 ==> byte_offset(s, i + 1) == byte_offset(s, i) + 1 && encode_utf8(
            s,
        )[byte_offset(s, i)] == s[i] as u8 && (s[i] as u8) < 0x80,
        (s[i] as u32) >= 0x80 ==> encode_utf8(s)[byte_offset(s, i)] >= 0xc0,
{
    let head = s.take(i);
    let c = seq![s[i]];
    let tail = s.skip(i + 1);
    lemma_encode_append(head, c);
    lemma_encode_append(head + c, tail);
    assert(head + c == s.take(i + 1));
    assert(head + c + tail == s);
    assert(c.drop_first() == Seq::<char>::empty());
    assert(encode_utf8(c.drop_first()) == Seq::<u8>::empty());
    assert(encode_utf8(c) == encode_scalar(s[i] as u32) + Seq::<u8>::empty());
    assert(encode_utf8(c) == encode_scalar(s[i] as u32));
    lemma_scalar_bytes(s[i]);
}

/// Byte positions grow with character positions.
pub proof fn lemma_byte_offset_grows(s: Seq<char>, i: int, j: int)
    requires
        0 <= i <= j <= s.len(),
    ensures
        0 <= byte_offset(s, i) <= byte_offset(s, j) <= encode_utf8(s).len(),
        i < j ==> byte_offset(s, i) < byte_offset(s, j),
    decreases j - i,
{
    if i < j {
        lemma_char_bytes(s, j - 1);
        lemma_byte_offset_grows(s, i, j - 1);
    } else {
        lemma_encode_append(s.take(i), s.skip(i));
        assert(s.take(i) + s.skip(i) == s);
    }
}

/// The end of a text in bytes is the offset behind its last character.
pub proof fn lemma_byte_offset_end(s: Seq<char>)
    ensures
        byte_offset(s, 0) == 0,
        byte_offset(s, s.len() as int) == encode_utf8(s).len(),
{
    assert(s.take(0) == Seq::<char>::empty());
    assert(s.take(s.len() as int) == s);
}

/// Every character begins on a character boundary.
pub proof fn lemma_byte_offset_boundary(s: Seq<char>, i: int)
    requires
        0 <= i <= s.len(),
    ensures
        on_boundary(s, byte_offset(s, i)),
{
    encode_utf8_valid_utf8(s);
    lemma_byte_offset_grows(s, i, s.len() as int);
    if i == s.len() {
        lemma_byte_offset_end(s);
        is_char_boundary_start_end_of_seq(encode_utf8(s));
    } else {
        lemma_char_bytes(s, i);
        is_char_boundary_iff_not_is_continuation_byte(encode_utf8(s), byte_offset(s, i));
    }
}

/// Every character boundary is the beginning of a character, or the end.
pub proof fn lemma_boundary_index(s: Seq<char>, at: int) -> (i: int)
    requires
        on_boundary(s, at),
    ensures
        0 <= i <= s.len(),
        byte_offset(s, i) == at,
{
    let bytes = encode_utf8(s);
    encode_utf8_valid_utf8(s);
    valid_utf8_split(bytes, at);
    decode_utf8_split(bytes, at);
    encode_utf8_decode_utf8(s);
    let head = decode_utf8(bytes.subrange(0, at));
    let i = head.len() as int;
    assert(s.take(i) == head);
    decode_utf8_encode_utf8(bytes.subrange(0, at));
    i
}

/// The text between two characters, by bytes and by characters.
pub proof fn lemma_byte_slice_chars(s: Seq<char>, i: int, j: int)
    requires
        0 <= i <= j <= s.len(),
    ensures
        byte_slice(s, byte_offset(s, i), byte_offset(s, j)) == s.subrange(i, j),
        encode_utf8(s).subrange(byte_offset(s, i), byte_offset(s, j)) == encode_utf8(
            s.subrange(i, j),
        ),
{
    lemma_byte_offset_grows(s, i, j);
    lemma_encode_append(s.take(i), s.subrange(i, j));
    assert(s.take(i) + s.subrange(i, j) == s.take(j));
    lemma_encode_append(s.take(j), s.skip(j));
    assert(s.take(j) + s.skip(j) == s);
    assert(encode_utf8(s).subrange(byte_offset(s, i), byte_offset(s, j)) == encode_utf8(
        s.subrange(i, j),
    ));
    encode_utf8_decode_utf8(s.subrange(i, j));
}

/// A slice on character boundaries is a run of whole characters.
pub proof fn lemma_whole_chars(s: Seq<char>, from: int, to: int) -> (r: (int, int))
    requires
        whole_chars(s, from, to),
    ensures
        0 <= r.0 <= r.1 <= s.len(),
        byte_offset(s, r.0) == from,
        byte_offset(s, r.1) == to,
        byte_slice(s, from, to) == s.subrange(r.0, r.1),
        encode_utf8(byte_slice(s, from, to)) == encode_utf8(s).subrange(from, to),
{
    let i = lemma_boundary_index(s, from);
    let j = lemma_boundary_index(s, to);
    if j < i {
        lemma_byte_offset_grows(s, j, i);
    }
    lemma_byte_slice_chars(s, i, j);
    (i, j)
}

/// The text between two byte positions of a string.
pub fn slice_str(s: &str, from: usize, to: usize) -> (r: &str)
    requires
        whole_chars(s@, from as int, to as int),
    ensures
        r@ == byte_slice(s@, from as int, to as int),
{
    let ghost bytes = encode_utf8(s@);
    proof {
        encode_utf8_valid_utf8(s@);
        valid_utf8_split(bytes, from as int);
    }
    let (_, rest) = s.split_at(from);
    proof {
        encode_utf8_valid_utf8(rest@);
        if to == bytes.len() {
            is_char_boundary_start_end_of_seq(encode_utf8(rest@));
        } else {
            is_char_boundary_iff_not_is_continuation_byte(bytes, to as int);
            is_char_boundary_iff_not_is_continuation_byte(encode_utf8(rest@), to - from);
        }
    }
    let (mid, _) = rest.split_at(to - from);
    proof {
        assert(encode_utf8(mid@) == bytes.subrange(from as int, to as int));
        encode_utf8_decode_utf8(mid@);
    }
    mid
}

} // verus!
