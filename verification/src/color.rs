//! Colors.

use crate::number;
use crate::number::parse_unsigned;
use crate::text;
use crate::text::{chars_of, strip_prefixes_chars, trim_chars};
use vstd::prelude::*;

verus! {

/// A color by its red, green and blue parts.
#[derive(Debug, Clone, Copy, PartialEq, Eq, Structural)]
pub struct Rgb {
    pub r: u8,
    pub g: u8,
    pub b: u8,
}

/// The hex digits of a color text: without white space at the ends and without
/// the prefixes `0x`, `0X` and `#`.
pub open spec fn color_digits(s: Seq<char>) -> Seq<char> {
    text::strip_prefixes(
        text::strip_prefixes(text::strip_prefixes(text::trim(s), seq!['0', 'x']), seq!['0', 'X']),
        seq!['#'],
    )
}

/// The number of a color text; zero if it is none of 32 bits.
pub open spec fn color_number(s: Seq<char>) -> nat {
    match number::unsigned(color_digits(s), 16, u32::MAX as nat) {
        Some(n) => n,
        None => 0,
    }
}

/// The color of a number: its lowest 24 bits, red first.
pub open spec fn color_of(n: nat) -> Rgb {
    Rgb { r: (n / 65536 % 256) as u8, g: (n / 256 % 256) as u8, b: (n % 256) as u8 }
}

/// The color that a text stands for; black if it stands for none.
pub fn parse_color(s: &str) -> (r: Rgb)
    ensures
        r == color_of(color_number(s@)),
{
    let chars = chars_of(s);
    let lower: [char; 2] = ['0', 'x'];
    let upper: [char; 2] = ['0', 'X'];
    let hash: [char; 1] = ['#'];
    assert(lower@ == seq!['0', 'x']);
    assert(upper@ == seq!['0', 'X']);
    assert(hash@ == seq!['#']);
    let digits = strip_prefixes_chars(
        strip_prefixes_chars(strip_prefixes_chars(trim_chars(chars.as_slice()), &lower), &upper),
        &hash,
    );
    let n: u64 = match parse_unsigned(digits, 16, 0xffff_ffff) {
        Some(n) => n,
        None => 0,
    };
    Rgb { r: (n / 65536 % 256) as u8, g: (n / 256 % 256) as u8, b: (n % 256) as u8 }
}

/// Brightness of a color, in thousandths of its parts.
pub open spec fn luminance(c: Rgb) -> nat {
    (c.r * 299 + c.g * 587 + c.b * 114) as nat
}

/// The text color that stands out on a background: black on a bright one, white
/// on a dark one.
pub open spec fn contrast_spec(background: Rgb) -> Rgb {
    if luminance(background) > 128_000 {
        Rgb { r: 0, g: 0, b: 0 }
    } else {
        Rgb { r: 255, g: 255, b: 255 }
    }
}

/// The text color that stands out on a background.
pub fn contrast(background: Rgb) -> (r: Rgb)
    ensures
        r == contrast_spec(background),
{
    let lum: u32 = (background.r as u32) * 299 + (background.g as u32) * 587 + (background.b as u32)
        * 114;
    if lum > 128_000 {
        Rgb { r: 0, g: 0, b: 0 }
    } else {
        Rgb { r: 255, g: 255, b: 255 }
    }
}

/// The color of a number has its parts in it, red first and blue last, and what stands
/// before them does not count.
pub proof fn color_has_its_parts(r: u8, g: u8, b: u8, more: nat)
    ensures
        color_of((more * 16777216 + r * 65536 + g * 256 + b) as nat) == (Rgb { r, g, b }),
{
    let n = (more * 16777216 + r * 65536 + g * 256 + b) as nat;
    assert(n % 256 == b && n / 256 == more * 65536 + r * 256 + g);
    assert((more * 65536 + r * 256 + g) % 256 == g as int);
    assert(n / 65536 == more * 256 + r);
    assert((more * 256 + r) % 256 == r as int);
}

/// The hex digits of a color are read, with or without `#`, `0x` or `0X` before them and
/// white space around them.
pub proof fn hex_digits_make_a_color(digits: Seq<char>, white: char)
    requires
        1 <= digits.len() <= 6,
        number::all_digits(digits, 16),
        text::white_space(white),
    ensures
        color_number(digits) == number::digits_value(digits, 16),
        color_number(seq!['#'] + digits) == number::digits_value(digits, 16),
        color_number(seq!['0', 'x'] + digits) == number::digits_value(digits, 16),
        color_number(seq!['0', 'X'] + digits) == number::digits_value(digits, 16),
        color_number(seq![white] + digits) == number::digits_value(digits, 16),
        color_number(digits.push(white)) == number::digits_value(digits, 16),
{
    lemma_hex_fits(digits);
    lemma_bare_digits(digits);
    lemma_ends(seq!['#'] + digits);
    lemma_ends(seq!['0', 'x'] + digits);
    lemma_ends(seq!['0', 'X'] + digits);
    lemma_ends(digits);
    let hash = seq!['#'] + digits;
    let lower = seq!['0', 'x'] + digits;
    let upper = seq!['0', 'X'] + digits;
    lemma_other_prefix(hash, '0', 'x');
    lemma_other_prefix(hash, '0', 'X');
    lemma_other_prefix(upper, '0', 'x');
    assert(hash.take(1) =~= seq!['#']);
    assert(hash.skip(1) =~= digits);
    assert(lower.take(2) =~= seq!['0', 'x']);
    assert(lower.skip(2) =~= digits);
    assert(upper.take(2) =~= seq!['0', 'X']);
    assert(upper.skip(2) =~= digits);
    reveal_with_fuel(text::strip_prefixes, 2);
    let front = seq![white] + digits;
    assert(front.drop_first() =~= digits);
    assert(text::trim_start(front) == text::trim_start(digits));
    let back = digits.push(white);
    assert(back.drop_last() =~= digits);
    assert(text::trim_start(back) == back);
    assert(text::trim_end(back) == text::trim_end(digits));
}

proof fn lemma_hex_fits(digits: Seq<char>)
    requires
        digits.len() <= 6,
        number::all_digits(digits, 16),
    ensures
        number::digits_value(digits, 16) <= 0xff_ffff,
{
    lemma_hex_bound(digits, digits.len());
    reveal_with_fuel(power16, 7);
}

spec fn power16(n: nat) -> nat
    decreases n,
{
    if n == 0 {
        1
    } else {
        16 * power16((n - 1) as nat)
    }
}

proof fn lemma_hex_bound(digits: Seq<char>, n: nat)
    requires
        digits.len() == n,
        number::all_digits(digits, 16),
    ensures
        number::digits_value(digits, 16) < power16(n),
    decreases n,
{
    if n > 0 {
        let front = digits.drop_last();
        assert forall|i: int| 0 <= i < front.len() implies number::digit_value(
            #[trigger] front[i],
        ) < 16 by {
            assert(front[i] == digits[i]);
        }
        lemma_hex_bound(front, (n - 1) as nat);
        assert(number::digit_value(digits[n - 1]) < 16);
    }
}

/// Hex digits have no white space at their ends, nor have they behind something else that
/// is none.
proof fn lemma_ends(s: Seq<char>)
    requires
        s.len() > 0,
        !text::white_space(s[0]),
        !text::white_space(s.last()),
    ensures
        text::trim(s) == s,
{
}

proof fn lemma_other_prefix(s: Seq<char>, a: char, b: char)
    requires
        s.len() > 1 ==> s[0] != a || s[1] != b,
    ensures
        text::strip_prefixes(s, seq![a, b]) == s,
{
    if s.len() > 1 {
        assert(s.take(2)[0] == s[0] && s.take(2)[1] == s[1]);
        assert(seq![a, b][0] == a && seq![a, b][1] == b);
    }
}

/// Hex digits begin with none of the prefixes, and are read as they are.
proof fn lemma_bare_digits(digits: Seq<char>)
    requires
        digits.len() > 0,
        number::all_digits(digits, 16),
        number::digits_value(digits, 16) <= u32::MAX,
    ensures
        text::strip_prefixes(digits, seq!['0', 'x']) == digits,
        text::strip_prefixes(digits, seq!['0', 'X']) == digits,
        text::strip_prefixes(digits, seq!['#']) == digits,
        number::unsigned(digits, 16, u32::MAX as nat) == Some(number::digits_value(digits, 16)),
        !text::white_space(digits[0]),
        !text::white_space(digits.last()),
{
    assert(number::digit_value(digits[0]) < 16);
    assert(number::digit_value(digits[digits.len() - 1]) < 16);
    if digits.len() > 1 {
        assert(number::digit_value(digits[1]) < 16);
    }
    lemma_other_prefix(digits, '0', 'x');
    lemma_other_prefix(digits, '0', 'X');
    assert(digits.take(1)[0] == digits[0]);
    assert(seq!['#'][0] == '#');
}

/// A brighter background never asks for a brighter text, and the text is black or white.
pub proof fn bright_backgrounds_have_black_text(dark: Rgb, bright: Rgb)
    requires
        dark.r <= bright.r,
        dark.g <= bright.g,
        dark.b <= bright.b,
    ensures
        contrast_spec(dark).r == 0 ==> contrast_spec(bright).r == 0,
        contrast_spec(dark).r == contrast_spec(dark).g && contrast_spec(dark).g == contrast_spec(
            dark,
        ).b,
        contrast_spec(dark).r == 0 || contrast_spec(dark).r == 255,
        contrast_spec(dark).r == 0 <==> dark.r * 299 + dark.g * 587 + dark.b * 114 > 128_000,
{
}

} // verus!
