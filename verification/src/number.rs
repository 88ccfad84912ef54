//! Decimal numbers as text, and numbers read from text.

use vstd::prelude::*;

verus! {

/// The character of a decimal digit.
pub open spec fn digit_char(d: nat) -> char {
    (d + 48) as char
}

/// The decimal notation of a number, without leading zeros.
pub open spec fn decimal(n: nat) -> Seq<char>
    decreases n,
{
    if n < 10 {
        seq![digit_char(n)]
    } else {
        decimal(n / 10).push(digit_char(n % 10))
    }
}

/// The value of an ASCII digit or letter as a digit of a base up to 36.
pub open spec fn digit_value(c: char) -> nat {
    if '0' <= c <= '9' {
        (c as nat - 48) as nat
    } else if 'a' <= c <= 'z' {
        (c as nat - 87) as nat
    } else if 'A' <= c <= 'Z' {
        (c as nat - 55) as nat
    } else {
        36
    }
}

/// Every character is a digit of base `radix`.
pub open spec fn all_digits(s: Seq<char>, radix: nat) -> bool {
    forall|i: int| 0 <= i < s.len() ==> digit_value(#[trigger] s[i]) < radix
}

/// The number that the digits write in base `radix`.
pub open spec fn digits_value(s: Seq<char>, radix: nat) -> nat
    decreases s.len(),
{
    if s.len() == 0 {
        0
    } else {
        digits_value(s.drop_last(), radix) * radix + digit_value(s.last())
    }
}

/// The digits of a number: the text after an optional plus sign.
pub open spec fn unsigned_digits(s: Seq<char>) -> Seq<char> {
    if s.len() > 0 && s[0] == '+' {
        s.drop_first()
    } else {
        s
    }
}

/// The number that a text writes in base `radix`, if it is one and at most `max`.
pub open spec fn unsigned(s: Seq<char>, radix: nat, max: nat) -> Option<nat> {
    let d = unsigned_digits(s);
    if d.len() > 0 && all_digits(d, radix) && digits_value(d, radix) <= max {
        Some(digits_value(d, radix))
    } else {
        None
    }
}

/// The value of an ASCII digit or letter as a digit of a base up to 36.
fn value_of_digit(c: char) -> (r: u64)
    ensures
        r == digit_value(c),
        r <= 36,
{
    if '0' <= c && c <= '9' {
        (c as u64) - 48
    } else if 'a' <= c && c <= 'z' {
        (c as u64) - 87
    } else if 'A' <= c && c <= 'Z' {
        (c as u64) - 55
    } else {
        36
    }
}

/// More digits never make a smaller number.
proof fn lemma_digits_value_grows(s: Seq<char>, k: int, radix: nat)
    requires
        0 <= k <= s.len(),
        radix >= 1,
    ensures
        digits_value(s.take(k), radix) <= digits_value(s, radix),
    decreases s.len(),
{
    if k == s.len() {
        assert(s.take(k) == s);
    } else {
        lemma_digits_value_grows(s.drop_last(), k, radix);
        assert(s.drop_last().take(k) == s.take(k));
        let v = digits_value(s.drop_last(), radix);
        assert(v <= v * radix) by (nonlinear_arith)
            requires
                radix >= 1,
                v >= 0,
        ;
    }
}

/// Reads a number in base `radix`, as the integer types of the standard
/// library do: an optional plus sign and at least one digit.
pub fn parse_unsigned(s: &[char], radix: u64, max: u64) -> (r: Option<u64>)
    requires
        2 <= radix <= 36,
    ensures
        match r {
            Some(n) => unsigned(s@, radix as nat, max as nat) == Some(n as nat),
            None => unsigned(s@, radix as nat, max as nat) is None,
        },
{
    let start: usize = if s.len() > 0 && s[0] == '+' {
        1
    } else {
        0
    };
    let ghost d = unsigned_digits(s@);
    assert(d == s@.skip(start as int));
    if s.len() == start {
        return None;
    }
    let mut value: u64 = 0;
    let mut i: usize = start;
    while i < s.len()
        invariant
            start <= i <= s@.len(),
            d == s@.skip(start as int),
            d == unsigned_digits(s@),
            d.len() > 0,
            2 <= radix <= 36,
            value == digits_value(d.take(i - start), radix as nat),
            value <= max,
            forall|j: int| 0 <= j < i - start ==> digit_value(#[trigger] d[j]) < radix,
        decreases s@.len() - i,
    {
        let digit = value_of_digit(s[i]);
        let ghost k = i - start;
        assert(d[k] == s@[i as int]);
        if digit >= radix {
            assert(!all_digits(d, radix as nat));
            return None;
        }
        assert(d.take(k + 1).drop_last() == d.take(k));
        assert(digits_value(d.take(k + 1), radix as nat) == value * radix + digit);
        assert(0 <= value * radix <= 0xffff_ffff_ffff_ffff * 36) by (nonlinear_arith)
            requires
                value <= 0xffff_ffff_ffff_ffff,
                radix <= 36,
        ;
        let wide: u128 = (value as u128) * (radix as u128) + (digit as u128);
        if wide > max as u128 {
            proof {
                lemma_digits_value_grows(d, k + 1, radix as nat);
            }
            return None;
        }
        value = wide as u64;
        i = i + 1;
    }
    assert(d.take(d.len() as int) == d);
    Some(value)
}

/// The decimal notation of a number.
pub fn decimal_text(n: u64) -> (s: String)
    ensures
        s@ == decimal(n as nat),
    decreases n,
{
    if n < 10 {
        let mut s = String::new();
        s.push((48u8 + (n as u8)) as char);
        assert(s@ == seq![digit_char(n as nat)]);
        s
    } else {
        let mut s = decimal_text(n / 10);
        s.push((48u8 + ((n % 10) as u8)) as char);
        s
    }
}

/// The decimal notation of a number is made of digits and is read as that number, and it
/// begins with a zero for zero only.
pub proof fn decimal_and_back(n: nat)
    ensures
        decimal(n).len() > 0,
        all_digits(decimal(n), 10),
        forall|i: int| 0 <= i < decimal(n).len() ==> '0' <= #[trigger] decimal(n)[i] <= '9',
        digits_value(decimal(n), 10) == n,
        n > 0 ==> decimal(n)[0] != '0',
        unsigned(decimal(n), 10, n) == Some(n),
    decreases n,
{
    let s = decimal(n);
    if n < 10 {
        assert(s.drop_last() =~= Seq::<char>::empty());
        assert(digits_value(s.drop_last(), 10) == 0);
    } else {
        let front = decimal(n / 10);
        decimal_and_back(n / 10);
        assert(s.drop_last() =~= front);
        assert(s[0] == front[0]);
        assert forall|i: int| 0 <= i < s.len() implies '0' <= #[trigger] s[i] <= '9' by {
            if i < front.len() {
                assert(s[i] == front[i]);
            }
        }
    }
    assert forall|i: int| 0 <= i < s.len() implies digit_value(#[trigger] s[i]) < 10 by {
        assert('0' <= s[i] <= '9');
    }
    assert('0' <= s[0] <= '9');
    assert(unsigned_digits(s) == s);
}

/// A digit behind others adds itself to as many times the base: the digits are those of
/// the decimal system, and letters of either case go on from ten.
pub proof fn digits_add_up(s: Seq<char>, c: char, radix: nat)
    ensures
        digits_value(s.push(c), radix) == digits_value(s, radix) * radix + digit_value(c),
        '0' <= c <= '9' ==> digit_value(c) == c as int - '0' as int,
        'a' <= c <= 'f' ==> digit_value(c) == 10 + (c as int - 'a' as int),
        'A' <= c <= 'F' ==> digit_value(c) == 10 + (c as int - 'A' as int),
        !('0' <= c <= '9') && !('a' <= c <= 'f') && !('A' <= c <= 'F') ==> digit_value(c) >= 16,
{
    assert(s.push(c).drop_last() =~= s);
}

/// A text is read as a number exactly if it is one or more digits, perhaps behind a plus
/// sign, whose value is not too great, and then as that value.
pub proof fn numbers_are_read(digits: Seq<char>, max: nat)
    requires
        digits.len() > 0,
        forall|i: int| 0 <= i < digits.len() ==> '0' <= #[trigger] digits[i] <= '9',
    ensures
        digits_value(digits, 10) <= max ==> unsigned(digits, 10, max) == Some(
            digits_value(digits, 10),
        ) && unsigned(seq!['+'] + digits, 10, max) == Some(digits_value(digits, 10)),
        digits_value(digits, 10) > max ==> unsigned(digits, 10, max) is None && unsigned(
            seq!['+'] + digits,
            10,
            max,
        ) is None,
        unsigned(Seq::<char>::empty(), 10, max) is None,
{
    assert((seq!['+'] + digits).drop_first() =~= digits);
    assert('0' <= digits[0] <= '9');
    assert forall|i: int| 0 <= i < digits.len() implies digit_value(#[trigger] digits[i]) < 10 by {
        assert('0' <= digits[i] <= '9');
    }
}

/// A text with anything but digits in it, apart from a plus sign at its beginning, is no
/// number, and neither is a plus sign alone.
pub proof fn other_texts_are_no_numbers(s: Seq<char>, i: int, max: nat)
    requires
        0 <= i < s.len(),
        !('0' <= s[i] <= '9'),
    ensures
        i > 0 || s[i] != '+' || s.len() == 1 ==> unsigned(s, 10, max) is None,
{
    let d = unsigned_digits(s);
    if s[0] == '+' {
        if i > 0 {
            assert(d[i - 1] == s[i]);
            assert(digit_value(d[i - 1]) >= 10);
        }
    } else {
        assert(digit_value(d[i]) >= 10);
    }
}

} // verus!
