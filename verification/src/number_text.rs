//! Integers as decimal text.

use vstd::prelude::*;

verus! {

/// The character of a decimal digit.
pub open spec fn digit(value: nat) -> char {
    (48 + value) as char
}

/// A natural number in decimal.
pub open spec fn decimal(value: nat) -> Seq<char>
    decreases value,
{
    if value < 10 {
        seq![digit(value)]
    } else {
        decimal(value / 10).push(digit(value % 10))
    }
}

/// An integer in decimal, with a sign where it is negative.
pub open spec fn signed_decimal(value: int) -> Seq<char> {
    if value < 0 {
        seq!['-'] + decimal((-value) as nat)
    } else {
        decimal(value as nat)
    }
}

/// Writes a wide number in decimal.
pub fn wide_decimal_chars(value: u128) -> (result: Vec<char>)
    ensures
        result@ == decimal(value as nat),
    decreases value,
{
    let last: char = (48 + (value % 10) as u8) as char;
    if value < 10 {
        let mut result: Vec<char> = Vec::new();
        result.push(last);
        assert(result@ =~= decimal(value as nat));
        result
    } else {
        let mut result: Vec<char> = wide_decimal_chars(value / 10);
        result.push(last);
        result
    }
}

/// Writes a number in decimal.
pub fn decimal_chars(value: u64) -> (result: Vec<char>)
    ensures
        result@ == decimal(value as nat),
{
    wide_decimal_chars(value as u128)
}

/// Writes a number in decimal.
pub fn decimal_text(value: u64) -> (result: String)
    ensures
        result@ == decimal(value as nat),
{
    let chars: Vec<char> = decimal_chars(value);
    crate::text::text_of(&chars)
}

/// Writes a signed number in decimal.
pub fn signed_decimal_text(value: i64) -> (result: String)
    ensures
        result@ == signed_decimal(value as int),
{
    if value >= 0 {
        return decimal_text(value as u64);
    }
    let size: u64 = (-(value as i128)) as u64;
    let mut chars: Vec<char> = Vec::new();
    chars.push('-');
    let digits: Vec<char> = decimal_chars(size);
    let mut i: usize = 0;
    while i < digits.len()
        invariant
            i <= digits@.len(),
            chars@ =~= seq!['-'] + digits@.subrange(0, i as int),
        decreases digits@.len() - i,
    {
        chars.push(digits[i]);
        i = i + 1;
    }
    assert(chars@ =~= seq!['-'] + digits@);
    crate::text::text_of(&chars)
}

/// A decimal digit.
pub open spec fn is_digit(c: char) -> bool {
    '0' <= c && c <= '9'
}

/// What a row of decimal digits says; nothing if another character is in it.
pub open spec fn digits_value(text: Seq<char>) -> Option<nat>
    decreases text.len(),
{
    if text.len() == 0 {
        Some(0)
    } else if !is_digit(text.last()) {
        None
    } else {
        match digits_value(text.drop_last()) {
            None => None,
            Some(front) => Some((front * 10 + (text.last() as nat - 48)) as nat),
        }
    }
}

/// What a text says as an unsigned number of at most `max`: digits, with or
/// without a plus sign before them.
pub open spec fn unsigned_value(text: Seq<char>, max: nat) -> Option<nat> {
    let digits = if text.len() > 0 && text[0] == '+' {
        text.subrange(1, text.len() as int)
    } else {
        text
    };
    if digits.len() == 0 {
        None
    } else {
        match digits_value(digits) {
            Some(value) if value <= max => Some(value),
            _ => None,
        }
    }
}

/// What a text says as a signed number of 64 bits: digits, with or without a
/// sign before them.
pub open spec fn signed_value(text: Seq<char>) -> Option<int> {
    if text.len() > 0 && text[0] == '-' {
        let digits = text.subrange(1, text.len() as int);
        if digits.len() == 0 {
            None
        } else {
            match digits_value(digits) {
                Some(value) if value <= 0x8000_0000_0000_0000 => Some(-(value as int)),
                _ => None,
            }
        }
    } else {
        match unsigned_value(text, 0x7fff_ffff_ffff_ffff) {
            Some(value) => Some(value as int),
            None => None,
        }
    }
}

proof fn lemma_digits_grow(text: Seq<char>, n: int)
    requires
        0 <= n <= text.len(),
    ensures
        digits_value(text.subrange(0, n)) is None ==> digits_value(text) is None,
        digits_value(text) is Some ==> digits_value(text.subrange(0, n)) is Some
            && digits_value(text.subrange(0, n))->0 <= digits_value(text)->0,
    decreases text.len() - n,
{
    if n < text.len() {
        lemma_digits_grow(text, n + 1);
        assert(text.subrange(0, n + 1).drop_last() =~= text.subrange(0, n));
    } else {
        assert(text.subrange(0, n) =~= text);
    }
}

/// The value of digits from `from` on, if it is at most `max`.
fn read_digits(text: &[char], from: usize, max: u64) -> (result: Option<u64>)
    requires
        from <= text@.len(),
    ensures
        ({
            let digits = text@.subrange(from as int, text@.len() as int);
            match digits_value(digits) {
                Some(value) if value <= max && digits.len() > 0 => result == Some(value as u64),
                _ => result is None,
            }
        }),
{
    let ghost digits = text@.subrange(from as int, text@.len() as int);
    if from == text.len() {
        return None;
    }
    let mut value: u64 = 0;
    let mut i: usize = from;
    while i < text.len()
        invariant
            from <= i <= text@.len(),
            digits == text@.subrange(from as int, text@.len() as int),
            digits_value(digits.subrange(0, i - from)) == Some(value as nat),
            value <= max,
        decreases text@.len() - i,
    {
        let c: char = text[i];
        let ghost next = digits.subrange(0, i + 1 - from);
        proof {
            assert(next.drop_last() =~= digits.subrange(0, i - from));
            assert(next.last() == c);
            lemma_digits_grow(digits, i + 1 - from);
        }
        if !('0' <= c && c <= '9') {
            return None;
        }
        let wide: u128 = value as u128 * 10 + (c as u32 - 48) as u128;
        if wide > max as u128 {
            return None;
        }
        value = wide as u64;
        i = i + 1;
    }
    assert(digits.subrange(0, i - from) =~= digits);
    Some(value)
}

/// Reads an unsigned number of at most `max`.
pub fn parse_unsigned(text: &[char], max: u64) -> (result: Option<u64>)
    ensures
        match unsigned_value(text@, max as nat) {
            Some(value) => result == Some(value as u64),
            None => result is None,
        },
{
    if text.len() > 0 && text[0] == '+' {
        read_digits(text, 1, max)
    } else {
        assert(text@.subrange(0, text@.len() as int) =~= text@);
        read_digits(text, 0, max)
    }
}

/// Reads a signed number of 64 bits.
pub fn parse_signed(text: &[char]) -> (result: Option<i64>)
    ensures
        match signed_value(text@) {
            Some(value) => result == Some(value as i64),
            None => result is None,
        },
{
    if text.len() > 0 && text[0] == '-' {
        match read_digits(text, 1, 0x8000_0000_0000_0000) {
            Some(value) => Some((-(value as i128)) as i64),
            None => None,
        }
    } else {
        match parse_unsigned(text, 0x7fff_ffff_ffff_ffff) {
            Some(value) => Some(value as i64),
            None => None,
        }
    }
}

pub proof fn lemma_decimal_digits(value: nat)
    ensures
        digits_value(decimal(value)) == Some(value),
        decimal(value).len() > 0,
        is_digit(decimal(value)[0]),
    decreases value,
{
    if value < 10 {
        assert(decimal(value).drop_last() =~= Seq::<char>::empty());
        assert(digits_value(Seq::<char>::empty()) == Some(0nat));
    } else {
        lemma_decimal_digits(value / 10);
        assert(decimal(value).drop_last() =~= decimal(value / 10));
    }
}

/// A number that was written in decimal is read back.
pub proof fn law_parse_decimal(value: nat, max: nat)
    requires
        value <= max,
    ensures
        unsigned_value(decimal(value), max) == Some(value),
{
    lemma_decimal_digits(value);
}

/// A signed number that was written in decimal is read back.
pub proof fn law_parse_signed(value: int)
    requires
        -0x8000_0000_0000_0000 <= value <= 0x7fff_ffff_ffff_ffff,
    ensures
        signed_value(signed_decimal(value)) == Some(value),
{
    if value < 0 {
        let size = (-value) as nat;
        lemma_decimal_digits(size);
        let text = signed_decimal(value);
        assert(text.subrange(1, text.len() as int) =~= decimal(size));
    } else {
        lemma_decimal_digits(value as nat);
    }
}

} // verus!
