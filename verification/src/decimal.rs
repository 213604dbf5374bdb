//! Unsigned integers in decimal notation, read and written.

use vstd::prelude::*;
use vstd::string::StringExecFns;

verus! {

/// The ten ASCII digits.
pub open spec fn is_digit(c: char) -> bool {
    '0' <= c <= '9'
}

/// The digit that stands for `d`, for `d` below ten.
pub open spec fn digit_char(d: nat) -> char {
    if d == 0 {
        '0'
    } else if d == 1 {
        '1'
    } else if d == 2 {
        '2'
    } else if d == 3 {
        '3'
    } else if d == 4 {
        '4'
    } else if d == 5 {
        '5'
    } else if d == 6 {
        '6'
    } else if d == 7 {
        '7'
    } else if d == 8 {
        '8'
    } else {
        '9'
    }
}

/// The number that the digit `c` stands for, and zero for any other
/// character.
pub open spec fn digit_value(c: char) -> nat {
    if c == '1' {
        1
    } else if c == '2' {
        2
    } else if c == '3' {
        3
    } else if c == '4' {
        4
    } else if c == '5' {
        5
    } else if c == '6' {
        6
    } else if c == '7' {
        7
    } else if c == '8' {
        8
    } else if c == '9' {
        9
    } else {
        0
    }
}

/// Tells whether `s` is made of digits only.
pub open spec fn all_digits(s: Seq<char>) -> bool {
    forall|i: int| 0 <= i < s.len() ==> is_digit(#[trigger] s[i])
}

/// The number that the digits `s` denote, most significant digit first.
pub open spec fn digits_value(s: Seq<char>) -> nat
    decreases s.len(),
{
    if s.len() == 0 {
        0
    } else {
        digits_value(s.drop_last()) * 10 + digit_value(s.last())
    }
}

/// `s` without the one plus sign that may stand before the digits.
pub open spec fn unsigned_part(s: Seq<char>) -> Seq<char> {
    if s.len() > 0 && s[0] == '+' {
        s.skip(1)
    } else {
        s
    }
}

/// The number that `s` denotes, where it denotes one that is at most `max`:
/// an optional plus sign, then one or more digits, leading zeros allowed.
pub open spec fn parse_decimal(s: Seq<char>, max: nat) -> Option<nat> {
    let digits = unsigned_part(s);
    if digits.len() > 0 && all_digits(digits) && digits_value(digits) <= max {
        Some(digits_value(digits))
    } else {
        None
    }
}

/// The decimal notation of `n`: no sign, no leading zeros, `0` for zero.
pub open spec fn decimal(n: nat) -> Seq<char>
    decreases n,
{
    if n < 10 {
        seq![digit_char(n)]
    } else {
        decimal(n / 10).push(digit_char(n % 10))
    }
}

/// More digits never denote less: the value of a sequence of characters is at
/// least the value of each of its prefixes.
pub proof fn lemma_digits_value_grows(s: Seq<char>, n: int)
    requires
        0 <= n <= s.len(),
    ensures
        digits_value(s.take(n)) <= digits_value(s),
    decreases s.len() - n,
{
    if n == s.len() {
        assert(s.take(n) == s);
    } else {
        lemma_digits_value_grows(s.drop_last(), n);
        assert(s.drop_last().take(n) == s.take(n));
    }
}

/// What `decimal` writes is made of digits, is not empty, and denotes the
/// number written.
pub proof fn lemma_decimal_digits(n: nat)
    ensures
        decimal(n).len() > 0,
        all_digits(decimal(n)),
        digits_value(decimal(n)) == n,
    decreases n,
{
    if n < 10 {
        assert(decimal(n).drop_last() == Seq::<char>::empty());
        assert(digits_value(decimal(n).drop_last()) == 0);
    } else {
        lemma_decimal_digits(n / 10);
        assert(decimal(n).drop_last() == decimal(n / 10));
    }
    assert(decimal(n).last() == digit_char(n % 10));
}

/// Reading back what was written gives the number written, whenever the
/// number is within the limit.
pub proof fn lemma_parse_decimal_of_decimal(n: nat, max: nat)
    requires
        n <= max,
    ensures
        parse_decimal(decimal(n), max) == Some(n),
{
    lemma_decimal_digits(n);
}

/// The number that the digit `c` stands for, or nothing where `c` is no digit.
pub fn digit_of(c: char) -> (d: Option<u8>)
    ensures
        d is Some == is_digit(c),
        d matches Some(v) ==> v == digit_value(c),
{
    match c {
        '0' => Some(0),
        '1' => Some(1),
        '2' => Some(2),
        '3' => Some(3),
        '4' => Some(4),
        '5' => Some(5),
        '6' => Some(6),
        '7' => Some(7),
        '8' => Some(8),
        '9' => Some(9),
        _ => None,
    }
}

/// Reads `token` as an unsigned decimal number that is at most `max`.
pub fn parse_bounded(token: &[char], max: u32) -> (value: Option<u32>)
    ensures
        value is Some == parse_decimal(token@, max as nat) is Some,
        value matches Some(v) ==> parse_decimal(token@, max as nat) == Some(v as nat),
{
    let start: usize = if token.len() > 0 && token[0] == '+' {
        1
    } else {
        0
    };
    let ghost digits = unsigned_part(token@);
    assert(digits == token@.skip(start as int));
    if start == token.len() {
        return None;
    }
    let mut acc: u64 = 0;
    let mut i: usize = start;
    while i < token.len()
        invariant
            start <= i <= token@.len(),
            digits == unsigned_part(token@),
            digits == token@.skip(start as int),
            all_digits(digits.take(i - start)),
            acc == digits_value(digits.take(i - start)),
            acc <= max,
        decreases token@.len() - i,
    {
        let ghost before = digits.take(i - start);
        let ghost upto = digits.take(i - start + 1);
        proof {
            assert(upto.drop_last() == before);
            assert(upto.last() == token@[i as int]);
            lemma_digits_value_grows(digits, i - start + 1);
        }
        match digit_of(token[i]) {
            None => {
                assert(!is_digit(digits[i - start]));
                return None;
            },
            Some(d) => {
                acc = acc * 10 + d as u64;
                if acc > max as u64 {
                    return None;
                }
            },
        }
        i += 1;
    }
    proof {
        assert(digits.take(i - start) == digits);
    }
    Some(acc as u32)
}

/// Reads `token` as an unsigned decimal number of 32 bits.
pub fn parse_u32(token: &[char]) -> (value: Option<u32>)
    ensures
        value is Some == parse_decimal(token@, u32::MAX as nat) is Some,
        value matches Some(v) ==> parse_decimal(token@, u32::MAX as nat) == Some(v as nat),
{
    parse_bounded(token, u32::MAX)
}

/// Reads `token` as an unsigned decimal number of 8 bits.
pub fn parse_u8(token: &[char]) -> (value: Option<u8>)
    ensures
        value is Some == parse_decimal(token@, u8::MAX as nat) is Some,
        value matches Some(v) ==> parse_decimal(token@, u8::MAX as nat) == Some(v as nat),
{
    match parse_bounded(token, 255) {
        Some(v) => Some(v as u8),
        None => None,
    }
}

/// The text of the digit that stands for `d`.
pub fn digit_text(d: u32) -> (text: &'static str)
    requires
        d < 10,
    ensures
        text@ == seq![digit_char(d as nat)],
{
    proof {
        reveal_strlit("0");
        reveal_strlit("1");
        reveal_strlit("2");
        reveal_strlit("3");
        reveal_strlit("4");
        reveal_strlit("5");
        reveal_strlit("6");
        reveal_strlit("7");
        reveal_strlit("8");
        reveal_strlit("9");
    }
    let text = match d {
        0 => "0",
        1 => "1",
        2 => "2",
        3 => "3",
        4 => "4",
        5 => "5",
        6 => "6",
        7 => "7",
        8 => "8",
        _ => "9",
    };
    assert(text@ =~= seq![digit_char(d as nat)]);
    text
}

/// Appends the decimal notation of `n` to `out`.
pub fn push_decimal(out: &mut String, n: u32)
    ensures
        final(out)@ == old(out)@ + decimal(n as nat),
    decreases n,
{
    if n >= 10 {
        push_decimal(out, n / 10);
    }
    out.append(digit_text(n % 10));
}

} // verus!
