//! Decimal notation of `i32` values: reading and writing.

use vstd::prelude::*;
use vstd::string::StringExecFns;

verus! {

/// Whether `c` is one of the ASCII digits `0` to `9`.
pub open spec fn is_digit(c: char) -> bool {
    0x30 <= c as u32 <= 0x39
}

/// The value of the ASCII digit `c`.
pub open spec fn digit_value(c: char) -> int {
    c as u32 - 0x30
}

/// Whether `text` consists of ASCII digits only.
pub open spec fn all_digits(text: Seq<char>) -> bool {
    forall|i: int| 0 <= i < text.len() ==> is_digit(#[trigger] text[i])
}

/// The number that a sequence of digits denotes, most significant digit
/// first; 0 for the empty sequence.
pub open spec fn decimal_value(digits: Seq<char>) -> int
    decreases digits.len(),
{
    if digits.len() == 0 {
        0
    } else {
        10 * decimal_value(digits.drop_last()) + digit_value(digits.last())
    }
}

/// Whether `token` starts with a sign.
pub open spec fn has_sign(token: Seq<char>) -> bool {
    token.len() > 0 && (token[0] == '-' || token[0] == '+')
}

/// The digits of `token`: all of it but a leading sign.
pub open spec fn digits_of(token: Seq<char>) -> Seq<char> {
    if has_sign(token) {
        token.skip(1)
    } else {
        token
    }
}

/// The number that `token` denotes, whether or not it fits an `i32`.
pub open spec fn signed_value(token: Seq<char>) -> int {
    if has_sign(token) && token[0] == '-' {
        -decimal_value(digits_of(token))
    } else {
        decimal_value(digits_of(token))
    }
}

/// The `i32` that `token` denotes: an optional sign `+` or `-`, then one or
/// more ASCII digits, with a value in the range of `i32`. Anything else
/// denotes no number.
pub open spec fn parsed_i32(token: Seq<char>) -> Option<i32> {
    if digits_of(token).len() > 0 && all_digits(digits_of(token)) && i32::MIN <= signed_value(token)
        <= i32::MAX {
        Some(signed_value(token) as i32)
    } else {
        None
    }
}

/// Reads `token` as a decimal `i32`.
pub fn parse_i32(token: &[char]) -> (value: Option<i32>)
    ensures
        value == parsed_i32(token@),
{
    let n = token.len();
    if n == 0 {
        return None;
    }
    let negative = token[0] == '-';
    let start: usize = if token[0] == '-' || token[0] == '+' {
        1
    } else {
        0
    };
    let ghost digits = digits_of(token@);
    if start == n {
        return None;
    }
    // Once the digits read so far exceed every `i32` in magnitude, only
    // their being digits matters.
    let mut magnitude: i64 = 0;
    let mut too_large = false;
    let mut i: usize = start;
    while i < n
        invariant
            start <= i <= n,
            n == token@.len(),
            all_digits(token@.subrange(start as int, i as int)),
            !too_large ==> magnitude == decimal_value(token@.subrange(start as int, i as int)) && 0
                <= magnitude <= 0x8000_0000,
            too_large ==> decimal_value(token@.subrange(start as int, i as int)) > 0x8000_0000,
            digits == digits_of(token@),
            digits == token@.subrange(start as int, n as int),
        decreases n - i,
    {
        let c = token[i];
        let code = c as u32;
        if code < 0x30 || code > 0x39 {
            proof {
                assert(digits[i - start] == c);
            }
            return None;
        }
        proof {
            let longer = token@.subrange(start as int, i + 1);
            assert(longer.drop_last() =~= token@.subrange(start as int, i as int));
        }
        if !too_large {
            magnitude = magnitude * 10 + (code - 0x30) as i64;
            if magnitude > 0x8000_0000 {
                too_large = true;
            }
        }
        i += 1;
    }
    if too_large {
        return None;
    }
    let value: i64 = if negative {
        -magnitude
    } else {
        magnitude
    };
    if value < -0x8000_0000 || value > 0x7fff_ffff {
        None
    } else {
        Some(value as i32)
    }
}

/// The ASCII digit for a value from 0 to 9.
pub open spec fn digit_char(value: int) -> char {
    ((0x30 + value) as u8) as char
}

/// The decimal notation of `n`: no sign, no leading zeros, `0` for zero.
pub open spec fn rendered_nat(n: nat) -> Seq<char>
    decreases n,
{
    if n < 10 {
        seq![digit_char(n as int)]
    } else {
        rendered_nat(n / 10).push(digit_char((n % 10) as int))
    }
}

/// The decimal notation of `value`, with a leading `-` where it is negative.
pub open spec fn rendered_i32(value: i32) -> Seq<char> {
    if value < 0 {
        seq!['-'] + rendered_nat((-value) as nat)
    } else {
        rendered_nat(value as nat)
    }
}

/// The one-character text of a digit.
fn digit_text(digit: u8) -> (text: &'static str)
    requires
        digit < 10,
    ensures
        text@ == seq![digit_char(digit as int)],
{
    proof {
        reveal_strlit("0");
        reveal_strlit("1");
        reveal_strlit("2");
        reveal_strlit("3");
        reveal_strlit("4");
        reveal_strlit("5");
        reveal_strlit("6");
        reveal_strlit("7");
        reveal_strlit("8");
        reveal_strlit("9");
    }
    let text = if digit == 0 {
        "0"
    } else if digit == 1 {
        "1"
    } else if digit == 2 {
        "2"
    } else if digit == 3 {
        "3"
    } else if digit == 4 {
        "4"
    } else if digit == 5 {
        "5"
    } else if digit == 6 {
        "6"
    } else if digit == 7 {
        "7"
    } else if digit == 8 {
        "8"
    } else {
        "9"
    };
    text
}

/// Appends the decimal notation of `n` to `text`.
pub fn append_nat(n: u32, text: &mut String)
    ensures
        final(text)@ == old(text)@ + rendered_nat(n as nat),
    decreases n,
{
    if n >= 10 {
        append_nat(n / 10, text);
    }
    text.append(digit_text((n % 10) as u8));
}

/// Appends the decimal notation of `value` to `text`.
pub fn append_i32(value: i32, text: &mut String)
    ensures
        final(text)@ == old(text)@ + rendered_i32(value),
{
    if value < 0 {
        proof {
            reveal_strlit("-");
        }
        text.append("-");
        append_nat((-(value as i64)) as u32, text);
    } else {
        append_nat(value as u32, text);
    }
}

/// The decimal notation of a number consists of digits, is not empty, and
/// denotes that number.
pub proof fn lemma_rendered_nat_value(n: nat)
    ensures
        rendered_nat(n).len() > 0,
        all_digits(rendered_nat(n)),
        decimal_value(rendered_nat(n)) == n,
    decreases n,
{
    if n < 10 {
        let text = rendered_nat(n);
        assert(decimal_value(text.drop_last()) == 0);
    } else {
        lemma_rendered_nat_value(n / 10);
        let shorter = rendered_nat(n / 10);
        let text = shorter.push(digit_char((n % 10) as int));
        assert(text.drop_last() =~= shorter);
    }
}

/// What is written for a number reads back as that number.
pub proof fn lemma_rendered_i32_parses(value: i32)
    ensures
        parsed_i32(rendered_i32(value)) == Some(value),
{
    let text = rendered_i32(value);
    if value < 0 {
        let digits = rendered_nat((-value) as nat);
        lemma_rendered_nat_value((-value) as nat);
        assert(digits_of(text) =~= digits);
    } else {
        lemma_rendered_nat_value(value as nat);
    }
}

} // verus!
