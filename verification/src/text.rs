//! Decimal and hexadecimal digits as text.

use vstd::prelude::*;
use vstd::string::StringExecFns;

verus! {

/// The character of digit `d` (`0`-`9`, then `A`-`F`).
pub open spec fn digit_char(d: int) -> char {
    if d < 10 {
        (d + 48) as char
    } else {
        (d + 55) as char
    }
}

/// `n` written in decimal, without leading zeros.
pub open spec fn decimal_chars(n: nat) -> Seq<char>
    decreases n,
{
    if n < 10 {
        seq![digit_char(n as int)]
    } else {
        decimal_chars(n / 10) + seq![digit_char((n % 10) as int)]
    }
}

/// `b` as two upper-case hexadecimal digits.
pub open spec fn hex_byte_chars(b: u8) -> Seq<char> {
    seq![digit_char((b / 16) as int), digit_char((b % 16) as int)]
}

/// Digit `d` is the `d`-th character of `0123456789ABCDEF`.
pub proof fn digit_chars_are_upper_case_hex(d: int)
    requires
        0 <= d < 16,
    ensures
        digit_char(d) == "0123456789ABCDEF"@[d],
{
    reveal_strlit("0123456789ABCDEF");
}

/// `n` in decimal has no leading zero: its first character is `0` only for
/// `n == 0`, and then it is the single character `0`.
pub proof fn decimal_has_no_leading_zero(n: nat)
    ensures
        decimal_chars(n).len() >= 1,
        decimal_chars(n)[0] == '0' <==> n == 0,
        n == 0 ==> decimal_chars(n) == seq!['0'],
    decreases n,
{
    if n >= 10 {
        decimal_has_no_leading_zero(n / 10);
        assert(decimal_chars(n)[0] == decimal_chars(n / 10)[0]);
    }
}

/// The one-character text of digit `d`.
pub fn digit_str(d: u8) -> (s: &'static str)
    requires
        d < 16,
    ensures
        s@ == seq![digit_char(d as int)],
{
    if d == 0 {
        proof { reveal_strlit("0"); }
        "0"
    } else if d == 1 {
        proof { reveal_strlit("1"); }
        "1"
    } else if d == 2 {
        proof { reveal_strlit("2"); }
        "2"
    } else if d == 3 {
        proof { reveal_strlit("3"); }
        "3"
    } else if d == 4 {
        proof { reveal_strlit("4"); }
        "4"
    } else if d == 5 {
        proof { reveal_strlit("5"); }
        "5"
    } else if d == 6 {
        proof { reveal_strlit("6"); }
        "6"
    } else if d == 7 {
        proof { reveal_strlit("7"); }
        "7"
    } else if d == 8 {
        proof { reveal_strlit("8"); }
        "8"
    } else if d == 9 {
        proof { reveal_strlit("9"); }
        "9"
    } else if d == 10 {
        proof { reveal_strlit("A"); }
        "A"
    } else if d == 11 {
        proof { reveal_strlit("B"); }
        "B"
    } else if d == 12 {
        proof { reveal_strlit("C"); }
        "C"
    } else if d == 13 {
        proof { reveal_strlit("D"); }
        "D"
    } else if d == 14 {
        proof { reveal_strlit("E"); }
        "E"
    } else {
        proof { reveal_strlit("F"); }
        "F"
    }
}

/// Appends `n` in decimal to `s`.
pub fn push_decimal(s: &mut String, n: u32)
    ensures
        final(s)@ == old(s)@ + decimal_chars(n as nat),
    decreases n,
{
    if n >= 10 {
        push_decimal(s, n / 10);
    }
    s.append(digit_str((n % 10) as u8));
    assert(final(s)@ =~= old(s)@ + decimal_chars(n as nat));
}

} // verus!
