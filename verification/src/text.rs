//! Decimal and hexadecimal rendering for diagnostics.

use vstd::prelude::*;
use vstd::string::*;

verus! {

/// The character of one digit, `0`..`9` then `a`..`f`.
pub open spec fn digit_char(digit: int) -> char {
    if digit == 0 {
        '0'
    } else if digit == 1 {
        '1'
    } else if digit == 2 {
        '2'
    } else if digit == 3 {
        '3'
    } else if digit == 4 {
        '4'
    } else if digit == 5 {
        '5'
    } else if digit == 6 {
        '6'
    } else if digit == 7 {
        '7'
    } else if digit == 8 {
        '8'
    } else if digit == 9 {
        '9'
    } else if digit == 10 {
        'a'
    } else if digit == 11 {
        'b'
    } else if digit == 12 {
        'c'
    } else if digit == 13 {
        'd'
    } else if digit == 14 {
        'e'
    } else {
        'f'
    }
}

/// The digits of `value` in the given base, most significant first, without
/// leading zeros.
pub open spec fn digits(value: nat, base: nat) -> Seq<char>
    recommends
        2 <= base <= 16,
    decreases value,
{
    if base < 2 || value < base {
        seq![digit_char(value as int)]
    } else {
        proof {
            assert(value / base < value) by (nonlinear_arith)
                requires
                    2 <= base <= value,
            ;
        }
        digits(value / base, base).push(digit_char((value % base) as int))
    }
}

/// Decimal rendering of an unsigned number.
pub open spec fn decimal_text(value: nat) -> Seq<char> {
    digits(value, 10)
}

/// Lower-case hexadecimal rendering with the `0x` prefix.
pub open spec fn hex_text(value: nat) -> Seq<char> {
    seq!['0', 'x'] + digits(value, 16)
}

/// Appends one digit.
fn push_digit(text: &mut String, digit: u64)
    requires
        digit < 16,
    ensures
        final(text)@ == old(text)@.push(digit_char(digit as int)),
{
    proof {
        reveal_strlit("0");
        reveal_strlit("1");
        reveal_strlit("2");
        reveal_strlit("3");
        reveal_strlit("4");
        reveal_strlit("5");
        reveal_strlit("6");
        reveal_strlit("7");
        reveal_strlit("8");
        reveal_strlit("9");
        reveal_strlit("a");
        reveal_strlit("b");
        reveal_strlit("c");
        reveal_strlit("d");
        reveal_strlit("e");
        reveal_strlit("f");
    }
    let literal: &str = if digit == 0 {
        "0"
    } else if digit == 1 {
        "1"
    } else if digit == 2 {
        "2"
    } else if digit == 3 {
        "3"
    } else if digit == 4 {
        "4"
    } else if digit == 5 {
        "5"
    } else if digit == 6 {
        "6"
    } else if digit == 7 {
        "7"
    } else if digit == 8 {
        "8"
    } else if digit == 9 {
        "9"
    } else if digit == 10 {
        "a"
    } else if digit == 11 {
        "b"
    } else if digit == 12 {
        "c"
    } else if digit == 13 {
        "d"
    } else if digit == 14 {
        "e"
    } else {
        "f"
    };
    text.append(literal);
    assert(text@ =~= old(text)@.push(digit_char(digit as int)));
}

/// Appends the digits of `value` in the given base.
fn push_digits(text: &mut String, value: u64, base: u64)
    requires
        2 <= base <= 16,
    ensures
        final(text)@ == old(text)@ + digits(value as nat, base as nat),
    decreases value,
{
    if value < base {
        push_digit(text, value);
        assert(text@ =~= old(text)@ + digits(value as nat, base as nat));
    } else {
        assert(value / base < value) by (nonlinear_arith)
            requires
                2 <= base <= value,
        ;
        assert(value % base < base) by (nonlinear_arith)
            requires
                2 <= base,
        ;
        push_digits(text, value / base, base);
        push_digit(text, value % base);
        assert(text@ =~= old(text)@ + digits(value as nat, base as nat));
    }
}

/// A message made of a literal, a number and a literal.
pub open spec fn numbered(before: &str, value: nat, after: &str) -> Seq<char> {
    before@ + decimal_text(value) + after@
}

/// Starts a message with a literal.
pub fn literal(text: &str) -> (message: String)
    ensures
        message@ == text@,
{
    String::from_str(text)
}

/// Appends a literal to a message.
pub fn push_literal(message: &mut String, text: &str)
    ensures
        final(message)@ == old(message)@ + text@,
{
    message.append(text);
}

/// Appends a number in decimal to a message.
pub fn push_decimal(message: &mut String, value: u64)
    ensures
        final(message)@ == old(message)@ + decimal_text(value as nat),
{
    push_digits(message, value, 10);
}

/// Appends the hexadecimal digits of a number to a message.
pub fn push_hex_digits(message: &mut String, value: u64)
    ensures
        final(message)@ == old(message)@ + digits(value as nat, 16),
{
    push_digits(message, value, 16);
}

/// Appends a number in hexadecimal, with its prefix, to a message.
pub fn push_hex(message: &mut String, value: u64)
    ensures
        final(message)@ == old(message)@ + hex_text(value as nat),
{
    proof {
        reveal_strlit("0x");
    }
    message.append("0x");
    push_digits(message, value, 16);
    assert(message@ =~= old(message)@ + hex_text(value as nat));
}

/// The message `before`, then `value` in decimal, then `after`.
pub fn numbered_text(before: &str, value: u64, after: &str) -> (message: String)
    ensures
        message@ == numbered(before, value as nat, after),
{
    let mut message = literal(before);
    push_decimal(&mut message, value);
    push_literal(&mut message, after);
    message
}

} // verus!
