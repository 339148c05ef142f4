//! Putting texts together.

use vstd::prelude::*;

use crate::points::{decimal, decimal_text};

verus! {

/// The number `n` in decimal digits, with a minus sign before it where it
/// is negative.
pub open spec fn signed_decimal(n: int) -> Seq<char> {
    if n < 0 {
        "-"@ + decimal((-n) as nat)
    } else {
        decimal(n as nat)
    }
}

/// Writes `n` in decimal digits.
pub fn signed_text(n: i64) -> (text: String)
    ensures
        text@ == signed_decimal(n as int),
{
    if n < 0 {
        let magnitude = (-(n as i128)) as u64;
        let mut text = "-".to_owned();
        let digits = decimal_text(magnitude);
        text.append(digits.as_str());
        text
    } else {
        decimal_text(n as u64)
    }
}

/// Two texts in a row.
pub fn join2(a: &str, b: &str) -> (text: String)
    ensures
        text@ == a@ + b@,
{
    let mut text = a.to_owned();
    text.append(b);
    text
}

/// Three texts in a row.
pub fn join3(a: &str, b: &str, c: &str) -> (text: String)
    ensures
        text@ == a@ + b@ + c@,
{
    let mut text = a.to_owned();
    text.append(b);
    text.append(c);
    text
}

/// Four texts in a row.
pub fn join4(a: &str, b: &str, c: &str, d: &str) -> (text: String)
    ensures
        text@ == a@ + b@ + c@ + d@,
{
    let mut text = a.to_owned();
    text.append(b);
    text.append(c);
    text.append(d);
    text
}

/// Five texts in a row.
pub fn join5(a: &str, b: &str, c: &str, d: &str, e: &str) -> (text: String)
    ensures
        text@ == a@ + b@ + c@ + d@ + e@,
{
    let mut text = a.to_owned();
    text.append(b);
    text.append(c);
    text.append(d);
    text.append(e);
    text
}

/// The texts of `lines`.
pub open spec fn texts(lines: Seq<String>) -> Seq<Seq<char>> {
    lines.map_values(|line: String| line@)
}

/// The lines from `from` up to `to`, each but the first after a line
/// break.
pub open spec fn lines_text(lines: Seq<Seq<char>>, from: int, to: int) -> Seq<char>
    decreases to - from,
{
    if to <= from {
        Seq::empty()
    } else if to == from + 1 {
        lines[from]
    } else {
        lines_text(lines, from, to - 1) + "\n"@ + lines[to - 1]
    }
}

/// Puts the lines from `from` up to `to` together, one per line.
pub fn join_lines(lines: &Vec<String>, from: usize, to: usize) -> (text: String)
    requires
        from <= to <= lines@.len(),
    ensures
        text@ == lines_text(texts(lines@), from as int, to as int),
{
    let mut text = String::new();
    let mut i: usize = from;
    while i < to
        invariant
            from <= i <= to <= lines@.len(),
            text@ == lines_text(texts(lines@), from as int, i as int),
        decreases to - i,
    {
        let ghost before = text@;
        if i > from {
            text.append("\n");
        }
        text.append(lines[i].as_str());
        proof {
            assert(texts(lines@)[i as int] == lines@[i as int]@);
            if i == from {
                assert(before =~= Seq::<char>::empty());
                assert(text@ =~= lines@[i as int]@);
            }
        }
        i += 1;
    }
    text
}

/// Whether `c` is a decimal digit.
pub open spec fn is_digit(c: char) -> bool {
    '0' <= c <= '9'
}

/// The digit that `c` stands for.
pub open spec fn digit_value(c: char) -> int {
    c as int - '0' as int
}

/// The number that the first `n` characters of `digits` stand for, read as
/// decimal digits.
pub open spec fn digits_value(digits: Seq<char>, n: int) -> int
    decreases n,
{
    if n <= 0 {
        0
    } else {
        digits_value(digits, n - 1) * 10 + digit_value(digits[n - 1])
    }
}

/// Whether `digits` holds decimal digits only, and one at least.
pub open spec fn all_digits(digits: Seq<char>) -> bool {
    digits.len() > 0 && forall|i: int| 0 <= i < digits.len() ==> is_digit(#[trigger] digits[i])
}

/// The number that `text` stands for: decimal digits, after a sign or
/// without one, that stay within what 64 bits can hold with a sign.
pub open spec fn parsed_number(text: Seq<char>) -> Option<i64> {
    let negative = text.len() > 0 && text[0] == '-';
    let signed = text.len() > 0 && (text[0] == '-' || text[0] == '+');
    let digits = if signed {
        text.subrange(1, text.len() as int)
    } else {
        text
    };
    let value = if negative {
        -digits_value(digits, digits.len() as int)
    } else {
        digits_value(digits, digits.len() as int)
    };
    if all_digits(digits) && i64::MIN <= value <= i64::MAX {
        Some(value as i64)
    } else {
        None
    }
}

/// The value of digits is never negative and grows with every digit read.
pub proof fn lemma_digits_value_grows(digits: Seq<char>, n: int, m: int)
    requires
        0 <= n <= m <= digits.len(),
        forall|i: int| 0 <= i < digits.len() ==> is_digit(#[trigger] digits[i]),
    ensures
        0 <= digits_value(digits, n) <= digits_value(digits, m),
    decreases m,
{
    if m > 0 {
        assert(is_digit(digits[m - 1]));
        if n < m {
            lemma_digits_value_grows(digits, n, m - 1);
        } else {
            lemma_digits_value_grows(digits, n - 1, m - 1);
        }
    }
}

/// Reads a number in decimal digits, with or without a sign before it.
pub fn parse_i64(text: &str) -> (number: Option<i64>)
    ensures
        number == parsed_number(text@),
{
    let len = text.unicode_len();
    if len == 0 {
        return None;
    }
    let first = text.get_char(0);
    let negative = first == '-';
    let start: usize = if first == '-' || first == '+' {
        1
    } else {
        0
    };
    let ghost digits = text@.subrange(start as int, len as int);
    if start == len {
        return None;
    }
    let limit: i128 = 0x8000_0000_0000_0000;
    let mut value: i128 = 0;
    let mut i: usize = start;
    while i < len
        invariant
            start <= i <= len,
            len == text@.len(),
            start < len,
            negative == (text@[0] == '-'),
            start == if text@[0] == '-' || text@[0] == '+' {
                1int
            } else {
                0int
            },
            limit == 0x8000_0000_0000_0000,
            digits == text@.subrange(start as int, len as int),
            forall|j: int| 0 <= j < i - start ==> is_digit(#[trigger] digits[j]),
            value == digits_value(digits, i - start),
            0 <= value <= limit,
        decreases len - i,
    {
        let c = text.get_char(i);
        proof {
            assert(digits[i - start] == c);
        }
        if !(c >= '0' && c <= '9') {
            proof {
                assert(!is_digit(digits[i - start]));
                if start == 0 {
                    assert(digits =~= text@);
                }
            }
            return None;
        }
        let digit = (c as u32 - '0' as u32) as i128;
        value = value * 10 + digit;
        proof {
            assert(digit == digit_value(c));
            assert(value == digits_value(digits, i + 1 - start));
        }
        if value > limit {
            proof {
                if start == 0 {
                    assert(digits =~= text@);
                }
                if all_digits(digits) {
                    lemma_digits_value_grows(digits, i + 1 - start, digits.len() as int);
                }
            }
            return None;
        }
        i += 1;
    }
    proof {
        assert(all_digits(digits));
        if start == 0 {
            assert(digits =~= text@);
        }
    }
    if negative {
        Some((-value) as i64)
    } else if value == limit {
        None
    } else {
        Some(value as i64)
    }
}

} // verus!
