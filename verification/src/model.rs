//! The mathematical model of the summing parser: what counts as a digit,
//! how a token denotes a number, how an input splits into tokens, and what
//! the sum of an input is.  The executable parser is proved to return
//! exactly [`sum_spec`] of its input.

use vstd::prelude::*;

verus! {

/// Why a token failed to parse as an unsigned 64-bit integer: it holds a
/// character that is not a decimal digit, or it denotes a value above
/// `u64::MAX`.
#[derive(Debug, Clone, Copy, PartialEq, Eq, Structural)]
pub enum ParseIntErrorKind {
    InvalidDigit,
    PosOverflow,
}

/// The three ways a sum can fail: a token that is no number, a running sum
/// that would exceed `u64::MAX`, and a `//` delimiter header without a
/// terminating newline.
#[derive(Debug, Clone, Copy, PartialEq, Eq, Structural)]
pub enum Error {
    ParseInt(ParseIntErrorKind),
    Overflow,
    UnexpectedEndOfString,
}

/// `c` is a decimal digit.
pub open spec fn is_digit(c: char) -> bool {
    '0' <= c && c <= '9'
}

/// The numeric value of a digit character.
pub open spec fn digit_val(c: char) -> int
    recommends
        is_digit(c),
{
    c as int - '0' as int
}

/// Every character of `t` is a decimal digit.
pub open spec fn all_digits(t: Seq<char>) -> bool {
    forall|i: int| 0 <= i < t.len() ==> is_digit(t[i])
}

/// The number denoted by a digit string, most significant digit first.
pub open spec fn digits_value(t: Seq<char>) -> int
    recommends
        all_digits(t),
    decreases t.len(),
{
    if t.len() == 0 {
        0
    } else {
        digits_value(t.drop_last()) * 10 + digit_val(t.last())
    }
}

/// How one token parses as an unsigned 64-bit integer: a non-empty string
/// of decimal digits denotes its value when that value fits in `u64`; any
/// other character fails as an invalid digit, and a value above `u64::MAX`
/// fails as overflow of the integer type itself.
pub open spec fn parse_u64(t: Seq<char>) -> Result<u64, ParseIntErrorKind> {
    if t.len() == 0 || !all_digits(t) {
        Err(ParseIntErrorKind::InvalidDigit)
    } else if digits_value(t) > u64::MAX {
        Err(ParseIntErrorKind::PosOverflow)
    } else {
        Ok(digits_value(t) as u64)
    }
}

/// The index of the first newline in `s`, or `None` when `s` has none.
pub open spec fn find_newline(s: Seq<char>) -> Option<int>
    decreases s.len(),
{
    if s.len() == 0 {
        None
    } else if s[0] == '\n' {
        Some(0)
    } else {
        match find_newline(s.skip(1)) {
            None => None,
            Some(j) => Some(j + 1),
        }
    }
}

/// The non-empty delimiter `d` stands at the start of `s`.
pub open spec fn delim_at_start(s: Seq<char>, d: Seq<char>) -> bool {
    0 < d.len() <= s.len() && s.take(d.len() as int) == d
}

/// The tokens of `s` under two separators at once: the delimiter `d`,
/// matched literally, and the newline.  The scan is greedy and left to
/// right, separator occurrences do not overlap, and splitting keeps empty
/// tokens (a fold drops them later).  An empty `d` matches nowhere, so the
/// newline is then the only separator.
pub open spec fn split_tokens(s: Seq<char>, d: Seq<char>) -> Seq<Seq<char>>
    decreases s.len(),
{
    if s.len() == 0 {
        seq![Seq::<char>::empty()]
    } else if s[0] == '\n' {
        seq![Seq::<char>::empty()] + split_tokens(s.skip(1), d)
    } else if delim_at_start(s, d) {
        seq![Seq::<char>::empty()] + split_tokens(s.skip(d.len() as int), d)
    } else {
        let rest = split_tokens(s.skip(1), d);
        seq![seq![s[0]] + rest[0]] + rest.skip(1)
    }
}

/// The left fold of the tokens into a running sum that starts at `acc`:
/// empty tokens are dropped, every other token must parse as a `u64`, and
/// each addition is checked, so the first failure ends the fold.
pub open spec fn fold_tokens(toks: Seq<Seq<char>>, acc: u64) -> Result<u64, Error>
    decreases toks.len(),
{
    if toks.len() == 0 {
        Ok(acc)
    } else if toks[0].len() == 0 {
        fold_tokens(toks.skip(1), acc)
    } else {
        match parse_u64(toks[0]) {
            Err(k) => Err(Error::ParseInt(k)),
            Ok(n) => if acc + n > u64::MAX {
                Err(Error::Overflow)
            } else {
                fold_tokens(toks.skip(1), (acc + n) as u64)
            },
        }
    }
}

/// The sum of the input `s`.  An empty input sums to zero.  An input that
/// begins with `//` declares as delimiter everything up to the first
/// newline after the marker, and the rest of the input, after that
/// newline, is tokenized; without such a newline the input is refused.
/// Any other input is tokenized whole under the comma.  The tokens are
/// then folded with [`fold_tokens`] from zero.
pub open spec fn sum_spec(s: Seq<char>) -> Result<u64, Error> {
    if s.len() == 0 {
        Ok(0u64)
    } else if s.len() >= 2 && s[0] == '/' && s[1] == '/' {
        let tail = s.skip(2);
        match find_newline(tail) {
            None => Err(Error::UnexpectedEndOfString),
            Some(j) => fold_tokens(split_tokens(tail.skip(j + 1), tail.take(j)), 0u64),
        }
    } else {
        fold_tokens(split_tokens(s, seq![',']), 0u64)
    }
}

} // verus!
