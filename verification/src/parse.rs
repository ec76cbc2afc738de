//! One line of input: a key, a separator, and a decimal with one digit
//! behind the point.
//!
//! A value is read as a whole number of tenths: ten times the whole part,
//! plus the digit behind the point. The digit is added to the whole part as it
//! stands, also where that part carries a minus sign: `-1.5` is read as
//! `-1 + 0.5`.

use vstd::prelude::*;
use crate::scan::{find_byte, run_len};
use crate::stats::in_range;

verus! {

/// The byte between key and value.
pub const SEPARATOR: u8 = 59;

/// The decimal point.
pub const POINT: u8 = 46;

/// The minus sign.
pub const MINUS: u8 = 45;

/// The digit zero.
pub const ZERO: u8 = 48;

/// The digit nine.
pub const NINE: u8 = 57;

pub open spec fn is_digit(b: u8) -> bool {
    48 <= b <= 57
}

pub open spec fn all_digits(s: Seq<u8>) -> bool {
    forall|i: int| 0 <= i < s.len() ==> is_digit(#[trigger] s[i])
}

/// The number that the decimal digits `s` write.
pub open spec fn digits_value(s: Seq<u8>) -> nat
    decreases s.len(),
{
    if s.len() == 0 {
        0
    } else {
        10 * digits_value(s.drop_last()) + (s.last() - 48) as nat
    }
}

/// `s` starts with a minus sign.
pub open spec fn is_negative(s: Seq<u8>) -> bool {
    s.len() > 0 && s[0] == MINUS
}

/// The digits of `s`: all of it but a leading minus sign.
pub open spec fn magnitude_text(s: Seq<u8>) -> Seq<u8> {
    if is_negative(s) {
        s.skip(1)
    } else {
        s
    }
}

/// `s` is an optional minus sign followed by one decimal digit or more.
pub open spec fn is_integer_text(s: Seq<u8>) -> bool {
    magnitude_text(s).len() > 0 && all_digits(magnitude_text(s))
}

/// The whole number that `s` writes.
pub open spec fn integer_value(s: Seq<u8>) -> int {
    if is_negative(s) {
        -(digits_value(magnitude_text(s)) as int)
    } else {
        digits_value(magnitude_text(s)) as int
    }
}

/// The part of a decimal text before its point.
pub open spec fn whole_text(t: Seq<u8>) -> Seq<u8> {
    t.take(t.len() - 2)
}

/// `t` is a whole number that fits 32 bits, a point, and one digit.
pub open spec fn is_decimal(t: Seq<u8>) -> bool {
    &&& t.len() >= 3
    &&& t[t.len() - 2] == POINT
    &&& is_digit(t[t.len() - 1])
    &&& is_integer_text(whole_text(t))
    &&& -0x8000_0000 <= integer_value(whole_text(t)) <= 0x7fff_ffff
}

/// The value of the decimal text `t`, in tenths.
pub open spec fn decimal_tenths(t: Seq<u8>) -> int {
    10 * integer_value(whole_text(t)) + (t[t.len() - 1] - 48)
}

/// Length of the key of `line`: what stands before its first separator, or
/// all of it where it has none.
pub open spec fn key_len(line: Seq<u8>) -> nat {
    run_len(line, SEPARATOR)
}

/// The key of `line`.
pub open spec fn key_of(line: Seq<u8>) -> Seq<u8> {
    line.take(key_len(line) as int)
}

/// `line` has a separator, and so a value field.
pub open spec fn has_value(line: Seq<u8>) -> bool {
    key_len(line) < line.len()
}

/// What follows the first separator of `line`.
pub open spec fn value_text(line: Seq<u8>) -> Seq<u8> {
    line.skip(key_len(line) as int + 1)
}

/// The value of `line`, in tenths.
pub open spec fn value_of(line: Seq<u8>) -> int {
    decimal_tenths(value_text(line))
}

/// `line` is a key, one separator and a decimal.
pub open spec fn is_record(line: Seq<u8>) -> bool {
    has_value(line) && is_decimal(value_text(line))
}

/// Why a line is no record.
#[derive(Clone, Copy, Debug, PartialEq, Eq, Structural)]
pub enum ParseError {
    /// Nothing stands before the first separator, or the line is empty.
    MissingKey,
    /// The line has no separator.
    MissingValue,
    /// What follows the separator is no decimal with one digit behind the
    /// point and a whole part that fits 32 bits.
    InvalidValue,
}

impl ParseError {
    /// The failure in words.
    pub fn message(&self) -> (r: &'static str)
        ensures
            r@ == match *self {
                ParseError::MissingKey => "missing key field"@,
                ParseError::MissingValue => "missing value field"@,
                ParseError::InvalidValue => "value is not a valid decimal"@,
            },
    {
        match self {
            ParseError::MissingKey => "missing key field",
            ParseError::MissingValue => "missing value field",
            ParseError::InvalidValue => "value is not a valid decimal",
        }
    }
}

/// What `parse_line` returns for `line`: its key and value, or the first thing
/// that is wrong with it.
pub open spec fn parsed(line: Seq<u8>) -> Result<(Seq<u8>, int), ParseError> {
    if key_len(line) == 0 {
        Err(ParseError::MissingKey)
    } else if !has_value(line) {
        Err(ParseError::MissingValue)
    } else if !is_decimal(value_text(line)) {
        Err(ParseError::InvalidValue)
    } else {
        Ok((key_of(line), value_of(line)))
    }
}

/// The value of a decimal is a value that a record can carry.
pub proof fn lemma_decimal_in_range(t: Seq<u8>)
    requires
        is_decimal(t),
    ensures
        in_range(decimal_tenths(t)),
{
}

/// A prefix of a run of digits writes no greater a number than the whole run.
proof fn lemma_digits_monotone(s: Seq<u8>, i: int)
    requires
        0 <= i <= s.len(),
    ensures
        digits_value(s.take(i)) <= digits_value(s),
    decreases s.len() - i,
{
    if i == s.len() {
        assert(s.take(i) =~= s);
    } else {
        lemma_digits_monotone(s, i + 1);
        assert(s.take(i + 1).drop_last() =~= s.take(i));
    }
}

/// Reads a run of digits whose number is known to stay below 2^31.
fn read_digits(s: &[u8]) -> (r: i64)
    requires
        all_digits(s@),
        digits_value(s@) <= 0x8000_0000,
    ensures
        r == digits_value(s@),
{
    let mut acc: i64 = 0;
    let mut i: usize = 0;
    while i < s.len()
        invariant
            i <= s.len(),
            all_digits(s@),
            digits_value(s@) <= 0x8000_0000,
            acc == digits_value(s@.take(i as int)),
        decreases s.len() - i,
    {
        proof {
            lemma_digits_monotone(s@, i as int);
            lemma_digits_monotone(s@, i + 1);
            assert(s@.take(i + 1).drop_last() =~= s@.take(i as int));
            assert(is_digit(s@[i as int]));
        }
        acc = acc * 10 + (s[i] - ZERO) as i64;
        i += 1;
    }
    proof {
        assert(s@.take(i as int) =~= s@);
    }
    acc
}

/// Reads a run of bytes as digits, if they all are and their number stays
/// within `limit`.
fn read_digits_checked(s: &[u8], limit: i64) -> (r: Option<i64>)
    requires
        0 <= limit <= 0x8000_0000,
    ensures
        r is Some <==> all_digits(s@) && digits_value(s@) <= limit,
        r matches Some(v) ==> v == digits_value(s@),
{
    let mut acc: i64 = 0;
    let mut i: usize = 0;
    while i < s.len()
        invariant
            i <= s.len(),
            0 <= limit <= 0x8000_0000,
            all_digits(s@.take(i as int)),
            acc == digits_value(s@.take(i as int)),
            acc <= limit,
        decreases s.len() - i,
    {
        let b: u8 = s[i];
        if b < ZERO || b > NINE {
            proof {
                assert(!is_digit(s@[i as int]));
            }
            return None;
        }
        proof {
            assert(s@.take(i + 1).drop_last() =~= s@.take(i as int));
            assert forall|j: int| 0 <= j < i + 1 implies is_digit(#[trigger] s@.take(i + 1)[j]) by {
                if j < i {
                    assert(s@.take(i + 1)[j] == s@.take(i as int)[j]);
                }
            }
        }
        let next: i64 = acc * 10 + (b - ZERO) as i64;
        if next > limit {
            proof {
                lemma_digits_monotone(s@, i + 1);
            }
            return None;
        }
        acc = next;
        i += 1;
    }
    proof {
        assert(s@.take(i as int) =~= s@);
    }
    Some(acc)
}

/// Reads a decimal that is known to be one.
fn read_decimal(t: &[u8]) -> (r: i64)
    requires
        is_decimal(t@),
    ensures
        r == decimal_tenths(t@),
{
    let n: usize = t.len();
    let frac: i64 = (t[n - 1] - ZERO) as i64;
    let whole: &[u8] = &t[0..n - 2];
    proof {
        assert(whole@ =~= whole_text(t@));
    }
    if whole[0] == MINUS {
        let digits: &[u8] = &whole[1..n - 2];
        proof {
            assert(digits@ =~= magnitude_text(whole@));
        }
        let m: i64 = read_digits(digits);
        10 * (-m) + frac
    } else {
        proof {
            assert(whole@ =~= magnitude_text(whole@));
        }
        let m: i64 = read_digits(whole);
        10 * m + frac
    }
}

/// Reads a decimal, if `t` is one.
fn read_decimal_checked(t: &[u8]) -> (r: Option<i64>)
    ensures
        r is Some <==> is_decimal(t@),
        r matches Some(v) ==> v == decimal_tenths(t@),
{
    let n: usize = t.len();
    if n < 3 {
        return None;
    }
    if t[n - 2] != POINT {
        return None;
    }
    let last: u8 = t[n - 1];
    if last < ZERO || last > NINE {
        return None;
    }
    let frac: i64 = (last - ZERO) as i64;
    let whole: &[u8] = &t[0..n - 2];
    proof {
        assert(whole@ =~= whole_text(t@));
    }
    if whole[0] == MINUS {
        let digits: &[u8] = &whole[1..n - 2];
        proof {
            assert(digits@ =~= magnitude_text(whole@));
        }
        match read_digits_checked(digits, 0x8000_0000) {
            Some(m) => {
                if digits.len() == 0 {
                    None
                } else {
                    Some(10 * (-m) + frac)
                }
            },
            None => None,
        }
    } else {
        proof {
            assert(whole@ =~= magnitude_text(whole@));
        }
        match read_digits_checked(whole, 0x7fff_ffff) {
            Some(m) => Some(10 * m + frac),
            None => None,
        }
    }
}

/// Splits a line that is known to be a record into its key and its value in
/// tenths. Nothing is checked: the caller answers for the line.
pub fn parse_line_fast(line: &[u8]) -> (r: (&[u8], i64))
    requires
        is_record(line@),
    ensures
        r.0@ == key_of(line@),
        r.1 == value_of(line@),
        in_range(r.1 as int),
{
    let found: Option<usize> = find_byte(line, SEPARATOR);
    let k: usize = match found {
        Some(k) => k,
        None => 0,
    };
    assert(found is Some && k < line.len());
    let key: &[u8] = &line[0..k];
    let text: &[u8] = &line[k + 1..line.len()];
    proof {
        assert(key@ =~= key_of(line@));
        assert(text@ =~= value_text(line@));
        lemma_decimal_in_range(text@);
    }
    (key, read_decimal(text))
}

/// Splits a line into its key and its value in tenths, checking each step.
pub fn parse_line(line: &[u8]) -> (r: Result<(&[u8], i64), ParseError>)
    ensures
        match r {
            Ok((key, value)) => parsed(line@) == Ok::<(Seq<u8>, int), ParseError>(
                (key@, value as int),
            ),
            Err(e) => parsed(line@) == Err::<(Seq<u8>, int), ParseError>(e),
        },
        r is Ok ==> is_record(line@) && in_range(value_of(line@)),
{
    let found: Option<usize> = find_byte(line, SEPARATOR);
    let k: usize = match found {
        Some(k) => k,
        None => line.len(),
    };
    if k == 0 {
        return Err(ParseError::MissingKey);
    }
    if found.is_none() {
        return Err(ParseError::MissingValue);
    }
    assert(k < line.len());
    let key: &[u8] = &line[0..k];
    let text: &[u8] = &line[k + 1..line.len()];
    proof {
        assert(key@ =~= key_of(line@));
        assert(text@ =~= value_text(line@));
    }
    match read_decimal_checked(text) {
        Some(v) => {
            proof {
                lemma_decimal_in_range(text@);
            }
            Ok((key, v))
        },
        None => Err(ParseError::InvalidValue),
    }
}

} // verus!
