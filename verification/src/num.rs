//! Numeric literals: signed integers and reals, together with the digit
//! classification and digit-run machinery shared by the other lexers.

use vstd::prelude::*;


verus! {

pub open spec fn is_dec_digit(c: u8) -> bool {
    0x30 <= c <= 0x39
}

pub open spec fn is_hex_digit(c: u8) -> bool {
    is_dec_digit(c) || (0x41 <= c <= 0x46) || (0x61 <= c <= 0x66)
}

/// Value of a hexadecimal digit byte.
pub open spec fn hex_value(c: u8) -> u8 {
    if is_dec_digit(c) {
        (c - 0x30) as u8
    } else if 0x41 <= c <= 0x46 {
        (c - 0x37) as u8
    } else {
        (c - 0x57) as u8
    }
}

pub open spec fn is_oct_digit(c: u8) -> bool {
    0x30 <= c <= 0x37
}

pub fn dec_digit(c: u8) -> (r: bool)
    ensures
        r == is_dec_digit(c),
{
    0x30 <= c && c <= 0x39
}

pub fn hex_digit(c: u8) -> (r: bool)
    ensures
        r == is_hex_digit(c),
{
    (0x30 <= c && c <= 0x39) || (0x41 <= c && c <= 0x46) || (0x61 <= c && c <= 0x66)
}

pub fn hex_digit_value(c: u8) -> (r: u8)
    requires
        is_hex_digit(c),
    ensures
        r == hex_value(c),
        r < 16,
{
    if 0x30 <= c && c <= 0x39 {
        c - 0x30
    } else if 0x41 <= c && c <= 0x46 {
        c - 0x37
    } else {
        c - 0x57
    }
}

pub fn oct_digit(c: u8) -> (r: bool)
    ensures
        r == is_oct_digit(c),
{
    0x30 <= c && c <= 0x37
}

/// First position at or past `pos` that holds no decimal digit, or the end
/// of the buffer.
pub open spec fn digits_end(s: Seq<u8>, pos: int) -> int
    decreases s.len() - pos,
{
    if 0 <= pos && pos < s.len() && is_dec_digit(s[pos]) {
        digits_end(s, pos + 1)
    } else {
        pos
    }
}

pub proof fn lemma_digits_end_bounds(s: Seq<u8>, pos: int)
    requires
        0 <= pos <= s.len(),
    ensures
        pos <= digits_end(s, pos) <= s.len(),
        forall|j: int| pos <= j < digits_end(s, pos) ==> is_dec_digit(s[j]),
        digits_end(s, pos) < s.len() ==> !is_dec_digit(s[digits_end(s, pos)]),
    decreases s.len() - pos,
{
    if pos < s.len() && is_dec_digit(s[pos]) {
        lemma_digits_end_bounds(s, pos + 1);
    }
}

/// Base-ten value of the digit run `s[pos .. end)`.
pub open spec fn digits_value(s: Seq<u8>, pos: int, end: int) -> int
    decreases end - pos,
{
    if pos >= end {
        0
    } else {
        digits_value(s, pos, end - 1) * 10 + (s[end - 1] - 0x30)
    }
}

pub proof fn lemma_digits_value_nonneg(s: Seq<u8>, pos: int, end: int)
    requires
        forall|j: int| pos <= j < end ==> is_dec_digit(s[j]),
    ensures
        digits_value(s, pos, end) >= 0,
    decreases end - pos,
{
    if pos < end {
        lemma_digits_value_nonneg(s, pos, end - 1);
    }
}

pub open spec fn pow10(n: nat) -> int
    decreases n,
{
    if n == 0 {
        1
    } else {
        10 * pow10((n - 1) as nat)
    }
}

pub proof fn lemma_digits_value_bound(s: Seq<u8>, pos: int, end: int)
    requires
        pos <= end,
        forall|j: int| pos <= j < end ==> is_dec_digit(s[j]),
    ensures
        0 <= digits_value(s, pos, end) < pow10((end - pos) as nat),
    decreases end - pos,
{
    if pos < end {
        lemma_digits_value_bound(s, pos, end - 1);
    }
}

/// Scans the maximal run of decimal digits at `pos`; yields the position
/// past the run, an overflow flag, and (when no overflow) the value.
pub fn digit_run(input: &[u8], pos: usize) -> (r: (usize, bool, u64))
    requires
        pos <= input.len(),
    ensures
        r.0 == digits_end(input@, pos as int),
        pos <= r.0 <= input.len(),
        !r.1 ==> r.2 == digits_value(input@, pos as int, r.0 as int),
        r.1 ==> digits_value(input@, pos as int, r.0 as int) > u64::MAX,
{
    let mut i = pos;
    let mut val: u64 = 0;
    let mut ovf = false;
    while i < input.len() && dec_digit(input[i])
        invariant
            pos <= i <= input.len(),
            digits_end(input@, pos as int) == digits_end(input@, i as int),
            forall|j: int| pos <= j < i ==> is_dec_digit(input@[j]),
            !ovf ==> val == digits_value(input@, pos as int, i as int),
            ovf ==> digits_value(input@, pos as int, i as int) > u64::MAX,
        decreases input.len() - i,
    {
        let d = input[i] - 0x30;
        assert(digits_value(input@, pos as int, i + 1) == digits_value(
            input@,
            pos as int,
            i as int,
        ) * 10 + d);
        if !ovf {
            if val > 1844674407370955161u64 || (val == 1844674407370955161u64 && d > 5) {
                ovf = true;
                assert(digits_value(input@, pos as int, i + 1) > u64::MAX);
            } else {
                val = val * 10 + (d as u64);
            }
        } else {
            proof {
                lemma_digits_value_nonneg(input@, pos as int, i as int);
            }
            assert(digits_value(input@, pos as int, i + 1) > u64::MAX);
        }
        i += 1;
    }
    (i, ovf, val)
}

/// A signed integer literal: an optional sign, then one or more decimal
/// digits, whose value must fit a 64-bit signed integer.
pub open spec fn spec_integer(s: Seq<u8>, pos: int) -> Option<(i64, int)> {
    let signed = 0 <= pos && pos < s.len() && (s[pos] == 0x2b || s[pos] == 0x2d);
    let neg = 0 <= pos && pos < s.len() && s[pos] == 0x2d;
    let p1 = if signed {
        pos + 1
    } else {
        pos
    };
    let e = digits_end(s, p1);
    if e == p1 {
        None
    } else {
        let v = if neg {
            -digits_value(s, p1, e)
        } else {
            digits_value(s, p1, e)
        };
        if i64::MIN <= v <= i64::MAX {
            Some((v as i64, e))
        } else {
            None
        }
    }
}

/// Parses a signed integer literal.
pub fn integer(input: &[u8], pos: usize) -> (r: Option<(i64, usize)>)
    requires
        pos <= input.len(),
    ensures
        match r {
            Some((v, p)) => spec_integer(input@, pos as int) == Some((v, p as int)) && pos < p
                <= input.len(),
            None => spec_integer(input@, pos as int) is None,
        },
{
    let mut p1 = pos;
    let mut neg = false;
    if pos < input.len() && (input[pos] == 0x2bu8 || input[pos] == 0x2du8) {
        neg = input[pos] == 0x2du8;
        p1 = pos + 1;
    }
    let (e, ovf, val) = digit_run(input, p1);
    if e == p1 {
        return None;
    }
    if ovf {
        return None;
    }
    if neg {
        if val > 0x8000_0000_0000_0000u64 {
            None
        } else if val == 0x8000_0000_0000_0000u64 {
            Some((i64::MIN, e))
        } else {
            Some((-(val as i64), e))
        }
    } else {
        if val > 0x7fff_ffff_ffff_ffffu64 {
            None
        } else {
            Some((val as i64, e))
        }
    }
}

/// A real literal: an optional sign, then either a digit run, the decimal
/// point, and an optional digit run, or the decimal point and a mandatory
/// digit run.  The decimal point is always required.  Yields the position
/// past the literal.
pub open spec fn spec_real_end(s: Seq<u8>, pos: int) -> Option<int> {
    let signed = 0 <= pos && pos < s.len() && (s[pos] == 0x2b || s[pos] == 0x2d);
    let p1 = if signed {
        pos + 1
    } else {
        pos
    };
    let e1 = digits_end(s, p1);
    if e1 > p1 {
        if e1 < s.len() && s[e1] == 0x2e {
            Some(digits_end(s, e1 + 1))
        } else {
            None
        }
    } else {
        if p1 < s.len() && s[p1] == 0x2e && digits_end(s, p1 + 1) > p1 + 1 {
            Some(digits_end(s, p1 + 1))
        } else {
            None
        }
    }
}

/// Parses a real literal and keeps its exact text, so that no precision is
/// decided here; a consumer turns the text into its preferred number type.
pub fn real_literal(input: &[u8], pos: usize) -> (r: Option<(Vec<u8>, usize)>)
    requires
        pos <= input.len(),
    ensures
        match r {
            Some((v, p)) => spec_real_end(input@, pos as int) == Some(p as int) && pos < p
                <= input.len() && v@ == input@.subrange(pos as int, p as int),
            None => spec_real_end(input@, pos as int) is None,
        },
{
    let mut p1 = pos;
    if pos < input.len() && (input[pos] == 0x2bu8 || input[pos] == 0x2du8) {
        p1 = pos + 1;
    }
    let (e1, _, _) = digit_run(input, p1);
    let end: usize;
    if e1 > p1 {
        if e1 < input.len() && input[e1] == 0x2eu8 {
            let (e2, _, _) = digit_run(input, e1 + 1);
            end = e2;
        } else {
            return None;
        }
    } else {
        if p1 < input.len() && input[p1] == 0x2eu8 {
            let (e2, _, _) = digit_run(input, p1 + 1);
            if e2 > p1 + 1 {
                end = e2;
            } else {
                return None;
            }
        } else {
            return None;
        }
    }
    let mut v: Vec<u8> = Vec::new();
    let mut i = pos;
    while i < end
        invariant
            pos <= i <= end <= input.len(),
            v@ == input@.subrange(pos as int, i as int),
        decreases end - i,
    {
        v.push(input[i]);
        assert(v@ =~= input@.subrange(pos as int, i + 1));
        i += 1;
    }
    Some((v, end))
}

/// An unsigned digit run whose value fits the given 64-bit cap; shared by
/// object identifiers.  Yields the value and the position past the run.
pub open spec fn spec_unsigned(s: Seq<u8>, pos: int, cap: int) -> Option<(int, int)> {
    let e = digits_end(s, pos);
    if e == pos {
        None
    } else {
        let v = digits_value(s, pos, e);
        if v <= cap {
            Some((v, e))
        } else {
            None
        }
    }
}

/// Parses an unsigned digit run, failing when the value is above `cap`.
pub fn unsigned(input: &[u8], pos: usize, cap: u64) -> (r: Option<(u64, usize)>)
    requires
        pos <= input.len(),
    ensures
        match r {
            Some((v, p)) => spec_unsigned(input@, pos as int, cap as int) == Some(
                (v as int, p as int),
            ) && pos < p <= input.len() && v <= cap,
            None => spec_unsigned(input@, pos as int, cap as int) is None,
        },
{
    let (e, ovf, val) = digit_run(input, pos);
    if e == pos {
        return None;
    }
    if ovf || val > cap {
        return None;
    }
    Some((val, e))
}

} // verus!
