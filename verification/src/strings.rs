//! Name literals with `#`-escapes, literal strings with nested parentheses
//! and escape sequences, and whitespace-tolerant hexadecimal strings.

use vstd::prelude::*;

use crate::chars::{is_regular_byte, is_whitespace_byte, spec_eol, ws_run_end};
use crate::chars::{eol, is_regular, is_whitespace, skip_white_space};
use crate::num::{hex_value, is_hex_digit, is_oct_digit};
use crate::num::{hex_digit, hex_digit_value, oct_digit};

verus! {

/// Decoded bytes and end position of the body of a name literal, after the
/// leading slash.  A `#` followed by two hexadecimal digits decodes to that
/// byte; a `#` not followed by two hexadecimal digits ends the name and is
/// left unconsumed, as does any byte that is not regular.
pub open spec fn spec_name_rest(s: Seq<u8>, pos: int) -> (Seq<u8>, int)
    decreases s.len() - pos,
{
    if 0 <= pos && pos < s.len() {
        let c = s[pos];
        if c == 0x23 {
            if pos + 3 <= s.len() && is_hex_digit(s[pos + 1]) && is_hex_digit(s[pos + 2]) {
                let rest = spec_name_rest(s, pos + 3);
                (seq![(hex_value(s[pos + 1]) * 16 + hex_value(s[pos + 2])) as u8].add(rest.0),
                rest.1)
            } else {
                (seq![], pos)
            }
        } else if is_regular_byte(c) {
            let rest = spec_name_rest(s, pos + 1);
            (seq![c].add(rest.0), rest.1)
        } else {
            (seq![], pos)
        }
    } else {
        (seq![], pos)
    }
}

pub proof fn lemma_name_rest_bounds(s: Seq<u8>, pos: int)
    requires
        0 <= pos <= s.len(),
    ensures
        pos <= spec_name_rest(s, pos).1 <= s.len(),
    decreases s.len() - pos,
{
    if pos < s.len() {
        let c = s[pos];
        if c == 0x23 {
            if pos + 3 <= s.len() && is_hex_digit(s[pos + 1]) && is_hex_digit(s[pos + 2]) {
                lemma_name_rest_bounds(s, pos + 3);
            }
        } else if is_regular_byte(c) {
            lemma_name_rest_bounds(s, pos + 1);
        }
    }
}

/// A name literal: a slash, then regular bytes with `#`-escapes decoded.
pub open spec fn spec_name(s: Seq<u8>, pos: int) -> Option<(Seq<u8>, int)> {
    if 0 <= pos && pos < s.len() && s[pos] == 0x2f {
        Some(spec_name_rest(s, pos + 1))
    } else {
        None
    }
}

/// Parses a name literal.
pub fn name(input: &[u8], pos: usize) -> (r: Option<(Vec<u8>, usize)>)
    requires
        pos <= input.len(),
    ensures
        match r {
            Some((v, p)) => spec_name(input@, pos as int) == Some((v@, p as int)) && pos < p
                <= input.len(),
            None => spec_name(input@, pos as int) is None,
        },
{
    if !(pos < input.len() && input[pos] == 0x2fu8) {
        return None;
    }
    let mut p = pos + 1;
    let mut acc: Vec<u8> = Vec::new();
    proof {
        lemma_name_rest_bounds(input@, pos + 1);
    }
    loop
        invariant
            pos + 1 <= p <= input.len(),
            spec_name_rest(input@, pos + 1) == (match spec_name_rest(input@, p as int) {
                (b, e) => (acc@ + b, e),
            }),
        decreases input.len() - p,
    {
        proof {
            lemma_name_rest_bounds(input@, p as int);
        }
        if p >= input.len() {
            assert(spec_name_rest(input@, p as int) == (Seq::<u8>::empty(), p as int));
            assert(acc@ + Seq::<u8>::empty() =~= acc@);
            return Some((acc, p));
        }
        let c = input[p];
        if c == 0x23u8 {
            if input.len() - p >= 3 && hex_digit(input[p + 1]) && hex_digit(input[p + 2]) {
                let b = hex_digit_value(input[p + 1]) * 16 + hex_digit_value(input[p + 2]);
                let ghost rest = spec_name_rest(input@, p + 3);
                assert(spec_name_rest(input@, p as int) == (seq![b].add(rest.0), rest.1));
                let ghost acc0 = acc@;
                acc.push(b);
                assert(acc@ + rest.0 =~= acc0 + (seq![b] + rest.0));
                p += 3;
            } else {
                assert(spec_name_rest(input@, p as int) == (Seq::<u8>::empty(), p as int));
                assert(acc@ + Seq::<u8>::empty() =~= acc@);
                return Some((acc, p));
            }
        } else if is_regular(c) {
            let ghost rest = spec_name_rest(input@, p + 1);
            assert(spec_name_rest(input@, p as int) == (seq![c].add(rest.0), rest.1));
            let ghost acc0 = acc@;
            acc.push(c);
            assert(acc@ + rest.0 =~= acc0 + (seq![c] + rest.0));
            p += 1;
        } else {
            assert(spec_name_rest(input@, p as int) == (Seq::<u8>::empty(), p as int));
            assert(acc@ + Seq::<u8>::empty() =~= acc@);
            return Some((acc, p));
        }
    }
}

/// An octal escape body: one to three octal digits, read greedily, whose
/// base-eight value is truncated to a byte.  Digits `8` and `9` are not
/// octal digits and never take part.
pub open spec fn spec_octal_escape(s: Seq<u8>, pos: int) -> Option<(u8, int)> {
    if 0 <= pos && pos < s.len() && is_oct_digit(s[pos]) {
        if pos + 1 < s.len() && is_oct_digit(s[pos + 1]) {
            if pos + 2 < s.len() && is_oct_digit(s[pos + 2]) {
                Some(
                    (((((s[pos] - 0x30) * 64 + (s[pos + 1] - 0x30) * 8 + (s[pos + 2] - 0x30)))
                        % 256) as u8, pos + 3),
                )
            } else {
                Some((((s[pos] - 0x30) * 8 + (s[pos + 1] - 0x30)) as u8, pos + 2))
            }
        } else {
            Some(((s[pos] - 0x30) as u8, pos + 1))
        }
    } else {
        None
    }
}

/// An escape sequence inside a literal string: a backslash followed by a
/// self-escaped delimiter or backslash, a control-byte letter, an octal
/// escape, or a line break (a continuation, contributing no byte, the
/// `None` outcome).
pub open spec fn spec_escape(s: Seq<u8>, pos: int) -> Option<(Option<u8>, int)> {
    if !(0 <= pos && pos < s.len() && s[pos] == 0x5c) {
        None
    } else if pos + 1 < s.len() && (s[pos + 1] == 0x28 || s[pos + 1] == 0x29 || s[pos + 1]
        == 0x5c) {
        Some((Some(s[pos + 1]), pos + 2))
    } else if pos + 1 < s.len() && s[pos + 1] == 0x6e {
        Some((Some(0x0au8), pos + 2))
    } else if pos + 1 < s.len() && s[pos + 1] == 0x72 {
        Some((Some(0x0du8), pos + 2))
    } else if pos + 1 < s.len() && s[pos + 1] == 0x74 {
        Some((Some(0x09u8), pos + 2))
    } else if pos + 1 < s.len() && s[pos + 1] == 0x62 {
        Some((Some(0x08u8), pos + 2))
    } else if pos + 1 < s.len() && s[pos + 1] == 0x66 {
        Some((Some(0x0cu8), pos + 2))
    } else {
        match spec_octal_escape(s, pos + 1) {
            Some((v, e)) => Some((Some(v), e)),
            None => match spec_eol(s, pos + 1) {
                Some((_, e)) => Some((None, e)),
                None => None,
            },
        }
    }
}

pub proof fn lemma_escape_advances(s: Seq<u8>, pos: int)
    requires
        0 <= pos <= s.len(),
    ensures
        spec_escape(s, pos) matches Some(t) ==> pos + 2 <= t.1 <= s.len(),
{
}

/// Parses one escape sequence.
pub fn escape_sequence(input: &[u8], pos: usize) -> (r: Option<(Option<u8>, usize)>)
    requires
        pos <= input.len(),
    ensures
        match r {
            Some((b, p)) => spec_escape(input@, pos as int) == Some((b, p as int)) && pos < p
                <= input.len(),
            None => spec_escape(input@, pos as int) is None,
        },
{
    if !(pos < input.len() && input[pos] == 0x5cu8) {
        return None;
    }
    if pos + 1 < input.len() {
        let c = input[pos + 1];
        if c == 0x28u8 || c == 0x29u8 || c == 0x5cu8 {
            return Some((Some(c), pos + 2));
        }
        if c == 0x6eu8 {
            return Some((Some(0x0au8), pos + 2));
        }
        if c == 0x72u8 {
            return Some((Some(0x0du8), pos + 2));
        }
        if c == 0x74u8 {
            return Some((Some(0x09u8), pos + 2));
        }
        if c == 0x62u8 {
            return Some((Some(0x08u8), pos + 2));
        }
        if c == 0x66u8 {
            return Some((Some(0x0cu8), pos + 2));
        }
        if oct_digit(c) {
            let d0 = c - 0x30;
            if pos + 2 < input.len() && oct_digit(input[pos + 2]) {
                let d1 = input[pos + 2] - 0x30;
                if pos + 3 < input.len() && oct_digit(input[pos + 3]) {
                    let d2 = input[pos + 3] - 0x30;
                    let v: u16 = (d0 as u16) * 64 + (d1 as u16) * 8 + (d2 as u16);
                    return Some((Some((v % 256) as u8), pos + 4));
                }
                return Some((Some(d0 * 8 + d1), pos + 3));
            }
            return Some((Some(d0), pos + 2));
        }
        match eol(input, pos + 1) {
            Some((_, e)) => Some((None, e)),
            None => None,
        }
    } else {
        None
    }
}

/// Decoded bytes and end position of a literal string body read from inside
/// the outer parentheses, at nesting depth `depth`.  Escape sequences are
/// decoded at every depth; the parentheses of nested balanced groups are
/// kept in the output; the closing parenthesis at depth zero ends the body
/// and stays out of the output.
pub open spec fn spec_lit_rest(s: Seq<u8>, pos: int, depth: nat) -> Option<(Seq<u8>, int)>
    decreases s.len() - pos,
    when 0 <= pos <= s.len()
    via spec_lit_rest_decreases
{
    if pos < s.len() {
        let c = s[pos];
        if c == 0x29 {
            if depth == 0 {
                Some((seq![], pos + 1))
            } else {
                match spec_lit_rest(s, pos + 1, (depth - 1) as nat) {
                    Some((b, e)) => Some((seq![0x29u8].add(b), e)),
                    None => None,
                }
            }
        } else if c == 0x28 {
            match spec_lit_rest(s, pos + 1, depth + 1) {
                Some((b, e)) => Some((seq![0x28u8].add(b), e)),
                None => None,
            }
        } else if c == 0x5c {
            match spec_escape(s, pos) {
                Some((ob, e)) => match spec_lit_rest(s, e, depth) {
                    Some((b, e2)) => Some(
                        (
                            match ob {
                                Some(x) => seq![x].add(b),
                                None => b,
                            },
                            e2,
                        ),
                    ),
                    None => None,
                },
                None => None,
            }
        } else {
            match spec_lit_rest(s, pos + 1, depth) {
                Some((b, e)) => Some((seq![c].add(b), e)),
                None => None,
            }
        }
    } else {
        None
    }
}

#[via_fn]
proof fn spec_lit_rest_decreases(s: Seq<u8>, pos: int, depth: nat) {
    lemma_escape_advances(s, pos);
}

/// A literal string: the decoded bytes between the outer parentheses.
///
/// A raw line break inside the string is content and is kept byte for
/// byte, carriage returns included: the output is the exact concatenation
/// of the resolved segments.  End-of-line canonicalization belongs to the
/// breaks the grammar itself consumes — after a keyword, or in an escaped
/// line continuation, where the break contributes no byte at all — never
/// to string content.  This is decided here, not inherited: the grammar
/// reads a raw run as one segment, so rewriting it would decode the same
/// bytes differently depending on what surrounds them.
pub open spec fn spec_literal_string(s: Seq<u8>, pos: int) -> Option<(Seq<u8>, int)> {
    if 0 <= pos && pos < s.len() && s[pos] == 0x28 {
        spec_lit_rest(s, pos + 1, 0)
    } else {
        None
    }
}

/// Parses a literal string into its decoded bytes.
pub fn literal_string(input: &[u8], pos: usize) -> (r: Option<(Vec<u8>, usize)>)
    requires
        pos <= input.len(),
    ensures
        match r {
            Some((v, p)) => spec_literal_string(input@, pos as int) == Some((v@, p as int)) && pos
                < p <= input.len(),
            None => spec_literal_string(input@, pos as int) is None,
        },
{
    if !(pos < input.len() && input[pos] == 0x28u8) {
        return None;
    }
    let mut p = pos + 1;
    let mut depth: usize = 0;
    let mut acc: Vec<u8> = Vec::new();
    loop
        invariant
            pos + 1 <= p <= input.len(),
            depth <= p - pos - 1,
            spec_lit_rest(input@, pos + 1, 0) == (match spec_lit_rest(
                input@,
                p as int,
                depth as nat,
            ) {
                Some((b, e)) => Some((acc@ + b, e)),
                None => None::<(Seq<u8>, int)>,
            }),
        decreases input.len() - p,
    {
        if p >= input.len() {
            return None;
        }
        let c = input[p];
        if c == 0x29u8 {
            if depth == 0 {
                assert(spec_lit_rest(input@, p as int, 0) == Some((Seq::<u8>::empty(), p + 1)));
                assert(acc@ + Seq::<u8>::empty() =~= acc@);
                return Some((acc, p + 1));
            } else {
                let ghost rest = spec_lit_rest(input@, p + 1, (depth - 1) as nat);
                let ghost acc0 = acc@;
                acc.push(0x29u8);
                proof {
                    match rest {
                        Some((b, e)) => {
                            assert(acc@ + b =~= acc0 + (seq![0x29u8] + b));
                        },
                        None => {},
                    }
                }
                p += 1;
                depth -= 1;
            }
        } else if c == 0x28u8 {
            let ghost rest = spec_lit_rest(input@, p + 1, (depth + 1) as nat);
            let ghost acc0 = acc@;
            acc.push(0x28u8);
            proof {
                match rest {
                    Some((b, e)) => {
                        assert(acc@ + b =~= acc0 + (seq![0x28u8] + b));
                    },
                    None => {},
                }
            }
            p += 1;
            depth += 1;
        } else if c == 0x5cu8 {
            match escape_sequence(input, p) {
                Some((ob, e)) => {
                    let ghost rest = spec_lit_rest(input@, e as int, depth as nat);
                    match ob {
                        Some(x) => {
                            let ghost acc0 = acc@;
                            acc.push(x);
                            proof {
                                match rest {
                                    Some((b, e2)) => {
                                        assert(acc@ + b =~= acc0 + (seq![x] + b));
                                    },
                                    None => {},
                                }
                            }
                        },
                        None => {},
                    }
                    p = e;
                },
                None => {
                    return None;
                },
            }
        } else {
            let ghost rest = spec_lit_rest(input@, p + 1, depth as nat);
            let ghost acc0 = acc@;
            acc.push(c);
            proof {
                match rest {
                    Some((b, e)) => {
                        assert(acc@ + b =~= acc0 + (seq![c] + b));
                    },
                    None => {},
                }
            }
            p += 1;
        }
    }
}

/// Decoded bytes and end position of a hexadecimal string body, after the
/// opening angle bracket.  Whitespace may stand anywhere between digits;
/// two digits make one byte; a dangling final digit stands for the high
/// four bits of a last byte.
pub open spec fn spec_hex_rest(s: Seq<u8>, pos: int) -> Option<(Seq<u8>, int)>
    decreases s.len() - pos,
{
    if 0 <= pos && pos < s.len() {
        let c = s[pos];
        if is_whitespace_byte(c) {
            spec_hex_rest(s, pos + 1)
        } else if c == 0x3e {
            Some((seq![], pos + 1))
        } else if is_hex_digit(c) {
            if pos + 1 < s.len() && is_hex_digit(s[pos + 1]) {
                match spec_hex_rest(s, pos + 2) {
                    Some((b, e)) => Some(
                        (seq![(hex_value(c) * 16 + hex_value(s[pos + 1])) as u8].add(b), e),
                    ),
                    None => None,
                }
            } else {
                let q = ws_run_end(s, pos + 1);
                if q < s.len() && s[q] == 0x3e {
                    Some((seq![(hex_value(c) * 16) as u8], q + 1))
                } else {
                    None
                }
            }
        } else {
            None
        }
    } else {
        None
    }
}

/// A hexadecimal string: the decoded bytes between the angle brackets.
pub open spec fn spec_hex_string(s: Seq<u8>, pos: int) -> Option<(Seq<u8>, int)> {
    if 0 <= pos && pos < s.len() && s[pos] == 0x3c {
        spec_hex_rest(s, pos + 1)
    } else {
        None
    }
}

/// Parses a hexadecimal string into its decoded bytes.
pub fn hexadecimal_string(input: &[u8], pos: usize) -> (r: Option<(Vec<u8>, usize)>)
    requires
        pos <= input.len(),
    ensures
        match r {
            Some((v, p)) => spec_hex_string(input@, pos as int) == Some((v@, p as int)) && pos < p
                <= input.len(),
            None => spec_hex_string(input@, pos as int) is None,
        },
{
    if !(pos < input.len() && input[pos] == 0x3cu8) {
        return None;
    }
    let mut p = pos + 1;
    let mut acc: Vec<u8> = Vec::new();
    loop
        invariant
            pos + 1 <= p <= input.len(),
            spec_hex_rest(input@, pos + 1) == (match spec_hex_rest(input@, p as int) {
                Some((b, e)) => Some((acc@ + b, e)),
                None => None::<(Seq<u8>, int)>,
            }),
        decreases input.len() - p,
    {
        if p >= input.len() {
            return None;
        }
        let c = input[p];
        if is_whitespace(c) {
            p += 1;
        } else if c == 0x3eu8 {
            assert(spec_hex_rest(input@, p as int) == Some((Seq::<u8>::empty(), p + 1)));
            assert(acc@ + Seq::<u8>::empty() =~= acc@);
            return Some((acc, p + 1));
        } else if hex_digit(c) {
            if p + 1 < input.len() && hex_digit(input[p + 1]) {
                let b = hex_digit_value(c) * 16 + hex_digit_value(input[p + 1]);
                let ghost rest = spec_hex_rest(input@, p + 2);
                let ghost acc0 = acc@;
                acc.push(b);
                proof {
                    match rest {
                        Some((bs, e)) => {
                            assert(acc@ + bs =~= acc0 + (seq![b] + bs));
                        },
                        None => {},
                    }
                }
                p += 2;
            } else {
                let q = skip_white_space(input, p + 1);
                if q < input.len() && input[q] == 0x3eu8 {
                    let b = hex_digit_value(c) * 16;
                    let ghost acc0 = acc@;
                    acc.push(b);
                    assert(acc@ =~= acc0 + seq![b]);
                    return Some((acc, q + 1));
                } else {
                    return None;
                }
            }
        } else {
            return None;
        }
    }
}


/// Law: parsing is referentially transparent.  A parser's contract
/// determines its outcome from the buffer and the starting position alone,
/// so any two outcomes that satisfy it are the same; stated here over the
/// relation the literal-string parser ensures.
pub proof fn lemma_literal_string_deterministic(
    s: Seq<u8>,
    pos: int,
    r1: Option<(Seq<u8>, int)>,
    r2: Option<(Seq<u8>, int)>,
)
    requires
        (match r1 {
            Some(t) => spec_literal_string(s, pos) == Some(t),
            None => spec_literal_string(s, pos) is None,
        }),
        (match r2 {
            Some(t) => spec_literal_string(s, pos) == Some(t),
            None => spec_literal_string(s, pos) is None,
        }),
    ensures
        r1 == r2,
{
}

} // verus!
