//! Byte classification, keyword matching, end-of-line recognition, and the
//! whitespace-and-comment skipper used between tokens.

use vstd::prelude::*;

verus! {

/// Whitespace bytes: space, tab, line feed, carriage return, NUL, form feed.
pub open spec fn is_whitespace_byte(c: u8) -> bool {
    c == 0x20 || c == 0x09 || c == 0x0a || c == 0x0d || c == 0x00 || c == 0x0c
}

/// Structural delimiter bytes: `( ) < > [ ] { } / %`.
pub open spec fn is_delimiter_byte(c: u8) -> bool {
    c == 0x28 || c == 0x29 || c == 0x3c || c == 0x3e || c == 0x5b || c == 0x5d || c == 0x7b
        || c == 0x7d || c == 0x2f || c == 0x25
}

/// A regular byte is neither whitespace nor a delimiter.
pub open spec fn is_regular_byte(c: u8) -> bool {
    !is_whitespace_byte(c) && !is_delimiter_byte(c)
}

pub fn is_whitespace(c: u8) -> (r: bool)
    ensures
        r == is_whitespace_byte(c),
{
    c == 0x20u8 || c == 0x09u8 || c == 0x0au8 || c == 0x0du8 || c == 0x00 || c == 0x0c
}

pub fn is_delimiter(c: u8) -> (r: bool)
    ensures
        r == is_delimiter_byte(c),
{
    c == 0x28u8 || c == 0x29u8 || c == 0x3cu8 || c == 0x3eu8 || c == 0x5bu8 || c == 0x5du8 || c == 0x7bu8
        || c == 0x7du8 || c == 0x2fu8 || c == 0x25u8
}

pub fn is_regular(c: u8) -> (r: bool)
    ensures
        r == is_regular_byte(c),
{
    !is_whitespace(c) && !is_delimiter(c)
}

/// The bytes `tag` stand at position `pos` of `s`.
pub open spec fn tag_matches(s: Seq<u8>, pos: int, tag: Seq<u8>) -> bool {
    &&& 0 <= pos
    &&& pos + tag.len() <= s.len()
    &&& s.subrange(pos, pos + tag.len() as int) =~= tag
}

/// Compares the bytes at `pos` with `tag`.
pub fn match_tag(input: &[u8], pos: usize, tag: &[u8]) -> (r: bool)
    requires
        pos <= input.len(),
    ensures
        r == tag_matches(input@, pos as int, tag@),
{
    if input.len() - pos < tag.len() {
        return false;
    }
    let n = tag.len();
    let mut i: usize = 0;
    while i < n
        invariant
            pos + n <= input.len(),
            n == tag.len(),
            i <= n,
            forall|j: int| 0 <= j < i ==> input@[pos + j] == tag@[j],
        decreases n - i,
    {
        if input[pos + i] != tag[i] {
            assert(input@.subrange(pos as int, pos + n as int)[i as int] == input@[pos + i]);
            return false;
        }
        i += 1;
    }
    assert(input@.subrange(pos as int, pos + n as int) =~= tag@);
    true
}

/// End-of-line: `\r\n` and `\n` stand for a line feed, a bare `\r` stands
/// for itself.  Yields the canonical byte and the position past the break.
pub open spec fn spec_eol(s: Seq<u8>, pos: int) -> Option<(u8, int)> {
    if 0 <= pos && pos + 2 <= s.len() && s[pos] == 0x0d && s[pos + 1] == 0x0a {
        Some((0x0au8, pos + 2))
    } else if 0 <= pos && pos < s.len() && s[pos] == 0x0a {
        Some((0x0au8, pos + 1))
    } else if 0 <= pos && pos < s.len() && s[pos] == 0x0d {
        Some((0x0du8, pos + 1))
    } else {
        None
    }
}

/// Recognizes one logical end-of-line break.
pub fn eol(input: &[u8], pos: usize) -> (r: Option<(u8, usize)>)
    requires
        pos <= input.len(),
    ensures
        match r {
            Some((c, p)) => spec_eol(input@, pos as int) == Some((c, p as int)) && pos < p
                <= input.len(),
            None => spec_eol(input@, pos as int) is None,
        },
{
    if input.len() - pos >= 2 && input[pos] == 0x0du8 && input[pos + 1] == 0x0au8 {
        Some((0x0au8, pos + 2))
    } else if pos < input.len() && input[pos] == 0x0au8 {
        Some((0x0au8, pos + 1))
    } else if pos < input.len() && input[pos] == 0x0du8 {
        Some((0x0du8, pos + 1))
    } else {
        None
    }
}

/// First position at or past `pos` that holds `\r` or `\n`, or the end of
/// the buffer.
pub open spec fn line_end(s: Seq<u8>, pos: int) -> int
    decreases s.len() - pos,
{
    if 0 <= pos && pos < s.len() && s[pos] != 0x0d && s[pos] != 0x0a {
        line_end(s, pos + 1)
    } else {
        pos
    }
}

pub proof fn lemma_line_end_bounds(s: Seq<u8>, pos: int)
    requires
        0 <= pos <= s.len(),
    ensures
        pos <= line_end(s, pos) <= s.len(),
    decreases s.len() - pos,
{
    if pos < s.len() && s[pos] != 0x0d && s[pos] != 0x0a {
        lemma_line_end_bounds(s, pos + 1);
    }
}

/// A comment: `%`, the rest of the line, and the line break itself.
pub open spec fn spec_comment(s: Seq<u8>, pos: int) -> Option<int> {
    if 0 <= pos && pos < s.len() && s[pos] == 0x25 {
        match spec_eol(s, line_end(s, pos + 1)) {
            Some((_, p)) => Some(p),
            None => None,
        }
    } else {
        None
    }
}

pub proof fn lemma_comment_advances(s: Seq<u8>, pos: int)
    requires
        0 <= pos <= s.len(),
    ensures
        spec_comment(s, pos) matches Some(p) ==> pos < p <= s.len(),
{
    if 0 <= pos && pos < s.len() && s[pos] == 0x25 {
        lemma_line_end_bounds(s, pos + 1);
    }
}

/// Skips one comment.
pub fn comment(input: &[u8], pos: usize) -> (r: Option<usize>)
    requires
        pos <= input.len(),
    ensures
        match r {
            Some(p) => spec_comment(input@, pos as int) == Some(p as int) && pos < p
                <= input.len(),
            None => spec_comment(input@, pos as int) is None,
        },
{
    if pos < input.len() && input[pos] == 0x25u8 {
        let mut q = pos + 1;
        while q < input.len() && input[q] != 0x0du8 && input[q] != 0x0au8
            invariant
                pos + 1 <= q <= input.len(),
                line_end(input@, pos + 1) == line_end(input@, q as int),
            decreases input.len() - q,
        {
            q += 1;
        }
        assert(line_end(input@, pos + 1) == q);
        match eol(input, q) {
            Some((_, p)) => Some(p),
            None => None,
        }
    } else {
        None
    }
}

/// Position after the maximal run of whitespace starting at `pos`.
pub open spec fn ws_run_end(s: Seq<u8>, pos: int) -> int
    decreases s.len() - pos,
{
    if 0 <= pos && pos < s.len() && is_whitespace_byte(s[pos]) {
        ws_run_end(s, pos + 1)
    } else {
        pos
    }
}

/// Skips the maximal run of whitespace, without comment recognition.
pub fn skip_white_space(input: &[u8], pos: usize) -> (r: usize)
    requires
        pos <= input.len(),
    ensures
        r == ws_run_end(input@, pos as int),
        pos <= r <= input.len(),
{
    let mut p = pos;
    while p < input.len() && is_whitespace(input[p])
        invariant
            pos <= p <= input.len(),
            ws_run_end(input@, pos as int) == ws_run_end(input@, p as int),
        decreases input.len() - p,
    {
        p += 1;
    }
    p
}

/// Position after the maximal run of whitespace interleaved with comments.
pub open spec fn spec_space(s: Seq<u8>, pos: int) -> int
    decreases s.len() - pos,
    when 0 <= pos <= s.len()
    via spec_space_decreases
{
    if pos < s.len() && is_whitespace_byte(s[pos]) {
        spec_space(s, pos + 1)
    } else {
        match spec_comment(s, pos) {
            Some(p) => spec_space(s, p),
            None => pos,
        }
    }
}

#[via_fn]
proof fn spec_space_decreases(s: Seq<u8>, pos: int) {
    lemma_comment_advances(s, pos);
}

pub proof fn lemma_space_bounds(s: Seq<u8>, pos: int)
    requires
        0 <= pos <= s.len(),
    ensures
        pos <= spec_space(s, pos) <= s.len(),
    decreases s.len() - pos,
{
    if pos < s.len() && is_whitespace_byte(s[pos]) {
        lemma_space_bounds(s, pos + 1);
    } else {
        match spec_comment(s, pos) {
            Some(p) => {
                lemma_comment_advances(s, pos);
                lemma_space_bounds(s, p);
            },
            None => {},
        }
    }
}

/// Skips whitespace and `%`-comments; this is the gap accepted between
/// tokens everywhere outside of string literals.
pub fn skip_space(input: &[u8], pos: usize) -> (r: usize)
    requires
        pos <= input.len(),
    ensures
        r == spec_space(input@, pos as int),
        pos <= r <= input.len(),
{
    let mut p = pos;
    loop
        invariant
            pos <= p <= input.len(),
            spec_space(input@, pos as int) == spec_space(input@, p as int),
        decreases input.len() - p,
    {
        if p < input.len() && is_whitespace(input[p]) {
            p += 1;
        } else {
            match comment(input, p) {
                Some(q) => {
                    p = q;
                },
                None => {
                    return p;
                },
            }
        }
    }
}

/// Relies on String::from_utf8: bytes below 0x80 are ASCII, are valid
/// UTF-8, and decode one-to-one to the characters with the same values; on
/// bytes that are not valid UTF-8 the call fails.
#[verifier::external_body]
pub fn utf8_string(bytes: Vec<u8>) -> (r: Option<String>)
    ensures
        (match r {
            Some(s) => (forall|i: int| 0 <= i < bytes@.len() ==> bytes@[i] < 0x80) ==> (s@.len()
                == bytes@.len() && (forall|i: int|
                0 <= i < bytes@.len() ==> s@[i] == bytes@[i] as char)),
            None => !(forall|i: int| 0 <= i < bytes@.len() ==> bytes@[i] < 0x80),
        }),
{
    match String::from_utf8(bytes) {
        Ok(s) => Some(s),
        Err(_) => None,
    }
}

} // verus!
