//! The document-structure grammar: the file header, classic cross-reference
//! table sections, the trailer, the combined cross-reference entry point,
//! and the `startxref` locator.

use vstd::prelude::*;

use crate::chars::{
    eol, lemma_comment_advances, line_end, match_tag, skip_space, spec_comment, spec_eol,
    spec_space, tag_matches, utf8_string,
};
use crate::error::ParseError;
use crate::num::{
    digit_run, digits_value, integer, is_dec_digit, lemma_digits_end_bounds,
    lemma_digits_value_bound, pow10, spec_integer,
};
use crate::object::{Dictionary, Object};
use crate::objects::{
    dictionary, dictionary_content_at, dictionary_entries_at, indirect_object,
    last_value_pos, lemma_last_value_pos, lemma_object_at_classifies, match_kw, object_at,
    source_int_at, spec_dict_pair_list, spec_dictionary_end, spec_direct_object_end,
    spec_object_id, stream_follows, stream_result_post,
};
use crate::object::Stream;
use crate::reader::{Reader, XrefStreamDecoder};
use crate::xref::{Xref, XrefEntry};

verus! {

/// Position after a run of whole comment lines.
pub open spec fn spec_comments(s: Seq<u8>, pos: int) -> int
    decreases s.len() - pos,
    when 0 <= pos <= s.len()
    via spec_comments_decreases
{
    match spec_comment(s, pos) {
        Some(p) => spec_comments(s, p),
        None => pos,
    }
}

#[via_fn]
proof fn spec_comments_decreases(s: Seq<u8>, pos: int) {
    lemma_comment_advances(s, pos);
}

/// Skips whole comment lines.
fn skip_comments(input: &[u8], pos: usize) -> (r: usize)
    requires
        pos <= input.len(),
    ensures
        r == spec_comments(input@, pos as int),
        pos <= r <= input.len(),
{
    let mut p = pos;
    loop
        invariant
            pos <= p <= input.len(),
            spec_comments(input@, pos as int) == spec_comments(input@, p as int),
        decreases input.len() - p,
    {
        match crate::chars::comment(input, p) {
            Some(q) => {
                p = q;
            },
            None => {
                return p;
            },
        }
    }
}

/// Parses the file header: the `%PDF-` marker, the version text up to the
/// line break, the break itself, and any following whole comment lines.
pub fn header(input: &[u8], pos: usize) -> (r: Result<(String, usize), ParseError>)
    requires
        pos <= input.len(),
    ensures
        (match r {
            Ok((v, p)) => {
                let e = line_end(input@, pos + 5);
                &&& tag_matches(input@, pos as int, seq![0x25u8, 0x50u8, 0x44u8, 0x46u8, 0x2du8])
                &&& spec_eol(input@, e) matches Some((_, e2)) && p == spec_comments(input@, e2)
                &&& pos < p <= input.len()
                &&& ((forall|i: int| pos + 5 <= i < e ==> input@[i] < 0x80) ==> (v@.len() == e - (
                pos + 5) && (forall|i: int|
                    0 <= i < v@.len() ==> v@[i] == input@[pos + 5 + i] as char)))
            },
            Err(e) => {
                let le = line_end(input@, pos + 5);
                pos <= e.position <= input.len() && !e.fatal && !(tag_matches(
                    input@,
                    pos as int,
                    seq![0x25u8, 0x50u8, 0x44u8, 0x46u8, 0x2du8],
                ) && spec_eol(input@, le) is Some && (forall|i: int|
                    pos + 5 <= i < le ==> input@[i] < 0x80))
            },
        }),
{
    let kw: [u8; 5] = [0x25u8, 0x50u8, 0x44u8, 0x46u8, 0x2du8];
    assert(kw@ =~= seq![0x25u8, 0x50u8, 0x44u8, 0x46u8, 0x2du8]);
    if !match_kw(input, pos, &kw) {
        return Err(ParseError::mismatch(pos, "expected the header marker"));
    }
    let mut q = pos + 5;
    let mut version: Vec<u8> = Vec::new();
    while q < input.len() && input[q] != 0x0du8 && input[q] != 0x0au8
        invariant
            pos + 5 <= q <= input.len(),
            line_end(input@, pos + 5) == line_end(input@, q as int),
            version@ == input@.subrange(pos + 5, q as int),
        decreases input.len() - q,
    {
        version.push(input[q]);
        assert(version@ =~= input@.subrange(pos + 5, q + 1));
        q += 1;
    }
    assert(line_end(input@, pos + 5) == q);
    match eol(input, q) {
        Some((_, e2)) => {
            let p = skip_comments(input, e2);
            match utf8_string(version) {
                Some(v) => Ok((v, p)),
                None => Err(ParseError::mismatch(pos + 5, "the version text is not text")),
            }
        },
        None => Err(ParseError::mismatch(q, "expected a line break after the header")),
    }
}

/// The `startxref` locator: the keyword, a line break, the byte offset, a
/// line break, and the end-of-file marker.
pub open spec fn spec_xref_start(s: Seq<u8>, pos: int) -> Option<(i64, int)> {
    if tag_matches(
        s,
        pos,
        seq![0x73u8, 0x74u8, 0x61u8, 0x72u8, 0x74u8, 0x78u8, 0x72u8, 0x65u8, 0x66u8],
    ) {
        match spec_eol(s, pos + 9) {
            Some((_, e1)) => match spec_integer(s, e1) {
                Some((v, e2)) => match spec_eol(s, e2) {
                    Some((_, e3)) => if tag_matches(
                        s,
                        e3,
                        seq![0x25u8, 0x25u8, 0x45u8, 0x4fu8, 0x46u8],
                    ) {
                        Some((v, spec_space(s, e3 + 5)))
                    } else {
                        None
                    },
                    None => None,
                },
                None => None,
            },
            None => None,
        }
    } else {
        None
    }
}

/// Parses the `startxref` locator and yields the byte offset it names.
pub fn xref_start(input: &[u8], pos: usize) -> (r: Result<(i64, usize), ParseError>)
    requires
        pos <= input.len(),
    ensures
        (match r {
            Ok((v, p)) => spec_xref_start(input@, pos as int) == Some((v, p as int)) && pos < p
                <= input.len(),
            Err(e) => spec_xref_start(input@, pos as int) is None && pos <= e.position
                <= input.len() && !e.fatal,
        }),
{
    let kw: [u8; 9] = [0x73u8, 0x74u8, 0x61u8, 0x72u8, 0x74u8, 0x78u8, 0x72u8, 0x65u8, 0x66u8];
    assert(kw@ =~= seq![0x73u8, 0x74u8, 0x61u8, 0x72u8, 0x74u8, 0x78u8, 0x72u8, 0x65u8, 0x66u8]);
    if !match_kw(input, pos, &kw) {
        return Err(ParseError::mismatch(pos, "expected the startxref keyword"));
    }
    match eol(input, pos + 9) {
        Some((_, e1)) => match integer(input, e1) {
            Some((v, e2)) => match eol(input, e2) {
                Some((_, e3)) => {
                    let end_kw: [u8; 5] = [0x25u8, 0x25u8, 0x45u8, 0x4fu8, 0x46u8];
                    assert(end_kw@ =~= seq![0x25u8, 0x25u8, 0x45u8, 0x4fu8, 0x46u8]);
                    if match_kw(input, e3, &end_kw) {
                        Ok((v, skip_space(input, e3 + 5)))
                    } else {
                        Err(ParseError::mismatch(e3, "expected the end-of-file marker"))
                    }
                },
                None => Err(ParseError::mismatch(e2, "expected a line break after the offset")),
            },
            None => Err(ParseError::mismatch(e1, "expected the cross-reference offset")),
        },
        None => Err(ParseError::mismatch(pos + 9, "expected a line break after the keyword")),
    }
}

/// The trailer: the keyword, a gap, a dictionary, and the trailing gap.
pub open spec fn spec_trailer_end(s: Seq<u8>, pos: int) -> Option<int> {
    if tag_matches(s, pos, seq![0x74u8, 0x72u8, 0x61u8, 0x69u8, 0x6cu8, 0x65u8, 0x72u8]) {
        match spec_dictionary_end(s, spec_space(s, pos + 7)) {
            Some(de) => Some(spec_space(s, de)),
            None => None,
        }
    } else {
        None
    }
}

/// Parses the trailer: the keyword, a gap, and a dictionary.
pub fn trailer(input: &[u8], pos: usize) -> (r: Result<(Dictionary, usize), ParseError>)
    requires
        pos <= input.len(),
    ensures
        (match r {
            Ok((d, p)) => pos < p <= input.len() && spec_trailer_end(input@, pos as int) == Some(
                p as int,
            ) && dictionary_content_at(input@, spec_space(input@, pos + 7), d@)
                && dictionary_entries_at(input@, spec_space(input@, pos + 7), d),
            Err(e) => spec_trailer_end(input@, pos as int) is None && pos <= e.position
                <= input.len() && !e.fatal,
        }),
{
    let kw: [u8; 7] = [0x74u8, 0x72u8, 0x61u8, 0x69u8, 0x6cu8, 0x65u8, 0x72u8];
    assert(kw@ =~= seq![0x74u8, 0x72u8, 0x61u8, 0x69u8, 0x6cu8, 0x65u8, 0x72u8]);
    if !match_kw(input, pos, &kw) {
        return Err(ParseError::mismatch(pos, "expected the trailer keyword"));
    }
    let sp = skip_space(input, pos + 7);
    match dictionary(input, sp) {
        Ok((d, p1)) => Ok((d, skip_space(input, p1))),
        Err(e) => Err(ParseError::mismatch(sp, "expected the trailer dictionary")),
    }
}

/// One fixed-shape cross-reference entry: a ten-digit offset, a space, a
/// five-digit generation number, a space, the type byte `n` (in use) or `f`
/// (free), and two trailing bytes that are discarded, twenty bytes in all.
/// The numbers are truncated to their field widths.
pub open spec fn spec_xref_entry(s: Seq<u8>, pos: int) -> Option<((u32, u16, bool), int)> {
    if 0 <= pos && pos + 20 <= s.len() && (forall|j: int|
        pos <= j < pos + 10 ==> is_dec_digit(s[j])) && s[pos + 10] == 0x20 && (forall|j: int|
        pos + 11 <= j < pos + 16 ==> is_dec_digit(s[j])) && s[pos + 16] == 0x20 && (s[pos + 17]
        == 0x6e || s[pos + 17] == 0x66) {
        Some(
            (
                (
                    (digits_value(s, pos, pos + 10) % 0x1_0000_0000) as u32,
                    (digits_value(s, pos + 11, pos + 16) % 0x1_0000) as u16,
                    s[pos + 17] == 0x6e,
                ),
                pos + 20,
            ),
        )
    } else {
        None
    }
}

/// Parses one fixed-shape entry.
fn xref_entry(input: &[u8], pos: usize) -> (r: Option<((u32, u16, bool), usize)>)
    requires
        pos <= input.len(),
    ensures
        (match r {
            Some((t, p)) => spec_xref_entry(input@, pos as int) == Some((t, p as int)) && pos < p
                <= input.len(),
            None => spec_xref_entry(input@, pos as int) is None,
        }),
{
    if input.len() - pos < 20 {
        return None;
    }
    let (e1, ovf1, off64) = digit_run(input, pos);
    proof {
        lemma_digits_end_bounds(input@, pos as int);
    }
    if e1 != pos + 10 {
        return None;
    }
    if input[pos + 10] != 0x20u8 {
        return None;
    }
    let (e2, ovf2, gen64) = digit_run(input, pos + 11);
    proof {
        lemma_digits_end_bounds(input@, pos + 11);
    }
    if e2 != pos + 16 {
        return None;
    }
    if input[pos + 16] != 0x20u8 {
        return None;
    }
    let t = input[pos + 17];
    if t != 0x6eu8 && t != 0x66u8 {
        return None;
    }
    proof {
        lemma_digits_value_bound(input@, pos as int, pos + 10);
        lemma_digits_value_bound(input@, pos + 11, pos + 16);
        assert(pow10(10) == 10000000000) by {
            reveal_with_fuel(pow10, 11);
        };
        assert(pow10(5) == 100000) by {
            reveal_with_fuel(pow10, 6);
        };
    }
    let off = (off64 % 0x1_0000_0000u64) as u32;
    let gen = (gen64 % 0x1_0000u64) as u16;
    Some(((off, gen, t == 0x6eu8), pos + 20))
}

/// End position of `count` consecutive fixed-shape entries.
pub open spec fn spec_entries_end(s: Seq<u8>, pos: int, count: int) -> Option<int>
    decreases count,
{
    if count <= 0 {
        Some(pos)
    } else {
        match spec_xref_entry(s, pos) {
            Some((_, p2)) => spec_entries_end(s, p2, count - 1),
            None => None,
        }
    }
}

proof fn lemma_entries_end_bounds(s: Seq<u8>, pos: int, count: int)
    requires
        0 <= pos <= s.len(),
    ensures
        spec_entries_end(s, pos, count) matches Some(p) ==> pos <= p <= s.len(),
    decreases count,
{
    if count > 0 {
        match spec_xref_entry(s, pos) {
            Some((_, p2)) => {
                lemma_entries_end_bounds(s, p2, count - 1);
            },
            None => {},
        }
    }
}

/// The mapping `count` entries of a section starting at object number
/// `start` fold into, over the mapping built so far: an in-use entry binds
/// its object number, truncated to 32 bits; a free entry binds nothing.
pub open spec fn spec_xref_entries(
    s: Seq<u8>,
    pos: int,
    start: int,
    count: int,
    m: Map<u32, XrefEntry>,
) -> Option<(Map<u32, XrefEntry>, int)>
    decreases count,
{
    if count <= 0 {
        Some((m, pos))
    } else {
        match spec_xref_entry(s, pos) {
            Some(((off, gen, used), p2)) => {
                let m2 = if used {
                    m.insert(
                        (start % 0x1_0000_0000) as u32,
                        XrefEntry::Normal { offset: off, generation: gen },
                    )
                } else {
                    m
                };
                spec_xref_entries(s, p2, start + 1, count - 1, m2)
            },
            None => None,
        }
    }
}

proof fn lemma_entries_agree(s: Seq<u8>, pos: int, start: int, count: int, m: Map<u32, XrefEntry>)
    ensures
        (match spec_xref_entries(s, pos, start, count, m) {
            Some((m2, p2)) => spec_entries_end(s, pos, count) == Some(p2),
            None => spec_entries_end(s, pos, count) is None,
        }),
    decreases count,
{
    if count > 0 {
        match spec_xref_entry(s, pos) {
            Some(((off, gen, used), p2)) => {
                let m2 = if used {
                    m.insert(
                        (start % 0x1_0000_0000) as u32,
                        XrefEntry::Normal { offset: off, generation: gen },
                    )
                } else {
                    m
                };
                lemma_entries_agree(s, p2, start + 1, count - 1, m2);
            },
            None => {},
        }
    }
}

/// A section heading: the first object number, a space, the entry count, an
/// optional space, and a line break.
pub open spec fn spec_section_header(s: Seq<u8>, pos: int) -> Option<((i64, i64), int)> {
    match spec_integer(s, pos) {
        Some((a, e1)) => if e1 < s.len() && s[e1] == 0x20 {
            match spec_integer(s, e1 + 1) {
                Some((b, e2)) => {
                    let e3 = if e2 < s.len() && s[e2] == 0x20 {
                        e2 + 1
                    } else {
                        e2
                    };
                    match spec_eol(s, e3) {
                        Some((_, e4)) => Some(((a, b), e4)),
                        None => None,
                    }
                },
                None => None,
            }
        } else {
            None
        },
        None => None,
    }
}

pub proof fn lemma_integer_bounds(s: Seq<u8>, pos: int)
    requires
        0 <= pos <= s.len(),
    ensures
        spec_integer(s, pos) matches Some(t) ==> pos < t.1 <= s.len(),
{
    if 0 <= pos && pos < s.len() && (s[pos] == 0x2b || s[pos] == 0x2d) {
        lemma_digits_end_bounds(s, pos + 1);
    } else {
        lemma_digits_end_bounds(s, pos);
    }
}

proof fn lemma_section_header_bounds(s: Seq<u8>, pos: int)
    requires
        0 <= pos <= s.len(),
    ensures
        spec_section_header(s, pos) matches Some(t) ==> pos < t.1 <= s.len(),
{
    lemma_integer_bounds(s, pos);
    match spec_integer(s, pos) {
        Some((a, e1)) => {
            if e1 < s.len() && s[e1] == 0x20 {
                lemma_integer_bounds(s, e1 + 1);
            }
        },
        None => {},
    }
}

/// Parses a section heading.
fn section_header(input: &[u8], pos: usize) -> (r: Option<((i64, i64), usize)>)
    requires
        pos <= input.len(),
    ensures
        (match r {
            Some((t, p)) => spec_section_header(input@, pos as int) == Some((t, p as int)) && pos
                < p <= input.len(),
            None => spec_section_header(input@, pos as int) is None,
        }),
{
    match integer(input, pos) {
        Some((a, e1)) => {
            if !(e1 < input.len() && input[e1] == 0x20u8) {
                return None;
            }
            match integer(input, e1 + 1) {
                Some((b, e2)) => {
                    let e3 = if e2 < input.len() && input[e2] == 0x20u8 {
                        e2 + 1
                    } else {
                        e2
                    };
                    match eol(input, e3) {
                        Some((_, e4)) => Some(((a, b), e4)),
                        None => None,
                    }
                },
                None => None,
            }
        },
        None => None,
    }
}

/// The mapping the run of sections folds into, starting from `m`; at least
/// one section must parse, and sections are taken greedily until one fails
/// to parse from its heading onward.  A heading with a negative number
/// fails its section.
pub open spec fn spec_xref_sections(s: Seq<u8>, pos: int, m: Map<u32, XrefEntry>) -> Option<
    (Map<u32, XrefEntry>, int),
>
    decreases s.len() - pos,
    when 0 <= pos <= s.len()
    via spec_xref_sections_decreases
{
    match spec_section_header(s, pos) {
        Some(((start, count), p1)) => {
            if start < 0 || count < 0 {
                None
            } else {
                match spec_xref_entries(s, p1, start as int, count as int, m) {
                    Some((m2, p2)) => match spec_xref_sections(s, p2, m2) {
                        Some(rr) => Some(rr),
                        None => Some((m2, p2)),
                    },
                    None => None,
                }
            }
        },
        None => None,
    }
}

#[via_fn]
proof fn spec_xref_sections_decreases(s: Seq<u8>, pos: int, m: Map<u32, XrefEntry>) {
    lemma_section_header_bounds(s, pos);
    match spec_section_header(s, pos) {
        Some(((start, count), p1)) => {
            if 0 <= start && 0 <= count {
                lemma_entries_agree(s, p1, start as int, count as int, m);
                lemma_entries_end_bounds(s, p1, count as int);
            }
        },
        None => {},
    }
}

/// The classic cross-reference table: the `xref` keyword, a line break, one
/// or more sections, and the trailing gap.  Only in-use entries stand in
/// the mapping; the declared size is zero until a trailer supplies it.
pub open spec fn spec_xref(s: Seq<u8>, pos: int) -> Option<(Map<u32, XrefEntry>, int)> {
    if tag_matches(s, pos, seq![0x78u8, 0x72u8, 0x65u8, 0x66u8]) {
        match spec_eol(s, pos + 4) {
            Some((_, e0)) => match spec_xref_sections(s, e0, Map::empty()) {
                Some((m, p)) => Some((m, spec_space(s, p))),
                None => None,
            },
            None => None,
        }
    } else {
        None
    }
}

/// Scans `count` entries without folding them, to decide whether the whole
/// section parses before anything is inserted.
fn entries_scan(input: &[u8], pos: usize, count: i64) -> (r: Option<usize>)
    requires
        pos <= input.len(),
        count >= 0,
    ensures
        (match r {
            Some(p) => spec_entries_end(input@, pos as int, count as int) == Some(p as int) && pos
                <= p <= input.len(),
            None => spec_entries_end(input@, pos as int, count as int) is None,
        }),
{
    let mut i: i64 = 0;
    let mut p = pos;
    loop
        invariant
            0 <= i <= count,
            pos <= p <= input.len(),
            spec_entries_end(input@, pos as int, count as int) == spec_entries_end(
                input@,
                p as int,
                count - i,
            ),
        decreases count - i,
    {
        if i == count {
            return Some(p);
        }
        match xref_entry(input, p) {
            Some((_, p2)) => {
                p = p2;
                i = i + 1;
            },
            None => {
                return None;
            },
        }
    }
}

/// Parses the classic cross-reference table.
pub fn xref(input: &[u8], pos: usize) -> (r: Result<(Xref, usize), ParseError>)
    requires
        pos <= input.len(),
    ensures
        (match r {
            Ok((x, p)) => (spec_xref(input@, pos as int) matches Some((m, pe)) && x@ == m && p
                == pe) && x.size == 0 && pos < p <= input.len(),
            Err(e) => spec_xref(input@, pos as int) is None && pos <= e.position <= input.len()
                && !e.fatal,
        }),
{
    let kw: [u8; 4] = [0x78u8, 0x72u8, 0x65u8, 0x66u8];
    assert(kw@ =~= seq![0x78u8, 0x72u8, 0x65u8, 0x66u8]);
    if !match_kw(input, pos, &kw) {
        return Err(ParseError::mismatch(pos, "expected the xref keyword"));
    }
    let e0 = match eol(input, pos + 4) {
        Some((_, e)) => e,
        None => {
            return Err(ParseError::mismatch(pos + 4, "expected a line break after the keyword"));
        },
    };
    let mut x = Xref::new(0);
    let mut p = e0;
    let mut parsed_any = false;
    loop
        invariant
            pos + 4 <= e0 <= p <= input.len(),
            x.size == 0,
            !parsed_any ==> p == e0 && x@ == Map::<u32, XrefEntry>::empty(),
            parsed_any ==> spec_xref_sections(input@, e0 as int, Map::<u32, XrefEntry>::empty())
                == (match spec_xref_sections(input@, p as int, x@) {
                Some(rr) => Some(rr),
                None => Some((x@, p as int)),
            }),
        decreases input.len() - p,
    {
        let ghost m_old = x@;
        let ghost p_old = p as int;
        let failed: bool;
        match section_header(input, p) {
            Some(((start, count), p1)) => {
                if start < 0 || count < 0 {
                    failed = true;
                } else {
                    match entries_scan(input, p1, count) {
                        Some(p2) => {
                            proof {
                                lemma_entries_agree(
                                    input@,
                                    p1 as int,
                                    start as int,
                                    count as int,
                                    x@,
                                );
                            }
                            let ghost target = spec_xref_entries(
                                input@,
                                p1 as int,
                                start as int,
                                count as int,
                                m_old,
                            );
                            let mut i: i64 = 0;
                            let mut q = p1;
                            let mut key64: u64 = start as u64;
                            loop
                                invariant
                                    0 <= i <= count,
                                    p1 <= q <= input.len(),
                                    key64 == start + i,
                                    x.size == 0,
                                    target matches Some(tt) && tt.1 == p2,
                                    p2 <= input.len(),
                                    target == spec_xref_entries(
                                        input@,
                                        q as int,
                                        start + i,
                                        count - i,
                                        x@,
                                    ),
                                decreases count - i,
                            {
                                if i == count {
                                    break ;
                                }
                                match xref_entry(input, q) {
                                    Some(((off, gen, used), q2)) => {
                                        if used {
                                            let key = (key64 % 0x1_0000_0000u64) as u32;
                                            x.insert(
                                                key,
                                                XrefEntry::Normal { offset: off, generation: gen },
                                            );
                                        }
                                        q = q2;
                                        i = i + 1;
                                        key64 = key64 + 1;
                                    },
                                    None => {
                                        proof {
                                            assert(false);
                                        }
                                        return Err(
                                            ParseError::mismatch(q, "expected an entry"),
                                        );
                                    },
                                }
                            }
                            assert(target == Some((x@, q as int)));
                            assert(q == p2);
                            proof {
                                assert(spec_xref_sections(input@, p_old, m_old) == (
                                match spec_xref_sections(input@, p2 as int, x@) {
                                    Some(rr) => Some(rr),
                                    None => Some((x@, p2 as int)),
                                }));
                            }
                            p = p2;
                            parsed_any = true;
                            failed = false;
                        },
                        None => {
                            proof {
                                lemma_entries_agree(
                                    input@,
                                    p1 as int,
                                    start as int,
                                    count as int,
                                    x@,
                                );
                            }
                            failed = true;
                        },
                    }
                }
            },
            None => {
                failed = true;
            },
        }
        if failed {
            assert(spec_xref_sections(input@, p as int, x@) is None);
            if parsed_any {
                let pe = skip_space(input, p);
                return Ok((x, pe));
            } else {
                return Err(ParseError::mismatch(p, "expected a cross-reference section"));
            }
        }
    }
}

/// The object count the source trailer at `pos` declares under `Size`: the
/// last `Size` pair's value when it is a direct nonnegative integer
/// literal, and nothing otherwise — a reference, another type, or a
/// negative count cannot index a file, and counts like an absent key, which
/// is fatal for the classic path.
pub open spec fn spec_trailer_size(s: Seq<u8>, pos: int) -> Option<i64> {
    let dstart = spec_space(s, pos + 7);
    let ps = spec_dict_pair_list(s, spec_space(s, dstart + 2));
    match last_value_pos(ps, seq![0x53u8, 0x69u8, 0x7au8, 0x65u8]) {
        Some(q) => match source_int_at(s, q) {
            Some(l) => if l >= 0 {
                Some(l)
            } else {
                None
            },
            None => None,
        },
        None => None,
    }
}


proof fn lemma_trailer_size_classifies(s: Seq<u8>, p1: int, t: Dictionary)
    requires
        0 <= p1,
        p1 + 7 <= s.len(),
        dictionary_content_at(s, spec_space(s, p1 + 7), t@),
    ensures
        ({
            let sk = seq![0x53u8, 0x69u8, 0x7au8, 0x65u8];
            match spec_trailer_size(s, p1) {
                Some(l) => t@.contains_key(sk) && t@[sk] == Object::Integer(l),
                None => !t@.contains_key(sk) || !(t@[sk] is Integer) || (t@[sk] matches
                    Object::Integer(l2) && l2 < 0),
            }
        }),
{
    let sk = seq![0x53u8, 0x69u8, 0x7au8, 0x65u8];
    crate::chars::lemma_space_bounds(s, p1 + 7);
    let dstart = spec_space(s, p1 + 7);
    crate::chars::lemma_space_bounds(s, dstart + 2);
    let ps = spec_dict_pair_list(s, spec_space(s, dstart + 2));
    lemma_last_value_pos(ps, sk);
    match last_value_pos(ps, sk) {
        Some(q) => {
            let i = choose|i: int|
                0 <= i < ps.len() && (#[trigger] ps[i]).0 == sk && crate::objects::last_pair_with_key(
                    ps,
                    i,
                ) && ps[i].1 == q;
            assert(t@.contains_key(sk));
            assert(object_at(s, q, t@[sk]));
            lemma_object_at_classifies(s, q, t@[sk]);
        },
        None => {
            assert(!t@.contains_key(sk));
        },
    }
}

/// The classic path of the combined entry point: the table, then the
/// trailer, whose integral `Size` key is a hard requirement that fills the
/// declared size, truncated to 32 bits.  Its absence is a fatal failure:
/// the table has already committed, and no file can be indexed without it.
#[verifier::rlimit(100)]
fn classic_xref_and_trailer(input: &[u8], pos: usize) -> (r: Result<
    ((Xref, Dictionary), usize),
    ParseError,
>)
    requires
        pos <= input.len(),
    ensures
        (match r {
            Ok(((x, t), p)) => {
                &&& pos < p <= input.len()
                &&& (spec_xref(input@, pos as int) matches Some((m, p1)) && x@ == m
                    && spec_trailer_end(input@, p1) == Some(p as int) && dictionary_content_at(
                    input@,
                    spec_space(input@, p1 + 7),
                    t@,
                ) && (spec_trailer_size(input@, p1) matches Some(i) && x.size == i
                    % 0x1_0000_0000))
            },
            Err(e) => pos <= e.position <= input.len() && (!e.fatal ==> (match spec_xref(
                input@,
                pos as int,
            ) {
                Some((m, p1)) => spec_trailer_end(input@, p1) is None,
                None => true,
            })) && (e.fatal ==> spec_xref(input@, pos as int) is Some),
        }),
        (match spec_xref(input@, pos as int) {
            Some((m, p1)) => {
                &&& ((spec_trailer_end(input@, p1) is Some && spec_trailer_size(input@, p1)
                    is Some) ==> r is Ok)
                &&& ((spec_trailer_end(input@, p1) is Some && spec_trailer_size(input@, p1)
                    is None) ==> (r matches Err(e) && e.fatal))
            },
            None => r is Err,
        }),
{
    match xref(input, pos) {
        Ok((x, p1)) => match trailer(input, p1) {
            Ok((t, p2)) => {
                proof {
                    lemma_trailer_size_classifies(input@, p1 as int, t);
                }
                let key: [u8; 4] = [0x53u8, 0x69u8, 0x7au8, 0x65u8];
                assert(key@ =~= seq![0x53u8, 0x69u8, 0x7au8, 0x65u8]);
                let sz_opt = match t.get(key.as_slice()) {
                    Some(v) => v.as_i64(),
                    None => None,
                };
                match sz_opt {
                    Some(sz) if sz >= 0 => {
                        let szu: u32 = (sz % 0x1_0000_0000i64) as u32;
                        let mut x2 = x;
                        x2.set_size(szu);
                        Ok(((x2, t), p2))
                    },
                    _ => Err(ParseError::expected(p1, "the trailer lacks a usable Size")),
                }
            },
            Err(e2) => Err(e2),
        },
        Err(e1) => Err(e1),
    }
}

/// The classic path applies: a table and a trailer both parse at `pos`.
pub open spec fn classic_matches(s: Seq<u8>, pos: int) -> bool {
    match spec_xref(s, pos) {
        Some((m, p1)) => spec_trailer_end(s, p1) is Some,
        None => false,
    }
}

/// The combined cross-reference entry point: the classic table and trailer
/// are tried first; when that path misses without committing, the location
/// is read as an indirect object that must hold a stream, which the decoder
/// turns into the equivalent table and trailer pair.
#[verifier::rlimit(100)]
pub fn xref_and_trailer<R: Reader, D: XrefStreamDecoder>(
    input: &[u8],
    pos: usize,
    reader: &R,
    decoder: &D,
) -> (r: Result<((Xref, Dictionary), usize), ParseError>)
    requires
        pos <= input.len(),
    ensures
        (match r {
            Ok(((x, t), p)) => pos < p <= input.len() && (match spec_xref(input@, pos as int) {
                Some((m, p1)) => spec_trailer_end(input@, p1) is Some ==> ({
                    &&& x@ == m
                    &&& spec_trailer_end(input@, p1) == Some(p as int)
                    &&& dictionary_content_at(input@, spec_space(input@, p1 + 7), t@)
                    &&& (spec_trailer_size(input@, p1) matches Some(i) && x.size == i
                        % 0x1_0000_0000)
                }),
                None => true,
            }) && (!classic_matches(input@, pos as int) ==> (spec_object_id(input@, pos as int)
                matches Some((_, q1)) && tag_matches(input@, q1, seq![0x6fu8, 0x62u8, 0x6au8]) && (
            exists|st: Stream, p2: int|
                #[trigger] stream_result_post(input@, spec_space(input@, q1 + 3), st, p2)))),
            Err(e) => pos <= e.position <= input.len() && (!e.fatal ==> !classic_matches(
                input@,
                pos as int,
            )) && (e.fatal ==> (spec_xref(input@, pos as int) is Some || (spec_object_id(
                input@,
                pos as int,
            ) matches Some((_, q1)) && tag_matches(input@, q1, seq![0x6fu8, 0x62u8, 0x6au8])))),
        }),
        (match spec_xref(input@, pos as int) {
            Some((m, p1)) => {
                &&& ((spec_trailer_end(input@, p1) is Some && spec_trailer_size(input@, p1)
                    is Some) ==> r is Ok)
                &&& ((spec_trailer_end(input@, p1) is Some && spec_trailer_size(input@, p1)
                    is None) ==> (r matches Err(e) && e.fatal))
            },
            None => true,
        }),
        ((!classic_matches(input@, pos as int) && (match spec_object_id(input@, pos as int) {
            Some((_, q1)) => tag_matches(input@, q1, seq![0x6fu8, 0x62u8, 0x6au8]) && ({
                let o = spec_space(input@, q1 + 3);
                spec_direct_object_end(input@, o) is Some && !stream_follows(input@, o)
            }),
            None => true,
        })) ==> r is Err),
{
    match classic_xref_and_trailer(input, pos) {
        Ok(v) => Ok(v),
        Err(e) => {
            if e.fatal {
                return Err(e);
            }
            match indirect_object(input, pos, reader) {
                Ok(((_, obj), p)) => match obj {
                    Object::Stream(st) => {
                        let ghost gst = st;
                        let (x2, t2) = decoder.decode_xref_stream(st);
                        proof {
                            match spec_object_id(input@, pos as int) {
                                Some((_, q1)) => {
                                    let o = spec_space(input@, q1 + 3);
                                    let pw = choose|p2: int|
                                        #[trigger] stream_result_post(input@, o, gst, p2)
                                            && p as int == crate::objects::spec_after_endobj(
                                            input@,
                                            p2,
                                        );
                                    assert(stream_result_post(input@, o, gst, pw));
                                },
                                None => {},
                            }
                        }
                        Ok(((x2, t2), p))
                    },
                    _ => Err(
                        ParseError::mismatch(pos, "the object holds no cross-reference stream"),
                    ),
                },
                Err(e2) => Err(e2),
            }
        },
    }
}

} // verus!
