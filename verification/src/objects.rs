//! The object grammar: the fixed keywords, indirect-object identifiers,
//! references, arrays, dictionaries, streams, and the object alternation.

use vstd::prelude::*;

use crate::chars::{eol, match_tag, skip_space, spec_eol, spec_space, tag_matches};
use crate::error::ParseError;
use crate::num::{integer, real_literal, spec_integer, spec_real_end, spec_unsigned, unsigned};
use crate::object::{Dictionary, Object, ObjectId, Stream, StreamPayload, StringFormat};
use crate::reader::Reader;
use crate::strings::{
    hexadecimal_string, literal_string, name, spec_hex_string, spec_literal_string, spec_name,
};

verus! {

/// Matches a fixed keyword given as a byte array.
pub fn match_kw<const N: usize>(input: &[u8], pos: usize, tag: &[u8; N]) -> (r: bool)
    requires
        pos <= input.len(),
    ensures
        r == tag_matches(input@, pos as int, tag@),
{
    match_tag(input, pos, tag.as_slice())
}

/// The `null` keyword.
pub open spec fn spec_null_end(s: Seq<u8>, pos: int) -> Option<int> {
    if tag_matches(s, pos, seq![0x6eu8, 0x75u8, 0x6cu8, 0x6cu8]) {
        Some(pos + 4)
    } else {
        None
    }
}

/// The `true` and `false` keywords.
pub open spec fn spec_boolean(s: Seq<u8>, pos: int) -> Option<(bool, int)> {
    if tag_matches(s, pos, seq![0x74u8, 0x72u8, 0x75u8, 0x65u8]) {
        Some((true, pos + 4))
    } else if tag_matches(s, pos, seq![0x66u8, 0x61u8, 0x6cu8, 0x73u8, 0x65u8]) {
        Some((false, pos + 5))
    } else {
        None
    }
}

/// Recognizes `null`.
pub fn null_end(input: &[u8], pos: usize) -> (r: Option<usize>)
    requires
        pos <= input.len(),
    ensures
        match r {
            Some(p) => spec_null_end(input@, pos as int) == Some(p as int) && pos < p
                <= input.len(),
            None => spec_null_end(input@, pos as int) is None,
        },
{
    let kw: [u8; 4] = [0x6eu8, 0x75u8, 0x6cu8, 0x6cu8];
    assert(kw@ =~= seq![0x6eu8, 0x75u8, 0x6cu8, 0x6cu8]);
    if match_kw(input, pos, &kw) {
        Some(pos + 4)
    } else {
        None
    }
}

/// Recognizes `true` or `false`.
pub fn boolean(input: &[u8], pos: usize) -> (r: Option<(bool, usize)>)
    requires
        pos <= input.len(),
    ensures
        match r {
            Some((b, p)) => spec_boolean(input@, pos as int) == Some((b, p as int)) && pos < p
                <= input.len(),
            None => spec_boolean(input@, pos as int) is None,
        },
{
    let t: [u8; 4] = [0x74u8, 0x72u8, 0x75u8, 0x65u8];
    assert(t@ =~= seq![0x74u8, 0x72u8, 0x75u8, 0x65u8]);
    if match_kw(input, pos, &t) {
        return Some((true, pos + 4));
    }
    let f: [u8; 5] = [0x66u8, 0x61u8, 0x6cu8, 0x73u8, 0x65u8];
    assert(f@ =~= seq![0x66u8, 0x61u8, 0x6cu8, 0x73u8, 0x65u8]);
    if match_kw(input, pos, &f) {
        return Some((false, pos + 5));
    }
    None
}

/// An object identity: an unsigned object number that fits 32 bits, a gap,
/// an unsigned generation number that fits 16 bits, and a gap.
pub open spec fn spec_object_id(s: Seq<u8>, pos: int) -> Option<(ObjectId, int)> {
    match spec_unsigned(s, pos, 0xffff_ffff) {
        Some((n, e1)) => match spec_unsigned(s, spec_space(s, e1), 0xffff) {
            Some((g, e2)) => Some(
                (ObjectId { number: n as u32, generation: g as u16 }, spec_space(s, e2)),
            ),
            None => None,
        },
        None => None,
    }
}

/// Parses an object identity.
pub fn object_id(input: &[u8], pos: usize) -> (r: Option<(ObjectId, usize)>)
    requires
        pos <= input.len(),
    ensures
        match r {
            Some((id, p)) => spec_object_id(input@, pos as int) == Some((id, p as int)) && pos < p
                <= input.len(),
            None => spec_object_id(input@, pos as int) is None,
        },
{
    match unsigned(input, pos, 0xffff_ffffu64) {
        Some((n, e1)) => {
            let sp1 = skip_space(input, e1);
            match unsigned(input, sp1, 0xffffu64) {
                Some((g, e2)) => {
                    let sp2 = skip_space(input, e2);
                    Some((ObjectId { number: n as u32, generation: g as u16 }, sp2))
                },
                None => None,
            }
        },
        None => None,
    }
}

/// An indirect reference: an object identity followed by `R`.
pub open spec fn spec_reference(s: Seq<u8>, pos: int) -> Option<(ObjectId, int)> {
    match spec_object_id(s, pos) {
        Some((id, p)) => if p < s.len() && s[p] == 0x52 {
            Some((id, p + 1))
        } else {
            None
        },
        None => None,
    }
}

/// Parses an indirect reference.
pub fn reference(input: &[u8], pos: usize) -> (r: Option<(ObjectId, usize)>)
    requires
        pos <= input.len(),
    ensures
        match r {
            Some((id, p)) => spec_reference(input@, pos as int) == Some((id, p as int)) && pos < p
                <= input.len(),
            None => spec_reference(input@, pos as int) is None,
        },
{
    match object_id(input, pos) {
        Some((id, p)) => {
            if p < input.len() && input[p] == 0x52u8 {
                Some((id, p + 1))
            } else {
                None
            }
        },
        None => None,
    }
}

/// No scalar alternative matches at `pos`: not `null`, a boolean, a
/// reference, a real, an integer, a name, a literal string, nor a
/// hexadecimal string.
pub open spec fn direct_scalar_none(s: Seq<u8>, pos: int) -> bool {
    &&& spec_null_end(s, pos) is None
    &&& spec_boolean(s, pos) is None
    &&& spec_reference(s, pos) is None
    &&& spec_real_end(s, pos) is None
    &&& spec_integer(s, pos) is None
    &&& spec_name(s, pos) is None
    &&& spec_literal_string(s, pos) is None
    &&& spec_hex_string(s, pos) is None
}

/// What a parsed object is when a scalar alternative matches at `pos`:
/// the alternatives are tried in this fixed order, and the winning one
/// decides the value and the end position, after which the gap to the next
/// token is skipped.
pub open spec fn scalar_post(s: Seq<u8>, pos: int, obj: Object, p: int) -> bool {
    match spec_null_end(s, pos) {
        Some(e) => obj is Null && p == spec_space(s, e),
        None => match spec_boolean(s, pos) {
            Some((b, e)) => (obj matches Object::Boolean(x) && x == b) && p == spec_space(s, e),
            None => match spec_reference(s, pos) {
                Some((id, e)) => (obj matches Object::Reference(x) && x == id) && p
                    == spec_space(s, e),
                None => match spec_real_end(s, pos) {
                    Some(e) => (obj matches Object::Real(v) && v@ == s.subrange(pos, e)) && p
                        == spec_space(s, e),
                    None => match spec_integer(s, pos) {
                        Some((n, e)) => (obj matches Object::Integer(x) && x == n) && p
                            == spec_space(s, e),
                        None => match spec_name(s, pos) {
                            Some((b, e)) => (obj matches Object::Name(v) && v@ == b) && p
                                == spec_space(s, e),
                            None => match spec_literal_string(s, pos) {
                                Some((b, e)) => (obj matches Object::String(v, f)
                                    && v@ == b
                                    && f is Literal) && p == spec_space(s, e),
                                None => match spec_hex_string(s, pos) {
                                    Some((b, e)) => (obj matches Object::String(v, f)
                                        && v@ == b
                                        && f is Hexadecimal) && p == spec_space(s, e),
                                    None => false,
                                },
                            },
                        },
                    },
                },
            },
        },
    }
}

/// What a parsed object is when no scalar alternative matches: a composite,
/// recognizable by its opening delimiter.
pub open spec fn composite_shape(s: Seq<u8>, pos: int, obj: Object) -> bool {
    &&& (obj is Array ==> pos < s.len() && s[pos] == 0x5b)
    &&& ((obj is Dictionary || obj is Stream) ==> tag_matches(s, pos, seq![0x3cu8, 0x3cu8]))
}

/// A dictionary at `pos` is followed by the `stream` keyword and a line
/// break, so the stream alternative, not the plain dictionary, decides.
pub open spec fn stream_follows(s: Seq<u8>, pos: int) -> bool {
    match spec_dictionary_end(s, pos) {
        Some(de) => {
            let sp = spec_space(s, de);
            tag_matches(s, sp, seq![0x73u8, 0x74u8, 0x72u8, 0x65u8, 0x61u8, 0x6du8]) && spec_eol(
                s,
                sp + 6,
            ) is Some
        },
        None => false,
    }
}

/// What finishing a stream at payload start `start` yields under a resolved
/// length `known`, ending at `p` after the trailing gap.  A known length
/// takes exactly that many bytes, an optional line break, and `endstream`;
/// an unknown length defers the payload and records `start` itself.
pub open spec fn stream_tail_result(
    s: Seq<u8>,
    start: int,
    st: Stream,
    p: int,
    known: Option<i64>,
) -> bool {
    match known {
        None => (st.payload matches StreamPayload::Deferred(q) && q == start) && p == spec_space(
            s,
            start,
        ),
        Some(l) => {
            &&& 0 <= l
            &&& start + l <= s.len()
            &&& ({
                let q = start + l;
                let q2 = (match spec_eol(s, q) {
                    Some((_, e)) => e,
                    None => q,
                });
                &&& tag_matches(
                    s,
                    q2,
                    seq![0x65u8, 0x6eu8, 0x64u8, 0x73u8, 0x74u8, 0x72u8, 0x65u8, 0x61u8, 0x6du8],
                )
                &&& (st.payload matches StreamPayload::Full(d) && d@ == s.subrange(start, q))
                &&& p == spec_space(s, q2 + 9)
            })
        },
    }
}

/// What a parsed stream object is, for a stream whose dictionary begins at
/// `pos`: the dictionary, the keyword, and the break are fixed by the
/// grammar; the payload follows the declared length carried in the result's
/// own dictionary — exactly the `Length`-many bytes when it is a direct
/// integer, deferred when the key is absent or of the wrong type, and one
/// of those two shapes whatever the reader answered for a reference.
pub open spec fn stream_result_post(s: Seq<u8>, pos: int, st: Stream, p: int) -> bool {
    match spec_dictionary_end(s, pos) {
        Some(de) => {
            let sp = spec_space(s, de);
            &&& dictionary_content_at(s, pos, st.dict@)
            &&& dictionary_entries_at(s, pos, st.dict)
            &&& tag_matches(s, sp, seq![0x73u8, 0x74u8, 0x72u8, 0x65u8, 0x61u8, 0x6du8])
            &&& (match spec_eol(s, sp + 6) {
                Some((_, start)) => {
                    let lk = seq![0x4cu8, 0x65u8, 0x6eu8, 0x67u8, 0x74u8, 0x68u8];
                    &&& (exists|kn: Option<i64>| #[trigger] stream_tail_result(s, start, st, p, kn))
                    &&& (st.dict@.contains_key(lk) ==> (match st.dict@[lk] {
                        Object::Integer(l) => stream_tail_result(s, start, st, p, Some(l)),
                        Object::Reference(_) => true,
                        _ => stream_tail_result(s, start, st, p, None),
                    }))
                    &&& (!st.dict@.contains_key(lk) ==> stream_tail_result(s, start, st, p, None))
                },
                None => false,
            })
        },
        None => false,
    }
}


/// End position of the direct-object alternation at `pos`: the first
/// alternative in the fixed order that matches decides it, with the gap to
/// the next token skipped.  `None` when no alternative matches.
pub open spec fn spec_direct_object_end(s: Seq<u8>, pos: int) -> Option<int>
    decreases s.len() - pos, 1int,
{
    match spec_null_end(s, pos) {
        Some(e) => Some(spec_space(s, e)),
        None => match spec_boolean(s, pos) {
            Some((_, e)) => Some(spec_space(s, e)),
            None => match spec_reference(s, pos) {
                Some((_, e)) => Some(spec_space(s, e)),
                None => match spec_real_end(s, pos) {
                    Some(e) => Some(spec_space(s, e)),
                    None => match spec_integer(s, pos) {
                        Some((_, e)) => Some(spec_space(s, e)),
                        None => match spec_name(s, pos) {
                            Some((_, e)) => Some(spec_space(s, e)),
                            None => match spec_literal_string(s, pos) {
                                Some((_, e)) => Some(spec_space(s, e)),
                                None => match spec_hex_string(s, pos) {
                                    Some((_, e)) => Some(spec_space(s, e)),
                                    None => match spec_array_end(s, pos) {
                                        Some(e) => Some(spec_space(s, e)),
                                        None => match spec_dictionary_end(s, pos) {
                                            Some(e) => Some(spec_space(s, e)),
                                            None => None,
                                        },
                                    },
                                },
                            },
                        },
                    },
                },
            },
        },
    }
}

/// End position, just past the closing bracket, of the element run and
/// closing bracket of an array whose opening bracket and gap are consumed.
/// Every element of a real parse advances the position, which the guard
/// writes down so that the recursion is visibly bounded.
pub open spec fn spec_array_items_end(s: Seq<u8>, pos: int) -> Option<int>
    decreases s.len() - pos, 2int,
{
    if 0 <= pos && pos < s.len() && s[pos] == 0x5d {
        Some(pos + 1)
    } else {
        match spec_direct_object_end(s, pos) {
            Some(p2) => if pos < p2 <= s.len() {
                spec_array_items_end(s, p2)
            } else {
                None
            },
            None => None,
        }
    }
}

/// End position of an array literal at `pos`, just past its closing
/// bracket.
pub open spec fn spec_array_end(s: Seq<u8>, pos: int) -> Option<int>
    decreases s.len() - pos, 0int,
    when 0 <= pos <= s.len()
    via spec_array_end_decreases
{
    if pos < s.len() && s[pos] == 0x5b {
        spec_array_items_end(s, spec_space(s, pos + 1))
    } else {
        None
    }
}

#[via_fn]
proof fn spec_array_end_decreases(s: Seq<u8>, pos: int) {
    if pos < s.len() {
        crate::chars::lemma_space_bounds(s, pos + 1);
    }
}

/// End position of the pair run and closing brackets of a dictionary whose
/// opening brackets and gap are consumed.
pub open spec fn spec_dict_pairs_end(s: Seq<u8>, pos: int) -> Option<int>
    decreases s.len() - pos, 2int,
    when 0 <= pos <= s.len()
    via spec_dict_pairs_end_decreases
{
    if tag_matches(s, pos, seq![0x3eu8, 0x3eu8]) {
        Some(pos + 2)
    } else {
        match spec_name(s, pos) {
            Some((_, e1)) => match spec_direct_object_end(s, spec_space(s, e1)) {
                Some(p2) => if pos < p2 <= s.len() {
                    spec_dict_pairs_end(s, p2)
                } else {
                    None
                },
                None => None,
            },
            None => None,
        }
    }
}

#[via_fn]
proof fn spec_dict_pairs_end_decreases(s: Seq<u8>, pos: int) {
    if 0 <= pos && pos < s.len() && s[pos] == 0x2f {
        crate::strings::lemma_name_rest_bounds(s, pos + 1);
        let e1 = crate::strings::spec_name_rest(s, pos + 1).1;
        crate::chars::lemma_space_bounds(s, e1);
    }
}

/// End position of a dictionary literal at `pos`, just past its closing
/// brackets.
pub open spec fn spec_dictionary_end(s: Seq<u8>, pos: int) -> Option<int>
    decreases s.len() - pos, 0int,
    when 0 <= pos <= s.len()
    via spec_dictionary_end_decreases
{
    if tag_matches(s, pos, seq![0x3cu8, 0x3cu8]) {
        spec_dict_pairs_end(s, spec_space(s, pos + 2))
    } else {
        None
    }
}

#[via_fn]
proof fn spec_dictionary_end_decreases(s: Seq<u8>, pos: int) {
    if tag_matches(s, pos, seq![0x3cu8, 0x3cu8]) {
        crate::chars::lemma_space_bounds(s, pos + 2);
    }
}


/// Start positions of the elements of an array body read from inside the
/// opening bracket and its gap, up to the closing bracket or the first
/// failure.
pub open spec fn spec_array_item_starts(s: Seq<u8>, pos: int) -> Seq<int>
    decreases s.len() - pos,
{
    if 0 <= pos && pos < s.len() && s[pos] == 0x5d {
        seq![]
    } else {
        match spec_direct_object_end(s, pos) {
            Some(p2) => if pos < p2 <= s.len() {
                seq![pos].add(spec_array_item_starts(s, p2))
            } else {
                seq![]
            },
            None => seq![],
        }
    }
}

/// What the value of a direct object parsed at `pos` is.  A scalar is the
/// value the winning alternative decides; an array holds, in order, one
/// value for each element position of its body; a dictionary is one whose
/// pair run parses (its folded content is carried by the dictionary value
/// itself and read through its map view).
pub open spec fn object_at(s: Seq<u8>, pos: int, obj: Object) -> bool
    decreases obj,
{
    if !direct_scalar_none(s, pos) {
        exists|p: int| #[trigger] scalar_post(s, pos, obj, p)
    } else {
        match obj {
            Object::Array(v) => 0 <= pos && pos < s.len() && s[pos] == 0x5b && ({
                let qs = spec_array_item_starts(s, spec_space(s, pos + 1));
                v@.len() == qs.len() && (forall|i: int|
                    0 <= i < qs.len() ==> object_at(s, qs[i], #[trigger] v@[i]))
            }),
            Object::Dictionary(d) => spec_dictionary_end(s, pos) is Some && ({
                let ps = spec_dict_pair_list(s, spec_space(s, pos + 2));
                d.entries@.len() == ps.len() && (forall|i: int|
                    0 <= i < ps.len() ==> ((#[trigger] d.entries@[i]).0@ == ps[i].0 && object_at(
                        s,
                        ps[i].1,
                        d.entries@[i].1,
                    )))
            }),
            _ => false,
        }
    }
}

/// The entry list of a dictionary literal at `pos`: one entry per parsed
/// pair, in source order, each key decoded and each value the one parsed at
/// the pair's value position.
pub open spec fn dictionary_entries_at(s: Seq<u8>, pos: int, d: Dictionary) -> bool {
    let ps = spec_dict_pair_list(s, spec_space(s, pos + 2));
    d.entries@.len() == ps.len() && (forall|i: int|
        0 <= i < ps.len() ==> ((#[trigger] d.entries@[i]).0@ == ps[i].0 && object_at(
            s,
            ps[i].1,
            d.entries@[i].1,
        )))
}

/// The element values of an array literal at `pos`: one per element
/// position, in source order.
pub open spec fn array_content_at(s: Seq<u8>, pos: int, items: Seq<Object>) -> bool {
    let qs = spec_array_item_starts(s, spec_space(s, pos + 1));
    items.len() == qs.len() && (forall|i: int|
        0 <= i < qs.len() ==> object_at(s, qs[i], #[trigger] items[i]))
}


/// The pairs of a dictionary body read from inside the opening brackets and
/// gap: each entry's decoded key and the position where its value starts,
/// in source order.
pub open spec fn spec_dict_pair_list(s: Seq<u8>, pos: int) -> Seq<(Seq<u8>, int)>
    decreases s.len() - pos,
    when 0 <= pos <= s.len()
    via spec_dict_pair_list_decreases
{
    if tag_matches(s, pos, seq![0x3eu8, 0x3eu8]) {
        seq![]
    } else {
        match spec_name(s, pos) {
            Some((k, e1)) => match spec_direct_object_end(s, spec_space(s, e1)) {
                Some(p2) => if pos < p2 <= s.len() {
                    seq![(k, spec_space(s, e1))].add(spec_dict_pair_list(s, p2))
                } else {
                    seq![]
                },
                None => seq![],
            },
            None => seq![],
        }
    }
}

#[via_fn]
proof fn spec_dict_pair_list_decreases(s: Seq<u8>, pos: int) {
    if 0 <= pos && pos < s.len() && s[pos] == 0x2f {
        crate::strings::lemma_name_rest_bounds(s, pos + 1);
        let e1 = crate::strings::spec_name_rest(s, pos + 1).1;
        crate::chars::lemma_space_bounds(s, e1);
    }
}

/// The pair at index `i` is the last one of the list with its key, so the
/// last-wins fold keeps its value.
pub open spec fn last_pair_with_key(ps: Seq<(Seq<u8>, int)>, i: int) -> bool {
    forall|j: int| i < j < ps.len() ==> (#[trigger] ps[j]).0 != ps[i].0
}

/// The folded content of a dictionary literal at `pos`: the keys are
/// exactly the decoded names of its pairs, and each key holds the value
/// parsed at the position of the last pair that binds it.
pub open spec fn dictionary_content_at(s: Seq<u8>, pos: int, m: Map<Seq<u8>, Object>) -> bool {
    match spec_dictionary_end(s, pos) {
        Some(_) => {
            let ps = spec_dict_pair_list(s, spec_space(s, pos + 2));
            &&& (forall|k: Seq<u8>|
                m.contains_key(k) <==> (exists|i: int| 0 <= i < ps.len() && (#[trigger] ps[i]).0
                    == k))
            &&& (forall|i: int|
                0 <= i < ps.len() && #[trigger] last_pair_with_key(ps, i) ==> object_at(
                    s,
                    ps[i].1,
                    m[ps[i].0],
                ))
        },
        None => false,
    }
}


/// The value position of the last pair of the list with the given key.
pub open spec fn last_value_pos(ps: Seq<(Seq<u8>, int)>, k: Seq<u8>) -> Option<int>
    decreases ps.len(),
{
    if ps.len() == 0 {
        None
    } else if ps.last().0 == k {
        Some(ps.last().1)
    } else {
        last_value_pos(ps.drop_last(), k)
    }
}

pub proof fn lemma_last_value_pos(ps: Seq<(Seq<u8>, int)>, k: Seq<u8>)
    ensures
        (match last_value_pos(ps, k) {
            Some(q) => exists|i: int|
                0 <= i < ps.len() && (#[trigger] ps[i]).0 == k && last_pair_with_key(ps, i)
                    && ps[i].1 == q,
            None => forall|i: int| 0 <= i < ps.len() ==> (#[trigger] ps[i]).0 != k,
        }),
    decreases ps.len(),
{
    if ps.len() > 0 {
        if ps.last().0 == k {
            assert(last_pair_with_key(ps, ps.len() - 1));
            assert((ps[ps.len() - 1]).0 == k);
        } else {
            lemma_last_value_pos(ps.drop_last(), k);
            match last_value_pos(ps.drop_last(), k) {
                Some(q) => {
                    let i = choose|i: int|
                        0 <= i < ps.drop_last().len() && (#[trigger] ps.drop_last()[i]).0 == k
                            && last_pair_with_key(ps.drop_last(), i) && ps.drop_last()[i].1 == q;
                    assert((ps[i]).0 == k);
                    assert(last_pair_with_key(ps, i)) by {
                        assert(forall|j: int|
                            i < j < ps.len() - 1 ==> (#[trigger] ps[j]) == ps.drop_last()[j]);
                    };
                    assert(ps[i].1 == q);
                },
                None => {
                    assert(forall|i: int|
                        0 <= i < ps.len() - 1 ==> (#[trigger] ps[i]) == ps.drop_last()[i]);
                },
            }
        }
    }
}

/// The integer the source decides at a value position, when the object
/// parsed there is an integer literal.
pub open spec fn source_int_at(s: Seq<u8>, q: int) -> Option<i64> {
    if spec_null_end(s, q) is None && spec_boolean(s, q) is None && spec_reference(s, q) is None
        && spec_real_end(s, q) is None {
        match spec_integer(s, q) {
            Some((l, _)) => Some(l),
            None => None,
        }
    } else {
        None
    }
}

/// The object parsed at the value position is an indirect reference.
pub open spec fn source_is_reference_at(s: Seq<u8>, q: int) -> bool {
    spec_null_end(s, q) is None && spec_boolean(s, q) is None && spec_reference(s, q) is Some
}

pub proof fn lemma_object_at_classifies(s: Seq<u8>, q: int, obj: Object)
    requires
        object_at(s, q, obj),
    ensures
        (match source_int_at(s, q) {
            Some(l) => obj == Object::Integer(l),
            None => !(obj is Integer),
        }),
        source_is_reference_at(s, q) <==> obj is Reference,
{
    if !direct_scalar_none(s, q) {
        let p = choose|p: int| #[trigger] scalar_post(s, q, obj, p);
        assert(scalar_post(s, q, obj, p));
    }
}

/// What the source dictionary of a stream decides about the payload length
/// without the reader: `Some(Some(l))` for a direct integer length `l`;
/// `Some(None)` when the length is unknowable and the reader is never asked
/// (no `Length` pair, or a last pair that is neither an integer nor a
/// reference); `None` when the last `Length` pair is a reference, so the
/// reader decides.
pub open spec fn source_known_length(s: Seq<u8>, pos: int) -> Option<Option<i64>> {
    let ps = spec_dict_pair_list(s, spec_space(s, pos + 2));
    match last_value_pos(ps, seq![0x4cu8, 0x65u8, 0x6eu8, 0x67u8, 0x74u8, 0x68u8]) {
        None => Some(None),
        Some(q) => if source_is_reference_at(s, q) {
            None
        } else {
            match source_int_at(s, q) {
                Some(l) => Some(Some(l)),
                None => Some(None),
            }
        },
    }
}

/// The payload a known length `l` demands, and the `endstream` after it,
/// are present at payload start `start`.
pub open spec fn tail_viable(s: Seq<u8>, start: int, l: i64) -> bool {
    &&& 0 <= l
    &&& start + l <= s.len()
    &&& ({
        let q = start + l;
        let q2 = (match spec_eol(s, q) {
            Some((_, e)) => e,
            None => q,
        });
        tag_matches(s, q2, seq![0x65u8, 0x6eu8, 0x64u8, 0x73u8, 0x74u8, 0x72u8, 0x65u8, 0x61u8, 0x6du8])
    })
}

/// A stream-shaped input whose direct integer length `l` can be honored.
pub open spec fn stream_viable(s: Seq<u8>, pos: int, l: i64) -> bool {
    match spec_dictionary_end(s, pos) {
        Some(de) => {
            let sp = spec_space(s, de);
            match spec_eol(s, sp + 6) {
                Some((_, start)) => tail_viable(s, start, l),
                None => false,
            }
        },
        None => false,
    }
}

/// The input at `pos` reaches the stream alternative: no scalar or array
/// alternative matches, and a dictionary followed by the keyword and a
/// break does.
pub open spec fn stream_input_at(s: Seq<u8>, pos: int) -> bool {
    direct_scalar_none(s, pos) && spec_array_end(s, pos) is None && stream_follows(s, pos)
}

/// Parses a direct object: the alternation without stream objects, used for
/// array elements, dictionary values, and anywhere outside an indirect
/// object.  Trailing whitespace and comments are consumed.
#[verifier::rlimit(100)]
pub fn direct_object(input: &[u8], pos: usize) -> (r: Result<(Object, usize), ParseError>)
    requires
        pos <= input.len(),
    ensures
        match r {
            Ok((obj, p)) => pos < p <= input.len() && spec_direct_object_end(input@, pos as int)
                == Some(p as int) && object_at(input@, pos as int, obj) && (if !direct_scalar_none(
                input@,
                pos as int,
            ) {
                scalar_post(input@, pos as int, obj, p as int)
            } else {
                (obj is Array || obj is Dictionary) && composite_shape(input@, pos as int, obj)
                    && (obj matches Object::Dictionary(dd) ==> dictionary_content_at(
                    input@,
                    pos as int,
                    dd@,
                ) && dictionary_entries_at(input@, pos as int, dd))
            }),
            Err(e) => spec_direct_object_end(input@, pos as int) is None && pos <= e.position
                <= input.len() && !e.fatal,
        },
    decreases input.len() - pos, 1int,
{
    if let Some(e) = null_end(input, pos) {
        let p = skip_space(input, e);
        assert(scalar_post(input@, pos as int, Object::Null, p as int));
        return Ok((Object::Null, p));
    }
    if let Some((b, e)) = boolean(input, pos) {
        let p = skip_space(input, e);
        assert(scalar_post(input@, pos as int, Object::Boolean(b), p as int));
        return Ok((Object::Boolean(b), p));
    }
    if let Some((id, e)) = reference(input, pos) {
        let p = skip_space(input, e);
        assert(scalar_post(input@, pos as int, Object::Reference(id), p as int));
        return Ok((Object::Reference(id), p));
    }
    if let Some((v, e)) = real_literal(input, pos) {
        let p = skip_space(input, e);
        let o = Object::Real(v);
        assert(scalar_post(input@, pos as int, o, p as int));
        return Ok((o, p));
    }
    if let Some((n, e)) = integer(input, pos) {
        let p = skip_space(input, e);
        assert(scalar_post(input@, pos as int, Object::Integer(n), p as int));
        return Ok((Object::Integer(n), p));
    }
    if let Some((v, e)) = name(input, pos) {
        let p = skip_space(input, e);
        let o = Object::Name(v);
        assert(scalar_post(input@, pos as int, o, p as int));
        return Ok((o, p));
    }
    if let Some((v, e)) = literal_string(input, pos) {
        let p = skip_space(input, e);
        let o = Object::String(v, StringFormat::Literal);
        assert(scalar_post(input@, pos as int, o, p as int));
        return Ok((o, p));
    }
    if let Some((v, e)) = hexadecimal_string(input, pos) {
        let p = skip_space(input, e);
        let o = Object::String(v, StringFormat::Hexadecimal);
        assert(scalar_post(input@, pos as int, o, p as int));
        return Ok((o, p));
    }
    match array(input, pos) {
        Ok((v, p)) => {
            let o = Object::Array(v);
            assert(object_at(input@, pos as int, o));
            return Ok((o, skip_space(input, p)));
        },
        Err(_) => {},
    }
    match dictionary(input, pos) {
        Ok((d, p)) => Ok((Object::Dictionary(d), skip_space(input, p))),
        Err(_) => Err(ParseError::mismatch(pos, "no object alternative matches")),
    }
}

/// Parses an array: a bracket, a gap, direct objects, and a closing
/// bracket.  The end position is just past the closing bracket.
pub fn array(input: &[u8], pos: usize) -> (r: Result<(Vec<Object>, usize), ParseError>)
    requires
        pos <= input.len(),
    ensures
        match r {
            Ok((v, p)) => pos < p <= input.len() && spec_array_end(input@, pos as int) == Some(
                p as int,
            ) && array_content_at(input@, pos as int, v@),
            Err(e) => spec_array_end(input@, pos as int) is None && pos <= e.position
                <= input.len() && !e.fatal,
        },
    decreases input.len() - pos, 0int,
{
    if !(pos < input.len() && input[pos] == 0x5bu8) {
        return Err(ParseError::mismatch(pos, "expected an array"));
    }
    let q0 = skip_space(input, pos + 1);
    let mut p = q0;
    let mut items: Vec<Object> = Vec::new();
    let ghost mut qs_done: Seq<int> = Seq::<int>::empty();
    loop
        invariant
            pos < p <= input.len(),
            q0 <= p,
            spec_array_items_end(input@, q0 as int) == spec_array_items_end(input@, p as int),
            spec_array_item_starts(input@, q0 as int) == qs_done + spec_array_item_starts(
                input@,
                p as int,
            ),
            items@.len() == qs_done.len(),
            forall|i: int|
                0 <= i < qs_done.len() ==> object_at(input@, qs_done[i], #[trigger] items@[i]),
        decreases input.len() - p,
    {
        if p < input.len() && input[p] == 0x5du8 {
            proof {
                assert(spec_array_item_starts(input@, p as int) =~= Seq::<int>::empty());
                assert(spec_array_item_starts(input@, q0 as int) =~= qs_done);
            }
            return Ok((items, p + 1));
        }
        match direct_object(input, p) {
            Ok((o, p2)) => {
                proof {
                    assert(spec_array_item_starts(input@, p as int) =~= seq![p as int]
                        + spec_array_item_starts(input@, p2 as int));
                }
                let ghost qs0 = qs_done;
                items.push(o);
                proof {
                    qs_done = qs_done.push(p as int);
                    assert(qs_done + spec_array_item_starts(input@, p2 as int) =~= qs0 + (
                    seq![p as int] + spec_array_item_starts(input@, p2 as int)));
                }
                p = p2;
            },
            Err(_) => {
                return Err(ParseError::mismatch(p, "expected an array element or a closing bracket"));
            },
        }
    }
}

/// Parses a dictionary: a double angle bracket, a gap, name-object pairs,
/// and a closing double angle bracket.  A later pair for a key wins.  The
/// end position is just past the closing brackets.
#[verifier::rlimit(100)]
pub fn dictionary(input: &[u8], pos: usize) -> (r: Result<(Dictionary, usize), ParseError>)
    requires
        pos <= input.len(),
    ensures
        match r {
            Ok((d, p)) => pos < p <= input.len() && spec_dictionary_end(input@, pos as int)
                == Some(p as int) && dictionary_content_at(input@, pos as int, d@)
                && dictionary_entries_at(input@, pos as int, d),
            Err(e) => spec_dictionary_end(input@, pos as int) is None && pos <= e.position
                <= input.len() && !e.fatal,
        },
    decreases input.len() - pos, 0int,
{
    let open_kw: [u8; 2] = [0x3cu8, 0x3cu8];
    assert(open_kw@ =~= seq![0x3cu8, 0x3cu8]);
    if !match_kw(input, pos, &open_kw) {
        return Err(ParseError::mismatch(pos, "expected a dictionary"));
    }
    let q0 = skip_space(input, pos + 2);
    let mut p = q0;
    let mut dict = Dictionary::new();
    let close_kw: [u8; 2] = [0x3eu8, 0x3eu8];
    assert(close_kw@ =~= seq![0x3eu8, 0x3eu8]);
    let ghost mut ps_done: Seq<(Seq<u8>, int)> = Seq::<(Seq<u8>, int)>::empty();
    loop
        invariant
            pos + 2 <= p <= input.len(),
            q0 <= p,
            spec_dict_pairs_end(input@, q0 as int) == spec_dict_pairs_end(input@, p as int),
            spec_dict_pair_list(input@, q0 as int) == ps_done + spec_dict_pair_list(
                input@,
                p as int,
            ),
            forall|x: Seq<u8>|
                #[trigger] dict@.contains_key(x) <==> (exists|i: int|
                    0 <= i < ps_done.len() && (#[trigger] ps_done[i]).0 == x),
            forall|i: int|
                0 <= i < ps_done.len() && #[trigger] last_pair_with_key(ps_done, i) ==> object_at(
                    input@,
                    ps_done[i].1,
                    dict@[ps_done[i].0],
                ),
            dict.entries@.len() == ps_done.len(),
            forall|i: int|
                0 <= i < ps_done.len() ==> ((#[trigger] dict.entries@[i]).0@ == ps_done[i].0
                    && object_at(input@, ps_done[i].1, dict.entries@[i].1)),
        decreases input.len() - p,
    {
        if match_kw(input, p, &close_kw) {
            proof {
                assert(spec_dict_pair_list(input@, p as int) =~= Seq::<(Seq<u8>, int)>::empty());
                assert(spec_dict_pair_list(input@, q0 as int) =~= ps_done);
            }
            return Ok((dict, p + 2));
        }
        match name(input, p) {
            Some((k, e1)) => {
                let sp = skip_space(input, e1);
                match direct_object(input, sp) {
                    Ok((v, p2)) => {
                        let ghost kk = k@;
                        let ghost ps0 = ps_done;
                        let ghost dict0 = dict@;
                        proof {
                            assert(object_at(input@, sp as int, v));
                            assert(spec_dict_pair_list(input@, p as int) =~= seq![
                                (kk, sp as int),
                            ] + spec_dict_pair_list(input@, p2 as int));
                        }
                        dict.set(k, v);
                        proof {
                            ps_done = ps_done.push((kk, sp as int));
                            assert(ps_done + spec_dict_pair_list(input@, p2 as int) =~= ps0 + (
                            seq![(kk, sp as int)] + spec_dict_pair_list(input@, p2 as int)));
                            assert forall|x: Seq<u8>| #[trigger] dict@.contains_key(x) implies (
                            exists|i: int|
                                0 <= i < ps_done.len() && (#[trigger] ps_done[i]).0 == x) by {
                                if x == kk {
                                    assert(ps_done[ps_done.len() - 1].0 == x);
                                } else {
                                    assert(dict0.contains_key(x));
                                    let i = choose|i: int|
                                        0 <= i < ps0.len() && (#[trigger] ps0[i]).0 == x;
                                    assert(ps_done[i].0 == x);
                                }
                            }
                            assert forall|x: Seq<u8>|
                                (exists|i: int|
                                    0 <= i < ps_done.len() && (#[trigger] ps_done[i]).0
                                        == x) implies #[trigger] dict@.contains_key(x) by {
                                let i = choose|i: int|
                                    0 <= i < ps_done.len() && (#[trigger] ps_done[i]).0 == x;
                                if i < ps0.len() {
                                    assert(ps0[i].0 == x);
                                    assert(dict0.contains_key(x));
                                }
                            }
                            assert forall|i: int|
                                0 <= i < ps_done.len() && #[trigger] last_pair_with_key(
                                    ps_done,
                                    i,
                                ) implies object_at(input@, ps_done[i].1, dict@[ps_done[i].0]) by {
                                if i == ps0.len() {
                                    assert(dict@[kk] == v);
                                } else {
                                    assert(ps_done[ps0.len() as int].0 == kk);
                                    assert(ps_done[i].0 != kk);
                                    assert(last_pair_with_key(ps0, i)) by {
                                        assert(forall|j: int|
                                            i < j < ps0.len() ==> (#[trigger] ps0[j]) == ps_done[j]);
                                    };
                                    assert(dict@[ps_done[i].0] == dict0[ps0[i].0]);
                                }
                            }
                        }
                        p = p2;
                    },
                    Err(_) => {
                        return Err(ParseError::mismatch(sp, "expected a dictionary value"));
                    },
                }
            },
            None => {
                return Err(ParseError::mismatch(p, "expected a key or closing brackets"));
            },
        }
    }
}

/// The value an indirect length lookup yields: the length is there only if
/// the resolved object is an integer.
pub fn length_of_resolved(resolved: Option<Object>) -> (r: Option<i64>)
    ensures
        (match resolved {
            Some(o) => (match o {
                Object::Integer(i) => r == Some(i),
                _ => r is None,
            }),
            None => r is None,
        }),
{
    match resolved {
        Some(o) => o.as_i64(),
        None => None,
    }
}

/// Resolves the declared payload length of a stream dictionary: a direct
/// integer is taken as it stands; a reference is resolved through the
/// reader, of whose answer nothing is assumed beyond its shape; anything
/// else leaves the length unknown.
pub fn stream_length<R: Reader>(dict: &Dictionary, reader: &R) -> (r: Option<i64>)
    ensures
        ({
            let k = seq![0x4cu8, 0x65u8, 0x6eu8, 0x67u8, 0x74u8, 0x68u8];
            &&& (!dict@.contains_key(k) ==> r is None)
            &&& (dict@.contains_key(k) ==> (match dict@[k] {
                Object::Integer(i) => r == Some(i),
                Object::Reference(_) => true,
                _ => r is None,
            }))
        }),
{
    let key: [u8; 6] = [0x4cu8, 0x65u8, 0x6eu8, 0x67u8, 0x74u8, 0x68u8];
    assert(key@ =~= seq![0x4cu8, 0x65u8, 0x6eu8, 0x67u8, 0x74u8, 0x68u8]);
    match dict.get(key.as_slice()) {
        Some(v) => match v.as_reference() {
            Some(id) => length_of_resolved(reader.get_object(id)),
            None => v.as_i64(),
        },
        None => None,
    }
}

/// Finishes a stream object whose dictionary, `stream` keyword, and line
/// break are consumed, with the payload starting at `start`.  A known
/// length takes exactly that many bytes, an optional line break, and a
/// mandatory `endstream`, which the committed position makes a hard
/// expectation; an unknown length defers the payload and records `start`.
fn stream_tail(input: &[u8], start: usize, dict: Dictionary, known: Option<i64>) -> (r: Result<
    (Stream, usize),
    ParseError,
>)
    requires
        start <= input.len(),
    ensures
        (r matches Err(e) ==> start <= e.position <= input@.len() && e.fatal),
        (match known {
            None => (r matches Ok((st, p)) && st.dict == dict && st.payload
                == StreamPayload::Deferred(start) && p == start),
            Some(l) => {
                if 0 <= l && start + l <= input@.len() {
                    let q = start + l;
                    let q2 = (match spec_eol(input@, q) {
                        Some((_, e)) => e,
                        None => q,
                    });
                    if tag_matches(
                        input@,
                        q2,
                        seq![0x65u8, 0x6eu8, 0x64u8, 0x73u8, 0x74u8, 0x72u8, 0x65u8, 0x61u8, 0x6du8],
                    ) {
                        r matches Ok((st, p)) && st.dict == dict && (st.payload matches
                            StreamPayload::Full(d) && d@ == input@.subrange(
                            start as int,
                            q as int,
                        )) && p == q2 + 9 && start <= p <= input@.len()
                    } else {
                        r matches Err(e) && e.fatal
                    }
                } else {
                    r matches Err(e) && e.fatal
                }
            },
        }),
{
    match known {
        None => Ok((Stream::with_position(dict, start), start)),
        Some(l) => {
            if l < 0 {
                return Err(ParseError::incomplete(start, "stream payload runs past the buffer"));
            }
            let avail = input.len() - start;
            if (l as u64) > (avail as u64) {
                return Err(ParseError::incomplete(start, "stream payload runs past the buffer"));
            }
            let n = l as usize;
            let q = start + n;
            let mut data: Vec<u8> = Vec::new();
            let mut i = start;
            while i < q
                invariant
                    start <= i <= q <= input.len(),
                    data@ == input@.subrange(start as int, i as int),
                decreases q - i,
            {
                data.push(input[i]);
                assert(data@ =~= input@.subrange(start as int, i + 1));
                i += 1;
            }
            let q2 = match eol(input, q) {
                Some((_, e)) => e,
                None => q,
            };
            let kw: [u8; 9] = [0x65u8, 0x6eu8, 0x64u8, 0x73u8, 0x74u8, 0x72u8, 0x65u8, 0x61u8, 0x6du8];
            assert(kw@ =~= seq![0x65u8, 0x6eu8, 0x64u8, 0x73u8, 0x74u8, 0x72u8, 0x65u8, 0x61u8, 0x6du8]);
            if match_kw(input, q2, &kw) {
                Ok((Stream::new(dict, data), q2 + 9))
            } else {
                Err(ParseError::expected(q2, "endstream"))
            }
        },
    }
}


/// Resolves the length and finishes the stream, yielding the stream and the
/// position after the trailing gap; the length cases of the result are
/// classified by the `Length` entry the stream's own dictionary carries.
fn finish_stream<R: Reader>(input: &[u8], start: usize, d: Dictionary, reader: &R) -> (r: Result<
    (Stream, usize),
    ParseError,
>)
    requires
        start <= input.len(),
    ensures
        (match r {
            Ok((st, p)) => st.dict == d && start <= p <= input.len() && ({
                let lk = seq![0x4cu8, 0x65u8, 0x6eu8, 0x67u8, 0x74u8, 0x68u8];
                &&& (exists|kn: Option<i64>|
                    #[trigger] stream_tail_result(input@, start as int, st, p as int, kn))
                &&& (st.dict@.contains_key(lk) ==> (match st.dict@[lk] {
                    Object::Integer(l) => stream_tail_result(
                        input@,
                        start as int,
                        st,
                        p as int,
                        Some(l),
                    ),
                    Object::Reference(_) => true,
                    _ => stream_tail_result(input@, start as int, st, p as int, None),
                }))
                &&& (!st.dict@.contains_key(lk) ==> stream_tail_result(
                    input@,
                    start as int,
                    st,
                    p as int,
                    None,
                ))
            }),
            Err(e) => e.fatal && start <= e.position <= input.len() && ({
                let lk = seq![0x4cu8, 0x65u8, 0x6eu8, 0x67u8, 0x74u8, 0x68u8];
                &&& d@.contains_key(lk)
                &&& (d@[lk] is Integer || d@[lk] is Reference)
                &&& (d@[lk] matches Object::Integer(l) ==> !tail_viable(input@, start as int, l))
            }),
        }),
{
    let known = stream_length(&d, reader);
    match stream_tail(input, start, d, known) {
        Ok((st, p2)) => {
            let p3 = skip_space(input, p2);
            proof {
                assert(stream_tail_result(input@, start as int, st, p3 as int, known));
            }
            Ok((st, p3))
        },
        Err(e) => Err(e),
    }
}

/// Parses an object at the top level of an indirect object: the direct
/// alternation extended with stream objects, whose length may need the
/// reader.  Trailing whitespace and comments are consumed.
#[verifier::rlimit(100)]
pub fn object<R: Reader>(input: &[u8], pos: usize, reader: &R) -> (r: Result<
    (Object, usize),
    ParseError,
>)
    requires
        pos <= input.len(),
    ensures
        match r {
            Ok((obj, p)) => pos < p <= input.len() && (!(obj is Stream)
                ==> spec_direct_object_end(input@, pos as int) == Some(p as int) && !stream_follows(
                input@,
                pos as int,
            ) && object_at(input@, pos as int, obj)) && (if !direct_scalar_none(
                input@,
                pos as int,
            ) {
                scalar_post(input@, pos as int, obj, p as int)
            } else {
                (obj is Array || obj is Dictionary || obj is Stream) && composite_shape(
                    input@,
                    pos as int,
                    obj,
                ) && (obj matches Object::Stream(st) ==> stream_result_post(
                    input@,
                    pos as int,
                    st,
                    p as int,
                )) && (obj matches Object::Dictionary(dd) ==> dictionary_content_at(
                    input@,
                    pos as int,
                    dd@,
                ) && dictionary_entries_at(input@, pos as int, dd))
            }),
            Err(e) => pos <= e.position <= input.len() && (spec_direct_object_end(
                input@,
                pos as int,
            ) is None || stream_follows(input@, pos as int)) && (!e.fatal ==> direct_scalar_none(
                input@,
                pos as int,
            )),
        },
        (spec_direct_object_end(input@, pos as int) is Some && !stream_follows(
            input@,
            pos as int,
        )) ==> r is Ok,
        stream_input_at(input@, pos as int) ==> (r is Ok || (r matches Err(e2) && e2.fatal)),
        (stream_input_at(input@, pos as int) && source_known_length(input@, pos as int) == Some(
            None::<i64>,
        )) ==> (r matches Ok(t) && t.0 is Stream),
        (stream_input_at(input@, pos as int) && (source_known_length(input@, pos as int) matches
            Some(kl) && kl matches Some(l) && stream_viable(input@, pos as int, l))) ==> (r matches
            Ok(t) && t.0 is Stream),
        (stream_input_at(input@, pos as int) && (source_known_length(input@, pos as int) matches
            Some(kl) && kl matches Some(l) && !stream_viable(input@, pos as int, l))) ==> (r matches
            Err(e2) && e2.fatal),
{
    if let Some(e) = null_end(input, pos) {
        let p = skip_space(input, e);
        assert(scalar_post(input@, pos as int, Object::Null, p as int));
        return Ok((Object::Null, p));
    }
    if let Some((b, e)) = boolean(input, pos) {
        let p = skip_space(input, e);
        assert(scalar_post(input@, pos as int, Object::Boolean(b), p as int));
        return Ok((Object::Boolean(b), p));
    }
    if let Some((id, e)) = reference(input, pos) {
        let p = skip_space(input, e);
        assert(scalar_post(input@, pos as int, Object::Reference(id), p as int));
        return Ok((Object::Reference(id), p));
    }
    if let Some((v, e)) = real_literal(input, pos) {
        let p = skip_space(input, e);
        let o = Object::Real(v);
        assert(scalar_post(input@, pos as int, o, p as int));
        return Ok((o, p));
    }
    if let Some((n, e)) = integer(input, pos) {
        let p = skip_space(input, e);
        assert(scalar_post(input@, pos as int, Object::Integer(n), p as int));
        return Ok((Object::Integer(n), p));
    }
    if let Some((v, e)) = name(input, pos) {
        let p = skip_space(input, e);
        let o = Object::Name(v);
        assert(scalar_post(input@, pos as int, o, p as int));
        return Ok((o, p));
    }
    if let Some((v, e)) = literal_string(input, pos) {
        let p = skip_space(input, e);
        let o = Object::String(v, StringFormat::Literal);
        assert(scalar_post(input@, pos as int, o, p as int));
        return Ok((o, p));
    }
    if let Some((v, e)) = hexadecimal_string(input, pos) {
        let p = skip_space(input, e);
        let o = Object::String(v, StringFormat::Hexadecimal);
        assert(scalar_post(input@, pos as int, o, p as int));
        return Ok((o, p));
    }
    match array(input, pos) {
        Ok((v, p)) => {
            let o = Object::Array(v);
            assert(object_at(input@, pos as int, o));
            return Ok((o, skip_space(input, p)));
        },
        Err(_) => {},
    }
    match dictionary(input, pos) {
        Ok((d, p1)) => {
            let sp = skip_space(input, p1);
            let stream_kw: [u8; 6] = [0x73u8, 0x74u8, 0x72u8, 0x65u8, 0x61u8, 0x6du8];
            assert(stream_kw@ =~= seq![0x73u8, 0x74u8, 0x72u8, 0x65u8, 0x61u8, 0x6du8]);
            proof {
                let s = input@;
                let lk = seq![0x4cu8, 0x65u8, 0x6eu8, 0x67u8, 0x74u8, 0x68u8];
                let ps = spec_dict_pair_list(s, spec_space(s, pos + 2));
                lemma_last_value_pos(ps, lk);
                match last_value_pos(ps, lk) {
                    Some(q) => {
                        let i = choose|i: int|
                            0 <= i < ps.len() && (#[trigger] ps[i]).0 == lk && last_pair_with_key(
                                ps,
                                i,
                            ) && ps[i].1 == q;
                        assert(d@.contains_key(lk));
                        assert(object_at(s, q, d@[lk]));
                        lemma_object_at_classifies(s, q, d@[lk]);
                    },
                    None => {
                        assert(!d@.contains_key(lk));
                    },
                }
            }
            if match_kw(input, sp, &stream_kw) {
                if let Some((_, start)) = eol(input, sp + 6) {
                    match finish_stream(input, start, d, reader) {
                        Ok((st, p3)) => {
                            proof {
                                assert(spec_dictionary_end(input@, pos as int) == Some(p1 as int));
                                assert(sp == spec_space(input@, p1 as int));
                                assert(tag_matches(
                                    input@,
                                    sp as int,
                                    seq![0x73u8, 0x74u8, 0x72u8, 0x65u8, 0x61u8, 0x6du8],
                                ));
                                assert(spec_eol(input@, sp + 6) matches Some(t) && t.1
                                    == start as int);
                                assert(exists|kn: Option<i64>|
                                    #[trigger] stream_tail_result(
                                        input@,
                                        start as int,
                                        st,
                                        p3 as int,
                                        kn,
                                    ));
                                assert(stream_result_post(input@, pos as int, st, p3 as int));
                            }
                            return Ok((Object::Stream(st), p3));
                        },
                        Err(e) => {
                            return Err(e);
                        },
                    }
                }
            }
            Ok((Object::Dictionary(d), sp))
        },
        Err(_) => Err(ParseError::mismatch(pos, "no object alternative matches")),
    }
}

/// Position after an object's end `p2` inside an indirect object: the gap,
/// an optional `endobj`, and the gap after it.
pub open spec fn spec_after_endobj(s: Seq<u8>, p2: int) -> int {
    let q = spec_space(s, p2);
    if tag_matches(s, q, seq![0x65u8, 0x6eu8, 0x64u8, 0x6fu8, 0x62u8, 0x6au8]) {
        spec_space(s, q + 6)
    } else {
        q
    }
}


/// Consumes the gap, an optional `endobj`, and the gap after it.
fn finish_indirect(input: &[u8], p2: usize) -> (p: usize)
    requires
        p2 <= input.len(),
    ensures
        p as int == spec_after_endobj(input@, p2 as int),
        p2 <= p <= input.len(),
{
    let mut p = skip_space(input, p2);
    let end_kw: [u8; 6] = [0x65u8, 0x6eu8, 0x64u8, 0x6fu8, 0x62u8, 0x6au8];
    assert(end_kw@ =~= seq![0x65u8, 0x6eu8, 0x64u8, 0x6fu8, 0x62u8, 0x6au8]);
    if match_kw(input, p, &end_kw) {
        p = skip_space(input, p + 6);
    }
    p
}

/// Parses an indirect object: an object identity, the `obj` keyword, the
/// object itself, and an optional `endobj`, whose absence is tolerated.
#[verifier::rlimit(100)]
pub fn indirect_object<R: Reader>(input: &[u8], pos: usize, reader: &R) -> (r: Result<
    ((ObjectId, Object), usize),
    ParseError,
>)
    requires
        pos <= input.len(),
    ensures
        match r {
            Ok(((id, obj), p)) => {
                &&& pos < p <= input.len()
                &&& (spec_object_id(input@, pos as int) matches Some((id2, p1)) && id2 == id
                    && tag_matches(input@, p1, seq![0x6fu8, 0x62u8, 0x6au8]) && ({
                    let o = spec_space(input@, p1 + 3);
                    &&& (!(obj is Stream) ==> object_at(input@, o, obj) && (
                    match spec_direct_object_end(input@, o) {
                        Some(p2) => p as int == spec_after_endobj(input@, p2),
                        None => false,
                    }))
                    &&& (obj matches Object::Stream(st) ==> (exists|p2: int|
                        #[trigger] stream_result_post(input@, o, st, p2) && p as int
                            == spec_after_endobj(input@, p2)))
                }))
            },
            Err(e) => pos <= e.position <= input.len() && (match spec_object_id(
                input@,
                pos as int,
            ) {
                Some((_, p1)) => !tag_matches(input@, p1, seq![0x6fu8, 0x62u8, 0x6au8]) || ({
                    let o = spec_space(input@, p1 + 3);
                    spec_direct_object_end(input@, o) is None || stream_follows(input@, o)
                }),
                None => true,
            }) && (e.fatal ==> (spec_object_id(input@, pos as int) matches Some((_, p1))
                && tag_matches(input@, p1, seq![0x6fu8, 0x62u8, 0x6au8]))),
        },
        (match spec_object_id(input@, pos as int) {
            Some((_, p1)) => (tag_matches(input@, p1, seq![0x6fu8, 0x62u8, 0x6au8]) && ({
                let o = spec_space(input@, p1 + 3);
                ||| (spec_direct_object_end(input@, o) is Some && !stream_follows(input@, o))
                ||| (stream_input_at(input@, o) && (match source_known_length(input@, o) {
                    Some(kl) => (match kl {
                        Some(l) => stream_viable(input@, o, l),
                        None => true,
                    }),
                    None => false,
                }))
            })) ==> r is Ok,
            None => r is Err,
        }),
{
    match object_id(input, pos) {
        Some((id, p1)) => {
            let obj_kw: [u8; 3] = [0x6fu8, 0x62u8, 0x6au8];
            assert(obj_kw@ =~= seq![0x6fu8, 0x62u8, 0x6au8]);
            if !match_kw(input, p1, &obj_kw) {
                return Err(ParseError::mismatch(p1, "expected the obj keyword"));
            }
            let o = skip_space(input, p1 + 3);
            match object(input, o, reader) {
                Ok((obj, p2)) => {
                    let p = finish_indirect(input, p2);
                    proof {
                        match &obj {
                            Object::Stream(st) => {
                                assert(stream_result_post(input@, o as int, *st, p2 as int)
                                    && p as int == spec_after_endobj(input@, p2 as int));
                            },
                            _ => {},
                        }
                    }
                    Ok(((id, obj), p))
                },
                Err(e) => Err(e),
            }
        },
        None => Err(ParseError::mismatch(pos, "expected an object identifier")),
    }
}

} // verus!
