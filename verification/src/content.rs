//! The content-stream grammar: operand tokens (the object alternation
//! without references and streams), operator tokens, and the ordered
//! operation list.  Whitespace here is a plain run of space bytes, with no
//! comment recognition.

use vstd::prelude::*;

use crate::chars::{skip_white_space, utf8_string, ws_run_end};
use crate::error::ParseError;
use crate::num::{integer, real_literal, spec_integer, spec_real_end};
use crate::object::Object;
use crate::object::StringFormat;
use crate::objects::{
    array, array_content_at, boolean, composite_shape, dictionary, dictionary_content_at,
    dictionary_entries_at, null_end, spec_array_end, spec_boolean, spec_dictionary_end,
    spec_null_end,
};
use crate::strings::{
    hexadecimal_string, literal_string, name, spec_hex_string, spec_literal_string, spec_name,
};

verus! {

/// One instruction of a content stream: its operands in source order, then
/// its operator.
#[derive(Debug, PartialEq)]
pub struct Operation {
    pub operator: String,
    pub operands: Vec<Object>,
}

/// An ordered list of operations, exactly as encountered.
#[derive(Debug, PartialEq)]
pub struct Content {
    pub operations: Vec<Operation>,
}

/// A byte an operator token is made of: an ASCII letter, or one of the
/// three punctuation operators `*`, `'`, `"`.
pub open spec fn is_operator_byte(c: u8) -> bool {
    (0x41 <= c <= 0x5a) || (0x61 <= c <= 0x7a) || c == 0x2a || c == 0x27 || c == 0x22
}

pub fn operator_byte(c: u8) -> (r: bool)
    ensures
        r == is_operator_byte(c),
{
    (0x41 <= c && c <= 0x5a) || (0x61 <= c && c <= 0x7a) || c == 0x2a || c == 0x27 || c == 0x22
}

/// Position after the maximal run of operator bytes starting at `pos`.
pub open spec fn operator_end(s: Seq<u8>, pos: int) -> int
    decreases s.len() - pos,
{
    if 0 <= pos && pos < s.len() && is_operator_byte(s[pos]) {
        operator_end(s, pos + 1)
    } else {
        pos
    }
}

/// An operator token: one or more operator bytes, as characters.
pub fn operator(input: &[u8], pos: usize) -> (r: Option<(String, usize)>)
    requires
        pos <= input.len(),
    ensures
        match r {
            Some((op, p)) => {
                &&& p == operator_end(input@, pos as int)
                &&& pos < p <= input.len()
                &&& op@.len() == p - pos
                &&& (forall|i: int| 0 <= i < op@.len() ==> op@[i] == input@[pos + i] as char)
            },
            None => operator_end(input@, pos as int) == pos,
        },
{
    let mut p = pos;
    let mut bytes: Vec<u8> = Vec::new();
    while p < input.len() && operator_byte(input[p])
        invariant
            pos <= p <= input.len(),
            operator_end(input@, pos as int) == operator_end(input@, p as int),
            bytes@ == input@.subrange(pos as int, p as int),
            forall|i: int| 0 <= i < bytes@.len() ==> is_operator_byte(bytes@[i]),
        decreases input.len() - p,
    {
        bytes.push(input[p]);
        assert(bytes@ =~= input@.subrange(pos as int, p + 1));
        p += 1;
    }
    if p == pos {
        return None;
    }
    assert(forall|i: int| 0 <= i < bytes@.len() ==> bytes@[i] < 0x80);
    match utf8_string(bytes) {
        Some(op) => Some((op, p)),
        None => None,
    }
}

/// No operand alternative matches at `pos`: operands are the object
/// alternation without references and without streams.
pub open spec fn operand_scalar_none(s: Seq<u8>, pos: int) -> bool {
    &&& spec_null_end(s, pos) is None
    &&& spec_boolean(s, pos) is None
    &&& spec_real_end(s, pos) is None
    &&& spec_integer(s, pos) is None
    &&& spec_name(s, pos) is None
    &&& spec_literal_string(s, pos) is None
    &&& spec_hex_string(s, pos) is None
}

/// What a parsed operand is when a scalar alternative matches: as in the
/// object grammar, but without the reference alternative, and with a plain
/// whitespace run as the trailing gap.
pub open spec fn operand_scalar_post(s: Seq<u8>, pos: int, obj: Object, p: int) -> bool {
    match spec_null_end(s, pos) {
        Some(e) => obj is Null && p == ws_run_end(s, e),
        None => match spec_boolean(s, pos) {
            Some((b, e)) => (obj matches Object::Boolean(x) && x == b) && p == ws_run_end(s, e),
            None => match spec_real_end(s, pos) {
                Some(e) => (obj matches Object::Real(v) && v@ == s.subrange(pos, e)) && p
                    == ws_run_end(s, e),
                None => match spec_integer(s, pos) {
                    Some((n, e)) => (obj matches Object::Integer(x) && x == n) && p == ws_run_end(
                        s,
                        e,
                    ),
                    None => match spec_name(s, pos) {
                        Some((b, e)) => (obj matches Object::Name(v) && v@ == b) && p
                            == ws_run_end(s, e),
                        None => match spec_literal_string(s, pos) {
                            Some((b, e)) => (obj matches Object::String(v, f)
                                && v@ == b
                                && f is Literal) && p == ws_run_end(s, e),
                            None => match spec_hex_string(s, pos) {
                                Some((b, e)) => (obj matches Object::String(v, f)
                                    && v@ == b
                                    && f is Hexadecimal) && p == ws_run_end(s, e),
                                None => false,
                            },
                        },
                    },
                },
            },
        },
    }
}


/// End position of the operand alternation at `pos`, with the trailing
/// whitespace run skipped; `None` when no alternative matches.
pub open spec fn spec_operand_end(s: Seq<u8>, pos: int) -> Option<int> {
    match spec_null_end(s, pos) {
        Some(e) => Some(ws_run_end(s, e)),
        None => match spec_boolean(s, pos) {
            Some((_, e)) => Some(ws_run_end(s, e)),
            None => match spec_real_end(s, pos) {
                Some(e) => Some(ws_run_end(s, e)),
                None => match spec_integer(s, pos) {
                    Some((_, e)) => Some(ws_run_end(s, e)),
                    None => match spec_name(s, pos) {
                        Some((_, e)) => Some(ws_run_end(s, e)),
                        None => match spec_literal_string(s, pos) {
                            Some((_, e)) => Some(ws_run_end(s, e)),
                            None => match spec_hex_string(s, pos) {
                                Some((_, e)) => Some(ws_run_end(s, e)),
                                None => match spec_array_end(s, pos) {
                                    Some(e) => Some(ws_run_end(s, e)),
                                    None => match spec_dictionary_end(s, pos) {
                                        Some(e) => Some(ws_run_end(s, e)),
                                        None => None,
                                    },
                                },
                            },
                        },
                    },
                },
            },
        },
    }
}

/// Position after the maximal run of operands starting at `pos`.  Every
/// operand of a real parse advances the position, which the guard writes
/// down so that the recursion is visibly bounded.
pub open spec fn spec_operands_run_end(s: Seq<u8>, pos: int) -> int
    decreases s.len() - pos,
{
    match spec_operand_end(s, pos) {
        Some(e) => if pos < e <= s.len() {
            spec_operands_run_end(s, e)
        } else {
            pos
        },
        None => pos,
    }
}

/// Position after the maximal run of operations starting at `pos`: each is
/// an operand run, a nonempty operator token, and the trailing whitespace.
pub open spec fn spec_ops_run_end(s: Seq<u8>, pos: int) -> int
    decreases s.len() - pos,
{
    let q = spec_operands_run_end(s, pos);
    if operator_end(s, q) > q {
        let e = ws_run_end(s, operator_end(s, q));
        if pos < e <= s.len() {
            spec_ops_run_end(s, e)
        } else {
            pos
        }
    } else {
        pos
    }
}

/// Position where a content fragment parse stops: the leading whitespace
/// run, then operations until none parses.
pub open spec fn spec_content_end(s: Seq<u8>, pos: int) -> int {
    spec_ops_run_end(s, ws_run_end(s, pos))
}


/// What the value of an operand parsed at `pos` is: a scalar is the value
/// the winning alternative decides, an array holds one value per element
/// position, and a dictionary is one whose pair run parses.
pub open spec fn operand_at(s: Seq<u8>, pos: int, obj: Object) -> bool {
    if !operand_scalar_none(s, pos) {
        exists|p: int| #[trigger] operand_scalar_post(s, pos, obj, p)
    } else {
        match obj {
            Object::Array(av) => 0 <= pos && pos < s.len() && s[pos] == 0x5b && array_content_at(
                s,
                pos,
                av@,
            ),
            Object::Dictionary(dd) => spec_dictionary_end(s, pos) is Some
                && dictionary_entries_at(s, pos, dd),
            _ => false,
        }
    }
}

/// Start positions of the operands of the maximal operand run at `pos`.
pub open spec fn spec_operand_starts(s: Seq<u8>, pos: int) -> Seq<int>
    decreases s.len() - pos,
{
    match spec_operand_end(s, pos) {
        Some(e) => if pos < e <= s.len() {
            seq![pos].add(spec_operand_starts(s, e))
        } else {
            seq![]
        },
        None => seq![],
    }
}

/// Parses one operand.
pub fn operand(input: &[u8], pos: usize) -> (r: Result<(Object, usize), ParseError>)
    requires
        pos <= input.len(),
    ensures
        match r {
            Ok((obj, p)) => pos < p <= input.len() && spec_operand_end(input@, pos as int) == Some(
                p as int,
            ) && operand_at(input@, pos as int, obj) && (if !operand_scalar_none(
                input@,
                pos as int,
            ) {
                operand_scalar_post(input@, pos as int, obj, p as int)
            } else {
                (obj is Array || obj is Dictionary) && composite_shape(input@, pos as int, obj)
                    && (obj matches Object::Array(av) ==> array_content_at(
                    input@,
                    pos as int,
                    av@,
                )) && (obj matches Object::Dictionary(dd) ==> dictionary_content_at(
                    input@,
                    pos as int,
                    dd@,
                ) && dictionary_entries_at(input@, pos as int, dd))
            }),
            Err(e) => spec_operand_end(input@, pos as int) is None && pos <= e.position
                <= input.len() && !e.fatal,
        },
{
    if let Some(e) = null_end(input, pos) {
        let p = skip_white_space(input, e);
        assert(operand_scalar_post(input@, pos as int, Object::Null, p as int));
        return Ok((Object::Null, p));
    }
    if let Some((b, e)) = boolean(input, pos) {
        let p = skip_white_space(input, e);
        assert(operand_scalar_post(input@, pos as int, Object::Boolean(b), p as int));
        return Ok((Object::Boolean(b), p));
    }
    if let Some((v, e)) = real_literal(input, pos) {
        let p = skip_white_space(input, e);
        let o = Object::Real(v);
        assert(operand_scalar_post(input@, pos as int, o, p as int));
        return Ok((o, p));
    }
    if let Some((n, e)) = integer(input, pos) {
        let p = skip_white_space(input, e);
        assert(operand_scalar_post(input@, pos as int, Object::Integer(n), p as int));
        return Ok((Object::Integer(n), p));
    }
    if let Some((v, e)) = name(input, pos) {
        let p = skip_white_space(input, e);
        let o = Object::Name(v);
        assert(operand_scalar_post(input@, pos as int, o, p as int));
        return Ok((o, p));
    }
    if let Some((v, e)) = literal_string(input, pos) {
        let p = skip_white_space(input, e);
        let o = Object::String(v, StringFormat::Literal);
        assert(operand_scalar_post(input@, pos as int, o, p as int));
        return Ok((o, p));
    }
    if let Some((v, e)) = hexadecimal_string(input, pos) {
        let p = skip_white_space(input, e);
        let o = Object::String(v, StringFormat::Hexadecimal);
        assert(operand_scalar_post(input@, pos as int, o, p as int));
        return Ok((o, p));
    }
    match array(input, pos) {
        Ok((v, p)) => {
            let o = Object::Array(v);
            assert(operand_at(input@, pos as int, o));
            return Ok((o, skip_white_space(input, p)));
        },
        Err(_) => {},
    }
    match dictionary(input, pos) {
        Ok((d, p)) => Ok((Object::Dictionary(d), skip_white_space(input, p))),
        Err(_) => Err(ParseError::mismatch(pos, "no operand alternative matches")),
    }
}


/// What the value of an operation parsed at `pos` is: the operands of the
/// maximal operand run, in source order, then the operator token's text.
pub open spec fn operation_at(s: Seq<u8>, pos: int, op: Operation) -> bool {
    let q = spec_operands_run_end(s, pos);
    let oe = operator_end(s, q);
    let qs = spec_operand_starts(s, pos);
    &&& oe > q
    &&& op.operator@.len() == oe - q
    &&& (forall|i: int| 0 <= i < op.operator@.len() ==> op.operator@[i] == s[q + i] as char)
    &&& op.operands@.len() == qs.len()
    &&& (forall|i: int| 0 <= i < qs.len() ==> operand_at(s, qs[i], #[trigger] op.operands@[i]))
}

/// Start positions of the operations of the maximal operation run at `pos`.
pub open spec fn spec_operation_starts(s: Seq<u8>, pos: int) -> Seq<int>
    decreases s.len() - pos,
{
    let q = spec_operands_run_end(s, pos);
    if operator_end(s, q) > q {
        let e = ws_run_end(s, operator_end(s, q));
        if pos < e <= s.len() {
            seq![pos].add(spec_operation_starts(s, e))
        } else {
            seq![]
        }
    } else {
        seq![]
    }
}

/// Parses one operation: zero or more operands, then exactly one operator,
/// then the trailing whitespace run.
pub fn operation(input: &[u8], pos: usize) -> (r: Result<(Operation, usize), ParseError>)
    requires
        pos <= input.len(),
    ensures
        (match r {
            Ok((op, p)) => pos < p <= input.len() && ({
                let q = spec_operands_run_end(input@, pos as int);
                let oe = operator_end(input@, q);
                let qs = spec_operand_starts(input@, pos as int);
                &&& oe > q
                &&& op.operator@.len() == oe - q
                &&& (forall|i: int|
                    0 <= i < op.operator@.len() ==> op.operator@[i] == input@[q + i] as char)
                &&& p == ws_run_end(input@, oe)
                &&& op.operands@.len() == qs.len()
                &&& (forall|i: int|
                    0 <= i < qs.len() ==> operand_at(input@, qs[i], #[trigger] op.operands@[i]))
                &&& operation_at(input@, pos as int, op)
            }),
            Err(e) => ({
                let q = spec_operands_run_end(input@, pos as int);
                operator_end(input@, q) == q
            }) && pos <= e.position <= input.len() && !e.fatal,
        }),
{
    let mut p = pos;
    let mut operands: Vec<Object> = Vec::new();
    let ghost mut qs_done: Seq<int> = Seq::<int>::empty();
    loop
        invariant
            pos <= p <= input.len(),
            spec_operands_run_end(input@, pos as int) == spec_operands_run_end(input@, p as int),
            spec_operand_starts(input@, pos as int) == qs_done + spec_operand_starts(
                input@,
                p as int,
            ),
            operands@.len() == qs_done.len(),
            forall|i: int|
                0 <= i < qs_done.len() ==> operand_at(input@, qs_done[i], #[trigger] operands@[i]),
        decreases input.len() - p,
    {
        match operand(input, p) {
            Ok((o, p2)) => {
                proof {
                    assert(spec_operand_starts(input@, p as int) =~= seq![p as int]
                        + spec_operand_starts(input@, p2 as int));
                }
                let ghost qs0 = qs_done;
                operands.push(o);
                proof {
                    qs_done = qs_done.push(p as int);
                    assert(qs_done + spec_operand_starts(input@, p2 as int) =~= qs0 + (
                    seq![p as int] + spec_operand_starts(input@, p2 as int)));
                }
                p = p2;
            },
            Err(_) => {
                break ;
            },
        }
    }
    assert(spec_operands_run_end(input@, pos as int) == p);
    proof {
        assert(spec_operand_starts(input@, p as int) =~= Seq::<int>::empty());
        assert(spec_operand_starts(input@, pos as int) =~= qs_done);
    }
    match operator(input, p) {
        Some((op, p2)) => {
            let p3 = skip_white_space(input, p2);
            Ok((Operation { operator: op, operands }, p3))
        },
        None => Err(ParseError::mismatch(p, "expected an operator")),
    }
}

/// Parses a whole content fragment: a leading whitespace run, then
/// operations until none parses, in source order.
pub fn content(input: &[u8], pos: usize) -> (r: Result<(Content, usize), ParseError>)
    requires
        pos <= input.len(),
    ensures
        r is Ok,
        (match r {
            Ok((c, p)) => pos <= p <= input.len() && p == spec_content_end(input@, pos as int) && ({
                let qs = spec_operation_starts(input@, ws_run_end(input@, pos as int));
                c.operations@.len() == qs.len() && (forall|i: int|
                    0 <= i < qs.len() ==> operation_at(input@, qs[i], #[trigger] c.operations@[i]))
            }),
            Err(e) => false,
        }),
{
    let p0 = skip_white_space(input, pos);
    let mut p = p0;
    let mut operations: Vec<Operation> = Vec::new();
    let ghost mut qs_done: Seq<int> = Seq::<int>::empty();
    loop
        invariant
            pos <= p0 <= p <= input.len(),
            spec_ops_run_end(input@, p0 as int) == spec_ops_run_end(input@, p as int),
            spec_operation_starts(input@, p0 as int) == qs_done + spec_operation_starts(
                input@,
                p as int,
            ),
            operations@.len() == qs_done.len(),
            forall|i: int|
                0 <= i < qs_done.len() ==> operation_at(
                    input@,
                    qs_done[i],
                    #[trigger] operations@[i],
                ),
        decreases input.len() - p,
    {
        match operation(input, p) {
            Ok((op, p2)) => {
                proof {
                    assert(spec_operation_starts(input@, p as int) =~= seq![p as int]
                        + spec_operation_starts(input@, p2 as int));
                }
                let ghost qs0 = qs_done;
                operations.push(op);
                proof {
                    qs_done = qs_done.push(p as int);
                    assert(qs_done + spec_operation_starts(input@, p2 as int) =~= qs0 + (
                    seq![p as int] + spec_operation_starts(input@, p2 as int)));
                }
                p = p2;
            },
            Err(_) => {
                proof {
                    assert(spec_operation_starts(input@, p as int) =~= Seq::<int>::empty());
                    assert(spec_operation_starts(input@, p0 as int) =~= qs_done);
                }
                return Ok((Content { operations }, p));
            },
        }
    }
}

} // verus!
