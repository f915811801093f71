//! The failure shape shared by every grammar unit.

use vstd::prelude::*;

verus! {

/// Whether the input at the failure position does not match the grammar, or
/// ends before the unit can be decided.
#[derive(Debug, Clone, Copy, PartialEq, Eq, Structural)]
pub enum ErrorKind {
    Mismatch,
    Incomplete,
}

/// A parse failure: its kind, the byte offset where it arose, a short
/// human-readable message, and whether the surrounding structure had
/// already committed, so that no enclosing alternation may recover from it.
#[derive(Debug, Clone, Copy, PartialEq)]
pub struct ParseError {
    pub kind: ErrorKind,
    pub position: usize,
    pub message: &'static str,
    pub fatal: bool,
}

impl ParseError {
    /// An ordinary mismatch, recoverable by an enclosing alternation.
    pub fn mismatch(position: usize, message: &'static str) -> (r: ParseError)
        ensures
            r.kind == ErrorKind::Mismatch,
            r.position == position,
            !r.fatal,
    {
        ParseError { kind: ErrorKind::Mismatch, position, message, fatal: false }
    }

    /// An expectation that the committed surrounding structure makes hard.
    pub fn expected(position: usize, message: &'static str) -> (r: ParseError)
        ensures
            r.kind == ErrorKind::Mismatch,
            r.position == position,
            r.fatal,
    {
        ParseError { kind: ErrorKind::Mismatch, position, message, fatal: true }
    }

    /// The buffer ends before a committed unit could be completed.
    pub fn incomplete(position: usize, message: &'static str) -> (r: ParseError)
        ensures
            r.kind == ErrorKind::Incomplete,
            r.position == position,
            r.fatal,
    {
        ParseError { kind: ErrorKind::Incomplete, position, message, fatal: true }
    }
}

} // verus!
