#![verifier::loop_isolation(false)]
//! A lexical and syntactic parser for a page-description document format.
//!
//! The crate turns a raw byte buffer into a structured object model
//! (scalars, composite objects, indirect references, streams), into the
//! auxiliary structures that locate objects inside a file (cross-reference
//! tables and trailers), and into the tokenized instruction list used to
//! paint page content.
//!
//! Every parsing function takes the buffer and a starting position and
//! returns either the parsed value together with the position just past it,
//! or a [`error::ParseError`] carrying the byte offset of the failure.

pub mod chars;
pub mod content;
pub mod doc;
pub mod error;
pub mod num;
pub mod object;
pub mod objects;
pub mod reader;
pub mod strings;
pub mod xref;
