//! The capabilities a caller supplies: object lookup by identity, used only
//! to resolve an indirect stream length, and the decoder that turns a
//! cross-reference stream object into a table.

use vstd::prelude::*;

use crate::object::{Dictionary, Object, ObjectId, Stream};
use crate::xref::Xref;

verus! {

/// Object lookup by identity.  The implementation must stay callable while
/// a parse is in progress and must terminate even when resolving one
/// object's length leads it through other objects; cycle protection is its
/// own obligation.  Nothing is assumed of what it returns: the parser
/// states what holds of every outcome.
pub trait Reader {
    fn get_object(&self, id: ObjectId) -> Option<Object>;
}

/// The external transformation that decodes a cross-reference stream
/// object into the equivalent table and trailer dictionary.  Its internal
/// format is out of this crate's scope; nothing is assumed of its result.
pub trait XrefStreamDecoder {
    fn decode_xref_stream(&self, stream: Stream) -> (Xref, Dictionary);
}

} // verus!
