//! The object model: scalars, strings, names, arrays, dictionaries,
//! streams, and indirect references.

use vstd::prelude::*;

verus! {

/// Identity of an indirect object: object number and generation number.
#[derive(Debug, Clone, Copy, PartialEq, Eq, Hash, Structural)]
pub struct ObjectId {
    pub number: u32,
    pub generation: u16,
}

/// How a string literal was written down in the source bytes.
#[derive(Debug, Clone, Copy, PartialEq, Eq, Structural)]
pub enum StringFormat {
    Literal,
    Hexadecimal,
}

/// One value of the document's data model.
///
/// A real number keeps the exact text of its literal, so that the parser
/// decides no floating-point representation; a consumer converts the text
/// to its preferred number type.
#[derive(Debug, PartialEq)]
pub enum Object {
    Null,
    Boolean(bool),
    Integer(i64),
    Real(Vec<u8>),
    String(Vec<u8>, StringFormat),
    Name(Vec<u8>),
    Array(Vec<Object>),
    Dictionary(Dictionary),
    Stream(Stream),
    Reference(ObjectId),
}

impl Object {
    /// The value of an integer object.
    pub fn as_i64(&self) -> (r: Option<i64>)
        ensures
            (match *self {
                Object::Integer(i) => r == Some(i),
                _ => r is None,
            }),
    {
        match self {
            Object::Integer(i) => Some(*i),
            _ => None,
        }
    }

    /// The identity named by a reference object.
    pub fn as_reference(&self) -> (r: Option<ObjectId>)
        ensures
            (match *self {
                Object::Reference(id) => r == Some(id),
                _ => r is None,
            }),
    {
        match self {
            Object::Reference(id) => Some(*id),
            _ => None,
        }
    }
}

/// The abstract content of a sequence of dictionary entries: later entries
/// overwrite earlier ones with the same key.
pub open spec fn map_of(entries: Seq<(Vec<u8>, Object)>) -> Map<Seq<u8>, Object>
    decreases entries.len(),
{
    if entries.len() == 0 {
        Map::empty()
    } else {
        map_of(entries.drop_last()).insert(entries.last().0@, entries.last().1)
    }
}

/// The entry a backward scan finds: the last one with the given key.
pub open spec fn find_entry(entries: Seq<(Vec<u8>, Object)>, key: Seq<u8>) -> Option<Object>
    decreases entries.len(),
{
    if entries.len() == 0 {
        None
    } else if entries.last().0@ == key {
        Some(entries.last().1)
    } else {
        find_entry(entries.drop_last(), key)
    }
}

pub proof fn lemma_find_entry(entries: Seq<(Vec<u8>, Object)>, key: Seq<u8>)
    ensures
        (match find_entry(entries, key) {
            Some(v) => map_of(entries).contains_key(key) && map_of(entries)[key] == v,
            None => !map_of(entries).contains_key(key),
        }),
    decreases entries.len(),
{
    if entries.len() > 0 {
        lemma_find_entry(entries.drop_last(), key);
    }
}

/// A name-keyed mapping.  Its abstract value is a map in which a later
/// entry for a key has overwritten any earlier one.
#[derive(Debug, PartialEq)]
pub struct Dictionary {
    pub entries: Vec<(Vec<u8>, Object)>,
}

impl View for Dictionary {
    type V = Map<Seq<u8>, Object>;

    closed spec fn view(&self) -> Map<Seq<u8>, Object> {
        map_of(self.entries@)
    }
}

/// Compares two byte slices for equality.
pub fn bytes_equal(a: &[u8], b: &[u8]) -> (r: bool)
    ensures
        r == (a@ == b@),
{
    if a.len() != b.len() {
        assert(a@.len() != b@.len());
        return false;
    }
    let mut i: usize = 0;
    while i < a.len()
        invariant
            i <= a.len(),
            a.len() == b.len(),
            forall|j: int| 0 <= j < i ==> a@[j] == b@[j],
        decreases a.len() - i,
    {
        if a[i] != b[i] {
            return false;
        }
        i += 1;
    }
    assert(a@ =~= b@);
    true
}

impl Dictionary {
    /// An empty dictionary.
    pub fn new() -> (r: Dictionary)
        ensures
            r@ == Map::<Seq<u8>, Object>::empty(),
            r.entries@ =~= Seq::<(Vec<u8>, Object)>::empty(),
    {
        Dictionary { entries: Vec::new() }
    }

    /// Binds `key` to `value`; a later binding wins over an earlier one.
    pub fn set(&mut self, key: Vec<u8>, value: Object)
        ensures
            final(self)@ == old(self)@.insert(key@, value),
            final(self).entries@ == old(self).entries@.push((key, value)),
    {
        let ghost entries0 = self.entries@;
        let ghost k = key@;
        self.entries.push((key, value));
        proof {
            assert(self.entries@.drop_last() =~= entries0);
            assert(self.entries@.last().0@ == k);
        }
    }

    /// Looks the key up.
    pub fn get(&self, key: &[u8]) -> (r: Option<&Object>)
        ensures
            (match r {
                Some(v) => self@.contains_key(key@) && *v == self@[key@],
                None => !self@.contains_key(key@),
            }),
    {
        proof {
            lemma_find_entry(self.entries@, key@);
        }
        let mut i = self.entries.len();
        assert(self.entries@.subrange(0, self.entries@.len() as int) =~= self.entries@);
        loop
            invariant
                i <= self.entries.len(),
                find_entry(self.entries@, key@) == find_entry(
                    self.entries@.subrange(0, i as int),
                    key@,
                ),
            decreases i,
        {
            if i == 0 {
                assert(self.entries@.subrange(0, 0).len() == 0);
                return None;
            }
            i -= 1;
            let ghost pre = self.entries@.subrange(0, i + 1);
            proof {
                assert(pre.drop_last() =~= self.entries@.subrange(0, i as int));
                assert(pre.last() == self.entries@[i as int]);
            }
            if bytes_equal(self.entries[i].0.as_slice(), key) {
                return Some(&self.entries[i].1);
            }
        }
    }
}

/// The payload of a stream: either the materialized bytes of a known
/// length, or, when the length could not be resolved at parse time, only
/// the byte offset where the payload begins.
#[derive(Debug, PartialEq)]
pub enum StreamPayload {
    Full(Vec<u8>),
    Deferred(usize),
}

/// A dictionary paired with a raw byte payload.
#[derive(Debug, PartialEq)]
pub struct Stream {
    pub dict: Dictionary,
    pub payload: StreamPayload,
}

impl Stream {
    /// A stream whose payload bytes are known.
    pub fn new(dict: Dictionary, data: Vec<u8>) -> (r: Stream)
        ensures
            r.dict == dict,
            r.payload == StreamPayload::Full(data),
    {
        Stream { dict, payload: StreamPayload::Full(data) }
    }

    /// A stream whose payload is deferred: only its start offset is known.
    pub fn with_position(dict: Dictionary, pos: usize) -> (r: Stream)
        ensures
            r.dict == dict,
            r.payload == StreamPayload::Deferred(pos),
    {
        Stream { dict, payload: StreamPayload::Deferred(pos) }
    }
}

} // verus!
