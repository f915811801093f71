//! The cross-reference table: a mapping from object numbers to file
//! locations, together with the declared size of the object space.

use vstd::prelude::*;

verus! {

/// A cross-reference entry.  Only in-use entries are produced by this
/// crate: free entries are recognized while parsing and dropped.
#[derive(Debug, Clone, Copy, PartialEq, Eq, Structural)]
pub enum XrefEntry {
    Normal { offset: u32, generation: u16 },
}

/// The abstract content of a sequence of keyed entries: a later entry for
/// an object number overwrites an earlier one.
pub open spec fn xref_map_of(entries: Seq<(u32, XrefEntry)>) -> Map<u32, XrefEntry>
    decreases entries.len(),
{
    if entries.len() == 0 {
        Map::empty()
    } else {
        xref_map_of(entries.drop_last()).insert(entries.last().0, entries.last().1)
    }
}

pub open spec fn xref_find(entries: Seq<(u32, XrefEntry)>, id: u32) -> Option<XrefEntry>
    decreases entries.len(),
{
    if entries.len() == 0 {
        None
    } else if entries.last().0 == id {
        Some(entries.last().1)
    } else {
        xref_find(entries.drop_last(), id)
    }
}

pub proof fn lemma_xref_find(entries: Seq<(u32, XrefEntry)>, id: u32)
    ensures
        (match xref_find(entries, id) {
            Some(v) => xref_map_of(entries).contains_key(id) && xref_map_of(entries)[id] == v,
            None => !xref_map_of(entries).contains_key(id),
        }),
    decreases entries.len(),
{
    if entries.len() > 0 {
        lemma_xref_find(entries.drop_last(), id);
    }
}

/// A mapping from object number to entry, plus the declared object count of
/// the file.
#[derive(Debug, PartialEq)]
pub struct Xref {
    pub entries: Vec<(u32, XrefEntry)>,
    pub size: u32,
}

impl View for Xref {
    type V = Map<u32, XrefEntry>;

    closed spec fn view(&self) -> Map<u32, XrefEntry> {
        xref_map_of(self.entries@)
    }
}

impl Xref {
    /// An empty table with the given declared size.
    pub fn new(size: u32) -> (r: Xref)
        ensures
            r@ == Map::<u32, XrefEntry>::empty(),
            r.size == size,
    {
        Xref { entries: Vec::new(), size }
    }

    /// Binds an object number to an entry; a later binding wins.
    pub fn insert(&mut self, id: u32, entry: XrefEntry)
        ensures
            final(self)@ == old(self)@.insert(id, entry),
            final(self).size == old(self).size,
    {
        let ghost entries0 = self.entries@;
        self.entries.push((id, entry));
        proof {
            assert(self.entries@.drop_last() =~= entries0);
        }
    }

    /// Declares the size of the object space.
    pub fn set_size(&mut self, size: u32)
        ensures
            final(self)@ == old(self)@,
            final(self).size == size,
    {
        self.size = size;
    }

    /// Looks an object number up.
    pub fn get(&self, id: u32) -> (r: Option<XrefEntry>)
        ensures
            (match r {
                Some(v) => self@.contains_key(id) && self@[id] == v,
                None => !self@.contains_key(id),
            }),
    {
        proof {
            lemma_xref_find(self.entries@, id);
        }
        let mut i = self.entries.len();
        assert(self.entries@.subrange(0, self.entries@.len() as int) =~= self.entries@);
        loop
            invariant
                i <= self.entries.len(),
                xref_find(self.entries@, id) == xref_find(
                    self.entries@.subrange(0, i as int),
                    id,
                ),
            decreases i,
        {
            if i == 0 {
                assert(self.entries@.subrange(0, 0).len() == 0);
                return None;
            }
            i -= 1;
            let ghost pre = self.entries@.subrange(0, i + 1);
            proof {
                assert(pre.drop_last() =~= self.entries@.subrange(0, i as int));
                assert(pre.last() == self.entries@[i as int]);
            }
            if self.entries[i].0 == id {
                return Some(self.entries[i].1);
            }
        }
    }
}

} // verus!
