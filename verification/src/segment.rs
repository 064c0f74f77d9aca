//! The segment-side collaborators of range scoring, modelled as in-memory
//! data: a term dictionary whose entries carry, in ascending encoded-byte
//! order, each term together with the ascending, duplicate-free list of
//! document ids that carry it; the per-field inverted index; and the segment
//! reader exposing the document-count upper bound.

use vstd::prelude::*;
use crate::range_query::Field;

verus! {

/// One term of the dictionary together with its postings: the list of
/// document ids carrying the term.
pub struct TermEntry {
    /// The encoded byte representation of the field value.
    pub term: Vec<u8>,
    /// The document ids carrying this term.
    pub docs: Vec<u32>,
}

/// The inverted index of one field: its term dictionary, entries in
/// ascending encoded-byte order, each with its postings.
pub struct InvertedIndex {
    pub entries: Vec<TermEntry>,
}

/// A self-contained partition of the index: an upper bound on its document
/// ids and, per field, that field's inverted index.
pub struct SegmentReader {
    /// Exclusive upper bound on the document ids of this segment.
    pub max_doc: u32,
    /// One inverted index per field, indexed by the field's ordinal.
    pub indexes: Vec<InvertedIndex>,
}

impl SegmentReader {
    /// Well-formedness: every document id posted anywhere in the segment
    /// lies below `max_doc`, and `max_doc` leaves room for the bucket
    /// arithmetic of a `BitSet` sized to it.
    pub open spec fn wf(self) -> bool {
        &&& self.max_doc <= u32::MAX - 63
        &&& forall|f: int, t: int, k: int|
            0 <= f < self.indexes@.len() && 0 <= t < self.indexes@[f].entries@.len() && 0 <= k
                < self.indexes@[f].entries@[t].docs@.len()
                ==> #[trigger] self.indexes@[f].entries@[t].docs@[k] < self.max_doc
    }

    /// The exclusive upper bound on document ids in this segment.
    pub fn max_doc(&self) -> (r: u32)
        ensures
            r == self.max_doc,
    {
        self.max_doc
    }

    /// The inverted index of the given field.
    pub fn inverted_index(&self, field: Field) -> (r: &InvertedIndex)
        requires
            field.0 < self.indexes@.len(),
        ensures
            *r == self.indexes@[field.0 as int],
    {
        &self.indexes[field.0 as usize]
    }
}

} // verus!
