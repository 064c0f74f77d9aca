//! The document-set adapter over a completed `BitSet`: forward-only
//! ascending iteration with skip-to support, jumping across empty 64-wide
//! ranges by bucket and enumerating members within a bucket through its
//! `TinySet`; and the constant scorer that wraps it.

use vstd::prelude::*;
use crate::bitset::BitSet;
use crate::bitset::TinySet;
use crate::bitset::spec_num_buckets;

verus! {

/// Returns the least member of `docs` at or above `from`, or `None` when
/// there is none: the current bucket is masked down to the slots at or above
/// `from`, and when that leaves nothing, `first_non_empty_bucket` jumps over
/// whole empty 64-wide ranges.
fn first_member_from(docs: &BitSet, from: u32) -> (r: Option<u32>)
    requires
        docs.wf(),
    ensures
        match r {
            Some(d) => {
                &&& from <= d < docs.spec_max_value()
                &&& docs.spec_contains(d)
                &&& forall|e: u32| from <= e < d ==> !docs.spec_contains(e)
            },
            None => forall|e: u32| e >= from ==> !docs.spec_contains(e),
        },
{
    let max = docs.max_value();
    if from >= max {
        proof {
            assert forall|e: u32| e >= from implies !docs.spec_contains(e) by {
                docs.lemma_contains_bounded(e);
            }
        }
        return None;
    }
    let bucket = from / 64u32;
    proof {
        assert(64 * (bucket as int) + from % 64 == from);
        assert(bucket < spec_num_buckets(max));
    }
    let masked = docs.tinyset(bucket).intersect(TinySet::range_greater_or_equal(from % 64u32));
    let mut m = masked;
    if let Some(low) = m.lowest() {
        let d = bucket * 64u32 + low;
        proof {
            assert(d / 64 == bucket && d % 64 == low);
            if d >= max {
                docs.lemma_no_stray_bits(bucket, low);
            }
            docs.lemma_contains_via_tinyset(d);
            assert(docs.spec_contains(d));
            assert forall|e: u32| from <= e < d implies !docs.spec_contains(e) by {
                assert(e / 64 == bucket && from % 64 <= e % 64 < low);
                assert(!masked.spec_has(e % 64));
                docs.lemma_contains_via_tinyset(e);
            }
        }
        return Some(d);
    }
    match docs.first_non_empty_bucket(bucket + 1) {
        Some(b) => {
            let mut t = docs.tinyset(b);
            if let Some(low) = t.lowest() {
                let d = b * 64u32 + low;
                proof {
                    assert(64 * (b as int) <= spec_num_buckets(max) * 64 - 64 < max);
                    assert(d / 64 == b && d % 64 == low);
                    if d >= max {
                        docs.lemma_no_stray_bits(b, low);
                    }
                    docs.lemma_contains_via_tinyset(d);
                    assert(docs.spec_contains(d));
                    assert(from < d);
                    assert forall|e: u32| from <= e < d implies !docs.spec_contains(e) by {
                        docs.lemma_contains_bounded(e);
                        if e < max {
                            docs.lemma_contains_via_tinyset(e);
                            let eb = e / 64;
                            if eb == bucket {
                                assert(from % 64 <= e % 64);
                                assert(!masked.spec_has(e % 64));
                            } else if eb < b {
                                assert(bucket + 1 <= eb);
                                assert(!docs.spec_tinyset(eb).spec_has(e % 64));
                            } else {
                                assert(eb == b && e % 64 < low);
                            }
                        }
                    }
                }
                Some(d)
            } else {
                proof {
                    assert(false);
                }
                None
            }
        },
        None => {
            proof {
                assert forall|e: u32| e >= from implies !docs.spec_contains(e) by {
                    docs.lemma_contains_bounded(e);
                    if e < max {
                        docs.lemma_contains_via_tinyset(e);
                        let eb = e / 64;
                        if eb == bucket {
                            assert(from % 64 <= e % 64);
                            assert(!masked.spec_has(e % 64));
                        } else {
                            assert(bucket + 1 <= eb < spec_num_buckets(max));
                            assert(!docs.spec_tinyset(eb).spec_has(e % 64));
                        }
                    }
                }
            }
            None
        },
    }
}

/// A document set over a completed `BitSet`: forward-only ascending
/// iteration over the members, with skip-to support. The set itself is never
/// mutated after the scan that filled it.
pub struct BitSetDocSet {
    docs: BitSet,
    started: bool,
    doc: u32,
}

impl BitSetDocSet {
    /// The underlying document-id set.
    pub closed spec fn spec_docs(self) -> BitSet {
        self.docs
    }

    /// Whether iteration has produced a first document yet.
    pub closed spec fn spec_started(self) -> bool {
        self.started
    }

    /// The current document, meaningful once iteration has started.
    pub closed spec fn spec_doc(self) -> u32 {
        self.doc
    }

    /// Well-formedness: the set is well formed, and once started, the cursor
    /// stands on a member.
    pub open spec fn wf(self) -> bool {
        &&& self.spec_docs().wf()
        &&& (self.spec_started() ==> self.spec_docs().spec_contains(self.spec_doc()))
    }

    /// Wraps a completed `BitSet`, positioned before its first member.
    pub fn from(docs: BitSet) -> (r: BitSetDocSet)
        requires
            docs.wf(),
        ensures
            r.wf(),
            r.spec_docs() == docs,
            !r.spec_started(),
    {
        BitSetDocSet { docs, started: false, doc: 0 }
    }

    /// Advances to the next member in ascending order: the least member of
    /// the set, then, on each further call, the least member above the
    /// current one. Returns false when no member is left, leaving the cursor
    /// unchanged.
    pub fn advance(&mut self) -> (r: bool)
        requires
            old(self).wf(),
        ensures
            final(self).wf(),
            final(self).spec_docs() == old(self).spec_docs(),
            ({
                let from: int = if old(self).spec_started() {
                    old(self).spec_doc() + 1
                } else {
                    0
                };
                if r {
                    &&& final(self).spec_started()
                    &&& from <= final(self).spec_doc()
                    &&& old(self).spec_docs().spec_contains(final(self).spec_doc())
                    &&& forall|e: u32|
                        from <= e < final(self).spec_doc() ==> !old(self).spec_docs()
                            .spec_contains(e)
                } else {
                    &&& forall|e: u32| e >= from ==> !old(self).spec_docs().spec_contains(e)
                    &&& *final(self) == *old(self)
                }
            }),
    {
        proof {
            self.docs.lemma_contains_bounded(self.doc);
        }
        let from = if self.started {
            self.doc + 1
        } else {
            0u32
        };
        match first_member_from(&self.docs, from) {
            Some(d) => {
                self.doc = d;
                self.started = true;
                true
            },
            None => false,
        }
    }

    /// Moves the cursor to the least member at or above `target`. Returns
    /// false when there is none, leaving the cursor unchanged.
    pub fn skip_next(&mut self, target: u32) -> (r: bool)
        requires
            old(self).wf(),
        ensures
            final(self).wf(),
            final(self).spec_docs() == old(self).spec_docs(),
            if r {
                &&& final(self).spec_started()
                &&& target <= final(self).spec_doc()
                &&& old(self).spec_docs().spec_contains(final(self).spec_doc())
                &&& forall|e: u32|
                    target <= e < final(self).spec_doc() ==> !old(self).spec_docs()
                        .spec_contains(e)
            } else {
                &&& forall|e: u32| e >= target ==> !old(self).spec_docs().spec_contains(e)
                &&& *final(self) == *old(self)
            },
    {
        match first_member_from(&self.docs, target) {
            Some(d) => {
                self.doc = d;
                self.started = true;
                true
            },
            None => false,
        }
    }

    /// The current document id.
    pub fn doc(&self) -> (r: u32)
        ensures
            r == self.spec_doc(),
    {
        self.doc
    }
}

/// A scorer over a document set that gives every matched document the same
/// constant relevance score: range matches are boolean, so no document ranks
/// above another.
pub struct ConstScorer {
    docset: BitSetDocSet,
}

impl ConstScorer {
    /// The wrapped document set.
    pub closed spec fn spec_docset(self) -> BitSetDocSet {
        self.docset
    }

    /// Binds a constant scorer to a document set.
    pub fn new(docset: BitSetDocSet) -> (r: ConstScorer)
        ensures
            r.spec_docset() == docset,
    {
        ConstScorer { docset }
    }

    /// Advances the underlying document set to its next member.
    pub fn advance(&mut self) -> (r: bool)
        requires
            old(self).spec_docset().wf(),
        ensures
            final(self).spec_docset().wf(),
            final(self).spec_docset().spec_docs() == old(self).spec_docset().spec_docs(),
            ({
                let from: int = if old(self).spec_docset().spec_started() {
                    old(self).spec_docset().spec_doc() + 1
                } else {
                    0
                };
                if r {
                    &&& final(self).spec_docset().spec_started()
                    &&& from <= final(self).spec_docset().spec_doc()
                    &&& old(self).spec_docset().spec_docs().spec_contains(
                        final(self).spec_docset().spec_doc(),
                    )
                    &&& forall|e: u32|
                        from <= e < final(self).spec_docset().spec_doc() ==> !old(
                            self,
                        ).spec_docset().spec_docs().spec_contains(e)
                } else {
                    &&& forall|e: u32|
                        e >= from ==> !old(self).spec_docset().spec_docs().spec_contains(e)
                    &&& *final(self) == *old(self)
                }
            }),
    {
        self.docset.advance()
    }

    /// The current document id of the underlying set.
    pub fn doc(&self) -> (r: u32)
        ensures
            r == self.spec_docset().spec_doc(),
    {
        self.docset.doc()
    }

    /// The constant relevance score: one, for every matched document,
    /// however many distinct in-range terms it matched.
    pub fn score(&self) -> (r: u32)
        ensures
            r == 1,
    {
        1u32
    }
}

} // verus!
