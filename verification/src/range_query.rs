//! Range queries over byte-encoded terms: bound pairs tagged
//! included/excluded/unbounded, the order-preserving encodings for signed and
//! unsigned 64-bit integers and strings, and the per-segment scoring
//! algorithm that collects every document carrying a term within the range
//! into a `BitSet`.

use vstd::prelude::*;
use vstd::string::StrSliceExecFns;
use vstd::string::StringSliceAdditionalSpecFns;
use crate::bitset::BitSet;
use crate::docset::BitSetDocSet;
use crate::docset::ConstScorer;
use crate::segment::InvertedIndex;
use crate::segment::SegmentReader;

verus! {

/// Identifies one field of the document schema, by its ordinal.
#[derive(Clone, Copy, PartialEq, Eq, Structural, Debug)]
pub struct Field(pub u32);

/// One side of a range: a value that is included, excluded, or no
/// restriction at all.
#[derive(Debug)]
pub enum Bound<T> {
    Included(T),
    Excluded(T),
    Unbounded,
}

/// The byte sequences of a bound over encoded terms.
pub open spec fn bound_view(b: Bound<Vec<u8>>) -> Bound<Seq<u8>> {
    match b {
        Bound::Included(v) => Bound::Included(v@),
        Bound::Excluded(v) => Bound::Excluded(v@),
        Bound::Unbounded => Bound::Unbounded,
    }
}

/// The order-preserving term encoding of an unsigned 64-bit value: its eight
/// bytes, most significant first, so that lexicographic byte order matches
/// numeric order.
pub open spec fn spec_encode_u64(val: u64) -> Seq<u8> {
    seq![
        (val >> 56) as u8,
        (val >> 48) as u8,
        (val >> 40) as u8,
        (val >> 32) as u8,
        (val >> 24) as u8,
        (val >> 16) as u8,
        (val >> 8) as u8,
        val as u8,
    ]
}

/// The order-preserving term encoding of a signed 64-bit value: the sign bit
/// is flipped, mapping the signed order onto the unsigned one, and the result
/// is encoded as big-endian bytes.
pub open spec fn spec_encode_i64(val: i64) -> Seq<u8> {
    spec_encode_u64((val as u64) ^ 0x8000_0000_0000_0000u64)
}

/// Encodes an unsigned 64-bit field value as its term bytes.
pub fn encode_u64(val: u64) -> (r: Vec<u8>)
    ensures
        r@ == spec_encode_u64(val),
{
    let mut r: Vec<u8> = Vec::new();
    r.push((val >> 56) as u8);
    r.push((val >> 48) as u8);
    r.push((val >> 40) as u8);
    r.push((val >> 32) as u8);
    r.push((val >> 24) as u8);
    r.push((val >> 16) as u8);
    r.push((val >> 8) as u8);
    r.push(val as u8);
    proof {
        assert(r@ =~= spec_encode_u64(val));
    }
    r
}

/// Encodes a signed 64-bit field value as its term bytes.
pub fn encode_i64(val: i64) -> (r: Vec<u8>)
    ensures
        r@ == spec_encode_i64(val),
{
    encode_u64((val as u64) ^ 0x8000_0000_0000_0000u64)
}

/// Byte-by-byte comparison of two unsigned 64-bit values, most significant
/// byte first: the form that lexicographic order takes on their encodings.
spec fn u64_bytes_lt(a: u64, b: u64) -> bool {
    let a0 = (a >> 56) as u8;
    let a1 = (a >> 48) as u8;
    let a2 = (a >> 40) as u8;
    let a3 = (a >> 32) as u8;
    let a4 = (a >> 24) as u8;
    let a5 = (a >> 16) as u8;
    let a6 = (a >> 8) as u8;
    let a7 = a as u8;
    let b0 = (b >> 56) as u8;
    let b1 = (b >> 48) as u8;
    let b2 = (b >> 40) as u8;
    let b3 = (b >> 32) as u8;
    let b4 = (b >> 24) as u8;
    let b5 = (b >> 16) as u8;
    let b6 = (b >> 8) as u8;
    let b7 = b as u8;
    ||| a0 < b0
    ||| (a0 == b0 && a1 < b1)
    ||| (a0 == b0 && a1 == b1 && a2 < b2)
    ||| (a0 == b0 && a1 == b1 && a2 == b2 && a3 < b3)
    ||| (a0 == b0 && a1 == b1 && a2 == b2 && a3 == b3 && a4 < b4)
    ||| (a0 == b0 && a1 == b1 && a2 == b2 && a3 == b3 && a4 == b4 && a5 < b5)
    ||| (a0 == b0 && a1 == b1 && a2 == b2 && a3 == b3 && a4 == b4 && a5 == b5 && a6 < b6)
    ||| (a0 == b0 && a1 == b1 && a2 == b2 && a3 == b3 && a4 == b4 && a5 == b5 && a6 == b6
        && a7 < b7)
}

/// The unsigned encoding preserves order: the encodings of two values
/// compare lexicographically exactly as the values compare numerically.
pub proof fn lemma_encode_u64_order(a: u64, b: u64)
    ensures
        lex_lt(spec_encode_u64(a), spec_encode_u64(b)) <==> a < b,
{
    let sa = spec_encode_u64(a);
    let sb = spec_encode_u64(b);
    let sa1 = seq![
        (a >> 48) as u8,
        (a >> 40) as u8,
        (a >> 32) as u8,
        (a >> 24) as u8,
        (a >> 16) as u8,
        (a >> 8) as u8,
        a as u8,
    ];
    let sb1 = seq![
        (b >> 48) as u8,
        (b >> 40) as u8,
        (b >> 32) as u8,
        (b >> 24) as u8,
        (b >> 16) as u8,
        (b >> 8) as u8,
        b as u8,
    ];
    reveal_with_fuel(lex_lt, 10);
    assert(sa.skip(1) =~= sa1);
    assert(sb.skip(1) =~= sb1);
    assert(lex_lt(sa, sb) <==> u64_bytes_lt(a, b));
    assert(u64_bytes_lt(a, b) <==> a < b) by (bit_vector);
}

/// The signed encoding preserves order: flipping the sign bit maps the
/// signed order onto the unsigned one, so the encodings of two values
/// compare lexicographically exactly as the values compare numerically.
pub proof fn lemma_encode_i64_order(a: i64, b: i64)
    ensures
        lex_lt(spec_encode_i64(a), spec_encode_i64(b)) <==> a < b,
{
    lemma_encode_u64_order(
        (a as u64) ^ 0x8000_0000_0000_0000u64,
        (b as u64) ^ 0x8000_0000_0000_0000u64,
    );
    assert((((a as u64) ^ 0x8000_0000_0000_0000u64) < ((b as u64) ^ 0x8000_0000_0000_0000u64))
        <==> a < b) by (bit_vector);
}

/// Strict lexicographic order on byte sequences: `a` comes before `b` when,
/// at the first position where they differ, `a` has the smaller byte, or when
/// `a` is a proper prefix of `b`.
pub open spec fn lex_lt(a: Seq<u8>, b: Seq<u8>) -> bool
    decreases a.len(),
{
    if b.len() == 0 {
        false
    } else if a.len() == 0 {
        true
    } else if a[0] != b[0] {
        a[0] < b[0]
    } else {
        lex_lt(a.skip(1), b.skip(1))
    }
}

/// Dropping an equal prefix from both sequences does not change their
/// lexicographic order.
proof fn lemma_lex_lt_common_prefix(a: Seq<u8>, b: Seq<u8>, i: int)
    requires
        0 <= i <= a.len(),
        i <= b.len(),
        forall|j: int| 0 <= j < i ==> a[j] == b[j],
    ensures
        lex_lt(a, b) == lex_lt(a.skip(i), b.skip(i)),
    decreases i,
{
    if i > 0 {
        assert(a[0] == b[0]);
        assert(lex_lt(a, b) == lex_lt(a.skip(1), b.skip(1)));
        assert(forall|j: int| 0 <= j < i - 1 ==> a.skip(1)[j] == b.skip(1)[j]);
        lemma_lex_lt_common_prefix(a.skip(1), b.skip(1), i - 1);
        assert(a.skip(1).skip(i - 1) =~= a.skip(i));
        assert(b.skip(1).skip(i - 1) =~= b.skip(i));
    } else {
        assert(a.skip(0) =~= a);
        assert(b.skip(0) =~= b);
    }
}

/// Compares two byte strings lexicographically: true iff `a` comes strictly
/// before `b`.
pub fn bytes_lt(a: &Vec<u8>, b: &Vec<u8>) -> (r: bool)
    ensures
        r == lex_lt(a@, b@),
{
    let mut i: usize = 0;
    while i < a.len() && i < b.len()
        invariant
            i <= a@.len(),
            i <= b@.len(),
            forall|j: int| 0 <= j < i ==> a@[j] == b@[j],
        decreases a@.len() - i,
    {
        if a[i] != b[i] {
            proof {
                lemma_lex_lt_common_prefix(a@, b@, i as int);
                assert(a@.skip(i as int)[0] == a@[i as int]);
                assert(b@.skip(i as int)[0] == b@[i as int]);
            }
            return a[i] < b[i];
        }
        i = i + 1;
    }
    proof {
        lemma_lex_lt_common_prefix(a@, b@, i as int);
    }
    a.len() < b.len()
}

/// Whether an encoded term satisfies the left (lower) side of a range:
/// greater-or-equal for an included bound, strictly greater for an excluded
/// one, and always for an unbounded side.
pub open spec fn spec_left_in_range(bound: Bound<Seq<u8>>, term: Seq<u8>) -> bool {
    match bound {
        Bound::Included(l) => !lex_lt(term, l),
        Bound::Excluded(l) => lex_lt(l, term),
        Bound::Unbounded => true,
    }
}

/// Whether an encoded term satisfies the right (upper) side of a range:
/// less-or-equal for an included bound, strictly less for an excluded one,
/// and always for an unbounded side.
pub open spec fn spec_right_in_range(bound: Bound<Seq<u8>>, term: Seq<u8>) -> bool {
    match bound {
        Bound::Included(r) => !lex_lt(r, term),
        Bound::Excluded(r) => lex_lt(term, r),
        Bound::Unbounded => true,
    }
}

/// Whether an encoded term lies within both sides of a range.
pub open spec fn spec_term_in_range(
    left: Bound<Seq<u8>>,
    right: Bound<Seq<u8>>,
    term: Seq<u8>,
) -> bool {
    spec_left_in_range(left, term) && spec_right_in_range(right, term)
}

/// Decides the left-side restriction for one term: `>=` under an included
/// bound, `>` under an excluded one, none when unbounded.
pub fn left_in_range(bound: &Bound<Vec<u8>>, term: &Vec<u8>) -> (r: bool)
    ensures
        r == spec_left_in_range(bound_view(*bound), term@),
{
    match bound {
        Bound::Included(l) => !bytes_lt(term, l),
        Bound::Excluded(l) => bytes_lt(l, term),
        Bound::Unbounded => true,
    }
}

/// Decides the right-side restriction for one term: `<=` under an included
/// bound, `<` under an excluded one, none when unbounded.
pub fn right_in_range(bound: &Bound<Vec<u8>>, term: &Vec<u8>) -> (r: bool)
    ensures
        r == spec_right_in_range(bound_view(*bound), term@),
{
    match bound {
        Bound::Included(r) => !bytes_lt(r, term),
        Bound::Excluded(r) => bytes_lt(term, r),
        Bound::Unbounded => true,
    }
}

/// Maps a typed bound through a term-encoding transform, keeping its
/// included/excluded/unbounded tag.
pub fn map_bound<TFrom, F: Fn(&TFrom) -> Vec<u8>>(bound: Bound<TFrom>, transform: &F) -> (r:
    Bound<Vec<u8>>)
    requires
        forall|v: &TFrom| #[trigger] call_requires(*transform, (v,)),
    ensures
        match bound {
            Bound::Included(v) => r matches Bound::Included(w) && call_ensures(
                *transform,
                (&v,),
                w,
            ),
            Bound::Excluded(v) => r matches Bound::Excluded(w) && call_ensures(
                *transform,
                (&v,),
                w,
            ),
            Bound::Unbounded => r matches Bound::Unbounded,
        },
{
    match bound {
        Bound::Excluded(from_val) => Bound::Excluded(transform(&from_val)),
        Bound::Included(from_val) => Bound::Included(transform(&from_val)),
        Bound::Unbounded => Bound::Unbounded,
    }
}

/// The numeric meaning of an encoded unsigned range: the encoding of a
/// value lies within the encoded bounds exactly when the value lies within
/// the numeric bounds — greater(-or-equal) than the left one and
/// less(-or-equal) than the right one, per their tags.
pub proof fn lemma_u64_range_semantics(left: Bound<u64>, right: Bound<u64>, v: u64)
    ensures
        spec_term_in_range(spec_u64_bound(left), spec_u64_bound(right), spec_encode_u64(v))
            <==> ((match left {
            Bound::Included(l) => l <= v,
            Bound::Excluded(l) => l < v,
            Bound::Unbounded => true,
        }) && (match right {
            Bound::Included(r) => v <= r,
            Bound::Excluded(r) => v < r,
            Bound::Unbounded => true,
        })),
{
    match left {
        Bound::Included(l) => lemma_encode_u64_order(v, l),
        Bound::Excluded(l) => lemma_encode_u64_order(l, v),
        Bound::Unbounded => (),
    }
    match right {
        Bound::Included(r) => lemma_encode_u64_order(r, v),
        Bound::Excluded(r) => lemma_encode_u64_order(v, r),
        Bound::Unbounded => (),
    }
}

/// The numeric meaning of an encoded signed range: the encoding of a value
/// lies within the encoded bounds exactly when the value lies within the
/// numeric bounds — greater(-or-equal) than the left one and
/// less(-or-equal) than the right one, per their tags.
pub proof fn lemma_i64_range_semantics(left: Bound<i64>, right: Bound<i64>, v: i64)
    ensures
        spec_term_in_range(spec_i64_bound(left), spec_i64_bound(right), spec_encode_i64(v))
            <==> ((match left {
            Bound::Included(l) => l <= v,
            Bound::Excluded(l) => l < v,
            Bound::Unbounded => true,
        }) && (match right {
            Bound::Included(r) => v <= r,
            Bound::Excluded(r) => v < r,
            Bound::Unbounded => true,
        })),
{
    match left {
        Bound::Included(l) => lemma_encode_i64_order(v, l),
        Bound::Excluded(l) => lemma_encode_i64_order(l, v),
        Bound::Unbounded => (),
    }
    match right {
        Bound::Included(r) => lemma_encode_i64_order(r, v),
        Bound::Excluded(r) => lemma_encode_i64_order(v, r),
        Bound::Unbounded => (),
    }
}

/// The encoded form of a typed signed 64-bit bound.
pub open spec fn spec_i64_bound(b: Bound<i64>) -> Bound<Seq<u8>> {
    match b {
        Bound::Included(v) => Bound::Included(spec_encode_i64(v)),
        Bound::Excluded(v) => Bound::Excluded(spec_encode_i64(v)),
        Bound::Unbounded => Bound::Unbounded,
    }
}

/// The encoded form of a typed unsigned 64-bit bound.
pub open spec fn spec_u64_bound(b: Bound<u64>) -> Bound<Seq<u8>> {
    match b {
        Bound::Included(v) => Bound::Included(spec_encode_u64(v)),
        Bound::Excluded(v) => Bound::Excluded(spec_encode_u64(v)),
        Bound::Unbounded => Bound::Unbounded,
    }
}

/// The encoded form of a typed string bound: the string's raw bytes.
pub open spec fn spec_str_bound(b: Bound<&str>) -> Bound<Seq<u8>> {
    match b {
        Bound::Included(v) => Bound::Included(v.spec_bytes()),
        Bound::Excluded(v) => Bound::Excluded(v.spec_bytes()),
        Bound::Unbounded => Bound::Unbounded,
    }
}

/// Copies a byte string.
fn clone_bytes(v: &Vec<u8>) -> (r: Vec<u8>)
    ensures
        r@ == v@,
{
    let mut r: Vec<u8> = Vec::new();
    let mut i: usize = 0;
    while i < v.len()
        invariant
            i <= v@.len(),
            r@ == v@.subrange(0, i as int),
        decreases v@.len() - i,
    {
        r.push(v[i]);
        i = i + 1;
        proof {
            assert(r@ =~= v@.subrange(0, i as int));
        }
    }
    proof {
        assert(v@.subrange(0, v@.len() as int) =~= v@);
    }
    r
}

/// Copies an encoded bound, tag and bytes alike.
fn clone_bound(b: &Bound<Vec<u8>>) -> (r: Bound<Vec<u8>>)
    ensures
        bound_view(r) == bound_view(*b),
{
    match b {
        Bound::Included(v) => Bound::Included(clone_bytes(v)),
        Bound::Excluded(v) => Bound::Excluded(clone_bytes(v)),
        Bound::Unbounded => Bound::Unbounded,
    }
}

/// A range query: matches every document of a segment that carries at least
/// one term of the query's field within the given bounds. Immutable once
/// built, and reusable across searches; every matched document gets the same
/// constant score.
#[derive(Debug)]
pub struct RangeQuery {
    field: Field,
    left_bound: Bound<Vec<u8>>,
    right_bound: Bound<Vec<u8>>,
}

impl RangeQuery {
    /// The queried field.
    pub closed spec fn spec_field(self) -> Field {
        self.field
    }

    /// The encoded lower bound.
    pub closed spec fn spec_left(self) -> Bound<Seq<u8>> {
        bound_view(self.left_bound)
    }

    /// The encoded upper bound.
    pub closed spec fn spec_right(self) -> Bound<Seq<u8>> {
        bound_view(self.right_bound)
    }

    /// Creates a new `RangeQuery` over a signed 64-bit field.
    pub fn new_i64(field: Field, left: Bound<i64>, right: Bound<i64>) -> (r: RangeQuery)
        ensures
            r.spec_field() == field,
            r.spec_left() == spec_i64_bound(left),
            r.spec_right() == spec_i64_bound(right),
    {
        let make_term_val = |val: &i64| -> (tv: Vec<u8>)
            ensures
                tv@ == spec_encode_i64(*val),
            { encode_i64(*val) };
        RangeQuery {
            field,
            left_bound: map_bound(left, &make_term_val),
            right_bound: map_bound(right, &make_term_val),
        }
    }

    /// Creates a new `RangeQuery` over an unsigned 64-bit field.
    pub fn new_u64(field: Field, left: Bound<u64>, right: Bound<u64>) -> (r: RangeQuery)
        ensures
            r.spec_field() == field,
            r.spec_left() == spec_u64_bound(left),
            r.spec_right() == spec_u64_bound(right),
    {
        let make_term_val = |val: &u64| -> (tv: Vec<u8>)
            ensures
                tv@ == spec_encode_u64(*val),
            { encode_u64(*val) };
        RangeQuery {
            field,
            left_bound: map_bound(left, &make_term_val),
            right_bound: map_bound(right, &make_term_val),
        }
    }

    /// Creates a new `RangeQuery` over a string field.
    pub fn new_str(field: Field, left: Bound<&str>, right: Bound<&str>) -> (r: RangeQuery)
        ensures
            r.spec_field() == field,
            r.spec_left() == spec_str_bound(left),
            r.spec_right() == spec_str_bound(right),
    {
        let make_term_val = |val: &&str| -> (tv: Vec<u8>)
            ensures
                tv@ == val.spec_bytes(),
            { val.as_bytes_vec() };
        RangeQuery {
            field,
            left_bound: map_bound(left, &make_term_val),
            right_bound: map_bound(right, &make_term_val),
        }
    }

    /// Compiles this query for one search: a `RangeWeight` carrying its own
    /// copy of the field and both bounds.
    pub fn weight(&self) -> (r: RangeWeight)
        ensures
            r.spec_field() == self.spec_field(),
            r.spec_left() == self.spec_left(),
            r.spec_right() == self.spec_right(),
    {
        RangeWeight {
            field: self.field,
            left_bound: clone_bound(&self.left_bound),
            right_bound: clone_bound(&self.right_bound),
        }
    }
}

/// The per-search compiled form of a `RangeQuery`: executes against one
/// segment at a time, stateless between segments.
pub struct RangeWeight {
    field: Field,
    left_bound: Bound<Vec<u8>>,
    right_bound: Bound<Vec<u8>>,
}

/// An ascending streaming cursor over the terms of one dictionary that lie
/// within a range: `advance` moves to the next matched term, `value` exposes
/// the current term's location in the dictionary (its postings handle).
pub struct TermStream {
    matches: Vec<usize>,
    pos: usize,
}

impl TermStream {
    /// The locations of the matched terms, ascending.
    pub closed spec fn spec_matches(self) -> Seq<usize> {
        self.matches@
    }

    /// How many matched terms have been produced so far.
    pub closed spec fn spec_pos(self) -> int {
        self.pos as int
    }

    /// Moves to the next matched term; false when the stream is exhausted.
    pub fn advance(&mut self) -> (r: bool)
        ensures
            final(self).spec_matches() == old(self).spec_matches(),
            r == (old(self).spec_pos() < old(self).spec_matches().len()),
            final(self).spec_pos() == if r {
                old(self).spec_pos() + 1
            } else {
                old(self).spec_pos()
            },
    {
        if self.pos < self.matches.len() {
            self.pos = self.pos + 1;
            true
        } else {
            false
        }
    }

    /// The location of the current term in the dictionary.
    pub fn value(&self) -> (r: usize)
        requires
            1 <= self.spec_pos() <= self.spec_matches().len(),
        ensures
            r == self.spec_matches()[self.spec_pos() - 1],
    {
        self.matches[self.pos - 1]
    }
}

/// Whether document `d` carries at least one term of the dictionary that
/// lies within the range: the matching criterion of a range query on one
/// segment.
pub open spec fn spec_doc_matches(
    index: InvertedIndex,
    left: Bound<Seq<u8>>,
    right: Bound<Seq<u8>>,
    d: u32,
) -> bool {
    exists|t: int|
        #![trigger index.entries@[t]]
        0 <= t < index.entries@.len() && spec_term_in_range(left, right, index.entries@[t].term@)
            && index.entries@[t].docs@.contains(d)
}

impl RangeWeight {
    /// The queried field.
    pub closed spec fn spec_field(self) -> Field {
        self.field
    }

    /// The encoded lower bound.
    pub closed spec fn spec_left(self) -> Bound<Seq<u8>> {
        bound_view(self.left_bound)
    }

    /// The encoded upper bound.
    pub closed spec fn spec_right(self) -> Bound<Seq<u8>> {
        bound_view(self.right_bound)
    }

    /// Builds the term-dictionary cursor restricted by both bounds: it
    /// produces, in ascending dictionary order, the location of every term
    /// lying within the range — greater(-or-equal) than the left bound,
    /// less(-or-equal) than the right one, per their tags.
    pub fn term_range(&self, term_dict: &InvertedIndex) -> (r: TermStream)
        ensures
            r.spec_pos() == 0,
            forall|k: int|
                0 <= k < r.spec_matches().len() ==> #[trigger] r.spec_matches()[k]
                    < term_dict.entries@.len() && spec_term_in_range(
                    self.spec_left(),
                    self.spec_right(),
                    term_dict.entries@[r.spec_matches()[k] as int].term@,
                ),
            forall|t: int|
                0 <= t < term_dict.entries@.len() && spec_term_in_range(
                    self.spec_left(),
                    self.spec_right(),
                    #[trigger] term_dict.entries@[t].term@,
                ) ==> exists|k: int|
                    #![trigger r.spec_matches()[k]]
                    0 <= k < r.spec_matches().len() && r.spec_matches()[k] as int == t,
            forall|k1: int, k2: int|
                0 <= k1 < k2 < r.spec_matches().len() ==> #[trigger] r.spec_matches()[k1]
                    < #[trigger] r.spec_matches()[k2],
    {
        let mut matches: Vec<usize> = Vec::new();
        let n = term_dict.entries.len();
        let mut i: usize = 0;
        while i < n
            invariant
                i <= n,
                n == term_dict.entries@.len(),
                forall|k: int|
                    0 <= k < matches@.len() ==> #[trigger] matches@[k] < i
                        && spec_term_in_range(
                        self.spec_left(),
                        self.spec_right(),
                        term_dict.entries@[matches@[k] as int].term@,
                    ),
                forall|t: int|
                    0 <= t < i && spec_term_in_range(
                        self.spec_left(),
                        self.spec_right(),
                        #[trigger] term_dict.entries@[t].term@,
                    ) ==> exists|k: int|
                        #![trigger matches@[k]]
                        0 <= k < matches@.len() && matches@[k] as int == t,
                forall|k1: int, k2: int|
                    0 <= k1 < k2 < matches@.len() ==> #[trigger] matches@[k1]
                        < #[trigger] matches@[k2],
            decreases n - i,
        {
            let entry = &term_dict.entries[i];
            if left_in_range(&self.left_bound, &entry.term) && right_in_range(
                &self.right_bound,
                &entry.term,
            ) {
                let ghost prev = matches@;
                matches.push(i);
                proof {
                    assert forall|t: int|
                        0 <= t < i + 1 && spec_term_in_range(
                            self.spec_left(),
                            self.spec_right(),
                            #[trigger] term_dict.entries@[t].term@,
                        ) implies exists|k: int|
                        #![trigger matches@[k]]
                        0 <= k < matches@.len() && matches@[k] as int == t by {
                        if t < i {
                            let k = choose|k: int|
                                #![trigger prev[k]]
                                0 <= k < prev.len() && prev[k] as int == t;
                            assert(matches@[k] == prev[k]);
                        } else {
                            assert(matches@[prev.len() as int] == i);
                        }
                    }
                }
            }
            i = i + 1;
        }
        let r = TermStream { matches, pos: 0 };
        proof {
            assert(r.spec_matches() == matches@);
            assert forall|t: int|
                0 <= t < term_dict.entries@.len() && spec_term_in_range(
                    self.spec_left(),
                    self.spec_right(),
                    #[trigger] term_dict.entries@[t].term@,
                ) implies exists|k: int|
                #![trigger r.spec_matches()[k]]
                0 <= k < r.spec_matches().len() && r.spec_matches()[k] as int == t by {
                let k = choose|k: int|
                    #![trigger matches@[k]]
                    0 <= k < matches@.len() && matches@[k] as int == t;
                assert(r.spec_matches()[k] as int == t);
            }
        }
        r
    }

    /// Scores this range against one segment: allocates a fresh `BitSet`
    /// sized to the segment's document-count upper bound, streams every term
    /// of the field's dictionary lying within the bounds, decodes each term's
    /// postings and inserts every document id, then wraps the completed set
    /// in a document-set adapter behind a constant scorer. A document is in
    /// the resulting set exactly when it carries at least one in-range term.
    #[verifier::loop_isolation(false)]
    pub fn scorer(&self, reader: &SegmentReader) -> (r: ConstScorer)
        requires
            reader.wf(),
            self.spec_field().0 < reader.indexes@.len(),
        ensures
            r.spec_docset().wf(),
            !r.spec_docset().spec_started(),
            r.spec_docset().spec_docs().spec_max_value() == reader.max_doc,
            forall|d: u32|
                #[trigger] r.spec_docset().spec_docs().spec_contains(d) <==> (d < reader.max_doc
                    && spec_doc_matches(
                    reader.indexes@[self.spec_field().0 as int],
                    self.spec_left(),
                    self.spec_right(),
                    d,
                )),
    {
        let max_doc = reader.max_doc();
        let mut doc_bitset = BitSet::with_max_value(max_doc);
        let inverted_index = reader.inverted_index(self.field);
        proof {
            assert forall|t: int, k: int|
                0 <= t < inverted_index.entries@.len() && 0 <= k
                    < inverted_index.entries@[t].docs@.len() implies #[trigger] inverted_index
                .entries@[t].docs@[k] < max_doc by {
                assert(reader.indexes@[self.field.0 as int].entries@[t].docs@[k]
                    < reader.max_doc);
            }
        }
        let mut term_stream = self.term_range(inverted_index);
        let ghost ms = term_stream.spec_matches();
        while term_stream.advance()
            invariant
                term_stream.spec_matches() == ms,
                0 <= term_stream.spec_pos() <= ms.len(),
                doc_bitset.wf(),
                doc_bitset.spec_max_value() == max_doc,
                forall|d: u32|
                    #[trigger] doc_bitset.spec_contains(d) <==> exists|k: int|
                        0 <= k < term_stream.spec_pos() && inverted_index.entries@[
                        #[trigger] ms[k] as int].docs@.contains(d),
            decreases ms.len() - term_stream.spec_pos(),
        {
            let ti = term_stream.value();
            let docs = &inverted_index.entries[ti].docs;
            let ghost p = term_stream.spec_pos();
            let mut di: usize = 0;
            while di < docs.len()
                invariant
                    di <= docs@.len(),
                    doc_bitset.wf(),
                    doc_bitset.spec_max_value() == max_doc,
                    forall|d: u32|
                        #[trigger] doc_bitset.spec_contains(d) <==> (exists|k: int|
                            0 <= k < p - 1 && inverted_index.entries@[
                            #[trigger] ms[k] as int].docs@.contains(d)) || docs@.subrange(
                            0,
                            di as int,
                        ).contains(d),
                decreases docs@.len() - di,
            {
                doc_bitset.insert(docs[di]);
                proof {
                    assert(docs@.subrange(0, di + 1)[di as int] == docs@[di as int]);
                    assert forall|d: u32|
                        #[trigger] doc_bitset.spec_contains(d) <==> (exists|k: int|
                            0 <= k < p - 1 && inverted_index.entries@[
                            #[trigger] ms[k] as int].docs@.contains(d)) || docs@.subrange(
                            0,
                            di + 1,
                        ).contains(d) by {
                        if docs@.subrange(0, di + 1).contains(d) {
                            let j = choose|j: int|
                                0 <= j < di + 1 && #[trigger] docs@.subrange(0, di + 1)[j]
                                    == d;
                            if j < di {
                                assert(docs@.subrange(0, di as int)[j] == d);
                            }
                        }
                        if docs@.subrange(0, di as int).contains(d) {
                            let j = choose|j: int|
                                0 <= j < di && #[trigger] docs@.subrange(0, di as int)[j]
                                    == d;
                            assert(docs@.subrange(0, di + 1)[j] == d);
                        }
                    }
                }
                di = di + 1;
            }
            proof {
                assert(docs@.subrange(0, docs@.len() as int) =~= docs@);
                assert forall|d: u32|
                    #[trigger] doc_bitset.spec_contains(d) <==> exists|k: int|
                        0 <= k < p && inverted_index.entries@[
                        #[trigger] ms[k] as int].docs@.contains(d) by {
                    if doc_bitset.spec_contains(d) {
                        if docs@.contains(d) {
                            assert(inverted_index.entries@[ms[p - 1] as int].docs@.contains(
                                d));
                        }
                    }
                    if exists|k: int|
                        0 <= k < p && inverted_index.entries@[
                        #[trigger] ms[k] as int].docs@.contains(d) {
                        let k = choose|k: int|
                            0 <= k < p && inverted_index.entries@[
                            #[trigger] ms[k] as int].docs@.contains(d);
                        if k < p - 1 {
                            assert(doc_bitset.spec_contains(d));
                        } else {
                            assert(docs@.contains(d));
                        }
                    }
                }
            }
        }
        proof {
            let fld = self.field.0 as int;
            assert forall|d: u32|
                #[trigger] doc_bitset.spec_contains(d) <==> (d < max_doc && spec_doc_matches(
                    reader.indexes@[fld],
                    self.spec_left(),
                    self.spec_right(),
                    d,
                )) by {
                if doc_bitset.spec_contains(d) {
                    let k = choose|k: int|
                        0 <= k < ms.len() && inverted_index.entries@[
                        #[trigger] ms[k] as int].docs@.contains(d);
                    assert(term_stream.spec_matches()[k] < inverted_index.entries@.len());
                    assert(spec_term_in_range(
                        self.spec_left(),
                        self.spec_right(),
                        inverted_index.entries@[ms[k] as int].term@,
                    ));
                    assert(spec_doc_matches(
                        reader.indexes@[fld],
                        self.spec_left(),
                        self.spec_right(),
                        d,
                    ));
                }
                if d < max_doc && spec_doc_matches(
                    reader.indexes@[fld],
                    self.spec_left(),
                    self.spec_right(),
                    d,
                ) {
                    let t = choose|t: int|
                        #![trigger reader.indexes@[fld].entries@[t]]
                        0 <= t < reader.indexes@[fld].entries@.len() && spec_term_in_range(
                            self.spec_left(),
                            self.spec_right(),
                            reader.indexes@[fld].entries@[t].term@,
                        ) && reader.indexes@[fld].entries@[t].docs@.contains(d);
                    assert(inverted_index.entries@[t] == reader.indexes@[fld].entries@[t]);
                    let k = choose|k: int|
                        #![trigger ms[k]]
                        0 <= k < ms.len() && ms[k] as int == t;
                    assert(inverted_index.entries@[ms[k] as int].docs@.contains(d));
                    assert(doc_bitset.spec_contains(d));
                }
            }
        }
        ConstScorer::new(BitSetDocSet::from(doc_bitset))
    }
}

} // verus!
