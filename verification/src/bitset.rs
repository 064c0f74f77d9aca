//! Fixed 64-slot bitmasks and the bucketed document-id set built from them.

use vstd::prelude::*;
use vstd::std_specs::bits::u64_trailing_zeros;
use vstd::std_specs::bits::axiom_u64_trailing_zeros;

verus! {

/// A fixed 64-slot membership bitmask: bit `i` is set exactly when the local
/// value `i` (in `[0, 64)`) is a member. Copied by value; never shared.
#[derive(Clone, Copy, PartialEq, Eq, Structural, Debug)]
pub struct TinySet(u64);

impl TinySet {
    /// Membership: `v` is a member exactly when `v < 64` and bit `v` is set.
    pub closed spec fn spec_has(self, v: u32) -> bool {
        v < 64 && (self.0 >> (v as u64)) & 1u64 == 1u64
    }

    /// Returns an empty `TinySet`.
    pub fn empty() -> (r: TinySet)
        ensures
            forall|v: u32| !r.spec_has(v),
    {
        let r = TinySet(0u64);
        proof {
            assert forall|v: u32| !r.spec_has(v) by {
                if v < 64 {
                    assert((0u64 >> (v as u64)) & 1u64 == 0u64) by (bit_vector);
                }
            }
        }
        r
    }

    /// Returns the complement of the set in `[0, 64)`.
    fn complement(&self) -> (r: TinySet)
        ensures
            forall|v: u32| r.spec_has(v) <==> (v < 64 && !self.spec_has(v)),
    {
        let r = TinySet(!self.0);
        proof {
            let w = self.0;
            assert forall|v: u32| r.spec_has(v) <==> (v < 64 && !self.spec_has(v)) by {
                if v < 64 {
                    assert(((!w) >> (v as u64)) & 1u64 == 1u64 <==> !((w >> (v as u64)) & 1u64
                        == 1u64)) by (bit_vector)
                        requires
                            v < 64u32,
                    ;
                }
            }
        }
        r
    }

    /// Returns true iff the `TinySet` contains the element `el`.
    pub fn contains(&self, el: u32) -> (r: bool)
        requires
            el < 64,
        ensures
            r == self.spec_has(el),
    {
        !self.intersect(TinySet::singleton(el)).is_empty()
    }

    /// Returns the intersection of `self` and `other`.
    pub fn intersect(&self, other: TinySet) -> (r: TinySet)
        ensures
            forall|v: u32| r.spec_has(v) <==> (self.spec_has(v) && other.spec_has(v)),
    {
        let r = TinySet(self.0 & other.0);
        proof {
            let w1 = self.0;
            let w2 = other.0;
            assert forall|v: u32|
                r.spec_has(v) <==> (self.spec_has(v) && other.spec_has(v)) by {
                if v < 64 {
                    assert(((w1 & w2) >> (v as u64)) & 1u64 == 1u64 <==> ((w1 >> (v as u64))
                        & 1u64 == 1u64 && (w2 >> (v as u64)) & 1u64 == 1u64)) by (bit_vector);
                }
            }
        }
        r
    }

    /// Creates a new `TinySet` containing only one element within `[0, 64)`.
    pub fn singleton(val: u32) -> (r: TinySet)
        requires
            val < 64,
        ensures
            forall|v: u32| r.spec_has(v) <==> v == val,
    {
        let mut tiny_set = TinySet::empty();
        tiny_set.insert(val);
        tiny_set
    }

    /// Inserts a new element within `[0, 64)`; idempotent.
    pub fn insert(&mut self, el: u32)
        requires
            el < 64,
        ensures
            forall|v: u32| final(self).spec_has(v) <==> (old(self).spec_has(v) || v == el),
    {
        let ghost w = self.0;
        self.0 = self.0 | (1u64 << (el as u64));
        proof {
            assert forall|v: u32|
                self.spec_has(v) <==> (old(self).spec_has(v) || v == el) by {
                if v < 64 {
                    assert(((w | (1u64 << (el as u64))) >> (v as u64)) & 1u64 == 1u64 <==> ((w
                        >> (v as u64)) & 1u64 == 1u64 || v == el)) by (bit_vector)
                        requires
                            el < 64u32,
                            v < 64u32,
                    ;
                }
            }
        }
    }

    /// Returns true iff the `TinySet` is empty.
    pub fn is_empty(&self) -> (r: bool)
        ensures
            r <==> (forall|v: u32| !self.spec_has(v)),
    {
        let r = self.0 == 0u64;
        proof {
            let w = self.0;
            if w == 0u64 {
                assert forall|v: u32| !self.spec_has(v) by {
                    if v < 64 {
                        assert((0u64 >> (v as u64)) & 1u64 == 0u64) by (bit_vector);
                    }
                }
            } else {
                axiom_u64_trailing_zeros(w);
                let tz = u64_trailing_zeros(w);
                assert(self.spec_has(tz));
            }
        }
        r
    }

    /// Returns the lowest element in the `TinySet` and removes it.
    pub fn pop_lowest(&mut self) -> (r: Option<u32>)
        ensures
            match r {
                Some(m) => {
                    &&& old(self).spec_has(m)
                    &&& forall|v: u32| v < m ==> !old(self).spec_has(v)
                    &&& forall|v: u32|
                        final(self).spec_has(v) <==> (old(self).spec_has(v) && v != m)
                },
                None => {
                    &&& forall|v: u32| !old(self).spec_has(v)
                    &&& *final(self) == *old(self)
                },
            },
    {
        if let Some(lowest) = self.lowest() {
            let ghost w = self.0;
            self.0 = self.0 ^ (1u64 << (lowest as u64));
            proof {
                assert forall|v: u32|
                    self.spec_has(v) <==> (old(self).spec_has(v) && v != lowest) by {
                    if v < 64 {
                        assert(((w ^ (1u64 << (lowest as u64))) >> (v as u64)) & 1u64 == 1u64
                            <==> ((w >> (v as u64)) & 1u64 == 1u64 && v != lowest))
                            by (bit_vector)
                            requires
                                lowest < 64u32,
                                v < 64u32,
                                (w >> (lowest as u64)) & 1u64 == 1u64,
                        ;
                    }
                }
            }
            Some(lowest)
        } else {
            None
        }
    }

    /// Returns the lowest element in the `TinySet` (or `None` if the set is
    /// empty).
    pub fn lowest(&mut self) -> (r: Option<u32>)
        ensures
            *final(self) == *old(self),
            match r {
                Some(m) => {
                    &&& m < 64
                    &&& old(self).spec_has(m)
                    &&& forall|v: u32| v < m ==> !old(self).spec_has(v)
                },
                None => forall|v: u32| !old(self).spec_has(v),
            },
    {
        if self.is_empty() {
            None
        } else {
            let least_significant_bit = self.0.trailing_zeros();
            proof {
                let w = self.0;
                axiom_u64_trailing_zeros(w);
                let tz = u64_trailing_zeros(w);
                assert(self.spec_has(tz));
                assert forall|v: u32| v < tz implies !self.spec_has(v) by {
                    assert((w >> (v as u64)) & 1u64 == 0u64);
                }
            }
            Some(least_significant_bit)
        }
    }

    /// Returns a `TinySet` that contains all values up to `upper_bound`,
    /// excluded.
    ///
    /// The bound is taken modulo 64, so an `upper_bound` of exactly 64 wraps
    /// to an empty set rather than the full one.
    pub fn range_lower(upper_bound: u32) -> (r: TinySet)
        ensures
            forall|v: u32| r.spec_has(v) <==> v < upper_bound % 64,
    {
        let k = (upper_bound % 64u32) as u64;
        proof {
            assert(1u64 << k >= 1u64) by (bit_vector)
                requires
                    k < 64u64,
            ;
        }
        let r = TinySet((1u64 << k) - 1u64);
        proof {
            let w = r.0;
            assert forall|v: u32| r.spec_has(v) <==> v < upper_bound % 64 by {
                if v < 64 {
                    assert((w >> (v as u64)) & 1u64 == 1u64 <==> (v as u64) < k)
                        by (bit_vector)
                        requires
                            k < 64u64,
                            v < 64u32,
                            w == ((1u64 << k) - 1u64) as u64,
                    ;
                }
            }
        }
        r
    }

    /// Returns a `TinySet` that contains all values greater than or equal to
    /// the given limit (and up to 63).
    ///
    /// Like `range_lower`, the limit is taken modulo 64.
    pub fn range_greater_or_equal(from_included: u32) -> (r: TinySet)
        ensures
            forall|v: u32| r.spec_has(v) <==> (from_included % 64 <= v < 64),
    {
        TinySet::range_lower(from_included).complement()
    }
}

/// Popping the lowest member twice in a row yields strictly ascending values:
/// if `m` is the lowest member of `before`, `after` is `before` without `m`,
/// and `m2` is the lowest member of `after`, then `m2 > m`. Since each popped
/// value is removed, no member is ever produced twice: iteration by repeated
/// `pop_lowest` enumerates each member exactly once, in ascending order.
pub proof fn lemma_pop_lowest_ascending(before: TinySet, after: TinySet, m: u32, m2: u32)
    requires
        before.spec_has(m),
        forall|v: u32| v < m ==> !before.spec_has(v),
        forall|v: u32| after.spec_has(v) <==> (before.spec_has(v) && v != m),
        after.spec_has(m2),
    ensures
        m2 > m,
{
    assert(before.spec_has(m2) && m2 != m);
}

/// A singleton set `{v}` has `v` as its lowest member, and removing that
/// member leaves the set empty: `singleton(v)` followed by `pop_lowest()`
/// yields exactly `v` and then an empty set.
pub proof fn lemma_singleton_pop_lowest(s: TinySet, after: TinySet, v: u32, m: u32)
    requires
        forall|u: u32| s.spec_has(u) <==> u == v,
        s.spec_has(m),
        forall|u: u32| u < m ==> !s.spec_has(u),
        forall|u: u32| after.spec_has(u) <==> (s.spec_has(u) && u != m),
    ensures
        m == v,
        forall|u: u32| !after.spec_has(u),
{
}

/// An iterator over the members of a `TinySet`, in ascending order: it
/// repeatedly pops the lowest member from a private copy, so the set it was
/// created from is untouched and iteration can be restarted from it.
pub struct TinySetIterator(TinySet);

impl TinySetIterator {
    /// The members not yet produced.
    pub closed spec fn spec_remaining(self) -> TinySet {
        self.0
    }

    /// The next member in ascending order, or `None` when all members have
    /// been produced.
    pub fn next(&mut self) -> (r: Option<u32>)
        ensures
            match r {
                Some(m) => {
                    &&& old(self).spec_remaining().spec_has(m)
                    &&& forall|v: u32| v < m ==> !old(self).spec_remaining().spec_has(v)
                    &&& forall|v: u32|
                        final(self).spec_remaining().spec_has(v) <==> (
                        old(self).spec_remaining().spec_has(v) && v != m)
                },
                None => {
                    &&& forall|v: u32| !old(self).spec_remaining().spec_has(v)
                    &&& *final(self) == *old(self)
                },
            },
    {
        self.0.pop_lowest()
    }
}

impl TinySet {
    /// Starts an iteration over the members of this set, ascending; the set
    /// itself is left untouched (value semantics).
    pub fn into_iter(self) -> (r: TinySetIterator)
        ensures
            r.spec_remaining() == self,
    {
        TinySetIterator(self)
    }
}

/// Number of 64-wide buckets needed to cover `[0, max_val)`.
pub open spec fn spec_num_buckets(max_val: u32) -> int {
    (max_val + 63) / 64
}

/// Returns the number of `TinySet` buckets a `BitSet` over `[0, max_val)`
/// allocates: `ceil(max_val / 64)`.
pub fn num_buckets(max_val: u32) -> (r: u32)
    requires
        max_val <= u32::MAX - 63,
    ensures
        r == spec_num_buckets(max_val),
{
    (max_val + 63u32) / 64u32
}

/// The bucket that holds element `el`, and its slot within that bucket.
proof fn lemma_bucket_of_element(el: u32, max_value: u32)
    requires
        el < max_value,
    ensures
        el / 64 < spec_num_buckets(max_value),
        el % 64 < 64,
{
    assert(el / 64 < (max_value + 63) / 64);
}

/// A set of `u32` elements within `[0, max_value)`, stored as one `TinySet`
/// bucket per 64-wide span of element values. Element `e` is present exactly
/// when bucket `e / 64` contains `e % 64`. The bucket array is solely owned
/// and its length never changes after construction.
#[derive(Clone)]
pub struct BitSet {
    tinysets: Vec<TinySet>,
    size_hint: usize,  // may overcount duplicate inserts; usize guards the
    // raw counter itself from overflow
    max_value: u32,
}

impl BitSet {
    /// The (immutable) exclusive upper bound on element values.
    pub closed spec fn spec_max_value(self) -> u32 {
        self.max_value
    }

    /// The raw insertion counter: incremented (saturating) by every insert,
    /// duplicates included.
    pub closed spec fn spec_size_hint_counter(self) -> usize {
        self.size_hint
    }

    /// Well-formedness: one bucket per 64-wide span of `[0, max_value)`, and
    /// no bit set at a position at or above `max_value`.
    pub closed spec fn wf(self) -> bool {
        &&& self.tinysets@.len() == spec_num_buckets(self.max_value)
        &&& self.max_value <= u32::MAX - 63
        &&& forall|b: u32, v: u32|
            b < self.tinysets@.len() && 64 * (b as int) + v >= self.max_value ==> !(
            #[trigger] self.tinysets@[b as int].spec_has(v))
    }

    /// The bucket representing the elements `bucket * 64 .. (bucket + 1) * 64`.
    pub closed spec fn spec_tinyset(self, bucket: u32) -> TinySet {
        self.tinysets@[bucket as int]
    }

    /// Membership: `el` is present exactly when it is below `max_value` and
    /// its slot is set in its bucket.
    pub closed spec fn spec_contains(self, el: u32) -> bool {
        el < self.max_value && self.tinysets@[(el / 64) as int].spec_has(el % 64)
    }

    /// Creates a new `BitSet` that may contain elements within
    /// `[0, max_value)`, initially empty, with an insertion counter of zero.
    pub fn with_max_value(max_value: u32) -> (r: BitSet)
        requires
            max_value <= u32::MAX - 63,
        ensures
            r.wf(),
            r.spec_max_value() == max_value,
            r.spec_size_hint_counter() == 0,
            forall|el: u32| !r.spec_contains(el),
    {
        let n = num_buckets(max_value);
        let mut tinysets: Vec<TinySet> = Vec::new();
        let mut i: u32 = 0;
        while i < n
            invariant
                i <= n,
                tinysets@.len() == i,
                forall|j: int, v: u32| 0 <= j < i ==> !tinysets@[j].spec_has(v),
            decreases n - i,
        {
            tinysets.push(TinySet::empty());
            i = i + 1;
        }
        let r = BitSet { tinysets, size_hint: 0, max_value };
        proof {
            assert forall|el: u32| !r.spec_contains(el) by {
                if el < max_value {
                    lemma_bucket_of_element(el, max_value);
                }
            }
        }
        r
    }

    /// Removes all elements from the `BitSet`. The insertion counter is
    /// deliberately left as it is: `size_hint` keeps reporting the inserts
    /// made before the clear.
    pub fn clear(&mut self)
        requires
            old(self).wf(),
        ensures
            final(self).wf(),
            final(self).spec_max_value() == old(self).spec_max_value(),
            final(self).spec_size_hint_counter() == old(self).spec_size_hint_counter(),
            forall|el: u32| !final(self).spec_contains(el),
    {
        let n = self.tinysets.len();
        let mut i: usize = 0;
        while i < n
            invariant
                i <= n,
                n == self.tinysets@.len(),
                self.max_value == old(self).max_value,
                self.size_hint == old(self).size_hint,
                self.tinysets@.len() == old(self).tinysets@.len(),
                forall|j: int, v: u32| 0 <= j < i ==> !self.tinysets@[j].spec_has(v),
            decreases n - i,
        {
            self.tinysets[i] = TinySet::empty();
            i = i + 1;
        }
        proof {
            assert forall|el: u32| !self.spec_contains(el) by {
                if el < self.max_value {
                    lemma_bucket_of_element(el, self.max_value);
                }
            }
        }
    }

    /// Returns an estimate of the number of elements in the set: the raw
    /// insertion counter, capped at `max_value`. Duplicate inserts of one
    /// element still increment the counter, so this may overcount.
    pub fn size_hint(&self) -> (r: u32)
        ensures
            r == if self.spec_size_hint_counter() < self.spec_max_value() as usize {
                self.spec_size_hint_counter() as u32
            } else {
                self.spec_max_value()
            },
    {
        if self.max_value as usize > self.size_hint {
            self.size_hint as u32
        } else {
            self.max_value
        }
    }

    /// Inserts an element below `max_value` into the `BitSet`; idempotent on
    /// the set of members, while the insertion counter grows (saturating)
    /// with every call.
    pub fn insert(&mut self, el: u32)
        requires
            old(self).wf(),
            el < old(self).spec_max_value(),
        ensures
            final(self).wf(),
            final(self).spec_max_value() == old(self).spec_max_value(),
            final(self).spec_size_hint_counter() == if old(self).spec_size_hint_counter() + 1
                <= usize::MAX {
                old(self).spec_size_hint_counter() + 1
            } else {
                usize::MAX as int
            },
            forall|e: u32| final(self).spec_contains(e) <==> (old(self).spec_contains(e) || e
                == el),
    {
        // we do not check saturated counters
        self.size_hint = self.size_hint.saturating_add(1);
        proof {
            lemma_bucket_of_element(el, self.max_value);
        }
        let bucket = (el / 64u32) as usize;
        let mut t = self.tinysets[bucket];
        t.insert(el % 64u32);
        self.tinysets[bucket] = t;
        proof {
            assert forall|e: u32|
                self.spec_contains(e) <==> (old(self).spec_contains(e) || e == el) by {
                if e < self.max_value {
                    lemma_bucket_of_element(e, self.max_value);
                    if e / 64 == el / 64 {
                        assert(e % 64 == el % 64 ==> e == el) by {
                            assert(e == 64 * (e / 64) + e % 64);
                            assert(el == 64 * (el / 64) + el % 64);
                        }
                    }
                }
            }
        }
    }

    /// Inserts every value of a batch, in order. Afterwards the members are
    /// exactly the previous members and the values of the batch: on a fresh
    /// `BitSet` of capacity `M`, after inserting a batch whose values all
    /// lie below `M`, `contains(e)` holds for each `e` below `M` exactly
    /// when `e` is in the batch, duplicates notwithstanding.
    pub fn insert_all(&mut self, els: &Vec<u32>)
        requires
            old(self).wf(),
            forall|k: int| 0 <= k < els@.len() ==> els@[k] < old(self).spec_max_value(),
        ensures
            final(self).wf(),
            final(self).spec_max_value() == old(self).spec_max_value(),
            final(self).spec_size_hint_counter() == if old(self).spec_size_hint_counter()
                + els@.len() <= usize::MAX {
                old(self).spec_size_hint_counter() + els@.len()
            } else {
                usize::MAX as int
            },
            forall|e: u32| final(self).spec_contains(e) <==> (old(self).spec_contains(e)
                || els@.contains(e)),
    {
        let mut i: usize = 0;
        while i < els.len()
            invariant
                i <= els@.len(),
                self.wf(),
                forall|k: int| 0 <= k < els@.len() ==> els@[k] < self.spec_max_value(),
                self.spec_max_value() == old(self).spec_max_value(),
                self.spec_size_hint_counter() == if old(self).spec_size_hint_counter() + i
                    <= usize::MAX {
                    old(self).spec_size_hint_counter() + i
                } else {
                    usize::MAX as int
                },
                forall|e: u32| self.spec_contains(e) <==> (old(self).spec_contains(e)
                    || els@.subrange(0, i as int).contains(e)),
            decreases els@.len() - i,
        {
            self.insert(els[i]);
            i = i + 1;
            proof {
                assert forall|e: u32| self.spec_contains(e) <==> (old(self).spec_contains(e)
                    || els@.subrange(0, i as int).contains(e)) by {
                    if els@.subrange(0, i as int).contains(e) {
                        let j = choose|j: int|
                            0 <= j < i && #[trigger] els@.subrange(0, i as int)[j] == e;
                        if j < i - 1 {
                            assert(els@.subrange(0, i - 1)[j] == e);
                        }
                    }
                    if els@.subrange(0, i - 1).contains(e) {
                        let j = choose|j: int|
                            0 <= j < i - 1 && #[trigger] els@.subrange(0, i - 1)[j] == e;
                        assert(els@.subrange(0, i as int)[j] == e);
                    }
                    if e == els@[i - 1] {
                        assert(els@.subrange(0, i as int)[i - 1] == e);
                    }
                }
            }
        }
        proof {
            assert(els@.subrange(0, els@.len() as int) =~= els@);
        }
    }

    /// Returns true iff the element is in the `BitSet`.
    pub fn contains(&self, el: u32) -> (r: bool)
        requires
            self.wf(),
            el < self.spec_max_value(),
        ensures
            r == self.spec_contains(el),
    {
        proof {
            lemma_bucket_of_element(el, self.max_value);
        }
        self.tinyset(el / 64u32).contains(el % 64)
    }

    /// Returns the first bucket at `bucket` or after it whose `TinySet` is
    /// non-empty, or `None` when all of them are empty. This lets an
    /// iterator skip whole 64-wide empty ranges of element values.
    pub fn first_non_empty_bucket(&self, bucket: u32) -> (r: Option<u32>)
        requires
            self.wf(),
            bucket <= spec_num_buckets(self.spec_max_value()),
        ensures
            match r {
                Some(b) => {
                    &&& bucket <= b < spec_num_buckets(self.spec_max_value())
                    &&& exists|v: u32| self.spec_tinyset(b).spec_has(v)
                    &&& forall|c: u32, v: u32|
                        bucket <= c < b ==> !self.spec_tinyset(c).spec_has(v)
                },
                None => forall|c: u32, v: u32|
                    bucket <= c < spec_num_buckets(self.spec_max_value())
                        ==> !self.spec_tinyset(c).spec_has(v),
            },
    {
        let n = self.tinysets.len();
        let mut i: usize = bucket as usize;
        while i < n
            invariant
                self.wf(),
                bucket <= i <= n,
                n == self.tinysets@.len(),
                forall|c: u32, v: u32|
                    bucket <= c < i ==> !self.spec_tinyset(c).spec_has(v),
            decreases n - i,
        {
            if !self.tinysets[i].is_empty() {
                proof {
                    assert(i < spec_num_buckets(self.spec_max_value()));
                    assert(self.spec_tinyset(i as u32) == self.tinysets@[i as int]);
                    assert(exists|v: u32| #[trigger] self.spec_tinyset(i as u32).spec_has(v));
                }
                return Some(i as u32);
            }
            i = i + 1;
        }
        None
    }

    /// The exclusive upper bound on element values, fixed at construction.
    pub fn max_value(&self) -> (r: u32)
        ensures
            r == self.spec_max_value(),
    {
        self.max_value
    }

    /// Membership in terms of buckets: an element below `max_value` is in
    /// the set exactly when its slot is set in its bucket.
    pub proof fn lemma_contains_via_tinyset(self, el: u32)
        requires
            self.wf(),
            el < self.spec_max_value(),
        ensures
            self.spec_contains(el) == self.spec_tinyset(el / 64).spec_has(el % 64),
    {
    }

    /// A member is always below `max_value`.
    pub proof fn lemma_contains_bounded(self, el: u32)
        ensures
            self.spec_contains(el) ==> el < self.spec_max_value(),
    {
    }

    /// A well-formed `BitSet` has no bit set at a position at or above
    /// `max_value`.
    pub proof fn lemma_no_stray_bits(self, b: u32, v: u32)
        requires
            self.wf(),
            b < spec_num_buckets(self.spec_max_value()),
            64 * (b as int) + v >= self.spec_max_value(),
        ensures
            !self.spec_tinyset(b).spec_has(v),
    {
    }

    /// Returns the `TinySet` representing the elements
    /// `bucket * 64 .. (bucket + 1) * 64`.
    pub fn tinyset(&self, bucket: u32) -> (r: TinySet)
        requires
            self.wf(),
            bucket < spec_num_buckets(self.spec_max_value()),
        ensures
            r == self.spec_tinyset(bucket),
    {
        self.tinysets[bucket as usize]
    }
}

} // verus!
