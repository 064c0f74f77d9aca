use std::collections::HashSet;

use rangeset::bitset::num_buckets;
use rangeset::bitset::BitSet;
use rangeset::bitset::TinySet;
use rangeset::docset::BitSetDocSet;

fn collect_members(set: TinySet) -> Vec<u32> {
    let mut it = set.into_iter();
    let mut members: Vec<u32> = Vec::new();
    while let Some(v) = it.next() {
        members.push(v);
    }
    members
}

#[test]
fn test_tiny_set() {
    assert!(TinySet::empty().is_empty());
    {
        let mut u = TinySet::empty();
        u.insert(1u32);
        assert_eq!(u.pop_lowest(), Some(1u32));
        assert!(u.pop_lowest().is_none())
    }
    {
        let mut u = TinySet::empty();
        u.insert(1u32);
        u.insert(1u32);
        assert_eq!(u.pop_lowest(), Some(1u32));
        assert!(u.pop_lowest().is_none())
    }
    {
        let mut u = TinySet::empty();
        u.insert(2u32);
        assert_eq!(u.pop_lowest(), Some(2u32));
        u.insert(1u32);
        assert_eq!(u.pop_lowest(), Some(1u32));
        assert!(u.pop_lowest().is_none());
    }
    {
        let mut u = TinySet::empty();
        u.insert(63u32);
        assert_eq!(u.pop_lowest(), Some(63u32));
        assert!(u.pop_lowest().is_none());
    }
}

#[test]
fn test_bitset() {
    let test_against_hashset = |els: &[u32], max_value: u32| {
        let mut hashset: HashSet<u32> = HashSet::new();
        let mut bitset = BitSet::with_max_value(max_value);
        for &el in els {
            assert!(el < max_value);
            hashset.insert(el);
            bitset.insert(el);
        }
        for el in 0..max_value {
            assert_eq!(hashset.contains(&el), bitset.contains(el));
        }
        assert_eq!(bitset.max_value(), max_value);
    };

    test_against_hashset(&[], 0);
    test_against_hashset(&[], 1);
    test_against_hashset(&[0u32], 1);
    test_against_hashset(&[0u32], 100);
    test_against_hashset(&[1u32, 2u32], 4);
    test_against_hashset(&[99u32], 100);
    test_against_hashset(&[63u32], 64);
    test_against_hashset(&[62u32, 63u32], 64);
}

#[test]
fn test_bitset_num_buckets() {
    assert_eq!(num_buckets(0u32), 0);
    assert_eq!(num_buckets(1u32), 1);
    assert_eq!(num_buckets(64u32), 1);
    assert_eq!(num_buckets(65u32), 2);
    assert_eq!(num_buckets(128u32), 2);
    assert_eq!(num_buckets(129u32), 3);
}

#[test]
fn test_tinyset_range() {
    assert_eq!(collect_members(TinySet::range_lower(3)), [0, 1, 2]);
    assert!(TinySet::range_lower(0).is_empty());
    assert_eq!(
        collect_members(TinySet::range_lower(63)),
        (0u32..63u32).collect::<Vec<_>>()
    );
    assert_eq!(collect_members(TinySet::range_lower(1)), [0]);
    assert_eq!(collect_members(TinySet::range_lower(2)), [0, 1]);
    assert_eq!(
        collect_members(TinySet::range_greater_or_equal(3)),
        (3u32..64u32).collect::<Vec<_>>()
    );
}

#[test]
fn test_bitset_clear() {
    let mut bitset = BitSet::with_max_value(1_000);
    let els: Vec<u32> = (0u32..1_000).filter(|el| el % 97 == 5).collect();
    for &el in &els {
        bitset.insert(el);
    }
    assert!(els.iter().all(|el| bitset.contains(*el)));
    bitset.clear();
    for el in 0u32..1000u32 {
        assert!(!bitset.contains(el));
    }
}

#[test]
fn test_singleton_pop_lowest() {
    for v in [0u32, 1, 31, 63] {
        let mut u = TinySet::singleton(v);
        assert_eq!(u.pop_lowest(), Some(v));
        assert!(u.is_empty());
        assert!(u.pop_lowest().is_none());
    }
}

#[test]
fn test_tinyset_iteration_ascending_once() {
    let mut u = TinySet::empty();
    for v in [21u32, 10, 14, 10, 21, 21, 0, 63] {
        u.insert(v);
    }
    assert_eq!(collect_members(u), [0, 10, 14, 21, 63]);
    // iteration does not consume the set: a fresh pass yields the same members
    assert_eq!(collect_members(u), [0, 10, 14, 21, 63]);
}

#[test]
fn test_tinyset_range_wraps_at_64() {
    // the limit is taken modulo 64: a bound of exactly 64 yields an empty set
    assert!(TinySet::range_lower(64).is_empty());
    assert_eq!(
        collect_members(TinySet::range_greater_or_equal(64)),
        (0u32..64u32).collect::<Vec<_>>()
    );
}

#[test]
fn test_bitset_size_hint() {
    let mut bitset = BitSet::with_max_value(10);
    assert_eq!(bitset.size_hint(), 0);
    bitset.insert(3);
    assert_eq!(bitset.size_hint(), 1);
    // duplicate inserts still increment the estimate
    bitset.insert(3);
    assert_eq!(bitset.size_hint(), 2);
    for _ in 0..20 {
        bitset.insert(4);
    }
    // the reported value is capped at max_value
    assert_eq!(bitset.size_hint(), 10);
    // clear resets the members but deliberately not the insertion counter
    bitset.clear();
    assert_eq!(bitset.size_hint(), 10);
    assert!(!bitset.contains(3));
    assert!(!bitset.contains(4));
}

#[test]
fn test_docset_iteration_and_skip() {
    let mut bitset = BitSet::with_max_value(1_000);
    for el in [3u32, 70, 500, 900] {
        bitset.insert(el);
    }
    let mut ds = BitSetDocSet::from(bitset);
    assert!(ds.skip_next(0));
    assert_eq!(ds.doc(), 3);
    assert!(ds.skip_next(71));
    assert_eq!(ds.doc(), 500);
    // skip-to an existing member stays on it
    assert!(ds.skip_next(500));
    assert_eq!(ds.doc(), 500);
    // ascending iteration continues from the cursor
    assert!(ds.advance());
    assert_eq!(ds.doc(), 900);
    assert!(!ds.advance());
    assert!(!ds.skip_next(901));
}

#[test]
fn test_insert_all_membership() {
    let mut bitset = BitSet::with_max_value(200);
    let els = vec![3u32, 64, 64, 127, 128, 199, 3];
    bitset.insert_all(&els);
    for e in 0..200u32 {
        assert_eq!(bitset.contains(e), els.contains(&e));
    }
    // seven inserts counted, duplicates included
    assert_eq!(bitset.size_hint(), 7);
}

#[test]
fn test_first_non_empty_bucket() {
    let mut bitset = BitSet::with_max_value(1_000);
    bitset.insert(70);
    bitset.insert(500);
    assert_eq!(bitset.first_non_empty_bucket(0), Some(1));
    assert_eq!(bitset.first_non_empty_bucket(1), Some(1));
    assert_eq!(bitset.first_non_empty_bucket(2), Some(7));
    assert_eq!(bitset.first_non_empty_bucket(8), None);
    assert!(bitset.tinyset(1).contains(70 % 64));
    assert!(bitset.tinyset(7).contains(500 % 64));
}
