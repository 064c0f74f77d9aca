use rangeset::docset::ConstScorer;
use rangeset::range_query::bytes_lt;
use rangeset::range_query::encode_i64;
use rangeset::range_query::encode_u64;
use rangeset::range_query::left_in_range;
use rangeset::range_query::right_in_range;
use rangeset::range_query::Bound;
use rangeset::range_query::Field;
use rangeset::range_query::RangeQuery;
use rangeset::segment::InvertedIndex;
use rangeset::segment::SegmentReader;
use rangeset::segment::TermEntry;

fn count_matches(mut scorer: ConstScorer) -> u32 {
    let mut count: u32 = 0;
    let mut previous: Option<u32> = None;
    while scorer.advance() {
        let doc = scorer.doc();
        if let Some(p) = previous {
            assert!(doc > p, "documents must come out ascending");
        }
        previous = Some(doc);
        assert_eq!(scorer.score(), 1);
        assert_eq!(scorer.score() as f32, 1.0f32);
        count += 1;
    }
    count
}

#[test]
fn test_range_query_simple() {
    // documents with a per-year count f(year) = 10 + (year - 1950)^2,
    // years 1950..2017, one u64 term per document
    let year_field = Field(0);
    let mut entries: Vec<TermEntry> = Vec::new();
    let mut doc_id: u32 = 0;
    for year in 1950u64..2017u64 {
        let num_docs_within_year = 10 + (year - 1950) * (year - 1950);
        let mut docs: Vec<u32> = Vec::new();
        for _ in 0..num_docs_within_year {
            docs.push(doc_id);
            doc_id += 1;
        }
        entries.push(TermEntry {
            term: encode_u64(year),
            docs,
        });
    }
    let reader = SegmentReader {
        max_doc: doc_id,
        indexes: vec![InvertedIndex { entries }],
    };

    let docs_in_the_sixties = RangeQuery::new_u64(
        year_field,
        Bound::Included(1960u64),
        Bound::Excluded(1970u64),
    );
    let scorer = docs_in_the_sixties.weight().scorer(&reader);
    assert_eq!(count_matches(scorer), 2285);
}

#[test]
fn test_range_query() {
    // document i (1..100) carries term j for every divisor j of i
    let int_field = Field(0);
    let mut entries: Vec<TermEntry> = Vec::new();
    for j in 1i64..100i64 {
        let docs: Vec<u32> = (1u32..100u32).filter(|i| i % (j as u32) == 0).collect();
        entries.push(TermEntry {
            term: encode_i64(j),
            docs,
        });
    }
    let reader = SegmentReader {
        max_doc: 100,
        indexes: vec![InvertedIndex { entries }],
    };

    let count_multiples = |left: Bound<i64>, right: Bound<i64>| {
        let query = RangeQuery::new_i64(int_field, left, right);
        count_matches(query.weight().scorer(&reader))
    };

    assert_eq!(count_multiples(Bound::Included(10), Bound::Excluded(11)), 9);
    assert_eq!(
        count_multiples(Bound::Included(10), Bound::Included(11)),
        18
    );
    assert_eq!(count_multiples(Bound::Excluded(9), Bound::Included(10)), 9);
    assert_eq!(count_multiples(Bound::Included(9), Bound::Unbounded), 91);
}

#[test]
fn test_encode_u64_bytes() {
    assert_eq!(
        encode_u64(0x0102030405060708),
        vec![1u8, 2, 3, 4, 5, 6, 7, 8]
    );
    assert_eq!(encode_u64(0), vec![0u8; 8]);
    assert_eq!(encode_u64(u64::MAX), vec![0xffu8; 8]);
}

#[test]
fn test_encodings_preserve_order() {
    // lexicographic order over the encoded bytes matches numeric order
    let u64_samples = [0u64, 1, 63, 64, 255, 256, 1950, 1970, u64::MAX - 1, u64::MAX];
    for w in u64_samples.windows(2) {
        assert!(bytes_lt(&encode_u64(w[0]), &encode_u64(w[1])));
        assert!(!bytes_lt(&encode_u64(w[1]), &encode_u64(w[0])));
    }
    let i64_samples = [i64::MIN, -1000, -1, 0, 1, 9, 10, 11, i64::MAX];
    for w in i64_samples.windows(2) {
        assert!(bytes_lt(&encode_i64(w[0]), &encode_i64(w[1])));
        assert!(!bytes_lt(&encode_i64(w[1]), &encode_i64(w[0])));
    }
}

#[test]
fn test_bound_predicates() {
    let term = encode_u64(10);
    // included left bound: greater-or-equal
    assert!(left_in_range(&Bound::Included(encode_u64(10)), &term));
    assert!(left_in_range(&Bound::Included(encode_u64(9)), &term));
    assert!(!left_in_range(&Bound::Included(encode_u64(11)), &term));
    // excluded left bound: strictly greater
    assert!(!left_in_range(&Bound::Excluded(encode_u64(10)), &term));
    assert!(left_in_range(&Bound::Excluded(encode_u64(9)), &term));
    // unbounded left: no restriction
    assert!(left_in_range(&Bound::Unbounded, &term));
    // included right bound: less-or-equal
    assert!(right_in_range(&Bound::Included(encode_u64(10)), &term));
    assert!(right_in_range(&Bound::Included(encode_u64(11)), &term));
    assert!(!right_in_range(&Bound::Included(encode_u64(9)), &term));
    // excluded right bound: strictly less
    assert!(!right_in_range(&Bound::Excluded(encode_u64(10)), &term));
    assert!(right_in_range(&Bound::Excluded(encode_u64(11)), &term));
    // unbounded right: no restriction
    assert!(right_in_range(&Bound::Unbounded, &term));
}

#[test]
fn test_str_range_query() {
    let field = Field(0);
    let words = ["apple", "banana", "cherry", "fig", "grape"];
    let entries: Vec<TermEntry> = words
        .iter()
        .enumerate()
        .map(|(i, w)| TermEntry {
            term: w.as_bytes().to_vec(),
            docs: vec![i as u32],
        })
        .collect();
    let reader = SegmentReader {
        max_doc: 5,
        indexes: vec![InvertedIndex { entries }],
    };
    let query = RangeQuery::new_str(field, Bound::Included("banana"), Bound::Excluded("fig"));
    let mut scorer = query.weight().scorer(&reader);
    let mut matched: Vec<u32> = Vec::new();
    while scorer.advance() {
        matched.push(scorer.doc());
    }
    assert_eq!(matched, vec![1, 2]);
}

#[test]
fn test_empty_range_matches_nothing() {
    // a lower bound exceeding the upper bound is not rejected: it silently
    // produces a query matching no documents
    let field = Field(0);
    let entries: Vec<TermEntry> = (0u64..10)
        .map(|v| TermEntry {
            term: encode_u64(v),
            docs: vec![v as u32],
        })
        .collect();
    let reader = SegmentReader {
        max_doc: 10,
        indexes: vec![InvertedIndex { entries }],
    };
    let query = RangeQuery::new_u64(field, Bound::Included(8), Bound::Excluded(3));
    let scorer = query.weight().scorer(&reader);
    assert_eq!(count_matches(scorer), 0);
}

#[test]
fn test_docset_skip_next() {
    let field = Field(0);
    let entries = vec![TermEntry {
        term: encode_u64(1),
        docs: vec![3u32, 70, 500, 900],
    }];
    let reader = SegmentReader {
        max_doc: 1_000,
        indexes: vec![InvertedIndex { entries }],
    };
    let query = RangeQuery::new_u64(field, Bound::Unbounded, Bound::Unbounded);
    let mut scorer = query.weight().scorer(&reader);
    assert!(scorer.advance());
    assert_eq!(scorer.doc(), 3);
    assert!(scorer.advance());
    assert_eq!(scorer.doc(), 70);
    assert!(scorer.advance());
    assert_eq!(scorer.doc(), 500);
    assert!(scorer.advance());
    assert_eq!(scorer.doc(), 900);
    assert!(!scorer.advance());
}

#[test]
fn test_multiple_matching_terms_score_once() {
    // a document carrying several distinct in-range terms is matched once,
    // with the same constant score as any other match
    let field = Field(0);
    let entries: Vec<TermEntry> = (10u64..20)
        .map(|v| TermEntry {
            term: encode_u64(v),
            docs: vec![7u32],
        })
        .collect();
    let reader = SegmentReader {
        max_doc: 8,
        indexes: vec![InvertedIndex { entries }],
    };
    let query = RangeQuery::new_u64(field, Bound::Included(10), Bound::Excluded(20));
    let mut scorer = query.weight().scorer(&reader);
    assert!(scorer.advance());
    assert_eq!(scorer.doc(), 7);
    assert_eq!(scorer.score(), 1);
    assert_eq!(scorer.score() as f32, 1.0f32);
    assert!(!scorer.advance());
}
