//! A compact document-id set representation and the range-query execution
//! algorithm that populates it: a fixed 64-slot bitmask (`TinySet`), a
//! bucketed bit set over `[0, max_value)` (`BitSet`), byte-encoded range
//! bounds with inclusive/exclusive/unbounded semantics, and a per-segment
//! scorer that streams matching terms from a term dictionary, decodes their
//! postings and collects every matching document id into a fresh `BitSet`.

pub mod bitset;
pub mod docset;
pub mod range_query;
pub mod segment;
