//! Exhaustive three-dimensional matching by set-cover search.
//!
//! Given three pairwise-disjoint element sets of equal size `k` and a family
//! of candidate triples, the library searches for `k` pairwise-disjoint
//! triples covering the union, by brute-force enumeration of sub-families.

pub mod sets;
pub mod errors;
pub mod disjoint;
pub mod cover;
pub mod matching;
