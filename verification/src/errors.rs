//! Rejection reasons for a matching query, all detected before the search
//! runs. An empty result is a normal outcome, never an error.

use vstd::prelude::*;

verus! {

/// Why a query was rejected.
#[derive(Clone, Copy, PartialEq, Eq, Structural, Debug)]
pub enum MatchError {
    /// Two of the input sets share an element.
    NotDisjoint,
    /// The three input cardinalities are pairwise all different.
    CardinalityMismatch,
    /// A candidate subset holds an element outside the universe.
    InvalidSubset,
}

} // verus!
