//! Finite sets of elements, represented as vectors of distinct `i32` values.
//!
//! The mathematical model of a set is the sequence of its elements; the
//! well-formedness condition `distinct` makes a `Vec<i32>` denote a set.

use vstd::prelude::*;

verus! {

/// A sequence holds no element twice: the vector denotes a set.
pub open spec fn distinct(s: Seq<i32>) -> bool {
    forall|i: int, j: int| 0 <= i < j < s.len() ==> s[i] != s[j]
}

/// No element occurs in both sequences.
pub open spec fn seqs_disjoint(x: Seq<i32>, y: Seq<i32>) -> bool {
    forall|e: i32| !(x.contains(e) && y.contains(e))
}

/// Every pair of sequences in the collection is disjoint.
pub open spec fn pairwise_disjoint(s: Seq<Seq<i32>>) -> bool {
    forall|i: int, j: int| 0 <= i < j < s.len() ==> seqs_disjoint(s[i], s[j])
}

/// Every element of `x` occurs in `u`.
pub open spec fn subset_of(x: Seq<i32>, u: Seq<i32>) -> bool {
    forall|e: i32| x.contains(e) ==> u.contains(e)
}

/// Every member of the collection is itself a set (has distinct elements).
pub open spec fn all_distinct(s: Seq<Seq<i32>>) -> bool {
    forall|i: int| 0 <= i < s.len() ==> distinct(#[trigger] s[i])
}

/// The element sequences of a collection of set vectors.
pub open spec fn views(s: Seq<Vec<i32>>) -> Seq<Seq<i32>> {
    s.map_values(|v: Vec<i32>| v@)
}

/// Linear membership test.
pub fn contains_elem(v: &Vec<i32>, x: i32) -> (b: bool)
    ensures
        b == v@.contains(x),
{
    for i in 0..v.len()
        invariant
            forall|j: int| 0 <= j < i ==> v@[j] != x,
    {
        if v[i] == x {
            return true;
        }
    }
    assert(!v@.contains(x));
    false
}

/// Linear subset test.
pub fn is_subset(x: &Vec<i32>, u: &Vec<i32>) -> (b: bool)
    ensures
        b == subset_of(x@, u@),
{
    for i in 0..x.len()
        invariant
            forall|j: int| 0 <= j < i ==> u@.contains(x@[j]),
    {
        if !contains_elem(u, x[i]) {
            assert(x@.contains(x@[i as int]));
            return false;
        }
    }
    assert forall|e: i32| x@.contains(e) implies u@.contains(e) by {
        let j = choose|j: int| 0 <= j < x@.len() && x@[j] == e;
        assert(u@.contains(x@[j]));
    }
    true
}

/// Copy of a set vector.
pub fn clone_vec(v: &Vec<i32>) -> (r: Vec<i32>)
    ensures
        r@ == v@,
{
    let mut r: Vec<i32> = Vec::new();
    for i in 0..v.len()
        invariant
            r@ == v@.take(i as int),
    {
        r.push(v[i]);
        assert(r@ =~= v@.take(i + 1));
    }
    assert(r@ =~= v@);
    r
}

/// A collection of sets fails to be pairwise disjoint exactly when some
/// element appears in two of its sets.
pub proof fn lemma_pairwise_disjoint_iff(s: Seq<Seq<i32>>)
    ensures
        !pairwise_disjoint(s) <==> (exists|i: int, j: int, e: i32|
            0 <= i < j < s.len() && #[trigger] s[i].contains(e) && #[trigger] s[j].contains(e)),
{
    if !pairwise_disjoint(s) {
        let (i, j) = choose|i: int, j: int| 0 <= i < j < s.len() && !seqs_disjoint(s[i], s[j]);
        assert(!seqs_disjoint(s[i], s[j]));
        let e = choose|e: i32| s[i].contains(e) && s[j].contains(e);
        assert(0 <= i < j < s.len() && s[i].contains(e) && s[j].contains(e));
    }
    if exists|i: int, j: int, e: i32|
        0 <= i < j < s.len() && #[trigger] s[i].contains(e) && #[trigger] s[j].contains(e) {
        let (i, j, e) = choose|i: int, j: int, e: i32|
            0 <= i < j < s.len() && #[trigger] s[i].contains(e) && #[trigger] s[j].contains(e);
        assert(!seqs_disjoint(s[i], s[j]));
        assert(!pairwise_disjoint(s));
    }
}

} // verus!
