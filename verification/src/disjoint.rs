//! The disjointness checker: accumulate a running union and detect the
//! first collision.

use vstd::prelude::*;
use crate::sets::{
    all_distinct, contains_elem, distinct, pairwise_disjoint, seqs_disjoint, views,
};

verus! {

broadcast use vstd::seq_lib::group_seq_properties;

/// Returns whether the given sets are pairwise disjoint: `false` exactly when
/// some element occurs in two of them, `true` otherwise (in particular for
/// the empty collection and for a single set).
#[verifier::loop_isolation(false)]
pub fn all_disjoint(sets: &Vec<Vec<i32>>) -> (r: bool)
    requires
        all_distinct(views(sets@)),
    ensures
        r == pairwise_disjoint(views(sets@)),
{
    let ghost sv = views(sets@);
    let mut union: Vec<i32> = Vec::new();
    for si in 0..sets.len()
        invariant
            pairwise_disjoint(sv.take(si as int)),
            forall|j: int, e: i32|
                0 <= j < si && #[trigger] sv[j].contains(e) ==> union@.contains(e),
            forall|e: i32|
                union@.contains(e) ==> exists|j: int| 0 <= j < si && #[trigger] sv[j].contains(e),
    {
        let set = &sets[si];
        assert(set@ == sv[si as int]);
        assert(distinct(set@));
        for ei in 0..set.len()
            invariant
                forall|j: int, e: i32|
                    0 <= j < si && #[trigger] sv[j].contains(e) ==> union@.contains(e),
                forall|l: int| 0 <= l < ei ==> union@.contains(#[trigger] set@[l]),
                forall|e: i32|
                    union@.contains(e) ==> (exists|j: int|
                        0 <= j < si && #[trigger] sv[j].contains(e)) || (exists|l: int|
                        0 <= l < ei && set@[l] == e),
                forall|j: int, l: int|
                    0 <= j < si && 0 <= l < ei ==> !(#[trigger] sv[j].contains(#[trigger] set@[l])),
        {
            let e = set[ei];
            assert(set@[ei as int] == e);
            if contains_elem(&union, e) {
                proof {
                    let ghost ei_ = ei as int;
                    if exists|l: int| 0 <= l < ei_ && set@[l] == e {
                        let l = choose|l: int| 0 <= l < ei_ && set@[l] == e;
                        assert(set@[l] == set@[ei_]);
                        assert(false);
                    }
                    let j = choose|j: int| 0 <= j < si && sv[j].contains(e);
                    assert(set@.contains(e));
                    assert(sv[si as int].contains(e));
                    assert(!seqs_disjoint(sv[j], sv[si as int]));
                    assert(!pairwise_disjoint(sv));
                }
                return false;
            }
            let ghost old_union = union@;
            union.push(e);
            proof {
                assert(union@ == old_union.push(e));
                assert forall|x: i32| old_union.contains(x) implies union@.contains(x) by {
                    let l = choose|l: int| 0 <= l < old_union.len() && old_union[l] == x;
                    assert(union@[l] == x);
                }
                assert(union@[union@.len() - 1] == e);
                assert(union@.contains(e));
                assert forall|x: i32| union@.contains(x) implies (exists|j: int|
                    0 <= j < si && #[trigger] sv[j].contains(x)) || (exists|l: int|
                    0 <= l < ei + 1 && set@[l] == x) by {
                    let l = choose|l: int| 0 <= l < union@.len() && union@[l] == x;
                    if l < old_union.len() {
                        assert(old_union[l] == x);
                        assert(old_union.contains(x));
                    } else {
                        assert(x == e);
                        assert(set@[ei as int] == x);
                    }
                }
                assert forall|j: int, l: int|
                    0 <= j < si && 0 <= l < ei + 1 implies !(#[trigger] sv[j].contains(
                    #[trigger] set@[l],
                )) by {
                    if l == ei {
                        if sv[j].contains(set@[l]) {
                            assert(old_union.contains(e));
                            assert(false);
                        }
                    }
                }
            }
        }
        proof {
            let ghost n = set@.len() as int;
            assert forall|j: int, e: i32|
                0 <= j < si + 1 && #[trigger] sv[j].contains(e) implies union@.contains(e) by {
                if j == si {
                    let l = choose|l: int| 0 <= l < n && set@[l] == e;
                    assert(union@.contains(set@[l]));
                }
            }
            assert forall|e: i32| union@.contains(e) implies exists|j: int|
                0 <= j < si + 1 && #[trigger] sv[j].contains(e) by {
                if exists|l: int| 0 <= l < n && set@[l] == e {
                    let l = choose|l: int| 0 <= l < n && set@[l] == e;
                    assert(set@.contains(e));
                    assert(sv[si as int].contains(e));
                } else {
                    let j = choose|j: int| 0 <= j < si && sv[j].contains(e);
                    assert(sv[j].contains(e));
                }
            }
            assert forall|i: int, j: int| 0 <= i < j < si + 1 implies seqs_disjoint(
                #[trigger] sv.take(si + 1)[i],
                #[trigger] sv.take(si + 1)[j],
            ) by {
                if j < si {
                    assert(seqs_disjoint(sv.take(si as int)[i], sv.take(si as int)[j]));
                    assert(sv.take(si as int)[i] == sv[i]);
                    assert(sv.take(si as int)[j] == sv[j]);
                } else {
                    assert forall|x: i32| !(sv[i].contains(x) && sv[si as int].contains(x)) by {
                        if sv[i].contains(x) && sv[si as int].contains(x) {
                            let l = choose|l: int| 0 <= l < n && set@[l] == x;
                            assert(!sv[i].contains(set@[l]));
                            assert(false);
                        }
                    }
                    assert(seqs_disjoint(sv[i], sv[si as int]));
                }
            }
            assert(pairwise_disjoint(sv.take(si + 1)));
        }
    }
    proof {
        assert(sv.take(sv.len() as int) =~= sv);
    }
    true
}

} // verus!
