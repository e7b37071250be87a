//! The matching problem adapter: validate the three element sets, build the
//! universe and the candidate-subset family, and delegate to the search
//! engine.

use vstd::prelude::*;
use crate::sets::{
    all_distinct, clone_vec, distinct, pairwise_disjoint, seqs_disjoint, subset_of, views,
};
use crate::disjoint::all_disjoint;
use crate::cover::{cover_result, set_cover, sound_cover};
use crate::errors::MatchError;

verus! {

broadcast use vstd::seq_lib::group_seq_properties;

/// The unordered element set of a candidate triple, duplicates removed in
/// first-occurrence order.
pub open spec fn triple_seq(t: (i32, i32, i32)) -> Seq<i32> {
    let s0 = seq![t.0];
    let s1 = if t.1 != t.0 {
        s0.push(t.1)
    } else {
        s0
    };
    if t.2 != t.0 && t.2 != t.1 {
        s1.push(t.2)
    } else {
        s1
    }
}

/// The candidate-subset family, one subset per triple, in input order.
pub open spec fn family_of(m: Seq<(i32, i32, i32)>) -> Seq<Seq<i32>> {
    m.map_values(|t: (i32, i32, i32)| triple_seq(t))
}

/// The three input sets are pairwise disjoint.
pub open spec fn abc_disjoint(a: Seq<i32>, b: Seq<i32>, c: Seq<i32>) -> bool {
    seqs_disjoint(a, b) && seqs_disjoint(a, c) && seqs_disjoint(b, c)
}

/// The three input cardinalities are pairwise all different. Only this case
/// is rejected: two equal cardinalities beside a third different one pass,
/// mirroring the validation rule as designed.
pub open spec fn all_cards_differ(a: Seq<i32>, b: Seq<i32>, c: Seq<i32>) -> bool {
    a.len() != b.len() && a.len() != c.len() && b.len() != c.len()
}

/// The universe: every element appearing in `a`, `b` or `c`.
pub open spec fn universe_of(a: Seq<i32>, b: Seq<i32>, c: Seq<i32>) -> Seq<i32> {
    a + b + c
}

/// Full functional description of a matching query on well-formed inputs:
/// which error is returned exactly when, and the search result otherwise.
pub open spec fn matching_post(
    a: Seq<i32>,
    b: Seq<i32>,
    c: Seq<i32>,
    m: Seq<(i32, i32, i32)>,
    r: Result<Seq<Seq<i32>>, MatchError>,
) -> bool {
    &&& (r == Result::<Seq<Seq<i32>>, MatchError>::Err(MatchError::NotDisjoint) <==> !abc_disjoint(
        a,
        b,
        c,
    ))
    &&& (r == Result::<Seq<Seq<i32>>, MatchError>::Err(MatchError::CardinalityMismatch)
        <==> abc_disjoint(a, b, c) && all_cards_differ(a, b, c))
    &&& (r == Result::<Seq<Seq<i32>>, MatchError>::Err(MatchError::InvalidSubset) <==> abc_disjoint(
        a,
        b,
        c,
    ) && !all_cards_differ(a, b, c) && (exists|i: int|
        0 <= i < m.len() && !subset_of(#[trigger] family_of(m)[i], universe_of(a, b, c))))
    &&& (r matches Ok(rv) ==> cover_result(family_of(m), a.len(), rv) && sound_cover(
        universe_of(a, b, c),
        family_of(m),
        a.len(),
        rv,
    ))
}

/// The view of an executable query result.
pub open spec fn lift(r: Result<Vec<Vec<i32>>, MatchError>) -> Result<Seq<Seq<i32>>, MatchError> {
    match r {
        Ok(v) => Result::<Seq<Seq<i32>>, MatchError>::Ok(views(v@)),
        Err(e) => Result::<Seq<Seq<i32>>, MatchError>::Err(e),
    }
}

/// The subset built from one candidate triple.
fn triple_to_set(t: (i32, i32, i32)) -> (r: Vec<i32>)
    ensures
        r@ == triple_seq(t),
        distinct(r@),
{
    let mut r: Vec<i32> = Vec::new();
    r.push(t.0);
    if t.1 != t.0 {
        r.push(t.1);
    }
    if t.2 != t.0 && t.2 != t.1 {
        r.push(t.2);
    }
    proof {
        assert(r@ =~= triple_seq(t));
    }
    r
}

/// Solves one tripartite matching query.
///
/// Validates that `a`, `b`, `c` are pairwise disjoint and that not all three
/// cardinalities differ, builds the universe and the subset family, and
/// searches for `|a|` pairwise-disjoint candidate subsets. An empty `Ok`
/// result means that no matching exists; errors only report invalid input.
#[verifier::loop_isolation(false)]
pub fn tripartite_matching(
    a: &Vec<i32>,
    b: &Vec<i32>,
    c: &Vec<i32>,
    m: &Vec<(i32, i32, i32)>,
) -> (r: Result<Vec<Vec<i32>>, MatchError>)
    requires
        distinct(a@),
        distinct(b@),
        distinct(c@),
        m@.len() < 64,
    ensures
        matching_post(a@, b@, c@, m@, lift(r)),
{
    let groups: Vec<Vec<i32>> = vec![clone_vec(a), clone_vec(b), clone_vec(c)];
    let ghost g = views(groups@);
    proof {
        assert(g =~= seq![a@, b@, c@]);
        assert(g[0] == a@ && g[1] == b@ && g[2] == c@);
    }
    let disjoint_ok = all_disjoint(&groups);
    proof {
        if pairwise_disjoint(g) {
            assert(seqs_disjoint(g[0], g[1]));
            assert(seqs_disjoint(g[0], g[2]));
            assert(seqs_disjoint(g[1], g[2]));
        } else {
            if abc_disjoint(a@, b@, c@) {
                assert forall|i: int, j: int| 0 <= i < j < g.len() implies seqs_disjoint(
                    #[trigger] g[i],
                    #[trigger] g[j],
                ) by {
                    if i == 0 && j == 1 {
                        assert(seqs_disjoint(a@, b@));
                    } else if i == 0 && j == 2 {
                        assert(seqs_disjoint(a@, c@));
                    } else {
                        assert(seqs_disjoint(b@, c@));
                    }
                }
                assert(false);
            }
        }
        assert(disjoint_ok == abc_disjoint(a@, b@, c@));
    }
    if !disjoint_ok {
        return Err(MatchError::NotDisjoint);
    }
    if a.len() != b.len() && a.len() != c.len() && b.len() != c.len() {
        return Err(MatchError::CardinalityMismatch);
    }
    let k: usize = a.len();
    let mut u = clone_vec(a);
    proof {
        assert(u@ =~= a@ + b@.take(0));
    }
    for i in 0..b.len()
        invariant
            u@ == a@ + b@.take(i as int),
    {
        u.push(b[i]);
        proof {
            assert(u@ =~= a@ + b@.take(i + 1));
        }
    }
    proof {
        assert(b@.take(b@.len() as int) =~= b@);
        assert(u@ =~= (a@ + b@) + c@.take(0));
    }
    for i in 0..c.len()
        invariant
            u@ == (a@ + b@) + c@.take(i as int),
    {
        u.push(c[i]);
        proof {
            assert(u@ =~= (a@ + b@) + c@.take(i + 1));
        }
    }
    proof {
        assert(c@.take(c@.len() as int) =~= c@);
        assert(u@ == universe_of(a@, b@, c@));
    }
    let mut fam: Vec<Vec<i32>> = Vec::new();
    proof {
        assert(views(fam@) =~= family_of(m@).take(0));
    }
    for i in 0..m.len()
        invariant
            views(fam@) == family_of(m@).take(i as int),
    {
        fam.push(triple_to_set(m[i]));
        proof {
            assert(views(fam@) =~= family_of(m@).take(i + 1));
        }
    }
    proof {
        assert(family_of(m@).take(m@.len() as int) =~= family_of(m@));
        assert(views(fam@) == family_of(m@));
        assert forall|i: int| 0 <= i < views(fam@).len() implies distinct(
            #[trigger] views(fam@)[i],
        ) by {
            lemma_triple_seq_distinct(m@[i]);
        }
        assert(all_distinct(views(fam@)));
    }
    let ghost uv = u@;
    let ghost famv = views(fam@);
    let res = set_cover(u, fam, k);
    proof {
        assert(uv == universe_of(a@, b@, c@));
        assert(famv == family_of(m@));
        assert(matching_post(a@, b@, c@, m@, lift(res)));
    }
    res
}

/// A triple's subset holds no element twice.
proof fn lemma_triple_seq_distinct(t: (i32, i32, i32))
    ensures
        distinct(triple_seq(t)),
{
}

/// Determinism: the query description pins the outcome completely, so two
/// results for identical inputs (family ordering included) are equal.
pub proof fn lemma_matching_deterministic(
    a: Seq<i32>,
    b: Seq<i32>,
    c: Seq<i32>,
    m: Seq<(i32, i32, i32)>,
    r1: Result<Seq<Seq<i32>>, MatchError>,
    r2: Result<Seq<Seq<i32>>, MatchError>,
)
    requires
        matching_post(a, b, c, m, r1),
        matching_post(a, b, c, m, r2),
    ensures
        r1 == r2,
{
    if !abc_disjoint(a, b, c) {
        assert(r1 == Result::<Seq<Seq<i32>>, MatchError>::Err(MatchError::NotDisjoint));
        assert(r2 == Result::<Seq<Seq<i32>>, MatchError>::Err(MatchError::NotDisjoint));
    } else if all_cards_differ(a, b, c) {
        assert(r1 == Result::<Seq<Seq<i32>>, MatchError>::Err(MatchError::CardinalityMismatch));
        assert(r2 == Result::<Seq<Seq<i32>>, MatchError>::Err(MatchError::CardinalityMismatch));
    } else if exists|i: int|
        0 <= i < m.len() && !subset_of(#[trigger] family_of(m)[i], universe_of(a, b, c)) {
        assert(r1 == Result::<Seq<Seq<i32>>, MatchError>::Err(MatchError::InvalidSubset));
        assert(r2 == Result::<Seq<Seq<i32>>, MatchError>::Err(MatchError::InvalidSubset));
    } else {
        match (r1, r2) {
            (Ok(rv1), Ok(rv2)) => {
                crate::cover::lemma_cover_deterministic(family_of(m), a.len(), rv1, rv2);
            },
            (Err(e1), _) => {
                match e1 {
                    MatchError::NotDisjoint => {
                        assert(false);
                    },
                    MatchError::CardinalityMismatch => {
                        assert(false);
                    },
                    MatchError::InvalidSubset => {
                        assert(false);
                    },
                }
            },
            (_, Err(e2)) => {
                match e2 {
                    MatchError::NotDisjoint => {
                        assert(false);
                    },
                    MatchError::CardinalityMismatch => {
                        assert(false);
                    },
                    MatchError::InvalidSubset => {
                        assert(false);
                    },
                }
            },
        }
    }
}

} // verus!
