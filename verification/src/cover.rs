//! The set-cover search engine: enumerate every non-empty combination of the
//! family by an ascending bitmask counter, keep those that select at least
//! `k` subsets, and return the first pairwise-disjoint one.

use vstd::prelude::*;
use crate::sets::{
    all_distinct, clone_vec, distinct, is_subset, pairwise_disjoint, subset_of, views,
};
use crate::disjoint::all_disjoint;
use crate::errors::MatchError;

verus! {

broadcast use vstd::seq_lib::group_seq_properties;

/// Bit `i` of `mask` is set.
pub open spec fn bit_set(mask: u64, i: u64) -> bool {
    (mask >> i) & 1u64 == 1u64
}

/// The subsets among the first `n` members of `s` that `mask` selects,
/// in ascending index order.
pub open spec fn sel(s: Seq<Seq<i32>>, mask: u64, n: int) -> Seq<Seq<i32>>
    decreases n,
{
    if n <= 0 {
        Seq::<Seq<i32>>::empty()
    } else if bit_set(mask, (n - 1) as u64) {
        sel(s, mask, n - 1).push(s[n - 1])
    } else {
        sel(s, mask, n - 1)
    }
}

/// `mask` selects a combination of at least `k` pairwise-disjoint subsets.
pub open spec fn good_mask(s: Seq<Seq<i32>>, k: nat, mask: u64) -> bool {
    sel(s, mask, s.len() as int).len() >= k && pairwise_disjoint(sel(s, mask, s.len() as int))
}

/// `r` is the combination selected by `mask`, the least counter value whose
/// combination is large enough and pairwise disjoint.
pub open spec fn cover_found(s: Seq<Seq<i32>>, k: nat, mask: u64, r: Seq<Seq<i32>>) -> bool {
    &&& 1 <= mask < (1u64 << (s.len() as u64))
    &&& good_mask(s, k, mask)
    &&& forall|m: u64| 1 <= m < mask ==> !good_mask(s, k, m)
    &&& r == sel(s, mask, s.len() as int)
}

/// The full functional description of the search: if any non-empty counter
/// value selects a large enough pairwise-disjoint combination, the result is
/// the combination of the least such counter value; otherwise it is empty.
pub open spec fn cover_result(s: Seq<Seq<i32>>, k: nat, r: Seq<Seq<i32>>) -> bool {
    if exists|m: u64| 1 <= m < (1u64 << (s.len() as u64)) && good_mask(s, k, m) {
        exists|m: u64| cover_found(s, k, m, r)
    } else {
        r.len() == 0
    }
}

/// Soundness of a returned cover: when non-empty it holds at least `k`
/// subsets, they are pairwise disjoint, and each is a member of the supplied
/// family and a subset of the universe.
pub open spec fn sound_cover(u: Seq<i32>, s: Seq<Seq<i32>>, k: nat, r: Seq<Seq<i32>>) -> bool {
    &&& (r.len() > 0 ==> r.len() >= k)
    &&& pairwise_disjoint(r)
    &&& forall|j: int| 0 <= j < r.len() ==> s.contains(#[trigger] r[j])
    &&& forall|j: int| 0 <= j < r.len() ==> subset_of(#[trigger] r[j], u)
}

/// Every selected subset is a member of the family.
pub proof fn lemma_sel_from_family(s: Seq<Seq<i32>>, mask: u64, n: int)
    requires
        0 <= n <= s.len(),
    ensures
        sel(s, mask, n).len() <= n,
        forall|j: int| 0 <= j < sel(s, mask, n).len() ==> s.contains(#[trigger] sel(s, mask, n)[j]),
    decreases n,
{
    if n > 0 {
        lemma_sel_from_family(s, mask, n - 1);
        if bit_set(mask, (n - 1) as u64) {
            let prev = sel(s, mask, n - 1);
            assert(s.contains(s[n - 1]));
            assert forall|j: int| 0 <= j < sel(s, mask, n).len() implies s.contains(
                #[trigger] sel(s, mask, n)[j],
            ) by {
                if j < prev.len() {
                    assert(sel(s, mask, n)[j] == prev[j]);
                } else {
                    assert(sel(s, mask, n)[j] == s[n - 1]);
                }
            }
        }
    }
}

/// A non-zero counter below `2^n` selects at least one subset.
pub proof fn lemma_sel_nonempty(s: Seq<Seq<i32>>, mask: u64, n: int)
    requires
        0 <= n <= s.len(),
        n < 64,
        1 <= mask < (1u64 << (n as u64)),
    ensures
        sel(s, mask, n).len() >= 1,
    decreases n,
{
    let nn = n as u64;
    if n == 0 {
        assert(1u64 << 0u64 == 1u64) by (bit_vector);
        assert(false);
    } else if !bit_set(mask, (n - 1) as u64) {
        let nm1 = (nn - 1) as u64;
        assert(mask < (1u64 << nm1)) by (bit_vector)
            requires
                1u64 <= nn < 64u64,
                nm1 == nn - 1,
                mask < (1u64 << nn),
                (mask >> nm1) & 1u64 != 1u64,
        ;
        lemma_sel_nonempty(s, mask, n - 1);
    }
}

/// The sub-family that a choice of index positions selects from the first
/// `n` members of `s`, in ascending index order.
pub open spec fn chosen(s: Seq<Seq<i32>>, choice: Seq<bool>, n: int) -> Seq<Seq<i32>>
    decreases n,
{
    if n <= 0 {
        Seq::<Seq<i32>>::empty()
    } else if choice[n - 1] {
        chosen(s, choice, n - 1).push(s[n - 1])
    } else {
        chosen(s, choice, n - 1)
    }
}

/// The counter value whose bits are the given choice of index positions.
pub open spec fn mask_of(choice: Seq<bool>, n: int) -> u64
    decreases n,
{
    if n <= 0 {
        0u64
    } else if choice[n - 1] {
        mask_of(choice, n - 1) | (1u64 << ((n - 1) as u64))
    } else {
        mask_of(choice, n - 1)
    }
}

/// `mask_of` is in range and encodes exactly the given choice.
pub proof fn lemma_mask_of_bits(choice: Seq<bool>, n: int)
    requires
        0 <= n < 64,
        n <= choice.len(),
    ensures
        mask_of(choice, n) < (1u64 << (n as u64)),
        forall|i: int| 0 <= i < n ==> bit_set(mask_of(choice, n), i as u64) == choice[i],
    decreases n,
{
    let nn = n as u64;
    if n == 0 {
        assert(0u64 < (1u64 << 0u64)) by (bit_vector);
    } else {
        lemma_mask_of_bits(choice, n - 1);
        let prev = mask_of(choice, n - 1);
        let nm1 = (n - 1) as u64;
        if choice[n - 1] {
            let cur = prev | (1u64 << nm1);
            assert(cur < (1u64 << nn)) by (bit_vector)
                requires
                    nn < 64u64,
                    nn == nm1 + 1,
                    prev < (1u64 << nm1),
                    cur == prev | (1u64 << nm1),
            ;
            assert((cur >> nm1) & 1u64 == 1u64) by (bit_vector)
                requires
                    nm1 < 64u64,
                    cur == prev | (1u64 << nm1),
            ;
            assert forall|i: int| 0 <= i < n - 1 implies #[trigger] bit_set(cur, i as u64)
                == bit_set(prev, i as u64) by {
                let iu = i as u64;
                assert((cur >> iu) & 1u64 == (prev >> iu) & 1u64) by (bit_vector)
                    requires
                        iu < nm1,
                        nm1 < 64u64,
                        cur == prev | (1u64 << nm1),
                ;
            }
            assert forall|i: int| 0 <= i < n implies #[trigger] bit_set(
                mask_of(choice, n),
                i as u64,
            ) == choice[i] by {
                if i == n - 1 {
                    assert(bit_set(cur, nm1));
                }
            }
        } else {
            assert(prev < (1u64 << nn)) by (bit_vector)
                requires
                    nn < 64u64,
                    nn == nm1 + 1,
                    prev < (1u64 << nm1),
            ;
            assert((prev >> nm1) & 1u64 != 1u64) by (bit_vector)
                requires
                    nm1 < 64u64,
                    prev < (1u64 << nm1),
            ;
            assert forall|i: int| 0 <= i < n implies #[trigger] bit_set(
                mask_of(choice, n),
                i as u64,
            ) == choice[i] by {
                if i == n - 1 {
                    assert(!bit_set(prev, nm1));
                }
            }
        }
    }
}

/// A counter and a choice with the same bits select the same sub-family.
pub proof fn lemma_sel_eq_chosen(s: Seq<Seq<i32>>, mask: u64, choice: Seq<bool>, n: int)
    requires
        0 <= n <= s.len(),
        n <= choice.len(),
        forall|i: int| 0 <= i < n ==> bit_set(mask, i as u64) == choice[i],
    ensures
        sel(s, mask, n) == chosen(s, choice, n),
    decreases n,
{
    if n > 0 {
        lemma_sel_eq_chosen(s, mask, choice, n - 1);
    }
}

/// Completeness: when some non-empty choice of family positions selects at
/// least `k` pairwise-disjoint subsets, the search result is non-empty.
pub proof fn lemma_cover_complete(s: Seq<Seq<i32>>, k: nat, choice: Seq<bool>, r: Seq<Seq<i32>>)
    requires
        s.len() < 64,
        choice.len() == s.len(),
        exists|i: int| 0 <= i < choice.len() && choice[i],
        chosen(s, choice, s.len() as int).len() >= k,
        pairwise_disjoint(chosen(s, choice, s.len() as int)),
        cover_result(s, k, r),
    ensures
        r.len() > 0,
{
    let n = s.len() as int;
    lemma_mask_of_bits(choice, n);
    let mask = mask_of(choice, n);
    lemma_sel_eq_chosen(s, mask, choice, n);
    assert(good_mask(s, k, mask));
    let i = choose|i: int| 0 <= i < choice.len() && choice[i];
    let iu = i as u64;
    assert(bit_set(mask, iu));
    assert(mask >= 1) by (bit_vector)
        requires
            (mask >> iu) & 1u64 == 1u64,
    ;
    assert(1 <= mask < (1u64 << (s.len() as u64)) && good_mask(s, k, mask));
    let m0 = choose|m: u64| cover_found(s, k, m, r);
    lemma_sel_nonempty(s, m0, n);
}

/// Exhaustiveness: when the search returns empty, no non-empty choice of
/// family positions selects at least `k` pairwise-disjoint subsets.
pub proof fn lemma_cover_exhaustive(s: Seq<Seq<i32>>, k: nat, choice: Seq<bool>, r: Seq<Seq<i32>>)
    requires
        s.len() < 64,
        choice.len() == s.len(),
        exists|i: int| 0 <= i < choice.len() && choice[i],
        cover_result(s, k, r),
        r.len() == 0,
    ensures
        !(chosen(s, choice, s.len() as int).len() >= k && pairwise_disjoint(
            chosen(s, choice, s.len() as int),
        )),
{
    if chosen(s, choice, s.len() as int).len() >= k && pairwise_disjoint(
        chosen(s, choice, s.len() as int),
    ) {
        lemma_cover_complete(s, k, choice, r);
    }
}

/// Determinism: the search description pins its result completely, so two
/// results for the same universe, family and target are equal.
pub proof fn lemma_cover_deterministic(
    s: Seq<Seq<i32>>,
    k: nat,
    r1: Seq<Seq<i32>>,
    r2: Seq<Seq<i32>>,
)
    requires
        cover_result(s, k, r1),
        cover_result(s, k, r2),
    ensures
        r1 == r2,
{
    if exists|m: u64| 1 <= m < (1u64 << (s.len() as u64)) && good_mask(s, k, m) {
        let m1 = choose|m: u64| cover_found(s, k, m, r1);
        let m2 = choose|m: u64| cover_found(s, k, m, r2);
        if m1 < m2 {
            assert(!good_mask(s, k, m1));
            assert(false);
        }
        if m2 < m1 {
            assert(!good_mask(s, k, m2));
            assert(false);
        }
        assert(r1 == sel(s, m1, s.len() as int));
        assert(r2 == sel(s, m2, s.len() as int));
    } else {
        assert(r1 =~= r2);
    }
}

/// Exhaustive brute-force search for a disjoint sub-family.
///
/// Rejects the query when some member of `s` is not a subset of `u`.
/// Otherwise returns the first (in ascending bitmask-counter order)
/// combination of at least `k` pairwise-disjoint subsets of the family,
/// or an empty sequence when no such combination exists.
#[verifier::loop_isolation(false)]
pub fn set_cover(u: Vec<i32>, s: Vec<Vec<i32>>, k: usize) -> (r: Result<Vec<Vec<i32>>, MatchError>)
    requires
        all_distinct(views(s@)),
        s@.len() < 64,
    ensures
        (r is Err) <==> (exists|i: int|
            0 <= i < s@.len() && !subset_of(#[trigger] views(s@)[i], u@)),
        r is Err ==> r == Err::<Vec<Vec<i32>>, MatchError>(MatchError::InvalidSubset),
        r matches Ok(v) ==> cover_result(views(s@), k as nat, views(v@)),
        r matches Ok(v) ==> sound_cover(u@, views(s@), k as nat, views(v@)),
        r matches Ok(v) ==> all_distinct(views(v@)),
{
    let ghost sv = views(s@);
    for i in 0..s.len()
        invariant
            forall|j: int| 0 <= j < i ==> subset_of(#[trigger] sv[j], u@),
    {
        if !is_subset(&s[i], &u) {
            assert(!subset_of(sv[i as int], u@));
            return Err(MatchError::InvalidSubset);
        }
    }
    let n_comb: u64 = 1u64 << (s.len() as u64);
    proof {
        let len64 = s@.len() as u64;
        assert(1u64 <= (1u64 << len64)) by (bit_vector)
            requires
                len64 < 64u64,
        ;
    }
    let mut mask: u64 = 1;
    while mask < n_comb
        invariant
            1 <= mask <= n_comb,
            forall|m: u64| 1 <= m < mask ==> !good_mask(sv, k as nat, m),
        decreases n_comb - mask,
    {
        let mut picked: Vec<Vec<i32>> = Vec::new();
        for idx in 0..s.len()
            invariant
                views(picked@) == sel(sv, mask, idx as int),
        {
            if (mask >> (idx as u64)) & 1u64 == 1u64 {
                assert(bit_set(mask, idx as u64));
                picked.push(clone_vec(&s[idx]));
                proof {
                    assert(views(picked@) =~= sel(sv, mask, idx + 1));
                }
            } else {
                assert(!bit_set(mask, idx as u64));
                proof {
                    assert(views(picked@) =~= sel(sv, mask, idx + 1));
                }
            }
        }
        let ghost rv = views(picked@);
        proof {
            assert(rv == sel(sv, mask, sv.len() as int));
            lemma_sel_from_family(sv, mask, sv.len() as int);
            assert forall|j: int| 0 <= j < rv.len() implies distinct(#[trigger] rv[j]) by {
                let i = choose|i: int| 0 <= i < sv.len() && sv[i] == rv[j];
                assert(distinct(sv[i]));
            }
        }
        if picked.len() >= k {
            if all_disjoint(&picked) {
                proof {
                    assert(cover_found(sv, k as nat, mask, rv));
                    assert(cover_result(sv, k as nat, rv));
                    assert forall|j: int| 0 <= j < rv.len() implies subset_of(
                        #[trigger] rv[j],
                        u@,
                    ) by {
                        let i = choose|i: int| 0 <= i < sv.len() && sv[i] == rv[j];
                        assert(subset_of(sv[i], u@));
                    }
                    assert(sound_cover(u@, sv, k as nat, rv));
                }
                return Ok(picked);
            }
        }
        mask = mask + 1;
    }
    proof {
        assert(mask == n_comb);
        assert(!(exists|m: u64| 1 <= m < (1u64 << (sv.len() as u64)) && good_mask(
            sv,
            k as nat,
            m,
        )));
        assert(views(Seq::<Vec<i32>>::empty()) =~= Seq::<Seq<i32>>::empty());
    }
    Ok(Vec::new())
}

} // verus!
