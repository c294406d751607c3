//! Ranking by count: the highest count first, ties in the order first seen.

use vstd::prelude::*;
use vstd::set_lib::{lemma_int_range, lemma_subset_equality, set_int_range};

verus! {

/// Index `a` comes before index `b`: a higher count, or the same count and seen earlier.
pub open spec fn ranks_before(counts: Seq<usize>, a: int, b: int) -> bool {
    counts[a] > counts[b] || (counts[a] == counts[b] && a < b)
}

/// `r` lists every index of `counts` once, highest count first, ties by index.
/// Exactly one sequence meets this (`lemma_ranking_unique`).
pub open spec fn is_ranking(counts: Seq<usize>, r: Seq<usize>) -> bool {
    &&& r.len() == counts.len()
    &&& forall|k: int| 0 <= k < r.len() ==> r[k] < counts.len()
    &&& forall|k: int, l: int|
        0 <= k < l < r.len() ==> ranks_before(counts, r[k] as int, r[l] as int)
}

/// `x` occurs in `r`.
pub open spec fn names(r: Seq<usize>, x: int) -> bool {
    exists|p: int| 0 <= p < r.len() && r[p] == x
}

/// A ranking names every index.
pub proof fn lemma_ranking_covers(counts: Seq<usize>, r: Seq<usize>)
    requires
        is_ranking(counts, r),
    ensures
        forall|x: int| 0 <= x < counts.len() ==> #[trigger] names(r, x),
{
    let n = counts.len() as int;
    let ri = r.map_values(|x: usize| x as int);
    assert forall|k: int, l: int| 0 <= k < ri.len() && 0 <= l < ri.len() && k != l implies ri[k]
        != ri[l] by {
        if k < l {
            assert(ranks_before(counts, r[k] as int, r[l] as int));
        } else {
            assert(ranks_before(counts, r[l] as int, r[k] as int));
        }
    }
    assert(ri.no_duplicates());
    ri.unique_seq_to_set();
    vstd::seq_lib::seq_to_set_is_finite(ri);
    lemma_int_range(0, n);
    assert(ri.to_set().subset_of(set_int_range(0, n)));
    lemma_subset_equality(ri.to_set(), set_int_range(0, n));
    assert forall|x: int| 0 <= x < n implies #[trigger] names(r, x) by {
        assert(set_int_range(0, n).contains(x));
        assert(ri.to_set().contains(x));
        let p = choose|p: int| 0 <= p < ri.len() && ri[p] == x;
        assert(r[p] == x);
    }
}

/// Two rankings of the same counts are the same sequence: ties are always
/// broken the same way.
pub proof fn lemma_ranking_unique(counts: Seq<usize>, r1: Seq<usize>, r2: Seq<usize>)
    requires
        is_ranking(counts, r1),
        is_ranking(counts, r2),
    ensures
        r1 == r2,
{
    lemma_ranking_covers(counts, r1);
    lemma_ranking_covers(counts, r2);
    lemma_rankings_agree(counts, r1, r2, r1.len() as int);
    assert(r1 =~= r2);
}

/// Two rankings of the same counts agree on their first `k` positions.
proof fn lemma_rankings_agree(counts: Seq<usize>, r1: Seq<usize>, r2: Seq<usize>, k: int)
    requires
        is_ranking(counts, r1),
        is_ranking(counts, r2),
        forall|x: int| 0 <= x < counts.len() ==> #[trigger] names(r1, x),
        forall|x: int| 0 <= x < counts.len() ==> #[trigger] names(r2, x),
        0 <= k <= r1.len(),
    ensures
        forall|j: int| 0 <= j < k ==> r1[j] == r2[j],
    decreases k,
{
    if k > 0 {
        lemma_rankings_agree(counts, r1, r2, k - 1);
        let j = k - 1;
        let a = r1[j] as int;
        let b = r2[j] as int;
        if a != b {
            assert(names(r1, b));
            assert(names(r2, a));
            let p = choose|p: int| 0 <= p < r1.len() && r1[p] == b;
            let q = choose|q: int| 0 <= q < r2.len() && r2[q] == a;
            if p < j {
                assert(r2[p] == b);
                assert(ranks_before(counts, r2[p] as int, r2[j] as int));
            }
            if q < j {
                assert(r1[q] == a);
                assert(ranks_before(counts, r1[q] as int, r1[j] as int));
            }
            assert(p > j);
            assert(q > j);
            assert(ranks_before(counts, a, b));
            assert(ranks_before(counts, r2[j] as int, r2[q] as int));
        }
    }
}

/// The indices of `counts`, ranked: highest count first, ties in index order.
pub fn rank_by_count(counts: &Vec<usize>) -> (r: Vec<usize>)
    ensures
        is_ranking(counts@, r@),
{
    let n = counts.len();
    let mut r: Vec<usize> = Vec::new();
    let mut i: usize = 0;
    while i < n
        invariant
            i <= n == counts.len(),
            r.len() == i,
            forall|k: int| 0 <= k < r.len() ==> r[k] < i,
            forall|k: int, l: int|
                0 <= k < l < r.len() ==> ranks_before(counts@, r[k] as int, r[l] as int),
        decreases n - i,
    {
        let c = counts[i];
        // first position whose count is below `c`
        let mut lo: usize = 0;
        let mut hi: usize = r.len();
        while lo < hi
            invariant
                lo <= hi <= r.len(),
                r.len() == i,
                i < n == counts.len(),
                c == counts@[i as int],
                forall|k: int| 0 <= k < r.len() ==> r[k] < i,
                forall|k: int, l: int|
                    0 <= k < l < r.len() ==> ranks_before(counts@, r[k] as int, r[l] as int),
                forall|q: int| 0 <= q < lo ==> counts@[r[q] as int] >= c,
                forall|q: int| hi <= q < r.len() ==> counts@[r[q] as int] < c,
            decreases hi - lo,
        {
            let mid = lo + (hi - lo) / 2;
            if counts[r[mid]] >= c {
                assert forall|q: int| 0 <= q <= mid implies counts@[r[q] as int] >= c by {
                    if q < mid {
                        assert(ranks_before(counts@, r[q] as int, r[mid as int] as int));
                    }
                }
                lo = mid + 1;
            } else {
                assert forall|q: int| mid <= q < r.len() implies counts@[r[q] as int] < c by {
                    if mid < q {
                        assert(ranks_before(counts@, r[mid as int] as int, r[q] as int));
                    }
                }
                hi = mid;
            }
        }
        let ghost old_r = r@;
        r.insert(lo, i);
        assert forall|k: int, l: int| 0 <= k < l < r.len() implies ranks_before(
            counts@,
            r[k] as int,
            r[l] as int,
        ) by {
            if l < lo {
                assert(r[k] == old_r[k] && r[l] == old_r[l]);
            } else if l == lo {
                assert(r[k] == old_r[k]);
            } else if k < lo {
                assert(r[k] == old_r[k] && r[l] == old_r[l - 1]);
            } else if k == lo {
                assert(r[l] == old_r[l - 1]);
            } else {
                assert(r[k] == old_r[k - 1] && r[l] == old_r[l - 1]);
            }
        }
        i = i + 1;
    }
    r
}

} // verus!
