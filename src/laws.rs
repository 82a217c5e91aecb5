//! Properties of the reduction, stated over its model and proved.
use vstd::prelude::*;
use vstd::set_lib::{set_int_range, lemma_int_range, lemma_len_subset};
use crate::geometry::{sq_sum, chord_len2, chord_weight, deviation, exceeds};
use crate::simplify::{
    dev_in, farthest_upto, farthest, kept_between, retained, index_set, strictly_increasing,
};

verus! {

proof fn lemma_sq_sum_nonneg(a: Seq<i16>, b: Seq<i16>, k: int)
    ensures
        sq_sum(a, b, k) >= 0,
    decreases k,
{
    if k > 0 {
        lemma_sq_sum_nonneg(a, b, k - 1);
        let t = b[k - 1] - a[k - 1];
        assert(t * t >= 0) by (nonlinear_arith);
    }
}

proof fn lemma_sq_sum_self(a: Seq<i16>, k: int)
    ensures
        sq_sum(a, a, k) == 0,
    decreases k,
{
    if k > 0 {
        lemma_sq_sum_self(a, k - 1);
    }
}

proof fn lemma_weight_positive(a: Seq<i16>, b: Seq<i16>)
    ensures
        chord_weight(a, b) >= 1,
{
    lemma_sq_sum_nonneg(a, b, a.len() as int);
}

/// The farthest interior point up to `j` is in range, no point up to `j` lies
/// farther, and every lower index lies strictly nearer.
proof fn lemma_farthest_upto_is_first_max(pts: Seq<Seq<i16>>, lo: int, hi: int, j: int)
    requires
        lo < j,
    ensures
        lo < farthest_upto(pts, lo, hi, j) <= j,
        forall|y: int|
            lo < y <= j ==> #[trigger] dev_in(pts, lo, hi, y) <= dev_in(
                pts,
                lo,
                hi,
                farthest_upto(pts, lo, hi, j),
            ),
        forall|y: int|
            lo < y < farthest_upto(pts, lo, hi, j) ==> #[trigger] dev_in(pts, lo, hi, y) < dev_in(
                pts,
                lo,
                hi,
                farthest_upto(pts, lo, hi, j),
            ),
    decreases j - lo,
{
    if j > lo + 1 {
        lemma_farthest_upto_is_first_max(pts, lo, hi, j - 1);
    }
}

/// Ties go to the lowest index: the point at which a range `[lo, hi]` is
/// split lies strictly inside it, no interior point lies farther from the
/// chord, and every interior point below it lies strictly nearer.
pub proof fn lemma_split_point_is_lowest_farthest(pts: Seq<Seq<i16>>, lo: int, hi: int)
    requires
        hi - lo >= 2,
    ensures
        lo < farthest(pts, lo, hi) < hi,
        forall|y: int|
            lo < y < hi ==> #[trigger] dev_in(pts, lo, hi, y) <= dev_in(
                pts,
                lo,
                hi,
                farthest(pts, lo, hi),
            ),
        forall|y: int|
            lo < y < farthest(pts, lo, hi) ==> #[trigger] dev_in(pts, lo, hi, y) < dev_in(
                pts,
                lo,
                hi,
                farthest(pts, lo, hi),
            ),
{
    lemma_farthest_upto_is_first_max(pts, lo, hi, hi - 1);
}

/// What a range keeps lies strictly inside it.
pub proof fn lemma_kept_inside(pts: Seq<Seq<i16>>, eps: int, lo: int, hi: int)
    ensures
        kept_between(pts, eps, lo, hi).subset_of(set_int_range(lo + 1, hi)),
    decreases hi - lo,
{
    if hi - lo >= 2 {
        let m = farthest(pts, lo, hi);
        if lo < m < hi && exceeds(pts[lo], pts[hi], pts[m], eps) {
            lemma_kept_inside(pts, eps, lo, m);
            lemma_kept_inside(pts, eps, m, hi);
        }
    }
}

/// Every reduction of a non-empty point set keeps its first and its last index,
/// and keeps only indices of the set.
pub proof fn lemma_ends_retained(pts: Seq<Seq<i16>>, eps: int)
    ensures
        pts.len() >= 1 ==> retained(pts, eps).contains(0),
        pts.len() >= 1 ==> retained(pts, eps).contains(pts.len() - 1),
        retained(pts, eps).subset_of(set_int_range(0, pts.len() as int)),
        retained(pts, eps).finite(),
{
    if pts.len() > 2 {
        lemma_kept_inside(pts, eps, 0, pts.len() - 1);
    }
    assert(retained(pts, eps).subset_of(set_int_range(0, pts.len() as int)));
    lemma_int_range(0, pts.len() as int);
    lemma_len_subset(retained(pts, eps), set_int_range(0, pts.len() as int));
}

proof fn lemma_kept_monotone(pts: Seq<Seq<i16>>, e1: int, e2: int, lo: int, hi: int)
    requires
        0 <= e1 <= e2,
    ensures
        kept_between(pts, e2, lo, hi).subset_of(kept_between(pts, e1, lo, hi)),
    decreases hi - lo,
{
    if hi - lo >= 2 {
        let m = farthest(pts, lo, hi);
        if lo < m < hi && exceeds(pts[lo], pts[hi], pts[m], e2) {
            let w = chord_weight(pts[lo], pts[hi]);
            lemma_weight_positive(pts[lo], pts[hi]);
            assert(e1 * e1 * w <= e2 * e2 * w) by (nonlinear_arith)
                requires
                    0 <= e1 <= e2,
                    w >= 1,
            ;
            lemma_kept_monotone(pts, e1, e2, lo, m);
            lemma_kept_monotone(pts, e1, e2, m, hi);
        }
    }
}

/// A larger tolerance keeps no index that a smaller one drops, so it never
/// keeps more indices.
pub proof fn lemma_retained_monotone(pts: Seq<Seq<i16>>, e1: int, e2: int)
    requires
        0 <= e1 <= e2,
    ensures
        retained(pts, e2).subset_of(retained(pts, e1)),
        retained(pts, e2).len() <= retained(pts, e1).len(),
{
    if pts.len() > 2 {
        lemma_kept_monotone(pts, e1, e2, 0, pts.len() - 1);
    }
    lemma_ends_retained(pts, e1);
    lemma_len_subset(retained(pts, e2), retained(pts, e1));
}

/// A set of identical points reduces to its first and its last index.
pub proof fn lemma_identical_points(pts: Seq<Seq<i16>>, eps: int)
    requires
        pts.len() >= 1,
        forall|i: int| 0 <= i < pts.len() ==> #[trigger] pts[i] == pts[0],
    ensures
        retained(pts, eps) == Set::<int>::empty().insert(0).insert(pts.len() - 1),
{
    let n = pts.len() as int;
    if n > 2 {
        let m = farthest(pts, 0, n - 1);
        lemma_farthest_upto_is_first_max(pts, 0, n - 1, n - 2);
        let a = pts[0];
        assert(pts[m] == a);
        assert(pts[n - 1] == a);
        lemma_sq_sum_self(a, a.len() as int);
        assert(chord_len2(a, a) == 0);
        assert(deviation(a, a, a) == 0);
        assert(eps * eps >= 0) by (nonlinear_arith);
        assert(!exceeds(pts[0], pts[n - 1], pts[m], eps));
        assert(kept_between(pts, eps, 0, n - 1) == Set::<int>::empty());
    }
    assert(retained(pts, eps) =~= Set::<int>::empty().insert(0).insert(n - 1));
}

/// The points at the indices `v`, in the order of `v`.
pub open spec fn select(pts: Seq<Seq<i16>>, v: Seq<usize>) -> Seq<Seq<i16>> {
    Seq::new(v.len(), |j: int| pts[v[j] as int])
}

/// The values that `v` holds strictly between its positions `a` and `b`.
pub open spec fn between(v: Seq<usize>, a: int, b: int) -> Set<int> {
    Set::new(|k: int| exists|j: int| a < j < b && v[j] as int == k)
}

proof fn lemma_refined_range_keeps_all(pts: Seq<Seq<i16>>, eps: int, v: Seq<usize>, a: int, b: int)
    requires
        strictly_increasing(v),
        0 <= a < b < v.len(),
        v[b] < pts.len(),
        between(v, a, b) == kept_between(pts, eps, v[a] as int, v[b] as int),
    ensures
        kept_between(select(pts, v), eps, a, b) == set_int_range(a + 1, b),
    decreases b - a,
{
    let sub = select(pts, v);
    if b - a < 2 {
        assert(set_int_range(a + 1, b) =~= Set::<int>::empty());
    } else {
        let lo = v[a] as int;
        let hi = v[b] as int;
        assert(between(v, a, b).contains(v[a + 1] as int));
        let m = farthest(pts, lo, hi);
        assert(hi - lo >= 2 && lo < m < hi && exceeds(pts[lo], pts[hi], pts[m], eps));
        assert(kept_between(pts, eps, lo, hi).contains(m));
        let c = choose|j: int| a < j < b && v[j] as int == m;
        lemma_split_point_is_lowest_farthest(pts, lo, hi);
        lemma_split_point_is_lowest_farthest(sub, a, b);
        let x = farthest(sub, a, b);
        assert(sub[a] == pts[lo] && sub[b] == pts[hi]);
        assert forall|y: int| a < y < b implies #[trigger] dev_in(sub, a, b, y) == dev_in(
            pts,
            lo,
            hi,
            v[y] as int,
        ) && lo < v[y] < hi by {
            assert(sub[y] == pts[v[y] as int]);
        }
        assert(dev_in(sub, a, b, c) == dev_in(pts, lo, hi, m));
        assert(dev_in(sub, a, b, x) <= dev_in(pts, lo, hi, m));
        if x < c {
            assert(v[x] < v[c]);
            assert(dev_in(pts, lo, hi, v[x] as int) < dev_in(pts, lo, hi, m));
        } else if c < x {
            assert(dev_in(sub, a, b, c) < dev_in(sub, a, b, x));
        }
        assert(x == c);
        assert(sub[c] == pts[m]);
        lemma_kept_inside(pts, eps, lo, m);
        lemma_kept_inside(pts, eps, m, hi);
        assert(between(v, a, c) =~= kept_between(pts, eps, lo, m)) by {
            assert forall|k: int| between(v, a, c).contains(k) implies kept_between(
                pts,
                eps,
                lo,
                m,
            ).contains(k) by {
                let j = choose|j: int| a < j < c && v[j] as int == k;
                assert(v[j] < v[c]);
                assert(between(v, a, b).contains(k));
            }
            assert forall|k: int| kept_between(pts, eps, lo, m).contains(k) implies between(
                v,
                a,
                c,
            ).contains(k) by {
                assert(set_int_range(lo + 1, m).contains(k));
                assert(kept_between(pts, eps, lo, hi).contains(k));
                let j = choose|j: int| a < j < b && v[j] as int == k;
                if j >= c {
                    assert(v[j] >= v[c]);
                }
            }
        }
        assert(between(v, c, b) =~= kept_between(pts, eps, m, hi)) by {
            assert forall|k: int| between(v, c, b).contains(k) implies kept_between(
                pts,
                eps,
                m,
                hi,
            ).contains(k) by {
                let j = choose|j: int| c < j < b && v[j] as int == k;
                assert(v[c] < v[j]);
                assert(between(v, a, b).contains(k));
                if kept_between(pts, eps, lo, m).contains(k) {
                    assert(set_int_range(lo + 1, m).contains(k));
                }
            }
            assert forall|k: int| kept_between(pts, eps, m, hi).contains(k) implies between(
                v,
                c,
                b,
            ).contains(k) by {
                assert(set_int_range(m + 1, hi).contains(k));
                assert(kept_between(pts, eps, lo, hi).contains(k));
                let j = choose|j: int| a < j < b && v[j] as int == k;
                if j <= c {
                    assert(v[j] <= v[c]);
                }
            }
        }
        lemma_refined_range_keeps_all(pts, eps, v, a, c);
        lemma_refined_range_keeps_all(pts, eps, v, c, b);
        assert(kept_between(sub, eps, a, b) =~= set_int_range(a + 1, b));
    }
}

/// Reducing the kept points alone, with the same tolerance, keeps all of them:
/// the result of a reduction is a fixed point of the reduction.
pub proof fn lemma_retained_fixed_point(pts: Seq<Seq<i16>>, eps: int, v: Seq<usize>)
    requires
        strictly_increasing(v),
        index_set(v) == retained(pts, eps),
    ensures
        retained(select(pts, v), eps) == set_int_range(0, v.len() as int),
{
    let sub = select(pts, v);
    let n = pts.len() as int;
    let l = v.len() as int;
    lemma_ends_retained(pts, eps);
    if l <= 2 {
        assert(retained(sub, eps) =~= set_int_range(0, l));
    } else {
        assert(index_set(v).contains(v[2] as int));
        assert(set_int_range(0, n).contains(v[2] as int));
        assert(v[0] < v[1] < v[2]);
        assert(n > 2);
        assert(index_set(v).contains(0));
        let j0 = choose|j: int| 0 <= j < v.len() && v[j] as int == 0;
        if j0 > 0 {
            assert(v[0] < v[j0]);
        }
        assert(v[0] == 0);
        assert(index_set(v).contains(n - 1));
        let j1 = choose|j: int| 0 <= j < v.len() && v[j] as int == n - 1;
        assert(index_set(v).contains(v[l - 1] as int));
        if j1 < l - 1 {
            assert(v[j1] < v[l - 1]);
        }
        assert(v[l - 1] == n - 1);
        lemma_kept_inside(pts, eps, 0, n - 1);
        assert(between(v, 0, l - 1) =~= kept_between(pts, eps, 0, n - 1)) by {
            assert forall|k: int| #[trigger] between(v, 0, l - 1).contains(k) implies kept_between(
                pts,
                eps,
                0,
                n - 1,
            ).contains(k) by {
                let j = choose|j: int| 0 < j < l - 1 && v[j] as int == k;
                assert(v[0] < v[j] < v[l - 1]);
                assert(index_set(v).contains(k));
            }
            assert forall|k: int| #[trigger] kept_between(pts, eps, 0, n - 1).contains(k) implies between(
                v,
                0,
                l - 1,
            ).contains(k) by {
                assert(set_int_range(1, n - 1).contains(k));
                assert(retained(pts, eps).contains(k));
                let j = choose|j: int| 0 <= j < v.len() && v[j] as int == k;
                assert(0 < j < l - 1);
            }
        }
        lemma_refined_range_keeps_all(pts, eps, v, 0, l - 1);
        assert(retained(sub, eps) =~= set_int_range(0, l));
    }
}

} // verus!
