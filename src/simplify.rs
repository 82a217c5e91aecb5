//! Ramer-Douglas-Peucker simplification of a point sequence, driven by an
//! explicit work list of index ranges.
use vstd::prelude::*;
use crate::laws::lemma_ends_retained;
use crate::geometry::{MAX_DIM, deviation, exceeds, deviation_of, beyond_tolerance};

verus! {

/// Why a point set or a tolerance was rejected.
#[derive(Debug, Clone, Copy, PartialEq, Eq, Structural)]
pub enum SimplifyError {
    /// The tolerance is below zero.
    NegativeEpsilon,
    /// Not every point has the same number of coordinates.
    RaggedRows,
    /// The points have no coordinates at all.
    ZeroDimension,
}

/// The points as sequences of coordinates.
pub open spec fn rows(points: &Vec<Vec<i16>>) -> Seq<Seq<i16>> {
    points@.map_values(|r: Vec<i16>| r@)
}

/// Every point has as many coordinates as the first one.
pub open spec fn rectangular(pts: Seq<Seq<i16>>) -> bool {
    forall|i: int| 0 <= i < pts.len() ==> #[trigger] pts[i].len() == pts[0].len()
}

/// A point set on which the reduction is defined.
pub open spec fn well_formed(pts: Seq<Seq<i16>>) -> bool {
    &&& rectangular(pts)
    &&& pts.len() > 0 ==> 1 <= pts[0].len() <= MAX_DIM
}

/// The scaled deviation of point `i` from the chord of the range `[lo, hi]`.
pub open spec fn dev_in(pts: Seq<Seq<i16>>, lo: int, hi: int, i: int) -> int {
    deviation(pts[lo], pts[hi], pts[i])
}

/// Among the indices `lo + 1 ..= j`, the lowest one whose deviation from the
/// chord `[lo, hi]` is largest.
pub open spec fn farthest_upto(pts: Seq<Seq<i16>>, lo: int, hi: int, j: int) -> int
    decreases j - lo,
{
    if j <= lo + 1 {
        lo + 1
    } else {
        let b = farthest_upto(pts, lo, hi, j - 1);
        if dev_in(pts, lo, hi, j) > dev_in(pts, lo, hi, b) {
            j
        } else {
            b
        }
    }
}

/// The interior point of `[lo, hi]` farthest from its chord, the lowest index on ties.
pub open spec fn farthest(pts: Seq<Seq<i16>>, lo: int, hi: int) -> int {
    farthest_upto(pts, lo, hi, hi - 1)
}

/// The interior indices of `[lo, hi]` that the reduction keeps.
pub open spec fn kept_between(pts: Seq<Seq<i16>>, eps: int, lo: int, hi: int) -> Set<int>
    decreases hi - lo,
{
    if hi - lo < 2 {
        Set::empty()
    } else {
        let m = farthest(pts, lo, hi);
        if lo < m < hi && exceeds(pts[lo], pts[hi], pts[m], eps) {
            kept_between(pts, eps, lo, m).union(kept_between(pts, eps, m, hi)).insert(m)
        } else {
            Set::empty()
        }
    }
}

/// The indices that the reduction keeps: all of them for at most two points,
/// else both ends and what the ranges between them keep.
pub open spec fn retained(pts: Seq<Seq<i16>>, eps: int) -> Set<int> {
    if pts.len() <= 2 {
        Set::new(|i: int| 0 <= i < pts.len())
    } else {
        kept_between(pts, eps, 0, pts.len() - 1).insert(0).insert(pts.len() - 1)
    }
}

/// The values of a sequence of indices, as a set.
pub open spec fn index_set(v: Seq<usize>) -> Set<int> {
    Set::new(|k: int| exists|j: int| 0 <= j < v.len() && v[j] as int == k)
}

/// Each element is larger than the one before.
pub open spec fn strictly_increasing(v: Seq<usize>) -> bool {
    forall|i: int, j: int| 0 <= i < j < v.len() ==> v[i] < v[j]
}

proof fn lemma_farthest_upto_range(pts: Seq<Seq<i16>>, lo: int, hi: int, j: int)
    requires
        lo < j,
    ensures
        lo < farthest_upto(pts, lo, hi, j) <= j,
    decreases j - lo,
{
    if j > lo + 1 {
        lemma_farthest_upto_range(pts, lo, hi, j - 1);
    }
}

/// The interior index of `[lo, hi]` farthest from its chord, and its scaled deviation.
fn find_farthest(points: &Vec<Vec<i16>>, lo: usize, hi: usize) -> (r: (usize, i128))
    requires
        well_formed(rows(points)),
        lo + 2 <= hi < points.len(),
    ensures
        r.0 == farthest(rows(points), lo as int, hi as int),
        lo < r.0 < hi,
        r.1 == dev_in(rows(points), lo as int, hi as int, r.0 as int),
{
    let ghost pts = rows(points);
    assert(pts[lo as int] == points[lo as int]@);
    assert(pts[hi as int].len() == pts[0].len());
    assert(pts[lo as int].len() == pts[0].len());
    let a = &points[lo];
    let b = &points[hi];
    let mut best: usize = lo + 1;
    assert(pts[best as int].len() == pts[0].len());
    let (mut best_dev, _) = deviation_of(a, b, &points[best]);
    let mut j: usize = lo + 2;
    while j < hi
        invariant
            pts == rows(points),
            well_formed(pts),
            lo + 2 <= j <= hi < points.len(),
            a@ == pts[lo as int],
            b@ == pts[hi as int],
            best == farthest_upto(pts, lo as int, hi as int, j - 1),
            best_dev == dev_in(pts, lo as int, hi as int, best as int),
        decreases hi - j,
    {
        assert(pts[j as int].len() == pts[0].len());
        assert(pts[j as int] == points[j as int]@);
        let (dj, _) = deviation_of(a, b, &points[j]);
        if dj > best_dev {
            best = j;
            best_dev = dj;
        }
        j = j + 1;
    }
    proof {
        lemma_farthest_upto_range(pts, lo as int, hi as int, hi - 1);
    }
    (best, best_dev)
}

/// The first reason, if any, for which the reduction refuses its inputs.
pub open spec fn rejection(pts: Seq<Seq<i16>>, eps: int) -> Option<SimplifyError> {
    if eps < 0 {
        Some(SimplifyError::NegativeEpsilon)
    } else if pts.len() > 0 && !rectangular(pts) {
        Some(SimplifyError::RaggedRows)
    } else if pts.len() > 0 && pts[0].len() == 0 {
        Some(SimplifyError::ZeroDimension)
    } else {
        None
    }
}

/// The indices that the ranges of a work list still have to contribute.
spec fn pending(pts: Seq<Seq<i16>>, eps: int, work: Seq<(usize, usize)>) -> Set<int>
    decreases work.len(),
{
    if work.len() == 0 {
        Set::empty()
    } else {
        let w = work.last();
        pending(pts, eps, work.drop_last()).union(kept_between(pts, eps, w.0 as int, w.1 as int))
    }
}

/// Work left in a work list: twice the interior points of each range, plus one per range.
spec fn load(work: Seq<(usize, usize)>) -> int
    decreases work.len(),
{
    if work.len() == 0 {
        0
    } else {
        let w = work.last();
        load(work.drop_last()) + 2 * (w.1 - w.0 - 1) + 1
    }
}

proof fn lemma_load_nonneg(work: Seq<(usize, usize)>)
    requires
        forall|i: int| 0 <= i < work.len() ==> #[trigger] work[i].0 < work[i].1,
    ensures
        load(work) >= 0,
    decreases work.len(),
{
    if work.len() > 0 {
        lemma_load_nonneg(work.drop_last());
    }
}

/// The indices whose flag is set.
spec fn flagged(keep: Seq<bool>) -> Set<int> {
    Set::new(|i: int| 0 <= i < keep.len() && keep[i])
}

/// Checks the inputs of `simplify`, returning the first reason to refuse them.
pub fn check_inputs(points: &Vec<Vec<i16>>, epsilon: i32) -> (r: Option<SimplifyError>)
    ensures
        r == rejection(rows(points), epsilon as int),
{
    let ghost pts = rows(points);
    if epsilon < 0 {
        return Some(SimplifyError::NegativeEpsilon);
    }
    if points.len() == 0 {
        return None;
    }
    let d = points[0].len();
    assert(pts[0] == points[0]@);
    let mut i: usize = 1;
    while i < points.len()
        invariant
            pts == rows(points),
            points.len() > 0,
            epsilon >= 0,
            d == pts[0].len(),
            1 <= i <= points.len(),
            forall|k: int| 0 <= k < i ==> #[trigger] pts[k].len() == d,
        decreases points.len() - i,
    {
        assert(pts[i as int] == points[i as int]@);
        if points[i].len() != d {
            assert(pts[i as int] == points[i as int]@);
            assert(pts[i as int].len() != pts[0].len());
            assert(!rectangular(pts));
            return Some(SimplifyError::RaggedRows);
        }
        i = i + 1;
    }
    if d == 0 {
        Some(SimplifyError::ZeroDimension)
    } else {
        None
    }
}

/// Indices `0 .. n` in order.
fn all_indices(n: usize) -> (r: Vec<usize>)
    ensures
        r@ == Seq::new(n as nat, |i: int| i as usize),
{
    let mut r: Vec<usize> = Vec::new();
    let mut i: usize = 0;
    while i < n
        invariant
            i <= n,
            r@ == Seq::new(i as nat, |k: int| k as usize),
        decreases n - i,
    {
        r.push(i);
        i = i + 1;
        assert(r@ =~= Seq::new(i as nat, |k: int| k as usize));
    }
    r
}

proof fn lemma_index_set_len(v: Seq<usize>)
    requires
        strictly_increasing(v),
    ensures
        index_set(v).finite(),
        index_set(v).len() == v.len(),
    decreases v.len(),
{
    if v.len() == 0 {
        assert(index_set(v) =~= Set::<int>::empty());
    } else {
        let u = v.drop_last();
        lemma_index_set_len(u);
        assert(index_set(v) =~= index_set(u).insert(v.last() as int)) by {
            assert forall|k: int| index_set(u).contains(k) implies index_set(v).contains(k) by {
                let j = choose|j: int| 0 <= j < u.len() && u[j] as int == k;
                assert(v[j] == u[j]);
            }
            assert forall|k: int| index_set(v).contains(k) && k != v.last() implies index_set(
                u,
            ).contains(k) by {
                let j = choose|j: int| 0 <= j < v.len() && v[j] as int == k;
                assert(u[j] == v[j]);
            }
            assert(index_set(v).contains(v.last() as int)) by {
                assert(v[v.len() - 1] == v.last());
            }
        }
        assert(!index_set(u).contains(v.last() as int)) by {
            if index_set(u).contains(v.last() as int) {
                let j = choose|j: int| 0 <= j < u.len() && u[j] as int == v.last();
                assert(v[j] < v[v.len() - 1]);
            }
        }
    }
}

/// The indices whose flag is set, in increasing order.
fn flagged_indices(keep: &Vec<bool>) -> (r: Vec<usize>)
    ensures
        index_set(r@) == flagged(keep@),
        strictly_increasing(r@),
        forall|j: int| 0 <= j < r.len() ==> r@[j] < keep.len(),
{
    let mut r: Vec<usize> = Vec::new();
    let mut i: usize = 0;
    while i < keep.len()
        invariant
            i <= keep.len(),
            strictly_increasing(r@),
            forall|j: int| 0 <= j < r.len() ==> r@[j] < i,
            forall|k: int|
                (exists|j: int| 0 <= j < r.len() && r@[j] as int == k) <==> (0 <= k < i
                    && keep@[k]),
        decreases keep.len() - i,
    {
        let ghost before = r@;
        if keep[i] {
            r.push(i);
        }
        proof {
            assert forall|k: int|
                (exists|j: int| 0 <= j < r.len() && r@[j] as int == k) <==> (0 <= k < i + 1
                    && keep@[k]) by {
                if 0 <= k < i + 1 && keep@[k] {
                    if k < i {
                        let j = choose|j: int| 0 <= j < before.len() && before[j] as int == k;
                        assert(r@[j] == before[j]);
                    } else {
                        assert(r@[r.len() - 1] as int == k);
                    }
                }
                if exists|j: int| 0 <= j < r.len() && r@[j] as int == k {
                    let j = choose|j: int| 0 <= j < r.len() && r@[j] as int == k;
                    if j < before.len() {
                        assert(before[j] == r@[j]);
                    }
                }
            }
        }
        i = i + 1;
    }
    assert(index_set(r@) =~= flagged(keep@));
    r
}

proof fn lemma_split(pts: Seq<Seq<i16>>, eps: int, lo: int, hi: int, m: int)
    requires
        hi - lo >= 2,
        m == farthest(pts, lo, hi),
        exceeds(pts[lo], pts[hi], pts[m], eps),
    ensures
        lo < m < hi,
        kept_between(pts, eps, lo, hi) == kept_between(pts, eps, lo, m).union(
            kept_between(pts, eps, m, hi),
        ).insert(m),
{
    lemma_farthest_upto_range(pts, lo, hi, hi - 1);
}

proof fn lemma_no_split(pts: Seq<Seq<i16>>, eps: int, lo: int, hi: int)
    requires
        hi - lo < 2 || !exceeds(pts[lo], pts[hi], pts[farthest(pts, lo, hi)], eps),
    ensures
        kept_between(pts, eps, lo, hi) == Set::<int>::empty(),
{
}

/// The flags of the indices kept from a well-formed set of at least three points.
fn reduce(points: &Vec<Vec<i16>>, epsilon: i32) -> (keep: Vec<bool>)
    requires
        well_formed(rows(points)),
        points.len() >= 3,
        epsilon >= 0,
    ensures
        keep.len() == points.len(),
        flagged(keep@) == retained(rows(points), epsilon as int),
{
    let ghost pts = rows(points);
    let ghost eps = epsilon as int;
    let n = points.len();
    let mut keep: Vec<bool> = vec![false; n];
    keep.set(0, true);
    keep.set(n - 1, true);
    let mut work: Vec<(usize, usize)> = Vec::new();
    work.push((0, n - 1));
    proof {
        assert(work@.drop_last() =~= Seq::<(usize, usize)>::empty());
        assert(work@.last() == (0usize, (n - 1) as usize));
        assert(pending(pts, eps, Seq::<(usize, usize)>::empty()) == Set::<int>::empty());
        assert(pending(pts, eps, work@) == Set::<int>::empty().union(
            kept_between(pts, eps, 0, n - 1),
        ));
        assert(flagged(keep@) =~= Set::<int>::empty().insert(0).insert(n - 1));
        assert(flagged(keep@).union(pending(pts, eps, work@)) =~= retained(pts, eps));
    }
    while work.len() > 0
        invariant
            pts == rows(points),
            eps == epsilon as int,
            well_formed(pts),
            epsilon >= 0,
            n == points.len(),
            keep.len() == n,
            forall|i: int| 0 <= i < work.len() ==> #[trigger] work@[i].0 < work@[i].1 < n,
            flagged(keep@).union(pending(pts, eps, work@)) == retained(pts, eps),
        decreases load(work@),
    {
        let ghost before = work@;
        assert(work@[work.len() - 1].0 < work@[work.len() - 1].1 < n);
        let (lo, hi) = work.pop().unwrap();
        proof {
            assert(work@ == before.drop_last());
            assert forall|i: int| 0 <= i < work.len() implies #[trigger] work@[i].0 < work@[i].1
                < n by {
                assert(work@[i] == before[i]);
            }
            assert(before.last() == (lo, hi));
            assert(lo < hi < n);
            assert(before[before.len() - 1] == (lo, hi));
            lemma_load_nonneg(work@);
            assert(load(before) == load(work@) + 2 * (hi - lo - 1) + 1);
            assert(pending(pts, eps, before) == pending(pts, eps, work@).union(
                kept_between(pts, eps, lo as int, hi as int),
            ));
        }
        if hi - lo >= 2 {
            let (m, dm) = find_farthest(points, lo, hi);
            assert(pts[lo as int].len() == pts[0].len());
            assert(pts[hi as int].len() == pts[0].len());
            assert(pts[m as int].len() == pts[0].len());
            assert(pts[lo as int] == points[lo as int]@);
            assert(pts[hi as int] == points[hi as int]@);
            assert(pts[m as int] == points[m as int]@);
            let (_, w) = deviation_of(&points[lo], &points[hi], &points[m]);
            if beyond_tolerance(dm, w, epsilon) {
                proof {
                    lemma_split(pts, eps, lo as int, hi as int, m as int);
                }
                let ghost mid = work@;
                let ghost flags = keep@;
                keep.set(m, true);
                work.push((lo, m));
                work.push((m, hi));
                proof {
                    assert forall|i: int| 0 <= i < work.len() implies #[trigger] work@[i].0
                        < work@[i].1 < n by {
                        if i < mid.len() {
                            assert(work@[i] == mid[i]);
                            assert(mid[i] == before[i]);
                        } else if i == mid.len() {
                            assert(work@[i] == (lo, m));
                        } else {
                            assert(work@[i] == (m, hi));
                        }
                    }
                    assert(work@.drop_last() == mid.push((lo, m)));
                    assert(mid.push((lo, m)).drop_last() == mid);
                    assert(load(work@) == load(mid.push((lo, m))) + 2 * (hi - m - 1) + 1);
                    assert(load(mid.push((lo, m))) == load(mid) + 2 * (m - lo - 1) + 1);
                    assert(pending(pts, eps, work@) == pending(pts, eps, mid.push((lo, m))).union(
                        kept_between(pts, eps, m as int, hi as int),
                    ));
                    assert(pending(pts, eps, mid.push((lo, m))) == pending(pts, eps, mid).union(
                        kept_between(pts, eps, lo as int, m as int),
                    ));
                    assert(flagged(keep@) =~= flagged(flags).insert(m as int));
                    assert(flagged(keep@).union(pending(pts, eps, work@)) =~= flagged(
                        flags,
                    ).union(pending(pts, eps, mid)).union(
                        kept_between(pts, eps, lo as int, hi as int),
                    ));
                }
            } else {
                proof {
                    lemma_no_split(pts, eps, lo as int, hi as int);
                    assert(forall|i: int| 0 <= i < work.len() ==> #[trigger] work@[i].0 < work@[i].1 < n);
                    assert(flagged(keep@).union(pending(pts, eps, work@)) =~= flagged(
                        keep@,
                    ).union(pending(pts, eps, before)));
                }
            }
        } else {
            proof {
                lemma_no_split(pts, eps, lo as int, hi as int);
                    assert(forall|i: int| 0 <= i < work.len() ==> #[trigger] work@[i].0 < work@[i].1 < n);
                assert(flagged(keep@).union(pending(pts, eps, work@)) =~= flagged(keep@).union(
                    pending(pts, eps, before),
                ));
            }
        }
    }
    proof {
        assert(flagged(keep@) =~= retained(pts, eps));
    }
    keep
}

/// Reduces `points` with tolerance `epsilon`, in the units of the coordinates:
/// the indices of the points kept, in increasing order, always the first and
/// the last. A point is dropped when it lies within `epsilon` of the chord of
/// the range being refined; the range is otherwise split at its farthest
/// point, the lowest index on ties.
pub fn simplify(points: &Vec<Vec<i16>>, epsilon: i32) -> (r: Result<Vec<usize>, SimplifyError>)
    requires
        forall|i: int| 0 <= i < points.len() ==> #[trigger] points[i].len() <= MAX_DIM,
    ensures
        match r {
            Ok(v) => {
                &&& rejection(rows(points), epsilon as int) == None::<SimplifyError>
                &&& index_set(v@) == retained(rows(points), epsilon as int)
                &&& strictly_increasing(v@)
                &&& points.len() >= 1 ==> index_set(v@).contains(0) && index_set(v@).contains(
                    points.len() - 1,
                )
                &&& v.len() == retained(rows(points), epsilon as int).len()
                &&& forall|j: int| 0 <= j < v.len() ==> v@[j] < points.len()
                &&& points.len() <= 2 ==> v@ == Seq::new(points.len() as nat, |i: int| i as usize)
            },
            Err(e) => rejection(rows(points), epsilon as int) == Some(e),
        },
{
    let ghost pts = rows(points);
    proof {
        lemma_ends_retained(pts, epsilon as int);
    }
    match check_inputs(points, epsilon) {
        Some(e) => Err(e),
        None => {
            let n = points.len();
            if n <= 2 {
                let v = all_indices(n);
                proof {
                    assert(strictly_increasing(v@));
                    lemma_index_set_len(v@);
                    assert(index_set(v@) =~= retained(pts, epsilon as int)) by {
                        assert forall|k: int| 0 <= k < n implies index_set(v@).contains(k) by {
                            assert(v@[k] as int == k);
                        }
                    }
                }
                Ok(v)
            } else {
                proof {
                    assert(pts[0] == points[0]@);
                    assert(points[0].len() <= MAX_DIM);
                }
                let keep = reduce(points, epsilon);
                let v = flagged_indices(&keep);
                proof {
                    lemma_index_set_len(v@);
                }
                Ok(v)
            }
        },
    }
}

} // verus!
