//! Exact squared-distance kernel for points on an integer grid.
use vstd::prelude::*;

verus! {

/// Largest dimensionality for which every product in the kernel fits in `i128`.
pub const MAX_DIM: usize = 1048576;

/// Sum over the first `k` coordinates of `(b - a)^2`.
pub open spec fn sq_sum(a: Seq<i16>, b: Seq<i16>, k: int) -> int
    decreases k,
{
    if k <= 0 {
        0
    } else {
        sq_sum(a, b, k - 1) + (b[k - 1] - a[k - 1]) * (b[k - 1] - a[k - 1])
    }
}

/// Sum over the first `k` coordinates of `(p - a) * (b - a)`.
pub open spec fn dot_sum(a: Seq<i16>, p: Seq<i16>, b: Seq<i16>, k: int) -> int
    decreases k,
{
    if k <= 0 {
        0
    } else {
        dot_sum(a, p, b, k - 1) + (p[k - 1] - a[k - 1]) * (b[k - 1] - a[k - 1])
    }
}

/// Squared length of the chord from `a` to `b`.
pub open spec fn chord_len2(a: Seq<i16>, b: Seq<i16>) -> int {
    sq_sum(a, b, a.len() as int)
}

/// Denominator of the squared distance: the squared chord length, or 1 for a
/// chord of length zero.
pub open spec fn chord_weight(a: Seq<i16>, b: Seq<i16>) -> int {
    if chord_len2(a, b) == 0 {
        1
    } else {
        chord_len2(a, b)
    }
}

/// Squared distance of `p` from the line through `a` and `b`, scaled by
/// `chord_weight(a, b)`. For a chord of length zero it is the squared
/// distance from `a` to `p`; otherwise it is
/// `|AP|^2 |AB|^2 - (AP . AB)^2`, that is `|AP - ((AP . AB) / |AB|^2) AB|^2 |AB|^2`.
pub open spec fn deviation(a: Seq<i16>, b: Seq<i16>, p: Seq<i16>) -> int {
    let ab = chord_len2(a, b);
    let ap = sq_sum(a, p, a.len() as int);
    let d = dot_sum(a, p, b, a.len() as int);
    if ab == 0 {
        ap
    } else {
        ap * ab - d * d
    }
}

/// Whether `p` lies farther than `eps` from the line through `a` and `b`.
pub open spec fn exceeds(a: Seq<i16>, b: Seq<i16>, p: Seq<i16>, eps: int) -> bool {
    deviation(a, b, p) > eps * eps * chord_weight(a, b)
}

proof fn lemma_diff_square(x: int, y: int)
    requires
        -65536 <= x <= 65536,
        -65536 <= y <= 65536,
    ensures
        -4294967296 <= x * y <= 4294967296,
{
    assert(-4294967296 <= x * y <= 4294967296) by (nonlinear_arith)
        requires
            -65536 <= x <= 65536,
            -65536 <= y <= 65536,
    ;
}

/// Squared Euclidean distance between `a` and `b`.
pub fn squared_distance(a: &Vec<i16>, b: &Vec<i16>) -> (r: i128)
    requires
        a.len() == b.len(),
        a.len() <= MAX_DIM,
    ensures
        r == sq_sum(a@, b@, a.len() as int),
        0 <= r <= a.len() * 4294967296,
{
    let mut s: i128 = 0;
    let mut k: usize = 0;
    while k < a.len()
        invariant
            a.len() == b.len(),
            a.len() <= MAX_DIM,
            k <= a.len(),
            s == sq_sum(a@, b@, k as int),
            0 <= s <= k * 4294967296,
        decreases a.len() - k,
    {
        let df: i64 = b[k] as i64 - a[k] as i64;
        proof {
            lemma_diff_square(df as int, df as int);
            assert(0 <= df * df) by (nonlinear_arith);
        }
        s = s + (df * df) as i128;
        k = k + 1;
    }
    s
}

/// Dot product of `p - a` and `b - a`.
pub fn offset_dot(a: &Vec<i16>, p: &Vec<i16>, b: &Vec<i16>) -> (r: i128)
    requires
        a.len() == b.len(),
        a.len() == p.len(),
        a.len() <= MAX_DIM,
    ensures
        r == dot_sum(a@, p@, b@, a.len() as int),
        -(a.len() * 4294967296) <= r <= a.len() * 4294967296,
{
    let mut s: i128 = 0;
    let mut k: usize = 0;
    while k < a.len()
        invariant
            a.len() == b.len(),
            a.len() == p.len(),
            a.len() <= MAX_DIM,
            k <= a.len(),
            s == dot_sum(a@, p@, b@, k as int),
            -(k * 4294967296) <= s <= k * 4294967296,
        decreases a.len() - k,
    {
        let dp: i64 = p[k] as i64 - a[k] as i64;
        let db: i64 = b[k] as i64 - a[k] as i64;
        proof {
            lemma_diff_square(dp as int, db as int);
        }
        s = s + (dp * db) as i128;
        k = k + 1;
    }
    s
}

/// Scaled deviation of `p` from the chord `a`-`b`, together with the chord's weight.
pub fn deviation_of(a: &Vec<i16>, b: &Vec<i16>, p: &Vec<i16>) -> (r: (i128, i128))
    requires
        a.len() == b.len(),
        a.len() == p.len(),
        a.len() <= MAX_DIM,
    ensures
        r.0 == deviation(a@, b@, p@),
        r.1 == chord_weight(a@, b@),
        1 <= r.1 <= 4503599627370496,
        -20282409603651670423947251286016 <= r.0 <= 20282409603651670423947251286016,
{
    let ab = squared_distance(a, b);
    let ap = squared_distance(a, p);
    if ab == 0 {
        (ap, 1)
    } else {
        let d = offset_dot(a, p, b);
        proof {
            let m: int = a.len() * 4294967296;
            assert(m <= 4503599627370496);
            assert(0 <= ap * ab <= 4503599627370496 * 4503599627370496) by (nonlinear_arith)
                requires
                    0 <= ap <= 4503599627370496,
                    0 <= ab <= 4503599627370496,
            ;
            assert(0 <= d * d <= 4503599627370496 * 4503599627370496) by (nonlinear_arith)
                requires
                    -4503599627370496 <= d <= 4503599627370496,
            ;
        }
        (ap * ab - d * d, ab)
    }
}

/// Whether `p` lies farther than `eps` from the chord `a`-`b`, with `dev` and
/// `weight` as `deviation_of` returns them.
pub fn beyond_tolerance(dev: i128, weight: i128, eps: i32) -> (r: bool)
    requires
        0 <= eps,
        1 <= weight <= 4503599627370496,
    ensures
        r == (dev > eps * eps * weight),
{
    let e: i128 = eps as i128;
    proof {
        assert(0 <= e * e <= 4611686018427387904) by (nonlinear_arith)
            requires
                0 <= e <= 2147483647,
        ;
        assert(0 <= (e * e) * weight <= 4611686018427387904 * 4503599627370496) by (nonlinear_arith)
            requires
                0 <= e * e <= 4611686018427387904,
                1 <= weight <= 4503599627370496,
        ;
    }
    dev > e * e * weight
}

} // verus!
