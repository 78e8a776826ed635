//! Squared Euclidean distance between coordinates, in spec and in exec form.

use vstd::prelude::*;

verus! {

/// The largest square of a difference of two `i32` values: `(2^32 - 1)^2`.
pub const MAX_AXIS_SQUARE: u128 = 18446744065119617025;

/// Sum of the squared differences over the first `n` axes.
pub open spec fn sq_dist_upto(a: Seq<i32>, b: Seq<i32>, n: int) -> int
    decreases n,
{
    if n <= 0 {
        0
    } else {
        sq_dist_upto(a, b, n - 1) + (a[n - 1] - b[n - 1]) * (a[n - 1] - b[n - 1])
    }
}

/// Squared Euclidean distance between two coordinates of equal length.
pub open spec fn sq_dist(a: Seq<i32>, b: Seq<i32>) -> int {
    sq_dist_upto(a, b, a.len() as int)
}

/// `i` is a position in `pts` whose point is at minimal squared distance from `target`.
pub open spec fn is_nearest_index(pts: Seq<Seq<i32>>, target: Seq<i32>, i: int) -> bool {
    &&& 0 <= i < pts.len()
    &&& forall|j: int| 0 <= j < pts.len() ==> sq_dist(pts[i], target) <= #[trigger] sq_dist(pts[j], target)
}

proof fn lemma_square_nonneg(x: int)
    ensures
        x * x >= 0,
{
    assert(x * x >= 0) by (nonlinear_arith);
}

/// Squares grow with the absolute value.
pub proof fn lemma_square_monotone(x: int, y: int)
    requires
        0 <= x <= y,
    ensures
        x * x <= y * y,
{
    assert(x * x <= y * y) by (nonlinear_arith)
        requires
            0 <= x <= y,
    ;
}

/// Partial sums of squares are non-negative and dominate each of their terms.
pub proof fn lemma_sq_dist_upto_bounds(a: Seq<i32>, b: Seq<i32>, n: int, k: int)
    requires
        0 <= k < n,
    ensures
        sq_dist_upto(a, b, n) >= (a[k] - b[k]) * (a[k] - b[k]),
        sq_dist_upto(a, b, n) >= 0,
    decreases n,
{
    lemma_square_nonneg(a[n - 1] - b[n - 1]);
    if n - 1 > k {
        lemma_sq_dist_upto_bounds(a, b, n - 1, k);
    } else {
        lemma_sq_dist_upto_nonneg(a, b, n - 1);
    }
}

proof fn lemma_sq_dist_upto_nonneg(a: Seq<i32>, b: Seq<i32>, n: int)
    ensures
        sq_dist_upto(a, b, n) >= 0,
    decreases n,
{
    if n > 0 {
        lemma_square_nonneg(a[n - 1] - b[n - 1]);
        lemma_sq_dist_upto_nonneg(a, b, n - 1);
    }
}

/// The squared distance is never below the squared difference along one axis.
pub proof fn lemma_sq_dist_dominates_axis(a: Seq<i32>, b: Seq<i32>, k: int)
    requires
        0 <= k < a.len(),
    ensures
        sq_dist(a, b) >= (a[k] - b[k]) * (a[k] - b[k]),
        sq_dist(a, b) >= 0,
{
    lemma_sq_dist_upto_bounds(a, b, a.len() as int, k);
}

/// A coordinate is at distance zero from itself.
pub proof fn lemma_sq_dist_self(a: Seq<i32>, n: int)
    ensures
        sq_dist_upto(a, a, n) == 0,
    decreases n,
{
    if n > 0 {
        lemma_sq_dist_self(a, n - 1);
    }
}

proof fn lemma_axis_square_bound(x: i32, y: i32)
    ensures
        0 <= (x - y) * (x - y) <= MAX_AXIS_SQUARE,
{
    let d: int = x - y;
    assert(-4294967295 <= d <= 4294967295);
    assert(0 <= d * d <= 4294967295 * 4294967295) by (nonlinear_arith)
        requires
            -4294967295 <= d <= 4294967295,
    ;
}

proof fn lemma_square_zero(x: int)
    requires
        x * x <= 0,
    ensures
        x == 0,
{
    assert(x == 0) by (nonlinear_arith)
        requires
            x * x <= 0,
    ;
}

/// Searching for the coordinates of a stored point finds a point at distance zero from
/// them: the point itself, or another one with the same coordinates.
pub proof fn lemma_stored_point_found_at_zero(pts: Seq<Seq<i32>>, j: int, i: int)
    requires
        0 <= j < pts.len(),
        is_nearest_index(pts, pts[j], i),
    ensures
        sq_dist(pts[i], pts[j]) == 0,
        pts[i].len() == pts[j].len() ==> pts[i] == pts[j],
{
    let a = pts[i];
    let b = pts[j];
    lemma_sq_dist_self(b, b.len() as int);
    lemma_sq_dist_upto_nonneg(a, b, a.len() as int);
    assert(sq_dist(a, b) <= sq_dist(b, b));
    if a.len() == b.len() {
        assert forall|k: int| 0 <= k < a.len() implies a[k] == b[k] by {
            lemma_sq_dist_dominates_axis(a, b, k);
            lemma_square_zero(a[k] - b[k]);
        }
        assert(a =~= b);
    }
}

/// When the point appended last to `pts` is strictly nearer to `target` than every earlier
/// point, a search over all of them can only find that last point.
pub proof fn lemma_strictly_nearer_added_point(
    pts: Seq<Seq<i32>>,
    p: Seq<i32>,
    target: Seq<i32>,
    i: int,
)
    requires
        forall|j: int| 0 <= j < pts.len() ==> sq_dist(p, target) < #[trigger] sq_dist(pts[j], target),
        is_nearest_index(pts.push(p), target, i),
    ensures
        i == pts.len(),
{
    let all = pts.push(p);
    assert(all[pts.len() as int] == p);
    if i < pts.len() {
        assert(all[i] == pts[i]);
        assert(sq_dist(all[i], target) <= sq_dist(all[pts.len() as int], target));
    }
}

/// Exact squared difference of two `i32` values along one axis.
pub fn axis_square(x: i32, y: i32) -> (r: u128)
    ensures
        r == (x - y) * (x - y),
        r <= MAX_AXIS_SQUARE,
{
    proof {
        lemma_axis_square_bound(x, y);
    }
    let d: i64 = x as i64 - y as i64;
    let m: u64 = if d < 0 {
        (-d) as u64
    } else {
        d as u64
    };
    assert(m * m == d * d) by (nonlinear_arith)
        requires
            m == d || m == -d,
    ;
    (m as u128) * (m as u128)
}

/// Exact squared Euclidean distance between two coordinates of the same dimension.
pub fn squared_distance<const DIM: usize>(a: &[i32; DIM], b: &[i32; DIM]) -> (r: u128)
    ensures
        r == sq_dist(a@, b@),
{
    let mut acc: u128 = 0;
    let mut i: usize = 0;
    while i < DIM
        invariant
            i <= DIM,
            a@.len() == DIM,
            b@.len() == DIM,
            acc == sq_dist_upto(a@, b@, i as int),
            acc <= i * MAX_AXIS_SQUARE,
        decreases DIM - i,
    {
        let s = axis_square(a[i], b[i]);
        assert((i + 1) * MAX_AXIS_SQUARE <= 18446744073709551615 * MAX_AXIS_SQUARE) by (nonlinear_arith)
            requires
                i < DIM,
                DIM <= 18446744073709551615,
        ;
        assert(acc + s <= (i + 1) * MAX_AXIS_SQUARE) by (nonlinear_arith)
            requires
                acc <= i * MAX_AXIS_SQUARE,
                s <= MAX_AXIS_SQUARE,
        ;
        acc = acc + s;
        i = i + 1;
    }
    acc
}

} // verus!
