//! Points of M-dimensional space with fixed-point integer coordinates.
use vstd::prelude::*;

verus! {

/// A point in M-dimensional space. Coordinates are fixed-point integers:
/// callers pick a scale (say 1/1000) and keep it for a whole clustering run.
#[derive(Clone, Copy, Debug, PartialEq, Eq)]
pub struct Point<const M: usize>(pub [i32; M]);

/// The squared Euclidean distance between `a` and `b` over the first `n` dimensions.
pub open spec fn sq_dist_upto<const M: usize>(a: Point<M>, b: Point<M>, n: int) -> int
    decreases n,
{
    if n <= 0 {
        0
    } else {
        let diff = a.0[n - 1] - b.0[n - 1];
        sq_dist_upto(a, b, n - 1) + diff * diff
    }
}

/// The squared Euclidean distance between `a` and `b`. Since the square root
/// is increasing, it orders pairs of points exactly as the distance does.
pub open spec fn sq_dist<const M: usize>(a: Point<M>, b: Point<M>) -> int {
    sq_dist_upto(a, b, M as int)
}

/// An upper bound on `(x - y) * (x - y)` for two `i32` values.
pub open spec fn max_sq_diff() -> int {
    0x1_0000_0000_0000_0000int
}

pub proof fn lemma_sq_dist_upto_bounds<const M: usize>(a: Point<M>, b: Point<M>, n: int)
    requires
        0 <= n,
    ensures
        0 <= sq_dist_upto(a, b, n) <= n * max_sq_diff(),
    decreases n,
{
    if n > 0 {
        lemma_sq_dist_upto_bounds(a, b, n - 1);
        let diff = a.0[n - 1] - b.0[n - 1];
        assert(0 <= diff * diff <= max_sq_diff()) by (nonlinear_arith)
            requires
                -0x1_0000_0000 < diff < 0x1_0000_0000,
        ;
        assert((n - 1) * max_sq_diff() + max_sq_diff() == n * max_sq_diff()) by (nonlinear_arith);
    }
}

impl<const M: usize> Point<M> {
    pub fn new(coords: [i32; M]) -> (r: Self)
        ensures
            r.0 == coords,
    {
        Point(coords)
    }

    /// The origin.
    pub fn default() -> (r: Self)
        ensures
            forall|d: int| 0 <= d < M ==> r.0[d] == 0,
    {
        Point(vstd::array::array_fill_for_copy_types(0i32))
    }

    /// The squared Euclidean distance to `point`, computed exactly.
    ///
    /// Time complexity: O(M)
    pub fn distance(&self, point: &Self) -> (r: u128)
        ensures
            r == sq_dist(*self, *point),
    {
        let mut acc: u128 = 0;
        let mut d: usize = 0;
        while d < M
            invariant
                d <= M,
                acc == sq_dist_upto(*self, *point, d as int),
            decreases M - d,
        {
            proof {
                lemma_sq_dist_upto_bounds(*self, *point, d as int + 1);
                assert((d + 1) * max_sq_diff() < 0x1_0000_0000_0000_0000 * max_sq_diff())
                    by (nonlinear_arith)
                    requires
                        d < M,
                        M <= usize::MAX,
                        max_sq_diff() > 0,
                ;
            }
            let diff: i64 = self.0[d] as i64 - point.0[d] as i64;
            assert(0 <= diff * diff <= max_sq_diff()) by (nonlinear_arith)
                requires
                    -0x1_0000_0000 < diff < 0x1_0000_0000,
            ;
            let sq: i128 = diff as i128 * diff as i128;
            assert(acc + sq == sq_dist_upto(*self, *point, d as int + 1));
            acc = acc + sq as u128;
            d += 1;
        }
        acc
    }
}

/// Some point of `s` has coordinate `v` in dimension `d`.
pub open spec fn attained<const M: usize>(s: Seq<Point<M>>, d: int, v: i32) -> bool {
    exists|i: int| 0 <= i < s.len() && #[trigger] s[i].0[d] == v
}

/// The componentwise minimum and maximum of a non-empty set of points.
///
/// Time complexity: O(R * M)
pub fn get_range<const M: usize>(points: &[Point<M>]) -> (r: (Point<M>, Point<M>))
    requires
        points@.len() > 0,
    ensures
        forall|i: int, d: int|
            0 <= i < points@.len() && 0 <= d < M ==> r.0.0[d] <= #[trigger] points@[i].0[d]
                <= r.1.0[d],
        forall|d: int| 0 <= d < M ==> #[trigger] attained(points@, d, r.0.0[d]),
        forall|d: int| 0 <= d < M ==> #[trigger] attained(points@, d, r.1.0[d]),
{
    let mut min = points[0].0;
    let mut max = points[0].0;
    let mut i: usize = 1;
    assert(points@.take(1)[0] == points@[0]);
    while i < points.len()
        invariant
            1 <= i <= points@.len(),
            forall|j: int, d: int|
                0 <= j < i && 0 <= d < M ==> min[d] <= #[trigger] points@[j].0[d] <= max[d],
            forall|d: int| 0 <= d < M ==> #[trigger] attained(points@.take(i as int), d, min[d]),
            forall|d: int| 0 <= d < M ==> #[trigger] attained(points@.take(i as int), d, max[d]),
        decreases points@.len() - i,
    {
        proof {
            assert forall|e: int| 0 <= e < M implies #[trigger] attained(
                points@.take(i + 1),
                e,
                min[e],
            ) by {
                assert(attained(points@.take(i as int), e, min[e]));
                let j = choose|j: int|
                    0 <= j < i && #[trigger] points@.take(i as int)[j].0[e] == min[e];
                assert(points@.take(i + 1)[j] == points@.take(i as int)[j]);
            }
            assert forall|e: int| 0 <= e < M implies #[trigger] attained(
                points@.take(i + 1),
                e,
                max[e],
            ) by {
                assert(attained(points@.take(i as int), e, max[e]));
                let j = choose|j: int|
                    0 <= j < i && #[trigger] points@.take(i as int)[j].0[e] == max[e];
                assert(points@.take(i + 1)[j] == points@.take(i as int)[j]);
            }
        }
        let mut d: usize = 0;
        while d < M
            invariant
                1 <= i < points@.len(),
                d <= M,
                forall|j: int, e: int|
                    0 <= j < i && 0 <= e < M ==> min[e] <= #[trigger] points@[j].0[e] <= max[e],
                forall|e: int|
                    0 <= e < d ==> min[e] <= #[trigger] points@[i as int].0[e] <= max[e],
                forall|e: int|
                    0 <= e < M ==> #[trigger] attained(points@.take(i + 1), e, min[e]),
                forall|e: int|
                    0 <= e < M ==> #[trigger] attained(points@.take(i + 1), e, max[e]),
            decreases M - d,
        {
            let x = points[i].0[d];
            assert(points@.take(i + 1)[i as int] == points@[i as int]);
            if x < min[d] {
                min[d] = x;
            }
            if x > max[d] {
                max[d] = x;
            }
            d += 1;
        }
        i += 1;
    }
    assert(points@.take(points@.len() as int) =~= points@);
    (Point(min), Point(max))
}

} // verus!
