//! Axis-aligned boxes in M-dimensional space.
use vstd::prelude::*;
use crate::point::{Point, sq_dist, sq_dist_upto};

verus! {

/// An axis-aligned box given by its min-corner and its max-corner.
#[derive(Clone, Copy, Debug, PartialEq, Eq)]
pub struct HyperRectangle<const M: usize>(pub Point<M>, pub Point<M>);

/// `x` clamped to `[lo, hi]`.
pub open spec fn clamp(lo: int, hi: int, x: int) -> int {
    if x < lo {
        lo
    } else if x > hi {
        hi
    } else {
        x
    }
}

impl<const M: usize> HyperRectangle<M> {
    /// The min-corner lies below the max-corner in every dimension.
    pub open spec fn wf(self) -> bool {
        forall|d: int| 0 <= d < M ==> #[trigger] self.0.0[d] <= self.1.0[d]
    }

    /// `p` lies in the box (boundary included).
    pub open spec fn contains(self, p: Point<M>) -> bool {
        forall|d: int| 0 <= d < M ==> self.0.0[d] <= #[trigger] p.0[d] <= self.1.0[d]
    }

    /// The box lies inside `outer`.
    pub open spec fn within(self, outer: Self) -> bool {
        forall|d: int|
            0 <= d < M ==> outer.0.0[d] <= #[trigger] self.0.0[d] && self.1.0[d] <= outer.1.0[d]
    }

    /// The coordinate `d` of the point of the box nearest to `p`.
    pub open spec fn closest_coord(self, p: Point<M>, d: int) -> int {
        clamp(self.0.0[d] as int, self.1.0[d] as int, p.0[d] as int)
    }

    /// The squared distance from `p` to the box over the first `n` dimensions.
    pub open spec fn sq_dist_upto(self, p: Point<M>, n: int) -> int
        decreases n,
    {
        if n <= 0 {
            0
        } else {
            let diff = self.closest_coord(p, n - 1) - p.0[n - 1];
            self.sq_dist_upto(p, n - 1) + diff * diff
        }
    }

    /// The squared Euclidean distance from `p` to the box; zero inside it.
    pub open spec fn sq_dist(self, p: Point<M>) -> int {
        self.sq_dist_upto(p, M as int)
    }

    /// The box split at `v` along `d`: the first part keeps coordinates up
    /// to `v`, the second those from `v` on.
    pub open spec fn is_split(self, d: int, v: int, lower: Self, upper: Self) -> bool {
        &&& lower.0 == self.0
        &&& upper.1 == self.1
        &&& lower.1.0[d] == v
        &&& upper.0.0[d] == v
        &&& forall|e: int| 0 <= e < M && e != d ==> #[trigger] lower.1.0[e] == self.1.0[e]
        &&& forall|e: int| 0 <= e < M && e != d ==> #[trigger] upper.0.0[e] == self.0.0[e]
    }

    pub fn new(a: Point<M>, b: Point<M>) -> (r: Self)
        ensures
            r.0 == a,
            r.1 == b,
    {
        HyperRectangle(a, b)
    }

    /// Splits the box at `v` along dimension `d`.
    pub fn split(&self, d: usize, v: i32) -> (r: (Self, Self))
        requires
            d < M,
        ensures
            self.is_split(d as int, v as int, r.0, r.1),
    {
        let mut a = self.1;
        a.0[d] = v;
        let mut b = self.0;
        b.0[d] = v;
        (HyperRectangle(self.0, a), HyperRectangle(b, self.1))
    }

    /// The point of the box nearest to `point`: each coordinate clamped to
    /// the box's extent.
    ///
    /// Time complexity: O(M)
    pub fn closest(&self, point: &Point<M>) -> (r: Point<M>)
        ensures
            forall|d: int| 0 <= d < M ==> #[trigger] r.0[d] == self.closest_coord(*point, d),
    {
        let mut coords = point.0;
        let mut d: usize = 0;
        while d < M
            invariant
                d <= M,
                forall|e: int| 0 <= e < d ==> #[trigger] coords[e] == self.closest_coord(*point, e),
            decreases M - d,
        {
            let x = point.0[d];
            if x < self.0.0[d] {
                coords[d] = self.0.0[d];
            } else if x > self.1.0[d] {
                coords[d] = self.1.0[d];
            } else {
                coords[d] = x;
            }
            d += 1;
        }
        Point(coords)
    }

    /// The squared Euclidean distance from `point` to the box.
    ///
    /// Time complexity: O(M)
    pub fn distance(&self, point: &Point<M>) -> (r: u128)
        ensures
            r == self.sq_dist(*point),
    {
        let c = self.closest(point);
        proof {
            self.lemma_closest_sq_dist(c, *point, M as int);
        }
        c.distance(point)
    }

    proof fn lemma_closest_sq_dist(self, c: Point<M>, p: Point<M>, n: int)
        requires
            0 <= n <= M,
            forall|d: int| 0 <= d < M ==> #[trigger] c.0[d] == self.closest_coord(p, d),
        ensures
            sq_dist_upto(c, p, n) == self.sq_dist_upto(p, n),
        decreases n,
    {
        if n > 0 {
            self.lemma_closest_sq_dist(c, p, n - 1);
            assert(c.0[n - 1] == self.closest_coord(p, n - 1));
        }
    }

    /// The extent of the box in each dimension.
    ///
    /// Time complexity: O(M)
    pub fn width(&self) -> (r: [i64; M])
        ensures
            forall|d: int| 0 <= d < M ==> #[trigger] r[d] == self.1.0[d] - self.0.0[d],
    {
        let mut out: [i64; M] = vstd::array::array_fill_for_copy_types(0i64);
        let mut d: usize = 0;
        while d < M
            invariant
                d <= M,
                forall|e: int| 0 <= e < d ==> #[trigger] out[e] == self.1.0[e] - self.0.0[e],
            decreases M - d,
        {
            out[d] = self.1.0[d] as i64 - self.0.0[d] as i64;
            d += 1;
        }
        out
    }
}

} // verus!
