//! The multi-resolution kd-tree: a balanced binary partition of a point set
//! whose nodes cache the count and the coordinate sums of their points.
use vstd::prelude::*;
use rand::rngs::StdRng;
use crate::centers::{mean_coordinate, rounded_mean};
use crate::hyper_rectangle::HyperRectangle;
use crate::point::{get_range, Point};
use crate::quickselect::{at_most, count_at_most, is_median, median, median_rank};
use crate::sums::{
    coord_sum, coordinate, lemma_sum_by_bounds, lemma_sum_by_permutation, lemma_sum_by_push,
};

verus! {

broadcast use vstd::seq_lib::group_to_multiset_ensures, vstd::multiset::group_multiset_axioms;

/// A node of the tree with the region it covers and the aggregates of the
/// points below it.
#[derive(Debug, PartialEq)]
pub struct Tree<const M: usize> {
    /// Bounding box of the region.
    pub h: HyperRectangle<M>,
    /// Number of points in the leaves below.
    pub number_of_points: usize,
    /// Coordinate sums of those points: their center of mass times their number.
    pub sum_of_points: [i128; M],
    /// Leaf or split.
    pub node: Box<Node<M>>,
}

#[derive(Debug, PartialEq)]
pub enum Node<const M: usize> {
    NonLeaf(NonLeaf<M>),
    Leaf(Point<M>),
}

#[derive(Debug, PartialEq)]
pub struct NonLeaf<const M: usize> {
    /// Split dimension.
    pub d: usize,
    /// Split value.
    pub v: i32,
    /// Left child.
    pub l: Tree<M>,
    /// Right child.
    pub r: Tree<M>,
}

/// The points of `s` with coordinate `d` at most `v`, in order.
pub open spec fn left_of<const M: usize>(s: Seq<Point<M>>, d: int, v: int) -> Seq<Point<M>>
    decreases s.len(),
{
    if s.len() == 0 {
        s
    } else if s.last().0[d] <= v {
        left_of(s.drop_last(), d, v).push(s.last())
    } else {
        left_of(s.drop_last(), d, v)
    }
}

/// The points of `s` with coordinate `d` above `v`, in order.
pub open spec fn right_of<const M: usize>(s: Seq<Point<M>>, d: int, v: int) -> Seq<Point<M>>
    decreases s.len(),
{
    if s.len() == 0 {
        s
    } else if s.last().0[d] <= v {
        right_of(s.drop_last(), d, v)
    } else {
        right_of(s.drop_last(), d, v).push(s.last())
    }
}

/// Index of the last point of `s` with coordinate `d` equal to `v`, or -1.
pub open spec fn last_at<const M: usize>(s: Seq<Point<M>>, d: int, v: int) -> int
    decreases s.len(),
{
    if s.len() == 0 {
        -1
    } else if s.last().0[d] == v {
        s.len() - 1
    } else {
        last_at(s.drop_last(), d, v)
    }
}

/// The points that go to the left child of a split at `v` along `d`:
/// those with coordinate at most `v`. When that is every point, the last
/// point with coordinate exactly `v` goes right instead, so that both
/// children get points.
pub open spec fn split_left<const M: usize>(s: Seq<Point<M>>, d: int, v: int) -> Seq<Point<M>> {
    if right_of(s, d, v).len() > 0 {
        left_of(s, d, v)
    } else {
        s.remove(last_at(s, d, v))
    }
}

/// The points that go to the right child of a split at `v` along `d`.
pub open spec fn split_right<const M: usize>(s: Seq<Point<M>>, d: int, v: int) -> Seq<Point<M>> {
    if right_of(s, d, v).len() > 0 {
        right_of(s, d, v)
    } else {
        seq![s[last_at(s, d, v)]]
    }
}

/// The dimension that the children of a node split along.
pub open spec fn next_dim(d: int, m: int) -> int {
    (d + 1) % m
}

proof fn lemma_left_right<const M: usize>(s: Seq<Point<M>>, d: int, v: int)
    ensures
        left_of(s, d, v).len() + right_of(s, d, v).len() == s.len(),
        (left_of(s, d, v) + right_of(s, d, v)).to_multiset() == s.to_multiset(),
        left_of(s, d, v).len() == count_at_most(s, d, v),
        forall|i: int|
            0 <= i < left_of(s, d, v).len() ==> (#[trigger] left_of(s, d, v)[i]).0[d] <= v,
        forall|i: int|
            0 <= i < right_of(s, d, v).len() ==> (#[trigger] right_of(s, d, v)[i]).0[d] > v,
    decreases s.len(),
{
    if s.len() > 0 {
        let t = s.drop_last();
        let p = s.last();
        lemma_left_right(t, d, v);
        lemma_sum_by_push(t, p, at_most::<M>(d, v));
        assert(t.push(p) =~= s);
        let (l, r) = (left_of(t, d, v), right_of(t, d, v));
        vstd::seq_lib::lemma_multiset_commutative(l, r);
        vstd::seq_lib::lemma_multiset_commutative(l.push(p), r);
        vstd::seq_lib::lemma_multiset_commutative(l, r.push(p));
        assert(l.push(p).to_multiset() == l.to_multiset().insert(p));
        assert(r.push(p).to_multiset() == r.to_multiset().insert(p));
        assert(s.to_multiset() == t.to_multiset().insert(p)) by {
            assert(s =~= t.push(p));
        }
        assert(left_of(s, d, v).len() == count_at_most(s, d, v));
    } else {
        assert(left_of(s, d, v) + right_of(s, d, v) =~= s);
    }
}

/// Every point of `left_of` and of `right_of` is a point of `s`.
proof fn lemma_left_right_members<const M: usize>(s: Seq<Point<M>>, d: int, v: int)
    ensures
        forall|i: int|
            0 <= i < left_of(s, d, v).len() ==> s.contains(#[trigger] left_of(s, d, v)[i]),
        forall|i: int|
            0 <= i < right_of(s, d, v).len() ==> s.contains(#[trigger] right_of(s, d, v)[i]),
    decreases s.len(),
{
    if s.len() > 0 {
        let t = s.drop_last();
        lemma_left_right_members(t, d, v);
        assert forall|i: int| 0 <= i < left_of(s, d, v).len() implies s.contains(
            #[trigger] left_of(s, d, v)[i],
        ) by {
            if i < left_of(t, d, v).len() {
                let j = choose|j: int| 0 <= j < t.len() && t[j] == left_of(t, d, v)[i];
                assert(s[j] == t[j]);
            } else {
                assert(s[s.len() - 1] == s.last());
            }
        }
        assert forall|i: int| 0 <= i < right_of(s, d, v).len() implies s.contains(
            #[trigger] right_of(s, d, v)[i],
        ) by {
            if i < right_of(t, d, v).len() {
                let j = choose|j: int| 0 <= j < t.len() && t[j] == right_of(t, d, v)[i];
                assert(s[j] == t[j]);
            } else {
                assert(s[s.len() - 1] == s.last());
            }
        }
    }
}

proof fn lemma_last_at<const M: usize>(s: Seq<Point<M>>, d: int, v: int)
    ensures
        -1 <= last_at(s, d, v) < s.len(),
        last_at(s, d, v) >= 0 ==> s[last_at(s, d, v)].0[d] == v,
        forall|i: int| last_at(s, d, v) < i < s.len() ==> (#[trigger] s[i]).0[d] != v,
        (exists|i: int| 0 <= i < s.len() && (#[trigger] s[i]).0[d] == v) ==> last_at(s, d, v) >= 0,
    decreases s.len(),
{
    if s.len() > 0 {
        let t = s.drop_last();
        lemma_last_at(t, d, v);
        if s.last().0[d] != v {
            assert forall|i: int| last_at(s, d, v) < i < s.len() implies (#[trigger] s[i]).0[d]
                != v by {
                if i < t.len() {
                    assert(s[i] == t[i]);
                }
            }
            if exists|i: int| 0 <= i < s.len() && (#[trigger] s[i]).0[d] == v {
                let i = choose|i: int| 0 <= i < s.len() && (#[trigger] s[i]).0[d] == v;
                assert(t[i] == s[i]);
            }
        }
    }
}

/// Some point of `s` has coordinate `d` at most `v` and some point has it above `v`.
pub open spec fn splits_both_sides<const M: usize>(s: Seq<Point<M>>, d: int, v: int) -> bool {
    &&& exists|i: int| 0 <= i < s.len() && (#[trigger] s[i]).0[d] <= v
    &&& exists|j: int| 0 <= j < s.len() && (#[trigger] s[j]).0[d] > v
}

/// A split value that `split_points` accepts: the median, or any value
/// that leaves points on both sides.
pub open spec fn valid_split<const M: usize>(s: Seq<Point<M>>, d: int, v: int) -> bool {
    is_median(s, d, v) || splits_both_sides(s, d, v)
}

/// A point on a side of `v` makes that side of the plain split non-empty.
proof fn lemma_sides_nonempty<const M: usize>(s: Seq<Point<M>>, d: int, v: int)
    ensures
        (exists|i: int| 0 <= i < s.len() && (#[trigger] s[i]).0[d] <= v) ==> left_of(s, d, v).len()
            > 0,
        (exists|j: int| 0 <= j < s.len() && (#[trigger] s[j]).0[d] > v) ==> right_of(s, d, v).len()
            > 0,
    decreases s.len(),
{
    if s.len() > 0 {
        let t = s.drop_last();
        lemma_sides_nonempty(t, d, v);
        if exists|i: int| 0 <= i < s.len() && (#[trigger] s[i]).0[d] <= v {
            let i = choose|i: int| 0 <= i < s.len() && (#[trigger] s[i]).0[d] <= v;
            if i < t.len() {
                assert(t[i] == s[i]);
            }
        }
        if exists|j: int| 0 <= j < s.len() && (#[trigger] s[j]).0[d] > v {
            let j = choose|j: int| 0 <= j < s.len() && (#[trigger] s[j]).0[d] > v;
            if j < t.len() {
                assert(t[j] == s[j]);
            }
        }
    }
}

/// A valid split value lies within the extent along `d` of a box holding the points.
proof fn lemma_split_value_in_box<const M: usize>(
    s: Seq<Point<M>>,
    h: HyperRectangle<M>,
    d: int,
    v: int,
)
    requires
        s.len() > 0,
        0 <= d < M,
        forall|i: int| 0 <= i < s.len() ==> h.contains(#[trigger] s[i]),
        valid_split(s, d, v),
    ensures
        h.0.0[d] <= v <= h.1.0[d],
{
    if is_median(s, d, v) {
        lemma_some_at(s, d, v);
        let i = choose|i: int| 0 <= i < s.len() && (#[trigger] s[i]).0[d] == v;
        assert(h.contains(s[i]));
    } else {
        let i = choose|i: int| 0 <= i < s.len() && (#[trigger] s[i]).0[d] <= v;
        let j = choose|j: int| 0 <= j < s.len() && (#[trigger] s[j]).0[d] > v;
        assert(h.contains(s[i]));
        assert(h.contains(s[j]));
    }
}

/// Facts about a split at a valid split value `v`: the parts are non-empty
/// and smaller than `s`, together they are `s`, and they lie on their side
/// of `v`.
proof fn lemma_split<const M: usize>(s: Seq<Point<M>>, d: int, v: int)
    requires
        s.len() > 1,
        valid_split(s, d, v),
    ensures
        0 < split_left(s, d, v).len() < s.len(),
        0 < split_right(s, d, v).len() < s.len(),
        (split_left(s, d, v) + split_right(s, d, v)).to_multiset() == s.to_multiset(),
        forall|i: int|
            0 <= i < split_left(s, d, v).len() ==> s.contains(#[trigger] split_left(s, d, v)[i])
                && split_left(s, d, v)[i].0[d] <= v,
        forall|i: int|
            0 <= i < split_right(s, d, v).len() ==> s.contains(#[trigger] split_right(s, d, v)[i])
                && split_right(s, d, v)[i].0[d] >= v,
{
    lemma_left_right(s, d, v);
    lemma_left_right_members(s, d, v);
    lemma_sides_nonempty(s, d, v);
    assert(median_rank(s.len() as int) >= 0);
    if right_of(s, d, v).len() == 0 {
        assert(is_median(s, d, v));
        // Every point is at most v; some point is exactly v.
        assert(right_of(s, d, v) =~= Seq::<Point<M>>::empty());
        assert(left_of(s, d, v) + right_of(s, d, v) =~= left_of(s, d, v));
        lemma_left_of_all(s, d, v);
        assert(left_of(s, d, v) =~= s);
        lemma_some_at(s, d, v);
        lemma_last_at(s, d, v);
        let j = last_at(s, d, v);
        let l = s.remove(j);
        let r = seq![s[j]];
        assert(l + r =~= s.remove(j).push(s[j]));
        vstd::seq_lib::to_multiset_remove(s, j);
        assert(s.remove(j).push(s[j]).to_multiset() == s.remove(j).to_multiset().insert(s[j]));
        assert forall|i: int| 0 <= i < l.len() implies s.contains(#[trigger] l[i]) && l[i].0[d]
            <= v by {
            let k = if i < j { i } else { i + 1 };
            assert(l[i] == s[k]);
            assert(left_of(s, d, v)[k] == s[k]);
        }
        assert(s.contains(r[0]));
    }
}

/// When no point lies above `v`, `left_of` keeps every point.
proof fn lemma_left_of_all<const M: usize>(s: Seq<Point<M>>, d: int, v: int)
    requires
        right_of(s, d, v).len() == 0,
    ensures
        left_of(s, d, v) == s,
    decreases s.len(),
{
    if s.len() > 0 {
        let t = s.drop_last();
        if s.last().0[d] > v {
            assert(right_of(s, d, v).len() > 0);
        }
        lemma_left_of_all(t, d, v);
        assert(t.push(s.last()) =~= s);
    }
}

/// A median is the coordinate of some point.
proof fn lemma_some_at<const M: usize>(s: Seq<Point<M>>, d: int, v: int)
    requires
        s.len() > 0,
        is_median(s, d, v),
    ensures
        exists|i: int| 0 <= i < s.len() && (#[trigger] s[i]).0[d] == v,
{
    if forall|i: int| 0 <= i < s.len() ==> (#[trigger] s[i]).0[d] != v {
        crate::sums::lemma_sum_by_congruent(
            s,
            crate::quickselect::below::<M>(d, v),
            at_most::<M>(d, v),
        );
    }
}

impl<const M: usize> Tree<M> {
    /// The points of the leaves below, left to right.
    pub open spec fn points(self) -> Seq<Point<M>>
        decreases self,
    {
        match *self.node {
            Node::Leaf(p) => seq![p],
            Node::NonLeaf(n) => n.l.points() + n.r.points(),
        }
    }

    /// The tree's invariant: at every node the cached count and sums are
    /// those of the points below, the box is well formed and holds them,
    /// and the children's boxes are the node's box split at the split value.
    pub open spec fn wf(self) -> bool
        decreases self,
    {
        &&& self.h.wf()
        &&& self.number_of_points == self.points().len()
        &&& forall|e: int|
            0 <= e < M ==> #[trigger] self.sum_of_points[e] == coord_sum(self.points(), e)
        &&& forall|i: int| 0 <= i < self.points().len() ==> self.h.contains(#[trigger] self.points()[i])
        &&& match *self.node {
            Node::Leaf(_) => true,
            Node::NonLeaf(n) => {
                &&& n.d < M
                &&& self.h.is_split(n.d as int, n.v as int, n.l.h, n.r.h)
                &&& n.l.wf()
                &&& n.r.wf()
            },
        }
    }

    /// The tree is the one that `make_node` builds over `s` with box `h`,
    /// splitting first along `d`.
    pub open spec fn built_from(self, s: Seq<Point<M>>, h: HyperRectangle<M>, d: int) -> bool
        decreases self,
    {
        &&& self.h == h
        &&& self.number_of_points == s.len()
        &&& forall|e: int| 0 <= e < M ==> #[trigger] self.sum_of_points[e] == coord_sum(s, e)
        &&& match *self.node {
            Node::Leaf(p) => s.len() == 1 && p == s[0],
            Node::NonLeaf(n) => {
                &&& s.len() > 1
                &&& n.d == d
                &&& is_median(s, d, n.v as int)
                &&& h.is_split(d, n.v as int, n.l.h, n.r.h)
                &&& n.l.built_from(split_left(s, d, n.v as int), n.l.h, next_dim(d, M as int))
                &&& n.r.built_from(split_right(s, d, n.v as int), n.r.h, next_dim(d, M as int))
            },
        }
    }
}

/// Coordinate sums of `points`.
///
/// Time complexity: O(R * M)
fn sum_points<const M: usize>(points: &[Point<M>]) -> (r: [i128; M])
    ensures
        forall|e: int| 0 <= e < M ==> #[trigger] r[e] == coord_sum(points@, e),
{
    let mut acc: [i128; M] = vstd::array::array_fill_for_copy_types(0i128);
    let mut i: usize = 0;
    proof {
        assert forall|e: int| 0 <= e < M implies #[trigger] acc[e] == coord_sum(points@.take(0), e) by {
            assert(points@.take(0) =~= Seq::<Point<M>>::empty());
        }
    }
    while i < points.len()
        invariant
            i <= points@.len(),
            forall|e: int| 0 <= e < M ==> #[trigger] acc[e] == coord_sum(points@.take(i as int), e),
        decreases points@.len() - i,
    {
        let ghost prefix = points@.take(i as int);
        assert(points@.take(i + 1) =~= prefix.push(points@[i as int]));
        let mut d: usize = 0;
        while d < M
            invariant
                i < points@.len(),
                d <= M,
                prefix == points@.take(i as int),
                points@.take(i + 1) == prefix.push(points@[i as int]),
                forall|e: int| 0 <= e < d ==> #[trigger] acc[e] == coord_sum(points@.take(i + 1), e),
                forall|e: int| d <= e < M ==> #[trigger] acc[e] == coord_sum(prefix, e),
            decreases M - d,
        {
            proof {
                let g = coordinate::<M>(d as int);
                lemma_sum_by_push(prefix, points@[i as int], g);
                lemma_sum_by_bounds(prefix, g, -0x8000_0000, 0x7fff_ffff);
                assert(prefix.len() * -0x8000_0000 >= -0x8000_0000 * 0x1_0000_0000_0000_0000)
                    by (nonlinear_arith)
                    requires
                        prefix.len() < 0x1_0000_0000_0000_0000,
                ;
                assert(prefix.len() * 0x7fff_ffff <= 0x7fff_ffff * 0x1_0000_0000_0000_0000)
                    by (nonlinear_arith)
                    requires
                        prefix.len() < 0x1_0000_0000_0000_0000,
                ;
            }
            acc[d] = acc[d] + points[i].0[d] as i128;
            d += 1;
        }
        i += 1;
    }
    assert(points@.take(points@.len() as int) =~= points@);
    acc
}

/// The number of leaves below a node.
pub open spec fn leaf_count<const M: usize>(t: Tree<M>) -> int
    decreases t,
{
    match *t.node {
        Node::Leaf(_) => 1,
        Node::NonLeaf(n) => leaf_count(n.l) + leaf_count(n.r),
    }
}

/// Aggregate correctness: at every node the cached count is the number of
/// leaves below it, and the cached sums are the coordinate sums of their
/// points (the center of mass times the count); the children's caches are
/// correct in turn.
pub proof fn lemma_aggregates<const M: usize>(t: Tree<M>)
    requires
        t.wf(),
    ensures
        t.number_of_points == leaf_count(t),
        forall|e: int| 0 <= e < M ==> #[trigger] t.sum_of_points[e] == coord_sum(t.points(), e),
        match *t.node {
            Node::Leaf(p) => t.points() == seq![p],
            Node::NonLeaf(n) => n.l.wf() && n.r.wf() && t.points() == n.l.points() + n.r.points(),
        },
    decreases t,
{
    lemma_leaf_count(t);
}

proof fn lemma_nonempty<const M: usize>(t: Tree<M>)
    ensures
        t.points().len() > 0,
{
    lemma_leaf_count_positive(t);
    lemma_leaf_count(t);
}

proof fn lemma_leaf_count_positive<const M: usize>(t: Tree<M>)
    ensures
        leaf_count(t) > 0,
    decreases t,
{
    if let Node::NonLeaf(n) = *t.node {
        lemma_leaf_count_positive(n.l);
        lemma_leaf_count_positive(n.r);
    }
}

proof fn lemma_leaf_count<const M: usize>(t: Tree<M>)
    ensures
        leaf_count(t) == t.points().len(),
    decreases t,
{
    if let Node::NonLeaf(n) = *t.node {
        lemma_leaf_count(n.l);
        lemma_leaf_count(n.r);
    }
}

/// Bounding correctness: every point below a node lies in the node's box,
/// and each child's box lies inside its parent's.
pub proof fn lemma_bounding<const M: usize>(t: Tree<M>)
    requires
        t.wf(),
    ensures
        forall|i: int| 0 <= i < t.points().len() ==> t.h.contains(#[trigger] t.points()[i]),
        match *t.node {
            Node::Leaf(_) => true,
            Node::NonLeaf(n) => n.l.h.within(t.h) && n.r.h.within(t.h),
        },
{
    if let Node::NonLeaf(n) = *t.node {
        assert(n.l.wf() && n.r.wf());
        assert(n.l.h.wf() && n.r.h.wf());
        assert forall|e: int| 0 <= e < M implies t.h.0.0[e] <= #[trigger] n.l.h.0.0[e] && n.l.h.1.0[e]
            <= t.h.1.0[e] by {
            assert(n.r.h.0.0[e] <= n.r.h.1.0[e]);
        }
        assert forall|e: int| 0 <= e < M implies t.h.0.0[e] <= #[trigger] n.r.h.0.0[e] && n.r.h.1.0[e]
            <= t.h.1.0[e] by {
            assert(n.l.h.0.0[e] <= n.l.h.1.0[e]);
        }
    }
}

impl<const M: usize> Tree<M> {
    /// Builds the tree over a non-empty point set: the bounding box is the
    /// tightest box around the points, and the root splits along dimension 0.
    /// Pivots for the median selections are drawn from `rng`; the tree does
    /// not depend on them.
    pub fn initialize(points: &[Point<M>], rng: &mut StdRng) -> (t: Self)
        requires
            points@.len() > 0,
            M > 0,
        ensures
            t.wf(),
            t.built_from(points@, t.h, 0),
            t.points().to_multiset() == points@.to_multiset(),
            forall|i: int| 0 <= i < points@.len() ==> t.h.contains(#[trigger] points@[i]),
            forall|e: int| 0 <= e < M ==> #[trigger] crate::point::attained(points@, e, t.h.0.0[e]),
            forall|e: int| 0 <= e < M ==> #[trigger] crate::point::attained(points@, e, t.h.1.0[e]),
    {
        let (min, max) = get_range(points);
        let h = HyperRectangle(min, max);
        assert(h.wf()) by {
            assert forall|e: int| 0 <= e < M implies #[trigger] h.0.0[e] <= h.1.0[e] by {
                assert(min.0[e] <= points@[0].0[e] <= max.0[e]);
            }
        }
        Self::make_node(points, h, 0, rng)
    }

    /// Builds the node over `points` (all inside `h`), splitting along `d`:
    /// a leaf for a single point, else a split at the median of coordinate
    /// `d` with the children built over the two parts.
    pub fn make_node(points: &[Point<M>], h: HyperRectangle<M>, d: usize, rng: &mut StdRng) -> (t: Self)
        requires
            points@.len() > 0,
            d < M,
            h.wf(),
            forall|i: int| 0 <= i < points@.len() ==> h.contains(#[trigger] points@[i]),
        ensures
            t.wf(),
            t.built_from(points@, h, d as int),
            t.points().to_multiset() == points@.to_multiset(),
        decreases points@.len(), 1int,
    {
        let number_of_points = points.len();
        let sum_of_points = sum_points(points);
        if points.len() == 1 {
            let t = Tree { h, number_of_points, sum_of_points, node: Box::new(Node::Leaf(points[0])) };
            proof {
                assert(t.points() =~= points@);
                assert(h.contains(t.points()[0]));
            }
            t
        } else {
            let v = median(points, d, rng);
            let (l, r) = Self::split_points(points, &h, d, v, rng);
            let ghost pl = split_left(points@, d as int, v as int);
            let ghost pr = split_right(points@, d as int, v as int);
            let t = Tree {
                h,
                number_of_points,
                sum_of_points,
                node: Box::new(Node::NonLeaf(NonLeaf { d, v, l, r })),
            };
            proof {
                lemma_split(points@, d as int, v as int);
                let ps = t.points();
                assert(ps == l.points() + r.points());
                vstd::seq_lib::lemma_multiset_commutative(l.points(), r.points());
                vstd::seq_lib::lemma_multiset_commutative(pl, pr);
                assert(ps.to_multiset() == points@.to_multiset());
                assert(ps.len() == points@.len()) by {
                    assert(ps.to_multiset().len() == ps.len());
                    assert(points@.to_multiset().len() == points@.len());
                }
                assert forall|e: int| 0 <= e < M implies #[trigger] t.sum_of_points[e]
                    == coord_sum(ps, e) by {
                    lemma_sum_by_permutation(points@, ps, coordinate::<M>(e));
                }
                assert forall|i: int| 0 <= i < ps.len() implies h.contains(#[trigger] ps[i]) by {
                    let nl = l.points().len();
                    if i < nl {
                        assert(ps[i] == l.points()[i]);
                        assert(l.h.contains(l.points()[i]));
                    } else {
                        assert(ps[i] == r.points()[i - nl]);
                        assert(r.h.contains(r.points()[i - nl]));
                    }
                }
            }
            t
        }
    }

    /// Splits `points` at `v` along `d` and builds the two children, which
    /// split along the next dimension: points with coordinate at most `v`
    /// go left, the others right. `v` is the points' median, or any value
    /// with points on both sides of it.
    pub fn split_points(
        points: &[Point<M>],
        h: &HyperRectangle<M>,
        d: usize,
        v: i32,
        rng: &mut StdRng,
    ) -> (r: (Self, Self))
        requires
            points@.len() > 1,
            d < M,
            h.wf(),
            forall|i: int| 0 <= i < points@.len() ==> h.contains(#[trigger] points@[i]),
            valid_split(points@, d as int, v as int),
        ensures
            h.is_split(d as int, v as int, r.0.h, r.1.h),
            r.0.wf(),
            r.1.wf(),
            r.0.built_from(split_left(points@, d as int, v as int), r.0.h, next_dim(d as int, M as int)),
            r.1.built_from(split_right(points@, d as int, v as int), r.1.h, next_dim(d as int, M as int)),
            r.0.points().to_multiset() == split_left(points@, d as int, v as int).to_multiset(),
            r.1.points().to_multiset() == split_right(points@, d as int, v as int).to_multiset(),
            r.0.number_of_points + r.1.number_of_points == points@.len(),
            splits_both_sides(points@, d as int, v as int) ==> split_left(points@, d as int, v as int)
                == left_of(points@, d as int, v as int) && split_right(points@, d as int, v as int)
                == right_of(points@, d as int, v as int),
        decreases points@.len(), 0int,
    {
        let new_d = (d + 1) % M;
        let (h1, h2) = h.split(d, v);
        let mut left_points: Vec<Point<M>> = Vec::new();
        let mut right_points: Vec<Point<M>> = Vec::new();
        let mut i: usize = 0;
        while i < points.len()
            invariant
                i <= points@.len(),
                d < M,
                left_points@ == left_of(points@.take(i as int), d as int, v as int),
                right_points@ == right_of(points@.take(i as int), d as int, v as int),
            decreases points@.len() - i,
        {
            assert(points@.take(i + 1).drop_last() =~= points@.take(i as int));
            if points[i].0[d] <= v {
                left_points.push(points[i]);
            } else {
                right_points.push(points[i]);
            }
            i += 1;
        }
        assert(points@.take(points@.len() as int) =~= points@);
        proof {
            lemma_split(points@, d as int, v as int);
            lemma_sides_nonempty(points@, d as int, v as int);
            lemma_split_value_in_box(points@, *h, d as int, v as int);
        }
        if right_points.len() == 0 {
            proof {
                assert(is_median(points@, d as int, v as int));
                lemma_left_of_all(points@, d as int, v as int);
                lemma_some_at(points@, d as int, v as int);
                lemma_last_at(points@, d as int, v as int);
            }
            let mut j: usize = points.len() - 1;
            while points[j].0[d] != v
                invariant
                    j < points@.len(),
                    d < M,
                    0 <= last_at(points@, d as int, v as int) <= j,
                    points@[last_at(points@, d as int, v as int)].0[d as int] == v,
                    forall|k: int| j < k < points@.len() ==> (#[trigger] points@[k]).0[d as int] != v,
                decreases j,
            {
                assert(points@[j as int].0[d as int] != v);
                assert(last_at(points@, d as int, v as int) != j);
                j -= 1;
            }
            let q = left_points.remove(j);
            right_points.push(q);
        }
        assert(left_points@ == split_left(points@, d as int, v as int));
        assert(right_points@ == split_right(points@, d as int, v as int));
        proof {
            assert forall|k: int| 0 <= k < left_points@.len() implies h1.contains(
                #[trigger] left_points@[k],
            ) by {
                let j = choose|j: int| 0 <= j < points@.len() && points@[j] == left_points@[k];
                assert(h.contains(points@[j]));
            }
            assert forall|k: int| 0 <= k < right_points@.len() implies h2.contains(
                #[trigger] right_points@[k],
            ) by {
                let j = choose|j: int| 0 <= j < points@.len() && points@[j] == right_points@[k];
                assert(h.contains(points@[j]));
            }
        }
        let l = Self::make_node(left_points.as_slice(), h1, new_d, rng);
        let r = Self::make_node(right_points.as_slice(), h2, new_d, rng);
        proof {
            let (pl, pr) = (left_points@, right_points@);
            vstd::seq_lib::lemma_multiset_commutative(pl, pr);
            assert((pl + pr).to_multiset().len() == (pl + pr).len());
            assert(points@.to_multiset().len() == points@.len());
        }
        (l, r)
    }

    /// The center of mass of the points below, each coordinate rounded to
    /// the nearest fixed-point value (halves upward).
    ///
    /// Time complexity: O(M)
    pub fn center_of_mass(&self) -> (r: Point<M>)
        requires
            self.wf(),
        ensures
            forall|e: int|
                0 <= e < M ==> #[trigger] r.0[e] == rounded_mean(
                    coord_sum(self.points(), e),
                    self.points().len() as int,
                ),
    {
        proof {
            lemma_nonempty(*self);
        }
        let mut p = Point::default();
        let mut e: usize = 0;
        while e < M
            invariant
                e <= M,
                self.wf(),
                self.points().len() > 0,
                forall|f: int|
                    0 <= f < e ==> #[trigger] p.0[f] == rounded_mean(
                        coord_sum(self.points(), f),
                        self.points().len() as int,
                    ),
            decreases M - e,
        {
            proof {
                let g = coordinate::<M>(e as int);
                let pts = self.points();
                assert forall|i: int| 0 <= i < pts.len() implies -0x8000_0000 <= #[trigger] g(pts[i])
                    <= 0x7fff_ffff by {}
                lemma_sum_by_bounds(pts, g, -0x8000_0000, 0x7fff_ffff);
            }
            p.0[e] = mean_coordinate(self.sum_of_points[e], self.number_of_points);
            e += 1;
        }
        p
    }

    /// The points of the leaves below, left to right (depth first).
    pub fn get_points(&self) -> (r: Vec<Point<M>>)
        ensures
            r@ == self.points(),
        decreases self,
    {
        match &*self.node {
            Node::Leaf(p) => {
                let mut out: Vec<Point<M>> = Vec::new();
                out.push(*p);
                assert(out@ =~= seq![*p]);
                out
            },
            Node::NonLeaf(n) => {
                let mut out = n.l.get_points();
                let mut rest = n.r.get_points();
                out.append(&mut rest);
                out
            },
        }
    }
}

} // verus!
