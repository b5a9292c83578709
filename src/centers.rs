//! The current cluster centers, and the pruning traversal that assigns the
//! points of a tree to their nearest centers.
use vstd::prelude::*;
use rand::rngs::StdRng;
use crate::hyper_rectangle::HyperRectangle;
use crate::random::sample_indices;
use crate::mrkd::{Node, Tree};
use crate::point::{sq_dist, sq_dist_upto, Point};
use crate::sums::{
    coord_sum, coordinate, lemma_sum_by_bounds, lemma_sum_by_concat, lemma_sum_by_congruent,
    lemma_sum_by_push, lemma_sum_by_single, lemma_sum_by_zero, sum_by,
};

verus! {

/// The K current cluster centers.
#[derive(Clone, Copy, Debug, PartialEq, Eq)]
pub struct Centers<const K: usize, const M: usize>(pub [Point<M>; K]);

/// Index of the center nearest to `x` among the first `n` of `cs`; on ties
/// the lowest index.
pub open spec fn nearest_upto<const M: usize>(cs: Seq<Point<M>>, x: Point<M>, n: int) -> int
    decreases n,
{
    if n <= 1 {
        0
    } else {
        let j = nearest_upto(cs, x, n - 1);
        if sq_dist(x, cs[n - 1]) < sq_dist(x, cs[j]) {
            n - 1
        } else {
            j
        }
    }
}

/// Index of the center of `cs` nearest to `x`; on ties the lowest index.
pub open spec fn nearest<const M: usize>(cs: Seq<Point<M>>, x: Point<M>) -> int {
    nearest_upto(cs, x, cs.len() as int)
}

/// `nearest_upto` is the first index at minimum distance.
pub proof fn lemma_nearest_upto<const M: usize>(cs: Seq<Point<M>>, x: Point<M>, n: int)
    requires
        1 <= n <= cs.len(),
    ensures
        0 <= nearest_upto(cs, x, n) < n,
        forall|j: int|
            0 <= j < n ==> sq_dist(x, cs[nearest_upto(cs, x, n)]) <= sq_dist(x, #[trigger] cs[j]),
        forall|j: int|
            0 <= j < nearest_upto(cs, x, n) ==> sq_dist(x, cs[nearest_upto(cs, x, n)]) < sq_dist(
                x,
                #[trigger] cs[j],
            ),
    decreases n,
{
    if n > 1 {
        lemma_nearest_upto(cs, x, n - 1);
    }
}

/// A center strictly nearer than all others is the nearest.
pub proof fn lemma_nearest_strict<const M: usize>(cs: Seq<Point<M>>, x: Point<M>, c: int)
    requires
        0 <= c < cs.len(),
        forall|j: int| 0 <= j < cs.len() && j != c ==> sq_dist(x, cs[c]) < sq_dist(x, #[trigger] cs[j]),
    ensures
        nearest(cs, x) == c,
{
    lemma_nearest_upto(cs, x, cs.len() as int);
    let r = nearest(cs, x);
    if r != c {
        assert(sq_dist(x, cs[r]) <= sq_dist(x, cs[c]));
        assert(sq_dist(x, cs[c]) < sq_dist(x, cs[r]));
    }
}

/// Coordinate `e` of the point of `h` farthest in the direction from `a`
/// toward `b`: the max-corner where `a` lies below `b`, else the min-corner.
pub open spec fn corner<const M: usize>(h: HyperRectangle<M>, a: Point<M>, b: Point<M>, e: int) -> int {
    if a.0[e] < b.0[e] {
        h.1.0[e] as int
    } else {
        h.0.0[e] as int
    }
}

/// Squared distance from that corner point to `x` over the first `n` dimensions.
pub open spec fn corner_sq_dist_upto<const M: usize>(
    h: HyperRectangle<M>,
    a: Point<M>,
    b: Point<M>,
    x: Point<M>,
    n: int,
) -> int
    decreases n,
{
    if n <= 0 {
        0
    } else {
        let diff = corner(h, a, b, n - 1) - x.0[n - 1];
        corner_sq_dist_upto(h, a, b, x, n - 1) + diff * diff
    }
}

/// `a` dominates `b` over `h`: even at the point of `h` most favourable to
/// `b`, `a` is strictly nearer.
pub open spec fn dominates_spec<const M: usize>(h: HyperRectangle<M>, a: Point<M>, b: Point<M>) -> bool {
    corner_sq_dist_upto(h, a, b, a, M as int) < corner_sq_dist_upto(h, a, b, b, M as int)
}

/// Center `c` is strictly nearer to the box `h` than every other center.
pub open spec fn unique_nearest_to_box<const M: usize>(
    cs: Seq<Point<M>>,
    h: HyperRectangle<M>,
    c: int,
) -> bool {
    &&& 0 <= c < cs.len()
    &&& forall|j: int| 0 <= j < cs.len() && j != c ==> h.sq_dist(cs[c]) < h.sq_dist(#[trigger] cs[j])
}

/// Center `c` owns `h`: it is the unique center nearest to the box and it
/// dominates every other center over the box.
pub open spec fn is_owner<const M: usize>(cs: Seq<Point<M>>, h: HyperRectangle<M>, c: int) -> bool {
    &&& unique_nearest_to_box(cs, h, c)
    &&& forall|j: int| 0 <= j < cs.len() && j != c ==> dominates_spec(h, cs[c], #[trigger] cs[j])
}

/// Over one dimension, moving `x` within `[lo, hi]` toward the corner never
/// lowers `(x - a)^2 - (x - b)^2`.
proof fn lemma_corner_worst_1d(lo: int, hi: int, x: int, a: int, b: int)
    requires
        lo <= x <= hi,
    ensures
        (x - a) * (x - a) - (x - b) * (x - b) <= if a < b {
            (hi - a) * (hi - a) - (hi - b) * (hi - b)
        } else {
            (lo - a) * (lo - a) - (lo - b) * (lo - b)
        },
{
    assert((x - a) * (x - a) - (x - b) * (x - b) == (b - a) * (2 * x - a - b)) by (nonlinear_arith);
    assert((hi - a) * (hi - a) - (hi - b) * (hi - b) == (b - a) * (2 * hi - a - b))
        by (nonlinear_arith);
    assert((lo - a) * (lo - a) - (lo - b) * (lo - b) == (b - a) * (2 * lo - a - b))
        by (nonlinear_arith);
    if a < b {
        assert((b - a) * (2 * x - a - b) <= (b - a) * (2 * hi - a - b)) by (nonlinear_arith)
            requires
                a < b,
                x <= hi,
        ;
    } else {
        assert((b - a) * (2 * x - a - b) <= (b - a) * (2 * lo - a - b)) by (nonlinear_arith)
            requires
                b <= a,
                lo <= x,
        ;
    }
}

proof fn lemma_corner_worst<const M: usize>(
    h: HyperRectangle<M>,
    a: Point<M>,
    b: Point<M>,
    x: Point<M>,
    n: int,
)
    requires
        0 <= n <= M,
        h.contains(x),
    ensures
        sq_dist_upto(x, a, n) - sq_dist_upto(x, b, n) <= corner_sq_dist_upto(h, a, b, a, n)
            - corner_sq_dist_upto(h, a, b, b, n),
    decreases n,
{
    if n > 0 {
        lemma_corner_worst(h, a, b, x, n - 1);
        let e = n - 1;
        assert(h.0.0[e] <= x.0[e] <= h.1.0[e]);
        lemma_corner_worst_1d(h.0.0[e] as int, h.1.0[e] as int, x.0[e] as int, a.0[e] as int, b.0[e] as int);
    }
}

/// Domination is sound: where `a` dominates `b` over `h`, every point of
/// `h` is strictly nearer to `a` than to `b`.
pub proof fn lemma_dominates_sound<const M: usize>(
    h: HyperRectangle<M>,
    a: Point<M>,
    b: Point<M>,
    x: Point<M>,
)
    requires
        dominates_spec(h, a, b),
        h.contains(x),
    ensures
        sq_dist(x, a) < sq_dist(x, b),
{
    lemma_corner_worst(h, a, b, x, M as int);
}

/// Owner soundness: where `owner` names center `c` for a box, every point
/// inside the box has `c` as its nearest center.
pub proof fn lemma_owner_sound<const M: usize>(
    cs: Seq<Point<M>>,
    h: HyperRectangle<M>,
    c: int,
    x: Point<M>,
)
    requires
        is_owner(cs, h, c),
        h.contains(x),
    ensures
        nearest(cs, x) == c,
{
    assert forall|j: int| 0 <= j < cs.len() && j != c implies sq_dist(x, cs[c]) < sq_dist(
        x,
        #[trigger] cs[j],
    ) by {
        lemma_dominates_sound(h, cs[c], cs[j], x);
    }
    lemma_nearest_strict(cs, x, c);
}

proof fn lemma_corner_point<const M: usize>(
    h: HyperRectangle<M>,
    a: Point<M>,
    b: Point<M>,
    p: Point<M>,
    x: Point<M>,
    n: int,
)
    requires
        0 <= n <= M,
        forall|e: int| 0 <= e < M ==> #[trigger] p.0[e] == corner(h, a, b, e),
    ensures
        sq_dist_upto(p, x, n) == corner_sq_dist_upto(h, a, b, x, n),
    decreases n,
{
    if n > 0 {
        lemma_corner_point(h, a, b, p, x, n - 1);
        assert(p.0[n - 1] == corner(h, a, b, n - 1));
    }
}


/// One for points whose nearest center is `k`, zero for the others.
pub open spec fn assigned_to<const M: usize>(cs: Seq<Point<M>>, k: int) -> spec_fn(Point<M>) -> int {
    |p: Point<M>| if nearest(cs, p) == k { 1int } else { 0int }
}

/// Coordinate `e` of points whose nearest center is `k`, zero for the others.
pub open spec fn assigned_coord<const M: usize>(cs: Seq<Point<M>>, k: int, e: int) -> spec_fn(
    Point<M>,
) -> int {
    |p: Point<M>| if nearest(cs, p) == k { p.0[e] as int } else { 0int }
}

/// How many points of `s` have center `k` as their nearest.
pub open spec fn assigned_count<const M: usize>(cs: Seq<Point<M>>, s: Seq<Point<M>>, k: int) -> int {
    sum_by(s, assigned_to(cs, k))
}

/// The sum of coordinate `e` over the points of `s` whose nearest center is `k`.
pub open spec fn assigned_sum<const M: usize>(
    cs: Seq<Point<M>>,
    s: Seq<Point<M>>,
    k: int,
    e: int,
) -> int {
    sum_by(s, assigned_coord(cs, k, e))
}

/// The aggregates are those of a brute-force scan of `s`: for each center,
/// the number of points nearest to it and the sums of their coordinates.
pub open spec fn aggregates_of<const K: usize, const M: usize>(
    cs: Seq<Point<M>>,
    s: Seq<Point<M>>,
    sums: [[i128; M]; K],
    counts: [usize; K],
) -> bool {
    &&& forall|k: int| 0 <= k < K ==> #[trigger] counts[k] == assigned_count(cs, s, k)
    &&& forall|k: int, e: int|
        0 <= k < K && 0 <= e < M ==> #[trigger] sums[k][e] == assigned_sum(cs, s, k, e)
}

/// Bounds on the aggregates of `s`, which keep them inside the machine types.
proof fn lemma_assigned_bounds<const M: usize>(cs: Seq<Point<M>>, s: Seq<Point<M>>, k: int, e: int)
    ensures
        0 <= assigned_count(cs, s, k) <= s.len(),
        s.len() * -0x8000_0000 <= assigned_sum(cs, s, k, e) <= s.len() * 0x7fff_ffff,
{
    let f = assigned_to(cs, k);
    let g = assigned_coord(cs, k, e);
    assert forall|i: int| 0 <= i < s.len() implies 0 <= #[trigger] f(s[i]) <= 1 by {}
    lemma_sum_by_bounds(s, f, 0, 1);
    assert forall|i: int| 0 <= i < s.len() implies -0x8000_0000 <= #[trigger] g(s[i]) <= 0x7fff_ffff by {}
    lemma_sum_by_bounds(s, g, -0x8000_0000, 0x7fff_ffff);
}

/// The aggregates of `a + b` are those of `a` plus those of `b`.
proof fn lemma_assigned_concat<const M: usize>(
    cs: Seq<Point<M>>,
    a: Seq<Point<M>>,
    b: Seq<Point<M>>,
    k: int,
    e: int,
)
    ensures
        assigned_count(cs, a + b, k) == assigned_count(cs, a, k) + assigned_count(cs, b, k),
        assigned_sum(cs, a + b, k, e) == assigned_sum(cs, a, k, e) + assigned_sum(cs, b, k, e),
{
    lemma_sum_by_concat(a, b, assigned_to(cs, k));
    lemma_sum_by_concat(a, b, assigned_coord(cs, k, e));
}

/// Update equivalence: the aggregates do not depend on the order of the
/// points, so those over a tree's points equal those of a brute-force scan
/// over any arrangement of the same point set.
pub proof fn lemma_aggregates_permutation<const M: usize>(
    cs: Seq<Point<M>>,
    a: Seq<Point<M>>,
    b: Seq<Point<M>>,
)
    requires
        a.to_multiset() == b.to_multiset(),
    ensures
        forall|k: int| #[trigger] assigned_count(cs, a, k) == assigned_count(cs, b, k),
        forall|k: int, e: int| #[trigger] assigned_sum(cs, a, k, e) == assigned_sum(cs, b, k, e),
{
    assert forall|k: int| #[trigger] assigned_count(cs, a, k) == assigned_count(cs, b, k) by {
        crate::sums::lemma_sum_by_permutation(a, b, assigned_to(cs, k));
    }
    assert forall|k: int, e: int| #[trigger] assigned_sum(cs, a, k, e) == assigned_sum(cs, b, k, e) by {
        crate::sums::lemma_sum_by_permutation(a, b, assigned_coord(cs, k, e));
    }
}

/// Update equivalence for a tree: per-center sums and counts are those of
/// the tree's points exactly when they are those of a brute-force scan of
/// the point set the tree was built over.
pub proof fn lemma_update_equivalence<const K: usize, const M: usize>(
    cs: Seq<Point<M>>,
    t: Tree<M>,
    points: Seq<Point<M>>,
    sums: [[i128; M]; K],
    counts: [usize; K],
)
    requires
        t.points().to_multiset() == points.to_multiset(),
    ensures
        aggregates_of(cs, t.points(), sums, counts) <==> aggregates_of(cs, points, sums, counts),
{
    lemma_aggregates_permutation(cs, t.points(), points);
}

/// The new coordinate of a center whose points sum to `s` over `c > 0`
/// points: their mean rounded to the nearest integer, halves upward.
pub open spec fn rounded_mean(s: int, c: int) -> int {
    (2 * s + c) / (2 * c)
}

/// The centers after one recomputation: each center with points moves to
/// their rounded mean; a center without points stays where it is.
pub open spec fn recentered<const K: usize, const M: usize>(
    cs: [Point<M>; K],
    sums: [[i128; M]; K],
    counts: [usize; K],
    next: [Point<M>; K],
) -> bool {
    forall|k: int, e: int|
        0 <= k < K && 0 <= e < M ==> #[trigger] next[k].0[e] == if counts[k] == 0 {
            cs[k].0[e] as int
        } else {
            rounded_mean(sums[k][e] as int, counts[k] as int)
        }
}

/// Sums that a set of `counts[k]` fixed-point points can have.
pub open spec fn sums_in_range<const K: usize, const M: usize>(
    sums: [[i128; M]; K],
    counts: [usize; K],
) -> bool {
    forall|k: int, e: int|
        0 <= k < K && 0 <= e < M ==> counts[k] * -0x8000_0000 <= #[trigger] sums[k][e] <= counts[k]
            * 0x7fff_ffff
}

/// Which aggregation a clustering run uses.
#[derive(Clone, Copy, Debug, PartialEq, Eq)]
pub enum Algorithm {
    /// Scan every point against every center (Lloyd's algorithm).
    Naive,
    /// Traverse the kd-tree, settling whole regions that one center owns.
    Simple,
}

proof fn lemma_rounded_mean_bounds(s: int, c: int)
    requires
        c > 0,
        c * -0x8000_0000 <= s <= c * 0x7fff_ffff,
    ensures
        -0x8000_0000 <= rounded_mean(s, c) <= 0x7fff_ffff,
{
    let q = rounded_mean(s, c);
    let n = 2 * s + c;
    let m = 2 * c;
    vstd::arithmetic::div_mod::lemma_fundamental_div_mod(n, m);
    let r = n % m;
    assert(0 <= r < m) by {
        vstd::arithmetic::div_mod::lemma_mod_bound(n, m);
    }
    assert(n == m * q + r);
    assert(q <= 0x7fff_ffff) by (nonlinear_arith)
        requires
            n == m * q + r,
            0 <= r,
            m == 2 * c,
            c > 0,
            n == 2 * s + c,
            s <= c * 0x7fff_ffff,
    ;
    assert(q >= -0x8000_0000) by (nonlinear_arith)
        requires
            n == m * q + r,
            r < m,
            m == 2 * c,
            c > 0,
            n == 2 * s + c,
            c * -0x8000_0000 <= s,
    ;
}

/// The rounded mean of `s` over `c` points.
pub(crate) fn mean_coordinate(s: i128, c: usize) -> (r: i32)
    requires
        c > 0,
        c * -0x8000_0000 <= s <= c * 0x7fff_ffff,
    ensures
        r == rounded_mean(s as int, c as int),
{
    proof {
        lemma_rounded_mean_bounds(s as int, c as int);
        assert(c * 0x7fff_ffff <= 0x1_0000_0000_0000_0000 * 0x7fff_ffff) by (nonlinear_arith)
            requires
                c <= usize::MAX,
        ;
        assert(c * -0x8000_0000 >= 0x1_0000_0000_0000_0000 * -0x8000_0000) by (nonlinear_arith)
            requires
                c <= usize::MAX,
        ;
    }
    let num: i128 = 2 * s + c as i128;
    let den: u128 = 2 * c as u128;
    if num >= 0 {
        let q = (num as u128) / den;
        q as i32
    } else {
        let neg = (-num) as u128;
        let q = (neg + den - 1) / den;
        proof {
            let n = num as int;
            let m = den as int;
            let qq = q as int;
            vstd::arithmetic::div_mod::lemma_fundamental_div_mod(neg + den - 1, m);
            vstd::arithmetic::div_mod::lemma_mod_bound(neg + den - 1, m);
            let rr = ((neg + den - 1) as int) % m;
            assert(-n + m - 1 == m * qq + rr);
            assert(m * (-qq) <= n < m * (-qq) + m) by (nonlinear_arith)
                requires
                    -n + m - 1 == m * qq + rr,
                    0 <= rr < m,
            ;
            let f = n / m;
            vstd::arithmetic::div_mod::lemma_fundamental_div_mod(n, m);
            vstd::arithmetic::div_mod::lemma_mod_bound(n, m);
            assert(f == -qq) by (nonlinear_arith)
                requires
                    n == m * f + n % m,
                    0 <= n % m < m,
                    m * (-qq) <= n < m * (-qq) + m,
                    m > 0,
            ;
        }
        (0 - q as i128) as i32
    }
}

/// A center's points sum, in each coordinate, to between `count` times the
/// least and `count` times the greatest coordinate value.
proof fn lemma_assigned_sum_range<const M: usize>(cs: Seq<Point<M>>, s: Seq<Point<M>>, k: int, e: int)
    ensures
        assigned_count(cs, s, k) * -0x8000_0000 <= assigned_sum(cs, s, k, e)
            <= assigned_count(cs, s, k) * 0x7fff_ffff,
    decreases s.len(),
{
    if s.len() > 0 {
        lemma_assigned_sum_range(cs, s.drop_last(), k, e);
        let c = assigned_count(cs, s.drop_last(), k);
        assert((c + 1) * -0x8000_0000 == c * -0x8000_0000 - 0x8000_0000) by (nonlinear_arith);
        assert((c + 1) * 0x7fff_ffff == c * 0x7fff_ffff + 0x7fff_ffff) by (nonlinear_arith);
    }
}

/// `next` is what one iteration of Lloyd's algorithm makes of the centers
/// `cs` over the points `s`: each center with points moves to their rounded
/// mean, a center without points stays where it is.
pub open spec fn lloyd_step<const K: usize, const M: usize>(
    cs: [Point<M>; K],
    s: Seq<Point<M>>,
    next: [Point<M>; K],
) -> bool {
    forall|k: int, e: int|
        0 <= k < K && 0 <= e < M ==> #[trigger] next[k].0[e] == if assigned_count(cs@, s, k) == 0 {
            cs[k].0[e] as int
        } else {
            rounded_mean(assigned_sum(cs@, s, k, e), assigned_count(cs@, s, k))
        }
}

/// Some coordinate of some center differs between `a` and `b`.
pub open spec fn moved<const K: usize, const M: usize>(a: [Point<M>; K], b: [Point<M>; K]) -> bool {
    exists|k: int, e: int| 0 <= k < K && 0 <= e < M && #[trigger] a[k].0[e] != b[k].0[e]
}

/// `tree` is absent only for the naive algorithm, and otherwise is a tree
/// over the same point set as `points`.
pub open spec fn tree_for<const M: usize>(
    algorithm: Algorithm,
    points: Seq<Point<M>>,
    tree: Option<&Tree<M>>,
) -> bool {
    match tree {
        Some(t) => t.wf() && t.points().to_multiset() == points.to_multiset(),
        None => algorithm == Algorithm::Naive,
    }
}

/// The aggregates of two point sequences added elementwise: those of their
/// concatenation.
fn add_aggregates<const K: usize, const M: usize>(
    cs: Ghost<Seq<Point<M>>>,
    a: Ghost<Seq<Point<M>>>,
    b: Ghost<Seq<Point<M>>>,
    sums_a: &[[i128; M]; K],
    counts_a: &[usize; K],
    sums_b: &[[i128; M]; K],
    counts_b: &[usize; K],
) -> (r: ([[i128; M]; K], [usize; K]))
    requires
        a@.len() + b@.len() <= usize::MAX,
        aggregates_of(cs@, a@, *sums_a, *counts_a),
        aggregates_of(cs@, b@, *sums_b, *counts_b),
    ensures
        aggregates_of(cs@, a@ + b@, r.0, r.1),
{
    let ghost (cs, a, b) = (cs@, a@, b@);
    let mut sums = *sums_a;
    let mut counts = *counts_a;
    let mut k: usize = 0;
    while k < K
        invariant
            k <= K,
            a.len() + b.len() <= usize::MAX,
            aggregates_of(cs, a, *sums_a, *counts_a),
            aggregates_of(cs, b, *sums_b, *counts_b),
            forall|j: int| 0 <= j < k ==> #[trigger] counts[j] == assigned_count(cs, a + b, j),
            forall|j: int, f: int|
                0 <= j < k && 0 <= f < M ==> #[trigger] sums[j][f] == assigned_sum(cs, a + b, j, f),
        decreases K - k,
    {
        proof {
            lemma_assigned_concat(cs, a, b, k as int, 0);
            lemma_assigned_bounds(cs, a, k as int, 0);
            lemma_assigned_bounds(cs, b, k as int, 0);
        }
        counts[k] = counts_a[k] + counts_b[k];
        let mut row = sums_a[k];
        let mut e: usize = 0;
        while e < M
            invariant
                k < K,
                e <= M,
                a.len() + b.len() <= usize::MAX,
                aggregates_of(cs, a, *sums_a, *counts_a),
                aggregates_of(cs, b, *sums_b, *counts_b),
                forall|f: int| 0 <= f < e ==> #[trigger] row[f] == assigned_sum(cs, a + b, k as int, f),
            decreases M - e,
        {
            proof {
                lemma_assigned_concat(cs, a, b, k as int, e as int);
                lemma_assigned_bounds(cs, a, k as int, e as int);
                lemma_assigned_bounds(cs, b, k as int, e as int);
                lemma_two_sums_fit(a.len() as int, b.len() as int);
            }
            row[e] = sums_a[k][e] + sums_b[k][e];
            e += 1;
        }
        sums[k] = row;
        k += 1;
    }
    (sums, counts)
}

/// Coordinate sums over at most `usize::MAX` points fit in an `i128`.
proof fn lemma_two_sums_fit(m: int, n: int)
    requires
        0 <= m,
        0 <= n,
        m + n <= usize::MAX,
    ensures
        i128::MIN <= m * -0x8000_0000 + n * -0x8000_0000,
        m * 0x7fff_ffff + n * 0x7fff_ffff <= i128::MAX,
{
    assert(m * 0x8000_0000 + n * 0x8000_0000 <= 0x1_0000_0000_0000_0000 * 0x8000_0000)
        by (nonlinear_arith)
        requires
            0 <= m,
            0 <= n,
            m + n <= usize::MAX,
    ;
    assert(m * -0x8000_0000 + n * -0x8000_0000 == -(m * 0x8000_0000 + n * 0x8000_0000))
        by (nonlinear_arith);
    assert(m * 0x7fff_ffff + n * 0x7fff_ffff <= m * 0x8000_0000 + n * 0x8000_0000)
        by (nonlinear_arith)
        requires
            0 <= m,
            0 <= n,
    ;
}

impl<const K: usize, const M: usize> Centers<K, M> {
    pub fn new(centers: [Point<M>; K]) -> (r: Self)
        ensures
            r.0 == centers,
    {
        Centers(centers)
    }

    /// Index of the center nearest to `point`; on ties the lowest index.
    ///
    /// Time complexity: O(K * M)
    pub fn closest(&self, point: &Point<M>) -> (r: usize)
        requires
            K > 0,
        ensures
            r == nearest(self.0@, *point),
            r < K,
    {
        let ghost cs = self.0@;
        proof {
            lemma_nearest_upto(cs, *point, K as int);
        }
        let mut min_d = point.distance(&self.0[0]);
        let mut min_c: usize = 0;
        let mut k: usize = 1;
        while k < K
            invariant
                1 <= k <= K,
                cs == self.0@,
                min_c == nearest_upto(cs, *point, k as int),
                min_c < K,
                min_d == sq_dist(*point, cs[min_c as int]),
            decreases K - k,
        {
            let d = point.distance(&self.0[k]);
            if d < min_d {
                min_d = d;
                min_c = k;
            }
            k += 1;
        }
        min_c
    }

    /// The center strictly nearest to the box `h`, or `None` when two or
    /// more centers tie for the least distance.
    ///
    /// Time complexity: O(K * M)
    fn min_d(&self, h: &HyperRectangle<M>) -> (r: Option<usize>)
        requires
            K > 0,
        ensures
            match r {
                Some(c) => unique_nearest_to_box(self.0@, *h, c as int),
                None => forall|c: int| !unique_nearest_to_box(self.0@, *h, c),
            },
    {
        let ghost cs = self.0@;
        let mut min_d = h.distance(&self.0[0]);
        let mut min_c: usize = 0;
        let mut single_closest = true;
        let mut c: usize = 1;
        while c < K
            invariant
                1 <= c <= K,
                cs == self.0@,
                min_c < c,
                min_d == h.sq_dist(cs[min_c as int]),
                forall|j: int| 0 <= j < c ==> min_d <= h.sq_dist(#[trigger] cs[j]),
                single_closest <==> forall|j: int|
                    0 <= j < c && j != min_c ==> min_d < h.sq_dist(#[trigger] cs[j]),
            decreases K - c,
        {
            let d = h.distance(&self.0[c]);
            if d == min_d {
                single_closest = false;
            } else if d < min_d {
                single_closest = true;
                min_d = d;
                min_c = c;
            }
            c += 1;
        }
        if single_closest {
            Some(min_c)
        } else {
            proof {
                let j = choose|j: int| 0 <= j < K && j != min_c && !(min_d < h.sq_dist(#[trigger] cs[j]));
                assert forall|c: int| !unique_nearest_to_box(cs, *h, c) by {
                    if unique_nearest_to_box(cs, *h, c) {
                        if c == min_c {
                            assert(h.sq_dist(cs[c]) < h.sq_dist(cs[j]));
                        } else {
                            assert(h.sq_dist(cs[c]) < h.sq_dist(cs[min_c as int]));
                            assert(min_d <= h.sq_dist(cs[c]));
                        }
                    }
                }
            }
            None
        }
    }

    /// Whether center `c1` dominates center `c2` over the box `h`.
    ///
    /// Time complexity: O(M)
    fn dominates(&self, c1: usize, c2: usize, h: &HyperRectangle<M>) -> (r: bool)
        requires
            c1 < K,
            c2 < K,
        ensures
            r == dominates_spec(*h, self.0@[c1 as int], self.0@[c2 as int]),
    {
        let a = self.0[c1];
        let b = self.0[c2];
        let mut p = a.0;
        let mut d: usize = 0;
        while d < M
            invariant
                d <= M,
                a == self.0@[c1 as int],
                b == self.0@[c2 as int],
                forall|e: int| 0 <= e < d ==> #[trigger] p[e] == corner(*h, a, b, e),
            decreases M - d,
        {
            p[d] = if a.0[d] < b.0[d] {
                h.1.0[d]
            } else {
                h.0.0[d]
            };
            d += 1;
        }
        let point = Point(p);
        proof {
            lemma_corner_point(*h, a, b, point, a, M as int);
            lemma_corner_point(*h, a, b, point, b, M as int);
        }
        point.distance(&a) < point.distance(&b)
    }

    /// The center that owns the box `h`, if one does: the center strictly
    /// nearest to the box that also dominates every other center over it.
    /// Every point of the box then has that center as its nearest one.
    ///
    /// Time complexity: O(K * M)
    pub fn owner(&self, h: &HyperRectangle<M>) -> (r: Option<usize>)
        requires
            K > 0,
        ensures
            match r {
                Some(c) => is_owner(self.0@, *h, c as int),
                None => forall|c: int| !is_owner(self.0@, *h, c),
            },
    {
        let c1 = match self.min_d(h) {
            Some(c) => c,
            None => return None,
        };
        let mut c2: usize = 0;
        while c2 < K
            invariant
                c2 <= K,
                unique_nearest_to_box(self.0@, *h, c1 as int),
                forall|j: int|
                    0 <= j < c2 && j != c1 ==> dominates_spec(*h, self.0@[c1 as int], #[trigger] self.0@[j]),
            decreases K - c2,
        {
            if c1 != c2 && !self.dominates(c1, c2, h) {
                proof {
                    assert forall|c: int| !is_owner(self.0@, *h, c) by {
                        if is_owner(self.0@, *h, c) && c != c1 {
                            assert(h.sq_dist(self.0@[c]) < h.sq_dist(self.0@[c1 as int]));
                        }
                    }
                }
                return None;
            }
            c2 += 1;
        }
        Some(c1)
    }

    /// For each center, the coordinate sums and the number of the points of
    /// `tree` that are nearest to it. A region that one center owns adds the
    /// region's cached aggregates to that center without visiting its
    /// points; any other region is split into its children.
    ///
    /// Time complexity: worst case O(R * K * M)
    pub fn update(&self, tree: &Tree<M>) -> (r: ([[i128; M]; K], [usize; K]))
        requires
            K > 0,
            tree.wf(),
        ensures
            aggregates_of(self.0@, tree.points(), r.0, r.1),
        decreases tree,
    {
        let ghost cs = self.0@;
        let ghost pts = tree.points();
        let mut sums: [[i128; M]; K] = vstd::array::array_fill_for_copy_types(
            vstd::array::array_fill_for_copy_types(0i128),
        );
        let mut counts: [usize; K] = vstd::array::array_fill_for_copy_types(0usize);
        match &*tree.node {
            Node::NonLeaf(node) => {
                match self.owner(&tree.h) {
                    Some(k) => {
                        sums[k] = tree.sum_of_points;
                        counts[k] = tree.number_of_points;
                        proof {
                            assert forall|i: int| 0 <= i < pts.len() implies nearest(
                                cs,
                                #[trigger] pts[i],
                            ) == k by {
                                lemma_owner_sound(cs, tree.h, k as int, pts[i]);
                            }
                            assert forall|j: int| 0 <= j < K implies #[trigger] counts[j]
                                == assigned_count(cs, pts, j) by {
                                let f = assigned_to(cs, j);
                                if j == k {
                                    assert forall|i: int| 0 <= i < pts.len() implies 1 <= #[trigger] f(
                                        pts[i],
                                    ) <= 1 by {}
                                    lemma_sum_by_bounds(pts, f, 1, 1);
                                } else {
                                    assert forall|i: int| 0 <= i < pts.len() implies #[trigger] f(
                                        pts[i],
                                    ) == 0 by {}
                                    lemma_sum_by_zero(pts, f);
                                }
                            }
                            assert forall|j: int, e: int| 0 <= j < K && 0 <= e < M implies #[trigger] sums[j][e]
                                == assigned_sum(cs, pts, j, e) by {
                                let g = assigned_coord(cs, j, e);
                                if j == k {
                                    assert forall|i: int| 0 <= i < pts.len() implies #[trigger] g(pts[i])
                                        == coordinate::<M>(e)(pts[i]) by {}
                                    lemma_sum_by_congruent(pts, g, coordinate::<M>(e));
                                    assert(tree.sum_of_points[e] == coord_sum(pts, e));
                                } else {
                                    assert forall|i: int| 0 <= i < pts.len() implies #[trigger] g(pts[i])
                                        == 0 by {}
                                    lemma_sum_by_zero(pts, g);
                                }
                            }
                        }
                    },
                    None => {
                        let (sums_l, counts_l) = self.update(&node.l);
                        let (sums_r, counts_r) = self.update(&node.r);
                        let ghost pl = node.l.points();
                        let ghost pr = node.r.points();
                        assert(pts == pl + pr);
                        let r = add_aggregates(
                            Ghost(cs),
                            Ghost(pl),
                            Ghost(pr),
                            &sums_l,
                            &counts_l,
                            &sums_r,
                            &counts_r,
                        );
                        sums = r.0;
                        counts = r.1;
                    },
                }
            },
            Node::Leaf(point) => {
                let k = self.closest(point);
                let mut row: [i128; M] = vstd::array::array_fill_for_copy_types(0i128);
                let mut e: usize = 0;
                while e < M
                    invariant
                        e <= M,
                        forall|f: int| 0 <= f < e ==> #[trigger] row[f] == point.0[f] as int,
                    decreases M - e,
                {
                    row[e] = point.0[e] as i128;
                    e += 1;
                }
                sums[k] = row;
                counts[k] = 1;
                proof {
                    assert(pts == seq![*point]);
                    assert forall|j: int| 0 <= j < K implies #[trigger] counts[j]
                        == assigned_count(cs, pts, j) by {
                        lemma_sum_by_single(*point, assigned_to(cs, j));
                    }
                    assert forall|j: int, e: int| 0 <= j < K && 0 <= e < M implies #[trigger] sums[j][e]
                        == assigned_sum(cs, pts, j, e) by {
                        lemma_sum_by_single(*point, assigned_coord(cs, j, e));
                    }
                }
            },
        }
        (sums, counts)
    }


    /// For each center, the coordinate sums and the number of the points
    /// nearest to it, by scanning every point against every center.
    ///
    /// Time complexity: O(R * K * M)
    pub fn assign(&self, points: &[Point<M>]) -> (r: ([[i128; M]; K], [usize; K]))
        requires
            K > 0,
        ensures
            aggregates_of(self.0@, points@, r.0, r.1),
    {
        let ghost cs = self.0@;
        let mut sums: [[i128; M]; K] = vstd::array::array_fill_for_copy_types(
            vstd::array::array_fill_for_copy_types(0i128),
        );
        let mut counts: [usize; K] = vstd::array::array_fill_for_copy_types(0usize);
        proof {
            let s0 = points@.take(0);
            assert(s0 =~= Seq::<Point<M>>::empty());
            assert forall|j: int| 0 <= j < K implies #[trigger] counts[j] == assigned_count(cs, s0, j) by {}
            assert forall|j: int, e: int| 0 <= j < K && 0 <= e < M implies #[trigger] sums[j][e]
                == assigned_sum(cs, s0, j, e) by {}
        }
        let n = points.len();
        let mut i: usize = 0;
        while i < n
            invariant
                K > 0,
                n == points@.len(),
                i <= points@.len(),
                cs == self.0@,
                aggregates_of(cs, points@.take(i as int), sums, counts),
            decreases points@.len() - i,
        {
            let ghost prev = points@.take(i as int);
            let ghost next = points@.take(i + 1);
            assert(next =~= prev.push(points@[i as int]));
            let p = points[i];
            let k = self.closest(&p);
            proof {
                assert forall|j: int| 0 <= j < K implies #[trigger] assigned_count(cs, next, j)
                    == assigned_count(cs, prev, j) + (if j == k { 1int } else { 0int }) by {
                    lemma_sum_by_push(prev, p, assigned_to(cs, j));
                }
                assert forall|j: int, e: int| 0 <= j < K && 0 <= e < M implies #[trigger] assigned_sum(
                    cs,
                    next,
                    j,
                    e,
                ) == assigned_sum(cs, prev, j, e) + (if j == k { p.0[e] as int } else { 0int }) by {
                    lemma_sum_by_push(prev, p, assigned_coord(cs, j, e));
                }
                lemma_assigned_bounds(cs, next, k as int, 0);
            }
            counts[k] = counts[k] + 1;
            let mut row = sums[k];
            let mut e: usize = 0;
            while e < M
                invariant
                    e <= M,
                    k < K,
                    i < n,
                    n == points@.len(),
                    next.len() == i + 1,
                    forall|f: int| 0 <= f < e ==> #[trigger] row[f] == assigned_sum(cs, next, k as int, f),
                    forall|f: int| e <= f < M ==> #[trigger] row[f] == assigned_sum(cs, prev, k as int, f),
                    forall|f: int| 0 <= f < M ==> #[trigger] assigned_sum(cs, next, k as int, f)
                        == assigned_sum(cs, prev, k as int, f) + p.0[f] as int,
                decreases M - e,
            {
                proof {
                    lemma_assigned_bounds(cs, next, k as int, e as int);
                    lemma_two_sums_fit(next.len() as int, 0);
                }
                row[e] = row[e] + p.0[e] as i128;
                e += 1;
            }
            sums[k] = row;
            i += 1;
        }
        assert(points@.take(points@.len() as int) =~= points@);
        (sums, counts)
    }

    /// The index of the nearest center of each point.
    ///
    /// Time complexity: O(R * K * M)
    pub fn labels(&self, points: &[Point<M>]) -> (r: Vec<usize>)
        requires
            K > 0,
        ensures
            r@.len() == points@.len(),
            forall|i: int| 0 <= i < points@.len() ==> #[trigger] r@[i] == nearest(self.0@, points@[i]),
    {
        let mut out: Vec<usize> = Vec::new();
        let mut i: usize = 0;
        while i < points.len()
            invariant
                K > 0,
                i <= points@.len(),
                out@.len() == i,
                forall|j: int| 0 <= j < i ==> #[trigger] out@[j] == nearest(self.0@, points@[j]),
            decreases points@.len() - i,
        {
            let k = self.closest(&points[i]);
            out.push(k);
            i += 1;
        }
        out
    }

    /// The centers moved to the means of their points (rounded to the
    /// nearest fixed-point value), given the per-center sums and counts; a
    /// center without points stays. Also tells whether any center moved.
    ///
    /// Time complexity: O(K * M)
    pub fn recenter(&self, sums: &[[i128; M]; K], counts: &[usize; K]) -> (r: (Self, bool))
        requires
            sums_in_range(*sums, *counts),
        ensures
            recentered(self.0, *sums, *counts, r.0.0),
            r.1 == moved(self.0, r.0.0),
    {
        let mut next = self.0;
        let mut different = false;
        let mut k: usize = 0;
        while k < K
            invariant
                k <= K,
                sums_in_range(*sums, *counts),
                forall|j: int, e: int|
                    0 <= j < k && 0 <= e < M ==> #[trigger] next[j].0[e] == if counts[j] == 0 {
                        self.0[j].0[e] as int
                    } else {
                        rounded_mean(sums[j][e] as int, counts[j] as int)
                    },
                forall|j: int| k <= j < K ==> #[trigger] next[j] == self.0[j],
                different == exists|j: int, e: int|
                    0 <= j < k && 0 <= e < M && #[trigger] next[j].0[e] != self.0[j].0[e],
            decreases K - k,
        {
            let ghost start = next;
            let count = counts[k];
            let mut p = self.0[k];
            if count != 0 {
                let mut e: usize = 0;
                while e < M
                    invariant
                        k < K,
                        e <= M,
                        count == counts[k as int],
                        count != 0,
                        sums_in_range(*sums, *counts),
                        forall|f: int|
                            0 <= f < e ==> #[trigger] p.0[f] == rounded_mean(
                                sums[k as int][f] as int,
                                count as int,
                            ),
                        forall|f: int| e <= f < M ==> #[trigger] p.0[f] == self.0[k as int].0[f],
                    decreases M - e,
                {
                    p.0[e] = mean_coordinate(sums[k][e], count);
                    e += 1;
                }
            }
            let mut moved_k = false;
            let mut e: usize = 0;
            while e < M
                invariant
                    k < K,
                    e <= M,
                    moved_k == exists|f: int| 0 <= f < e && #[trigger] p.0[f] != self.0[k as int].0[f],
                decreases M - e,
            {
                if p.0[e] != self.0[k].0[e] {
                    moved_k = true;
                }
                e += 1;
            }
            next[k] = p;
            proof {
                assert forall|j: int| 0 <= j < K && j != k implies #[trigger] next[j] == start[j] by {}
                if different {
                    let (j, f) = choose|j: int, f: int|
                        0 <= j < k && 0 <= f < M && #[trigger] start[j].0[f] != self.0[j].0[f];
                    assert(next[j].0[f] != self.0[j].0[f]);
                }
                if moved_k {
                    let f = choose|f: int| 0 <= f < M && #[trigger] p.0[f] != self.0[k as int].0[f];
                    assert(next[k as int].0[f] != self.0[k as int].0[f]);
                }
                if !different && !moved_k {
                    assert forall|j: int, f: int|
                        0 <= j < k + 1 && 0 <= f < M implies !(#[trigger] next[j].0[f] != self.0[j].0[f]) by {
                        if j == k {
                            assert(!(p.0[f] != self.0[k as int].0[f]));
                        } else {
                            assert(!(start[j].0[f] != self.0[j].0[f]));
                        }
                    }
                }
            }
            different = different || moved_k;
            k += 1;
        }
        (Centers(next), different)
    }

    /// For each center, the coordinate sums and the number of the points
    /// nearest to it, by the chosen algorithm. Both give the same result.
    pub fn aggregate(
        &self,
        algorithm: Algorithm,
        points: &[Point<M>],
        tree: Option<&Tree<M>>,
    ) -> (r: ([[i128; M]; K], [usize; K]))
        requires
            K > 0,
            tree_for(algorithm, points@, tree),
        ensures
            aggregates_of(self.0@, points@, r.0, r.1),
            sums_in_range(r.0, r.1),
    {
        let r = match (algorithm, tree) {
            (Algorithm::Simple, Some(t)) => {
                let r = self.update(t);
                proof {
                    lemma_aggregates_permutation(self.0@, t.points(), points@);
                }
                r
            },
            _ => self.assign(points),
        };
        proof {
            assert forall|k: int, e: int| 0 <= k < K && 0 <= e < M implies r.1[k] * -0x8000_0000
                <= #[trigger] r.0[k][e] <= r.1[k] * 0x7fff_ffff by {
                lemma_assigned_sum_range(self.0@, points@, k, e);
            }
        }
        r
    }

    /// One iteration of the clustering loop: assign every point to its
    /// nearest center, move each center to the rounded mean of its points,
    /// and tell whether any center moved. The loop has converged when none
    /// did.
    pub fn iterate(&self, algorithm: Algorithm, points: &[Point<M>], tree: Option<&Tree<M>>) -> (r: (
        Self,
        bool,
    ))
        requires
            K > 0,
            tree_for(algorithm, points@, tree),
        ensures
            lloyd_step(self.0, points@, r.0.0),
            r.1 == moved(self.0, r.0.0),
    {
        let (sums, counts) = self.aggregate(algorithm, points, tree);
        self.recenter(&sums, &counts)
    }
}

/// K distinct points of `points`, drawn at random: the initial centers of a
/// clustering run.
pub fn random_points<const K: usize, const M: usize>(
    points: &[Point<M>],
    rng: &mut StdRng,
) -> (r: [Point<M>; K])
    requires
        K <= points@.len(),
    ensures
        exists|idx: Seq<usize>|
            {
                &&& idx.len() == K
                &&& forall|k: int|
                    0 <= k < K ==> #[trigger] idx[k] < points@.len() && r[k] == points@[idx[k] as int]
                &&& forall|a: int, b: int| 0 <= a < b < K ==> idx[a] != idx[b]
            },
{
    let indices = sample_indices(rng, points.len(), K);
    let mut out: [Point<M>; K] = vstd::array::array_fill_for_copy_types(Point::default());
    let mut k: usize = 0;
    while k < K
        invariant
            k <= K,
            indices@.len() == K,
            forall|j: int| 0 <= j < K ==> #[trigger] indices@[j] < points@.len(),
            forall|j: int| 0 <= j < k ==> #[trigger] out[j] == points@[indices@[j] as int],
        decreases K - k,
    {
        out[k] = points[indices[k]];
        k += 1;
    }
    assert(forall|j: int|
        0 <= j < K ==> #[trigger] indices@[j] < points@.len() && out[j] == points@[indices@[j] as int]);
    out
}


} // verus!
