//! Sums over sequences of points, and the facts about them that the
//! proofs share: splitting, reordering and bounding.
use vstd::prelude::*;
use vstd::seq_lib::lemma_fold_left_permutation;
use crate::point::Point;

verus! {

/// The sum of `g` over the points of `s`.
pub open spec fn sum_by<const M: usize>(s: Seq<Point<M>>, g: spec_fn(Point<M>) -> int) -> int
    decreases s.len(),
{
    if s.len() == 0 {
        0
    } else {
        sum_by(s.drop_last(), g) + g(s.last())
    }
}

/// The sum of coordinate `d` over the points of `s`.
pub open spec fn coord_sum<const M: usize>(s: Seq<Point<M>>, d: int) -> int {
    sum_by(s, coordinate(d))
}

pub open spec fn coordinate<const M: usize>(d: int) -> spec_fn(Point<M>) -> int {
    |p: Point<M>| p.0[d] as int
}

pub proof fn lemma_sum_by_concat<const M: usize>(
    a: Seq<Point<M>>,
    b: Seq<Point<M>>,
    g: spec_fn(Point<M>) -> int,
)
    ensures
        sum_by(a + b, g) == sum_by(a, g) + sum_by(b, g),
    decreases b.len(),
{
    if b.len() == 0 {
        assert(a + b =~= a);
    } else {
        lemma_sum_by_concat(a, b.drop_last(), g);
        assert((a + b).drop_last() =~= a + b.drop_last());
    }
}

pub proof fn lemma_sum_by_single<const M: usize>(p: Point<M>, g: spec_fn(Point<M>) -> int)
    ensures
        sum_by(seq![p], g) == g(p),
{
    assert(seq![p].drop_last() =~= Seq::<Point<M>>::empty());
    assert(sum_by(Seq::<Point<M>>::empty(), g) == 0);
}

pub proof fn lemma_sum_by_push<const M: usize>(
    s: Seq<Point<M>>,
    p: Point<M>,
    g: spec_fn(Point<M>) -> int,
)
    ensures
        sum_by(s.push(p), g) == sum_by(s, g) + g(p),
{
    assert(s.push(p).drop_last() =~= s);
}

spec fn add_by<const M: usize>(g: spec_fn(Point<M>) -> int) -> spec_fn(int, Point<M>) -> int {
    |acc: int, p: Point<M>| acc + g(p)
}

proof fn lemma_sum_by_fold<const M: usize>(s: Seq<Point<M>>, g: spec_fn(Point<M>) -> int)
    ensures
        sum_by(s, g) == s.fold_left(0, add_by(g)),
    decreases s.len(),
{
    if s.len() > 0 {
        lemma_sum_by_fold(s.drop_last(), g);
    }
}

/// Reordering the points does not change a sum over them.
pub proof fn lemma_sum_by_permutation<const M: usize>(
    a: Seq<Point<M>>,
    b: Seq<Point<M>>,
    g: spec_fn(Point<M>) -> int,
)
    requires
        a.to_multiset() == b.to_multiset(),
    ensures
        sum_by(a, g) == sum_by(b, g),
{
    lemma_sum_by_fold(a, g);
    lemma_sum_by_fold(b, g);
    let f = add_by(g);
    assert forall|v: int, x: Point<M>, y: Point<M>| #[trigger] f(f(v, x), y) == f(f(v, y), x) by {}
    lemma_fold_left_permutation(a, b, f, 0);
}

/// Where every term lies in `[lo, hi]`, the sum lies in `[n * lo, n * hi]`.
pub proof fn lemma_sum_by_bounds<const M: usize>(
    s: Seq<Point<M>>,
    g: spec_fn(Point<M>) -> int,
    lo: int,
    hi: int,
)
    requires
        forall|i: int| 0 <= i < s.len() ==> lo <= #[trigger] g(s[i]) <= hi,
    ensures
        s.len() * lo <= sum_by(s, g) <= s.len() * hi,
    decreases s.len(),
{
    if s.len() > 0 {
        let t = s.drop_last();
        assert forall|i: int| 0 <= i < t.len() implies lo <= #[trigger] g(t[i]) <= hi by {
            assert(t[i] == s[i]);
        }
        lemma_sum_by_bounds(t, g, lo, hi);
        assert(g(s.last()) == g(s[s.len() - 1]));
        assert(s.len() * lo == t.len() * lo + lo) by (nonlinear_arith)
            requires s.len() == t.len() + 1;
        assert(s.len() * hi == t.len() * hi + hi) by (nonlinear_arith)
            requires s.len() == t.len() + 1;
    }
}

/// Where `g` vanishes on every point of `s`, so does its sum.
pub proof fn lemma_sum_by_zero<const M: usize>(s: Seq<Point<M>>, g: spec_fn(Point<M>) -> int)
    requires
        forall|i: int| 0 <= i < s.len() ==> #[trigger] g(s[i]) == 0,
    ensures
        sum_by(s, g) == 0,
{
    lemma_sum_by_bounds(s, g, 0, 0);
    assert(s.len() * 0 == 0);
}

/// Where `f` and `g` agree on every point of `s`, their sums agree.
pub proof fn lemma_sum_by_congruent<const M: usize>(
    s: Seq<Point<M>>,
    f: spec_fn(Point<M>) -> int,
    g: spec_fn(Point<M>) -> int,
)
    requires
        forall|i: int| 0 <= i < s.len() ==> #[trigger] f(s[i]) == g(s[i]),
    ensures
        sum_by(s, f) == sum_by(s, g),
    decreases s.len(),
{
    if s.len() > 0 {
        let t = s.drop_last();
        assert forall|i: int| 0 <= i < t.len() implies #[trigger] f(t[i]) == g(t[i]) by {
            assert(t[i] == s[i]);
        }
        lemma_sum_by_congruent(t, f, g);
        assert(f(s.last()) == g(s[s.len() - 1]));
    }
}

} // verus!
