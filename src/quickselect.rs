//! Exact median selection along one dimension (quickselect).
use vstd::prelude::*;
use rand::rngs::StdRng;
use crate::point::Point;
use crate::random::sample_indices;
use crate::sums::{
    lemma_sum_by_bounds, lemma_sum_by_concat, lemma_sum_by_permutation, lemma_sum_by_zero,
    sum_by,
};

verus! {

broadcast use vstd::seq_lib::group_to_multiset_ensures, vstd::multiset::group_multiset_axioms;

/// One for points whose coordinate `d` is below `v`, zero for the others.
pub open spec fn below<const M: usize>(d: int, v: int) -> spec_fn(Point<M>) -> int {
    |p: Point<M>| if p.0[d] < v { 1int } else { 0int }
}

/// One for points whose coordinate `d` is at most `v`, zero for the others.
pub open spec fn at_most<const M: usize>(d: int, v: int) -> spec_fn(Point<M>) -> int {
    |p: Point<M>| if p.0[d] <= v { 1int } else { 0int }
}

/// How many points of `s` have coordinate `d` below `v`.
pub open spec fn count_below<const M: usize>(s: Seq<Point<M>>, d: int, v: int) -> int {
    sum_by(s, below(d, v))
}

/// How many points of `s` have coordinate `d` at most `v`.
pub open spec fn count_at_most<const M: usize>(s: Seq<Point<M>>, d: int, v: int) -> int {
    sum_by(s, at_most(d, v))
}

/// The rank of the (lower) median of `n` values.
pub open spec fn median_rank(n: int) -> int {
    (n - 1) / 2
}

/// `v` is the value of rank `(n - 1) / 2` among the coordinates `d` of `s`:
/// at most that many lie below it and more than that many lie at or below it.
pub open spec fn is_median<const M: usize>(s: Seq<Point<M>>, d: int, v: int) -> bool {
    count_below(s, d, v) <= median_rank(s.len() as int) < count_at_most(s, d, v)
}

/// `t` holds its points in ascending order of coordinate `d`.
pub open spec fn sorted_by<const M: usize>(t: Seq<Point<M>>, d: int) -> bool {
    forall|i: int, j: int| 0 <= i < j < t.len() ==> t[i].0[d] <= t[j].0[d]
}

/// Everything at indices below `k` is at most what is at `k`, and
/// everything above `k` is at least that.
spec fn settled_at<const M: usize>(s: Seq<Point<M>>, d: int, k: int) -> bool {
    &&& forall|i: int| 0 <= i < k ==> (#[trigger] s[i]).0[d] <= s[k].0[d]
    &&& forall|i: int| k < i < s.len() ==> s[k].0[d] <= (#[trigger] s[i]).0[d]
}

/// Where a 0/1 count is zero from index `k` on, it is at most `k`.
proof fn lemma_count_upto<const M: usize>(s: Seq<Point<M>>, g: spec_fn(Point<M>) -> int, k: int)
    requires
        0 <= k <= s.len(),
        forall|i: int| 0 <= i < s.len() ==> 0 <= #[trigger] g(s[i]) <= 1,
        forall|i: int| k <= i < s.len() ==> #[trigger] g(s[i]) == 0,
    ensures
        0 <= sum_by(s, g) <= k,
{
    let a = s.take(k);
    let b = s.skip(k);
    assert(s =~= a + b);
    lemma_sum_by_concat(a, b, g);
    assert forall|i: int| 0 <= i < a.len() implies 0 <= #[trigger] g(a[i]) <= 1 by {
        assert(a[i] == s[i]);
    }
    lemma_sum_by_bounds(a, g, 0, 1);
    assert forall|i: int| 0 <= i < b.len() implies #[trigger] g(b[i]) == 0 by {
        assert(b[i] == s[i + k]);
    }
    lemma_sum_by_zero(b, g);
}

/// Where a 0/1 count is one below index `k`, it is at least `k`.
proof fn lemma_count_from<const M: usize>(s: Seq<Point<M>>, g: spec_fn(Point<M>) -> int, k: int)
    requires
        0 <= k <= s.len(),
        forall|i: int| 0 <= i < s.len() ==> 0 <= #[trigger] g(s[i]) <= 1,
        forall|i: int| 0 <= i < k ==> #[trigger] g(s[i]) == 1,
    ensures
        k <= sum_by(s, g),
{
    let a = s.take(k);
    let b = s.skip(k);
    assert(s =~= a + b);
    lemma_sum_by_concat(a, b, g);
    assert forall|i: int| 0 <= i < a.len() implies 1 <= #[trigger] g(a[i]) <= 1 by {
        assert(a[i] == s[i]);
    }
    lemma_sum_by_bounds(a, g, 1, 1);
    assert forall|i: int| 0 <= i < b.len() implies 0 <= #[trigger] g(b[i]) <= 1 by {
        assert(b[i] == s[i + k]);
    }
    lemma_sum_by_bounds(b, g, 0, 1);
}

/// A sequence settled at its median rank has its median there.
proof fn lemma_settled_is_median<const M: usize>(s: Seq<Point<M>>, d: int)
    requires
        s.len() > 0,
        settled_at(s, d, median_rank(s.len() as int)),
    ensures
        is_median(s, d, s[median_rank(s.len() as int)].0[d] as int),
{
    let k = median_rank(s.len() as int);
    let v = s[k].0[d] as int;
    let lt = below::<M>(d, v);
    let le = at_most::<M>(d, v);
    assert forall|i: int| k <= i < s.len() implies #[trigger] lt(s[i]) == 0 by {
        if i > k {
            assert(s[k].0[d] <= s[i].0[d]);
        }
    }
    lemma_count_upto(s, lt, k);
    assert forall|i: int| 0 <= i < k + 1 implies #[trigger] le(s[i]) == 1 by {
        if i < k {
            assert(s[i].0[d] <= s[k].0[d]);
        }
    }
    lemma_count_from(s, le, k + 1);
}

/// A reordering of `points` settled at the median rank holds the median there.
proof fn lemma_found<const M: usize>(s: Seq<Point<M>>, points: Seq<Point<M>>, d: int)
    requires
        s.len() > 0,
        s.to_multiset() == points.to_multiset(),
        s.len() == points.len(),
        settled_at(s, d, median_rank(s.len() as int)),
    ensures
        is_median(points, d, s[median_rank(s.len() as int)].0[d] as int),
{
    let v = s[median_rank(s.len() as int)].0[d] as int;
    lemma_settled_is_median(s, d);
    lemma_sum_by_permutation(s, points, below::<M>(d, v));
    lemma_sum_by_permutation(s, points, at_most::<M>(d, v));
}

/// The median of a set of points is the middle coordinate of any ordering
/// of those points by that coordinate: the value at index `(n - 1) / 2`
/// once they are fully sorted.
pub proof fn lemma_median_is_sorted_middle<const M: usize>(
    s: Seq<Point<M>>,
    t: Seq<Point<M>>,
    d: int,
    v: int,
)
    requires
        s.len() > 0,
        t.to_multiset() == s.to_multiset(),
        sorted_by(t, d),
        is_median(s, d, v),
    ensures
        v == t[median_rank(s.len() as int)].0[d],
{
    let n = s.len() as int;
    assert(t.len() == n) by {
        assert(t.to_multiset().len() == t.len());
        assert(s.to_multiset().len() == s.len());
    }
    let k = median_rank(n);
    let w = t[k].0[d] as int;
    lemma_sum_by_permutation(t, s, below::<M>(d, v));
    lemma_sum_by_permutation(t, s, at_most::<M>(d, v));
    if v < w {
        let le = at_most::<M>(d, v);
        assert forall|i: int| k <= i < n implies #[trigger] le(t[i]) == 0 by {
            if i > k {
                assert(t[k].0[d] <= t[i].0[d]);
            }
        }
        lemma_count_upto(t, le, k);
    } else if v > w {
        let lt = below::<M>(d, v);
        assert forall|i: int| 0 <= i < k + 1 implies #[trigger] lt(t[i]) == 1 by {
            if i < k {
                assert(t[i].0[d] <= t[k].0[d]);
            }
        }
        lemma_count_from(t, lt, k + 1);
    }
}

proof fn lemma_swap_multiset<A>(s: Seq<A>, i: int, j: int)
    requires
        0 <= i < s.len(),
        0 <= j < s.len(),
    ensures
        s.update(i, s[j]).update(j, s[i]).to_multiset() == s.to_multiset(),
{
    let t = s.update(i, s[j]);
    assert(t[j] == s[j] || i == j);
    assert(s.update(i, s[j]).update(j, s[i]).to_multiset() =~= s.to_multiset());
}

/// Exchanges the elements at `i` and `j`.
fn swap<const M: usize>(list: &mut Vec<Point<M>>, i: usize, j: usize)
    requires
        i < old(list)@.len(),
        j < old(list)@.len(),
    ensures
        final(list)@ == old(list)@.update(i as int, old(list)@[j as int]).update(
            j as int,
            old(list)@[i as int],
        ),
        final(list)@.to_multiset() == old(list)@.to_multiset(),
{
    proof {
        lemma_swap_multiset(list@, i as int, j as int);
    }
    let a = list[i];
    let b = list[j];
    list.set(i, b);
    list.set(j, a);
}

/// Every element of `s` in `[l, r]` is one that `t` held in `[l, r]`.
spec fn drawn_from<A>(s: Seq<A>, t: Seq<A>, l: int, r: int) -> bool {
    forall|i: int| l <= i <= r ==> exists|j: int| l <= j <= r && #[trigger] s[i] == t[j]
}

/// Lomuto partition of `list[left..=right]` around the value at
/// `pivot_index`: smaller coordinates move before the returned index, the
/// others after it, and the pivot lands at the returned index.
fn partition<const M: usize>(
    list: &mut Vec<Point<M>>,
    left: usize,
    right: usize,
    pivot_index: usize,
    d: usize,
) -> (store: usize)
    requires
        left <= pivot_index <= right < old(list)@.len(),
        d < M,
    ensures
        final(list)@.len() == old(list)@.len(),
        final(list)@.to_multiset() == old(list)@.to_multiset(),
        forall|i: int|
            0 <= i < final(list)@.len() && !(left <= i <= right) ==> #[trigger] final(list)@[i]
                == old(list)@[i],
        drawn_from(final(list)@, old(list)@, left as int, right as int),
        left <= store <= right,
        final(list)@[store as int].0[d as int] == old(list)@[pivot_index as int].0[d as int],
        forall|i: int|
            left <= i < store ==> (#[trigger] final(list)@[i]).0[d as int]
                < final(list)@[store as int].0[d as int],
        forall|i: int|
            store < i <= right ==> final(list)@[store as int].0[d as int]
                <= (#[trigger] final(list)@[i]).0[d as int],
{
    let ghost initial = list@;
    let pivot_value = list[pivot_index].0[d];
    swap(list, pivot_index, right);
    proof {
        assert forall|i: int| left <= i <= right implies exists|j: int|
            left <= j <= right && #[trigger] list@[i] == initial[j] by {
            if i == pivot_index {
                assert(list@[i] == initial[right as int]);
            } else if i == right {
                assert(list@[i] == initial[pivot_index as int]);
            } else {
                assert(list@[i] == initial[i]);
            }
        }
    }
    let mut store_index = left;
    let mut i = left;
    while i < right
        invariant
            left <= store_index <= i <= right < list@.len(),
            list@.len() == initial.len(),
            d < M,
            list@.to_multiset() == initial.to_multiset(),
            forall|j: int|
                0 <= j < list@.len() && !(left <= j <= right) ==> #[trigger] list@[j]
                    == initial[j],
            drawn_from(list@, initial, left as int, right as int),
            list@[right as int].0[d as int] == pivot_value,
            pivot_value == initial[pivot_index as int].0[d as int],
            forall|j: int| left <= j < store_index ==> (#[trigger] list@[j]).0[d as int] < pivot_value,
            forall|j: int| store_index <= j < i ==> pivot_value <= (#[trigger] list@[j]).0[d as int],
        decreases right - i,
    {
        if list[i].0[d] < pivot_value {
            let ghost before = list@;
            swap(list, store_index, i);
            proof {
                assert forall|j: int| left <= j <= right implies exists|k: int|
                    left <= k <= right && #[trigger] list@[j] == initial[k] by {
                    let m = if j == store_index {
                        i as int
                    } else if j == i {
                        store_index as int
                    } else {
                        j
                    };
                    assert(list@[j] == before[m]);
                    assert(exists|k: int| left <= k <= right && #[trigger] before[m] == initial[k]);
                }
            }
            store_index += 1;
        }
        i += 1;
    }
    let ghost before = list@;
    swap(list, right, store_index);
    proof {
        assert forall|j: int| left <= j <= right implies exists|k: int|
            left <= k <= right && #[trigger] list@[j] == initial[k] by {
            let m = if j == store_index {
                right as int
            } else if j == right {
                store_index as int
            } else {
                j
            };
            assert(list@[j] == before[m]);
            assert(exists|k: int| left <= k <= right && #[trigger] before[m] == initial[k]);
        }
    }
    store_index
}

/// The order facts that quickselect keeps about its working list: all
/// below `l` is at most all from `l` on, and all above `r` is at least all
/// up to `r`.
spec fn ordered_outside<const M: usize>(s: Seq<Point<M>>, d: int, l: int, r: int) -> bool {
    &&& forall|i: int, j: int|
        0 <= i < l <= j < s.len() ==> (#[trigger] s[i]).0[d] <= (#[trigger] s[j]).0[d]
    &&& forall|i: int, j: int|
        0 <= j <= r < i < s.len() ==> (#[trigger] s[j]).0[d] <= (#[trigger] s[i]).0[d]
}

/// Rearranging the elements within `[l, r]` keeps the order facts.
proof fn lemma_ordered_kept<const M: usize>(
    before: Seq<Point<M>>,
    after: Seq<Point<M>>,
    d: int,
    l: int,
    r: int,
)
    requires
        0 <= l <= r < before.len(),
        after.len() == before.len(),
        ordered_outside(before, d, l, r),
        forall|i: int| 0 <= i < after.len() && !(l <= i <= r) ==> #[trigger] after[i] == before[i],
        drawn_from(after, before, l, r),
    ensures
        ordered_outside(after, d, l, r),
{
    let n = before.len() as int;
    assert forall|i: int, j: int| 0 <= i < l <= j < n implies (#[trigger] after[i]).0[d] <= (
    #[trigger] after[j]).0[d] by {
        assert(after[i] == before[i]);
        if j <= r {
            let k = choose|k: int| l <= k <= r && #[trigger] after[j] == before[k];
            assert(before[i].0[d] <= before[k].0[d]);
        } else {
            assert(after[j] == before[j]);
        }
    }
    assert forall|i: int, j: int| 0 <= j <= r < i < n implies (#[trigger] after[j]).0[d] <= (
    #[trigger] after[i]).0[d] by {
        assert(after[i] == before[i]);
        if j >= l {
            let k = choose|k: int| l <= k <= r && #[trigger] after[j] == before[k];
            assert(before[k].0[d] <= before[i].0[d]);
        } else {
            assert(after[j] == before[j]);
        }
    }
}

/// The median of coordinate `d` over `points`: the value of rank
/// `(n - 1) / 2` (the lower median when `n` is even). Pivots are drawn
/// from `rng`; the result does not depend on them.
///
/// Expected time complexity: O(R)
pub fn median<const M: usize>(points: &[Point<M>], d: usize, rng: &mut StdRng) -> (r: i32)
    requires
        points@.len() > 0,
        d < M,
    ensures
        is_median(points@, d as int, r as int),
{
    let mut list = vstd::slice::slice_to_vec(points);
    let length = list.len();
    let mut left: usize = 0;
    let mut right: usize = length - 1;
    let k: usize = (length - 1) / 2;
    loop
        invariant
            list@.len() == length == points@.len(),
            d < M,
            k == median_rank(length as int),
            left <= k <= right < length,
            list@.to_multiset() == points@.to_multiset(),
            ordered_outside(list@, d as int, left as int, right as int),
        decreases right - left,
    {
        if left == right {
            proof {
                let s = list@;
                assert forall|i: int| 0 <= i < k implies (#[trigger] s[i]).0[d as int] <= s[k as int].0[
                    d as int] by {
                    assert(s[i].0[d as int] <= s[k as int].0[d as int]);
                }
                assert forall|i: int| k < i < length implies s[k as int].0[d as int] <= (
                #[trigger] s[i]).0[d as int] by {
                    assert(s[k as int].0[d as int] <= s[i].0[d as int]);
                }
                lemma_found(s, points@, d as int);
            }
            return list[left].0[d];
        }
        let offsets = sample_indices(rng, right - left, 1);
        let pivot_index = left + offsets[0];
        let ghost before = list@;
        let store = partition(&mut list, left, right, pivot_index, d);
        proof {
            lemma_ordered_kept(before, list@, d as int, left as int, right as int);
        }
        let ghost s = list@;
        let ghost dd = d as int;
        if k == store {
            proof {
                assert forall|i: int| 0 <= i < k implies (#[trigger] s[i]).0[dd] <= s[k as int].0[dd] by {
                    if i < left {
                        assert(s[i].0[dd] <= s[k as int].0[dd]);
                    }
                }
                assert forall|i: int| k < i < length implies s[k as int].0[dd] <= (#[trigger] s[i]).0[dd] by {
                    if i > right {
                        assert(s[k as int].0[dd] <= s[i].0[dd]);
                    }
                }
                lemma_found(s, points@, dd);
            }
            return list[k].0[d];
        } else if k < store {
            proof {
                let r = store - 1;
                assert forall|i: int, j: int| 0 <= j <= r < i < length implies (#[trigger] s[j]).0[dd]
                    <= (#[trigger] s[i]).0[dd] by {
                    if i > right {
                        assert(s[j].0[dd] <= s[i].0[dd]);
                    } else if j < left {
                        assert(s[j].0[dd] <= s[i].0[dd]);
                    } else {
                        assert(s[j].0[dd] < s[store as int].0[dd]);
                        if i > store {
                            assert(s[store as int].0[dd] <= s[i].0[dd]);
                        }
                    }
                }
            }
            right = store - 1;
        } else {
            proof {
                let l = store + 1;
                assert forall|i: int, j: int| 0 <= i < l <= j < length implies (#[trigger] s[i]).0[dd]
                    <= (#[trigger] s[j]).0[dd] by {
                    if i < left {
                        assert(s[i].0[dd] <= s[j].0[dd]);
                    } else if j > right {
                        assert(s[i].0[dd] <= s[j].0[dd]);
                    } else {
                        assert(s[store as int].0[dd] <= s[j].0[dd]);
                        if i < store {
                            assert(s[i].0[dd] < s[store as int].0[dd]);
                        }
                    }
                }
            }
            left = store + 1;
        }
    }
}

} // verus!
