//! Median selection: partitions a list of point indices around its k-th smallest
//! element along one axis, without sorting it.

use vstd::prelude::*;
use vstd::multiset::*;
use vstd::seq_lib::*;

verus! {

broadcast use group_to_multiset_ensures, group_multiset_axioms;

/// The coordinate of point `x` along `axis`.
pub open spec fn key<const DIM: usize>(coords: Seq<[i32; DIM]>, x: usize, axis: usize) -> int {
    coords[x as int]@[axis as int] as int
}

/// Every entry of `s` is a valid position in a list of length `n`.
pub open spec fn all_below(s: Seq<usize>, n: int) -> bool {
    forall|t: int| 0 <= t < s.len() ==> #[trigger] s[t] < n
}

/// Every point listed in `s` lies at or below `v` along `axis`.
pub open spec fn all_at_most<const DIM: usize>(
    coords: Seq<[i32; DIM]>,
    s: Seq<usize>,
    axis: usize,
    v: int,
) -> bool {
    forall|t: int| 0 <= t < s.len() ==> key(coords, #[trigger] s[t], axis) <= v
}

/// Every point listed in `s` lies at or above `v` along `axis`.
pub open spec fn all_at_least<const DIM: usize>(
    coords: Seq<[i32; DIM]>,
    s: Seq<usize>,
    axis: usize,
    v: int,
) -> bool {
    forall|t: int| 0 <= t < s.len() ==> key(coords, #[trigger] s[t], axis) >= v
}

proof fn lemma_member_has_index(s: Seq<usize>, x: usize)
    requires
        s.to_multiset().count(x) > 0,
    ensures
        exists|t: int| 0 <= t < s.len() && s[t] == x,
{
    assert(s.contains(x));
}

/// Rearranges `items` around its `k`-th smallest entry along `axis`, comparing the points
/// that the entries index in `coords`. Returns the entries before that position, the entry
/// at it (the pivot) and the entries after it: together they are `items` rearranged, and
/// no entry before the pivot lies above it, no entry after it lies below it, along `axis`.
/// The order among entries with equal coordinates is unspecified.
pub fn select_nth<const DIM: usize>(
    coords: &Vec<[i32; DIM]>,
    items: Vec<usize>,
    k: usize,
    axis: usize,
) -> (r: (Vec<usize>, usize, Vec<usize>))
    requires
        k < items.len(),
        axis < DIM,
        all_below(items@, coords.len() as int),
    ensures
        r.0.len() == k,
        r.2.len() == items.len() - k - 1,
        items@.to_multiset() =~= r.0@.to_multiset().insert(r.1).add(r.2@.to_multiset()),
        r.1 < coords.len(),
        all_below(r.0@, coords.len() as int),
        all_below(r.2@, coords.len() as int),
        all_at_most(coords@, r.0@, axis, key(coords@, r.1, axis)),
        all_at_least(coords@, r.2@, axis, key(coords@, r.1, axis)),
    decreases items.len(),
{
    let n = items.len();
    let mid = n / 2;
    let pivot = coords[items[mid]][axis];
    let mut less: Vec<usize> = Vec::new();
    let mut equal: Vec<usize> = Vec::new();
    let mut greater: Vec<usize> = Vec::new();
    let mut i: usize = 0;
    while i < n
        invariant
            n == items.len(),
            mid < n,
            axis < DIM,
            pivot == key(coords@, items@[mid as int], axis),
            all_below(items@, coords.len() as int),
            i <= n,
            less.len() + equal.len() + greater.len() == i,
            items@.subrange(0, i as int).to_multiset() =~= less@.to_multiset().add(
                equal@.to_multiset(),
            ).add(greater@.to_multiset()),
            i > mid ==> equal.len() > 0,
            all_below(less@, coords.len() as int),
            all_below(equal@, coords.len() as int),
            all_below(greater@, coords.len() as int),
            all_at_most(coords@, less@, axis, pivot - 1),
            all_at_most(coords@, equal@, axis, pivot as int),
            all_at_least(coords@, equal@, axis, pivot as int),
            all_at_least(coords@, greater@, axis, pivot + 1),
        decreases n - i,
    {
        let x = items[i];
        let v = coords[x][axis];
        assert(items@.subrange(0, i + 1) =~= items@.subrange(0, i as int).push(x));
        if v < pivot {
            less.push(x);
        } else if v > pivot {
            greater.push(x);
        } else {
            equal.push(x);
        }
        i = i + 1;
    }
    assert(items@.subrange(0, n as int) =~= items@);
    let nl = less.len();
    let ne = equal.len();
    if k < nl {
        let (left, m, mut right) = select_nth(coords, less, k, axis);
        proof {
            lemma_member_has_index(less@, m);
        }
        let ghost r0 = right@;
        let ghost e0 = equal@;
        let ghost g0 = greater@;
        right.append(&mut equal);
        right.append(&mut greater);
        proof {
            lemma_multiset_commutative(r0, e0);
            lemma_multiset_commutative(r0 + e0, g0);
            assert(all_at_least(coords@, right@, axis, key(coords@, m, axis))) by {
                assert forall|t: int| 0 <= t < right@.len() implies #[trigger] key(
                    coords@,
                    right@[t],
                    axis,
                ) >= key(coords@, m, axis) by {
                    if t >= r0.len() + e0.len() {
                        assert(right@[t] == g0[t - r0.len() - e0.len()]);
                    } else if t >= r0.len() {
                        assert(right@[t] == e0[t - r0.len()]);
                    }
                }
            }
        }
        (left, m, right)
    } else if k < nl + ne {
        let j = k - nl;
        let ghost e0 = equal@;
        let mut right = equal.split_off(j + 1);
        let m = equal.pop().unwrap();
        let ghost l0 = less@;
        let ghost e1 = equal@;
        let ghost r0 = right@;
        let ghost g0 = greater@;
        assert(e0 =~= e1.push(m) + r0);
        less.append(&mut equal);
        right.append(&mut greater);
        proof {
            lemma_multiset_commutative(e1.push(m), r0);
            lemma_multiset_commutative(l0, e1);
            lemma_multiset_commutative(r0, g0);
            assert(all_at_most(coords@, less@, axis, key(coords@, m, axis))) by {
                assert forall|t: int| 0 <= t < less@.len() implies #[trigger] key(
                    coords@,
                    less@[t],
                    axis,
                ) <= key(coords@, m, axis) by {
                    if t >= l0.len() {
                        assert(less@[t] == e1[t - l0.len()]);
                        assert(e1[t - l0.len()] == e0[t - l0.len()]);
                    }
                }
            }
            assert(all_at_least(coords@, right@, axis, key(coords@, m, axis))) by {
                assert forall|t: int| 0 <= t < right@.len() implies #[trigger] key(
                    coords@,
                    right@[t],
                    axis,
                ) >= key(coords@, m, axis) by {
                    if t >= r0.len() {
                        assert(right@[t] == g0[t - r0.len()]);
                    } else {
                        assert(right@[t] == e0[t + j + 1]);
                    }
                }
            }
            assert(all_below(less@, coords.len() as int)) by {
                assert forall|t: int| 0 <= t < less@.len() implies #[trigger] less@[t]
                    < coords.len() by {
                    if t >= l0.len() {
                        assert(less@[t] == e0[t - l0.len()]);
                    }
                }
            }
            assert(all_below(right@, coords.len() as int)) by {
                assert forall|t: int| 0 <= t < right@.len() implies #[trigger] right@[t]
                    < coords.len() by {
                    if t >= r0.len() {
                        assert(right@[t] == g0[t - r0.len()]);
                    } else {
                        assert(right@[t] == e0[t + j + 1]);
                    }
                }
            }
        }
        (less, m, right)
    } else {
        let (mut left, m, right) = select_nth(coords, greater, k - nl - ne, axis);
        proof {
            lemma_member_has_index(greater@, m);
        }
        let ghost l0 = less@;
        let ghost g0 = left@;
        let ghost e0 = equal@;
        less.append(&mut equal);
        less.append(&mut left);
        proof {
            lemma_multiset_commutative(l0, e0);
            lemma_multiset_commutative(l0 + e0, g0);
            assert(all_at_most(coords@, less@, axis, key(coords@, m, axis))) by {
                assert forall|t: int| 0 <= t < less@.len() implies #[trigger] key(
                    coords@,
                    less@[t],
                    axis,
                ) <= key(coords@, m, axis) by {
                    if t >= l0.len() + e0.len() {
                        assert(less@[t] == g0[t - l0.len() - e0.len()]);
                    } else if t >= l0.len() {
                        assert(less@[t] == e0[t - l0.len()]);
                    }
                }
            }
        }
        (less, m, right)
    }
}

} // verus!
