//! The k-d tree: balanced construction, unbalanced insertion and nearest-neighbour search.

use vstd::prelude::*;
use vstd::arithmetic::power::pow;
use vstd::arithmetic::power2::{
    lemma_pow2, lemma_pow2_pos, lemma_pow2_strictly_increases, lemma_pow2_unfold, pow2,
};
use vstd::multiset::{group_multiset_axioms, Multiset};
use vstd::seq_lib::group_to_multiset_ensures;
use crate::distance;
use crate::distance::{axis_square, is_nearest_index, sq_dist};
use crate::kd_tree_traits::KdTreePoint;
use crate::select::{all_below, select_nth};

verus! {

broadcast use group_to_multiset_ensures, group_multiset_axioms;

/// Number of binary digits of `n`: 0 for 0, else `1 + bit_len(n / 2)`.
pub open spec fn bit_len(n: nat) -> nat
    decreases n,
{
    if n == 0 {
        0
    } else {
        1 + bit_len(n / 2)
    }
}

proof fn lemma_bit_len_monotone(a: nat, b: nat)
    requires
        a <= b,
    ensures
        bit_len(a) <= bit_len(b),
    decreases b,
{
    if a > 0 {
        lemma_bit_len_monotone(a / 2, b / 2);
    }
}

proof fn lemma_bit_len_at_most(n: nat)
    ensures
        bit_len(n) <= n,
    decreases n,
{
    if n > 0 {
        lemma_bit_len_at_most(n / 2);
    }
}

/// A tree built balanced over `n > 0` points has height `bit_len(n)`, which lies within one
/// of `log2(n)`: `2^(h - 1) <= n < 2^h`.
pub proof fn lemma_balanced_height_is_logarithmic(n: nat)
    requires
        n > 0,
    ensures
        pow2((bit_len(n) - 1) as nat) <= n < pow2(bit_len(n)),
    decreases n,
{
    broadcast use lemma_pow2_unfold;

    if n == 1 {
        assert(bit_len(0) == 0);
        lemma_pow2_unfold(1);
        assert(pow2(0) == 1) by {
            lemma_pow2(0);
            reveal(pow);
        }
    } else {
        lemma_balanced_height_is_logarithmic(n / 2);
        let b = bit_len(n / 2);
        assert(bit_len(n) == b + 1);
        lemma_pow2_unfold(b + 1);
        if b > 1 {
            lemma_pow2_unfold(b);
        }
    }
}

/// The axis that follows `axis` one level further down.
pub open spec fn next_axis(axis: nat, dim: nat) -> nat {
    if axis + 1 >= dim {
        0
    } else {
        axis + 1
    }
}

/// A point on the far side of a splitting plane is at least as far from the target as the
/// plane is, in squared distance.
proof fn lemma_beyond_plane(e: Seq<i32>, target: Seq<i32>, axis: int, split: int)
    requires
        0 <= axis < e.len(),
        (target[axis] < split && split <= e[axis]) || (e[axis] <= split && split <= target[axis]),
    ensures
        sq_dist(e, target) >= (target[axis] - split) * (target[axis] - split),
{
    distance::lemma_sq_dist_dominates_axis(e, target, axis);
    let near: int = if target[axis] < split {
        split - target[axis]
    } else {
        target[axis] - split
    };
    let far: int = if target[axis] < split {
        e[axis] - target[axis]
    } else {
        target[axis] - e[axis]
    };
    distance::lemma_square_monotone(near, far);
    assert(near * near == (target[axis] - split) * (target[axis] - split)) by (nonlinear_arith)
        requires
            near == split - target[axis] || near == target[axis] - split,
    ;
    assert(far * far == (e[axis] - target[axis]) * (e[axis] - target[axis])) by (nonlinear_arith)
        requires
            far == e[axis] - target[axis] || far == target[axis] - e[axis],
    ;
}

/// A stored coordinate together with the stable index of its point in the tree's storage.
#[derive(Clone, Copy, Debug)]
pub struct Point<const DIM: usize> {
    /// The point's coordinates.
    pub position: [i32; DIM],
    /// The point's stable index in the tree's storage.
    pub index: usize,
}

impl<const DIM: usize> Point<DIM> {
    /// Squared Euclidean distance from this point to `other`.
    fn squared_distance(&self, other: &[i32; DIM]) -> (r: u128)
        ensures
            r == sq_dist(self.position@, other@),
    {
        distance::squared_distance(&self.position, other)
    }
}

/// A node of the tree: one stored point and up to two subtrees. A `KdTree` keeps its nodes
/// to itself; contracts describe it through `KdTree::root_view`.
#[derive(Debug)]
pub struct Node<const DIM: usize> {
    /// The point that splits this subtree.
    pub point: Point<DIM>,
    /// The subtree on the lower side of the splitting plane.
    pub left: Option<Box<Node<DIM>>>,
    /// The subtree on the upper side of the splitting plane.
    pub right: Option<Box<Node<DIM>>>,
}

fn step_axis<const DIM: usize>(axis: usize) -> (r: usize)
    requires
        axis < DIM,
    ensures
        r == next_axis(axis as nat, DIM as nat),
        r < DIM,
{
    if axis + 1 >= DIM {
        0
    } else {
        axis + 1
    }
}

impl<const DIM: usize> Node<DIM> {
    pub open spec fn opt_entries(node: Option<Box<Node<DIM>>>) -> Set<Point<DIM>>
        decreases node,
    {
        match node {
            None => Set::empty(),
            Some(n) => n.entries(),
        }
    }

    /// The points stored in this subtree.
    pub open spec fn entries(self) -> Set<Point<DIM>>
        decreases self,
    {
        Self::opt_entries(self.left).union(Self::opt_entries(self.right)).insert(self.point)
    }

    pub open spec fn opt_index_counts(node: Option<Box<Node<DIM>>>) -> Multiset<usize>
        decreases node,
    {
        match node {
            None => Multiset::empty(),
            Some(n) => n.index_counts(),
        }
    }

    /// The stable indices held by the nodes of this subtree, each as often as it is held.
    pub open spec fn index_counts(self) -> Multiset<usize>
        decreases self,
    {
        Self::opt_index_counts(self.left).add(Self::opt_index_counts(self.right)).insert(
            self.point.index,
        )
    }

    pub open spec fn opt_inserted(node: Option<Box<Node<DIM>>>, leaf: Node<DIM>, axis: nat) -> Option<
        Box<Node<DIM>>,
    >
        decreases node,
    {
        match node {
            None => Some(Box::new(leaf)),
            Some(n) => Some(Box::new(n.inserted(leaf, axis))),
        }
    }

    /// This subtree, splitting along `axis`, with `leaf` attached: at each node it goes left
    /// when it lies strictly below the node's point along the node's axis, else right, until
    /// it fills an empty slot. Every other link stays as it was.
    pub open spec fn inserted(self, leaf: Node<DIM>, axis: nat) -> Node<DIM>
        decreases self,
    {
        let next = next_axis(axis, DIM as nat);
        if leaf.point.position@[axis as int] < self.point.position@[axis as int] {
            Node { point: self.point, left: Self::opt_inserted(self.left, leaf, next), right: self.right }
        } else {
            Node { point: self.point, left: self.left, right: Self::opt_inserted(self.right, leaf, next) }
        }
    }

    pub open spec fn opt_search(
        node: Option<Box<Node<DIM>>>,
        target: Seq<i32>,
        axis: nat,
        best: (Point<DIM>, int),
    ) -> (Point<DIM>, int)
        decreases node,
    {
        match node {
            None => best,
            Some(n) => n.search(target, axis, Some(best)),
        }
    }

    /// The branch-and-bound search of this subtree, splitting along `axis`, for the point
    /// nearest to `target`, starting from the candidate `best` (a point with its squared
    /// distance): the node replaces the candidate only when strictly nearer; then the
    /// subtree on the target's side of the splitting plane is searched, and the other one
    /// only when the squared distance to the plane is strictly below the best one found.
    pub open spec fn search(self, target: Seq<i32>, axis: nat, best: Option<(Point<DIM>, int)>) -> (
        Point<DIM>,
        int,
    )
        decreases self,
    {
        let d = sq_dist(self.point.position@, target);
        let b0 = match best {
            Some(b) => if d < b.1 {
                (self.point, d)
            } else {
                b
            },
            None => (self.point, d),
        };
        let split = self.point.position@[axis as int] as int;
        let t = target[axis as int] as int;
        let plane = (t - split) * (t - split);
        let next = next_axis(axis, DIM as nat);
        if t < split {
            let b1 = Self::opt_search(self.left, target, next, b0);
            if plane < b1.1 {
                Self::opt_search(self.right, target, next, b1)
            } else {
                b1
            }
        } else {
            let b1 = Self::opt_search(self.right, target, next, b0);
            if plane < b1.1 {
                Self::opt_search(self.left, target, next, b1)
            } else {
                b1
            }
        }
    }

    pub open spec fn best_view(best: Option<(&Point<DIM>, u128)>) -> Option<(Point<DIM>, int)> {
        match best {
            Some(b) => Some((*b.0, b.1 as int)),
            None => None,
        }
    }

    pub open spec fn opt_height(node: Option<Box<Node<DIM>>>) -> nat
        decreases node,
    {
        match node {
            None => 0,
            Some(n) => n.spec_height(),
        }
    }

    /// Number of nodes on the longest path from this node down to a leaf.
    pub open spec fn spec_height(self) -> nat
        decreases self,
    {
        let l = Self::opt_height(self.left);
        let r = Self::opt_height(self.right);
        1 + if l >= r {
            l
        } else {
            r
        }
    }

    /// A subtree of height `h` holds fewer than `2^h` nodes.
    proof fn lemma_count_below_pow2_height(node: Option<Box<Node<DIM>>>)
        ensures
            Self::opt_index_counts(node).len() < pow2(Self::opt_height(node)),
        decreases node,
    {
        match node {
            None => {
                lemma_pow2_pos(0);
            },
            Some(n) => {
                Self::lemma_count_below_pow2_height(n.left);
                Self::lemma_count_below_pow2_height(n.right);
                let h = n.spec_height();
                let hl = Self::opt_height(n.left);
                let hr = Self::opt_height(n.right);
                let below = (h - 1) as nat;
                lemma_pow2_unfold(h);
                if hl < below {
                    lemma_pow2_strictly_increases(hl, below);
                }
                if hr < below {
                    lemma_pow2_strictly_increases(hr, below);
                }
                assert(n.index_counts().len() == Self::opt_index_counts(n.left).len()
                    + Self::opt_index_counts(n.right).len() + 1);
            },
        }
    }

    pub open spec fn opt_median_split(node: Option<Box<Node<DIM>>>) -> bool
        decreases node,
    {
        match node {
            None => true,
            Some(n) => n.median_split(),
        }
    }

    /// Every node of this subtree has `c / 2` nodes in its left subtree, where `c` counts the
    /// nodes of its own subtree: with `ordered`, each node holds a median of its subtree
    /// along its axis.
    pub open spec fn median_split(self) -> bool
        decreases self,
    {
        &&& Self::opt_index_counts(self.left).len() == self.index_counts().len() / 2
        &&& Self::opt_median_split(self.left)
        &&& Self::opt_median_split(self.right)
    }

    pub open spec fn opt_ordered(node: Option<Box<Node<DIM>>>, axis: nat) -> bool
        decreases node,
    {
        match node {
            None => true,
            Some(n) => n.ordered(axis),
        }
    }

    /// This node splits along `axis`, its children along the next axis, and so on down:
    /// every point of the left subtree lies at or below this node's point along the
    /// splitting axis, every point of the right subtree at or above it.
    pub open spec fn ordered(self, axis: nat) -> bool
        decreases self,
    {
        &&& axis < DIM
        &&& forall|e: Point<DIM>| #[trigger]
            Self::opt_entries(self.left).contains(e) ==> e.position@[axis as int]
                <= self.point.position@[axis as int]
        &&& forall|e: Point<DIM>| #[trigger]
            Self::opt_entries(self.right).contains(e) ==> e.position@[axis as int]
                >= self.point.position@[axis as int]
        &&& Self::opt_ordered(self.left, next_axis(axis, DIM as nat))
        &&& Self::opt_ordered(self.right, next_axis(axis, DIM as nat))
    }

    fn is_leaf(&self) -> (r: bool)
        ensures
            r == (self.left is None && self.right is None),
    {
        self.left.is_none() && self.right.is_none()
    }

    /// `depth` plus the height of this subtree.
    fn height(&self, depth: usize) -> (r: usize)
        requires
            depth + self.spec_height() <= usize::MAX,
        ensures
            r == depth + self.spec_height(),
        decreases self,
    {
        if self.is_leaf() {
            depth + 1
        } else {
            let r = match &self.right {
                Some(n) => n.height(depth + 1),
                None => 0,
            };
            let l = match &self.left {
                Some(n) => n.height(depth + 1),
                None => 0,
            };
            if r >= l {
                r
            } else {
                l
            }
        }
    }

    /// Builds a balanced subtree over the points that `indices` lists, splitting along
    /// `axis` at the root: the root holds the median along that axis, and each half is
    /// built the same way one axis further.
    fn construct_kdtree(coords: &Vec<[i32; DIM]>, indices: Vec<usize>, axis: usize) -> (r: Option<
        Box<Node<DIM>>,
    >)
        requires
            axis < DIM,
            all_below(indices@, coords.len() as int),
        ensures
            Self::opt_ordered(r, axis as nat),
            forall|e: Point<DIM>| #[trigger]
                Self::opt_entries(r).contains(e) <==> (indices@.contains(e.index) && e.position
                    == coords@[e.index as int]),
            Self::opt_height(r) == bit_len(indices.len() as nat),
            Self::opt_index_counts(r) == indices@.to_multiset(),
            r is None <==> indices.len() == 0,
            r is Some ==> Self::opt_index_counts(r.unwrap().left).len() == indices.len() / 2,
            r is Some ==> Self::opt_index_counts(r.unwrap().right).len() == indices.len() - indices.len()
                / 2 - 1,
            Self::opt_median_split(r),
        decreases indices.len(),
    {
        if indices.len() == 0 {
            assert(indices@.to_multiset() =~= Multiset::empty());
            return None;
        }
        let ghost all = indices@;
        let median = indices.len() / 2;
        let (left, index, right) = select_nth(coords, indices, median, axis);
        let ghost lv = left@;
        let ghost rv = right@;
        let next = step_axis::<DIM>(axis);
        let left = Self::construct_kdtree(coords, left, next);
        let right = Self::construct_kdtree(coords, right, next);
        let point = Point { position: coords[index], index };
        let node = Node { point, left, right };
        proof {
            assert forall|e: Point<DIM>| #[trigger]
                Self::opt_entries(left).contains(e) implies e.position@[axis as int]
                <= point.position@[axis as int] by {
                let t = choose|t: int| 0 <= t < lv.len() && lv[t] == e.index;
                assert(lv[t] == e.index);
            }
            assert forall|e: Point<DIM>| #[trigger]
                Self::opt_entries(right).contains(e) implies e.position@[axis as int]
                >= point.position@[axis as int] by {
                let t = choose|t: int| 0 <= t < rv.len() && rv[t] == e.index;
                assert(rv[t] == e.index);
            }
            assert forall|e: Point<DIM>| #[trigger]
                node.entries().contains(e) <==> (all.contains(e.index) && e.position
                    == coords@[e.index as int]) by {
                let x = e.index;
                assert(all.to_multiset().count(x) == lv.to_multiset().count(x) + (if x == index {
                    1int
                } else {
                    0int
                }) + rv.to_multiset().count(x));
                assert(all.contains(x) <==> all.to_multiset().count(x) > 0);
                assert(lv.contains(x) <==> lv.to_multiset().count(x) > 0);
                assert(rv.contains(x) <==> rv.to_multiset().count(x) > 0);
                assert(node.entries() == Self::opt_entries(left).union(
                    Self::opt_entries(right),
                ).insert(point));
            }
            let n = all.len() as nat;
            lemma_bit_len_monotone((n - n / 2 - 1) as nat, n / 2);
        }
        let r = Some(Box::new(node));
        assert(Self::opt_entries(r) == node.entries());
        assert(Self::opt_index_counts(r) == node.index_counts());
        assert(node.index_counts() =~= all.to_multiset());
        r
    }

    /// Finds the point of this subtree nearest to `target`, starting from the candidate
    /// `best` (a point with its squared distance to `target`), and returns the better of the
    /// two with its squared distance. A candidate is replaced only by a strictly closer
    /// point, so among equally near points the one found first is kept.
    ///
    /// The subtree on the target's side of the splitting plane is searched first; the other
    /// one only while the plane is strictly closer than the best point so far.
    fn nearest<'a>(
        &'a self,
        target: &[i32; DIM],
        axis: usize,
        best: Option<(&'a Point<DIM>, u128)>,
    ) -> (r: (&'a Point<DIM>, u128))
        requires
            self.ordered(axis as nat),
            best is Some ==> best.unwrap().1 == sq_dist(best.unwrap().0.position@, target@),
        ensures
            r.1 == sq_dist(r.0.position@, target@),
            self.entries().contains(*r.0) || (best is Some && r == best.unwrap()),
            best is Some ==> r.1 <= best.unwrap().1,
            forall|e: Point<DIM>| #[trigger]
                self.entries().contains(e) ==> r.1 <= sq_dist(e.position@, target@),
            best is Some && (forall|e: Point<DIM>| #[trigger]
                self.entries().contains(e) ==> best.unwrap().1 <= sq_dist(e.position@, target@))
                ==> r == best.unwrap(),
            (*r.0, r.1 as int) == self.search(target@, axis as nat, Self::best_view(best)),
        decreases self,
    {
        let ghost start = best;
        let ghost whole = self.entries();
        assert(whole == Self::opt_entries(self.left).union(Self::opt_entries(self.right)).insert(
            self.point,
        ));
        let ghost optimal_start = start is Some && (forall|e: Point<DIM>| #[trigger]
            whole.contains(e) ==> start.unwrap().1 <= sq_dist(e.position@, target@));
        let point = &self.point;
        let self_distance = point.squared_distance(target);
        let best: (&Point<DIM>, u128) = match best {
            Some(b) => if self_distance < b.1 {
                (point, self_distance)
            } else {
                b
            },
            None => (point, self_distance),
        };
        proof {
            if optimal_start {
                assert(whole.contains(self.point));
                assert(best == start.unwrap());
            }
        }
        let split = point.position[axis];
        let t = target[axis];
        let goes_left = t < split;
        let (next, opposite) = if goes_left {
            (&self.left, &self.right)
        } else {
            (&self.right, &self.left)
        };
        let next_axis = step_axis::<DIM>(axis);
        let ghost b0 = best;
        let best = match next {
            Some(n) => {
                assert(n.entries() == Self::opt_entries(*next));
                proof {
                    if optimal_start {
                        assert forall|e: Point<DIM>| #[trigger]
                            n.entries().contains(e) implies b0.1 <= sq_dist(
                            e.position@,
                            target@,
                        ) by {
                            assert(whole.contains(e));
                        }
                    }
                }
                n.nearest(target, next_axis, Some(best))
            },
            None => best,
        };
        proof {
            assert forall|e: Point<DIM>| #[trigger]
                Self::opt_entries(*next).contains(e) implies best.1 <= sq_dist(
                e.position@,
                target@,
            ) by {
                if let Some(n) = next {
                    assert(n.entries() == Self::opt_entries(*next));
                }
            }
            if optimal_start {
                assert(best == b0);
            }
        }
        let plane = axis_square(t, split);
        let ghost b1 = best;
        let r = if plane < best.1 {
            match opposite {
                Some(n) => {
                    assert(n.entries() == Self::opt_entries(*opposite));
                    proof {
                        if optimal_start {
                            assert forall|e: Point<DIM>| #[trigger]
                                n.entries().contains(e) implies b1.1 <= sq_dist(
                                e.position@,
                                target@,
                            ) by {
                                assert(whole.contains(e));
                            }
                        }
                    }
                    n.nearest(target, next_axis, Some(best))
                },
                None => best,
            }
        } else {
            proof {
                assert forall|e: Point<DIM>| #[trigger]
                    Self::opt_entries(*opposite).contains(e) implies best.1 <= sq_dist(
                    e.position@,
                    target@,
                ) by {
                    lemma_beyond_plane(e.position@, target@, axis as int, split as int);
                }
            }
            best
        };
        proof {
            assert forall|e: Point<DIM>| #[trigger]
                Self::opt_entries(*opposite).contains(e) implies r.1 <= sq_dist(
                e.position@,
                target@,
            ) by {
                if let Some(n) = opposite {
                    assert(n.entries() == Self::opt_entries(*opposite));
                }
            }
            if optimal_start {
                assert(r == b1);
            }
        }
        r
    }

    /// Attaches the leaf `new_node` below this node, which splits along `axis`: at each node
    /// it goes left when it lies strictly below the node's point along that node's axis, else
    /// right, until it reaches an empty slot. Nothing is rebalanced.
    fn add_node(&mut self, new_node: Node<DIM>, axis: usize)
        requires
            old(self).ordered(axis as nat),
            new_node.left is None,
            new_node.right is None,
        ensures
            final(self).ordered(axis as nat),
            final(self).entries() == old(self).entries().insert(new_node.point),
            final(self).spec_height() <= old(self).spec_height() + 1,
            final(self).spec_height() >= old(self).spec_height(),
            final(self).index_counts() == old(self).index_counts().insert(new_node.point.index),
            final(self).point == old(self).point,
            new_node.point.position@[axis as int] < old(self).point.position@[axis as int] ==> {
                &&& final(self).right == old(self).right
                &&& final(self).left == Self::opt_inserted(
                    old(self).left,
                    new_node,
                    next_axis(axis as nat, DIM as nat),
                )
            },
            new_node.point.position@[axis as int] >= old(self).point.position@[axis as int] ==> {
                &&& final(self).left == old(self).left
                &&& final(self).right == Self::opt_inserted(
                    old(self).right,
                    new_node,
                    next_axis(axis as nat, DIM as nat),
                )
            },
            *final(self) == old(self).inserted(new_node, axis as nat),
        decreases *old(self),
    {
        let next_axis = step_axis::<DIM>(axis);
        if new_node.point.position[axis] < self.point.position[axis] {
            Self::add_to_optional(&mut self.left, new_node, next_axis);
        } else {
            Self::add_to_optional(&mut self.right, new_node, next_axis);
        }
        assert(self.entries() == Self::opt_entries(self.left).union(
            Self::opt_entries(self.right),
        ).insert(self.point));
        assert(self.index_counts() =~= old(self).index_counts().insert(new_node.point.index));
    }

    /// Attaches the leaf `new_node` in the possibly empty subtree `node`, which splits along
    /// `axis`.
    fn add_to_optional(node: &mut Option<Box<Node<DIM>>>, new_node: Node<DIM>, axis: usize)
        requires
            Self::opt_ordered(*old(node), axis as nat),
            axis < DIM,
            new_node.left is None,
            new_node.right is None,
        ensures
            Self::opt_ordered(*final(node), axis as nat),
            Self::opt_entries(*final(node)) == Self::opt_entries(*old(node)).insert(
                new_node.point,
            ),
            Self::opt_height(*final(node)) <= Self::opt_height(*old(node)) + 1,
            Self::opt_height(*final(node)) >= Self::opt_height(*old(node)),
            Self::opt_index_counts(*final(node)) == Self::opt_index_counts(*old(node)).insert(
                new_node.point.index,
            ),
            *old(node) is None ==> *final(node) == Some(Box::new(new_node)),
            *final(node) == Self::opt_inserted(*old(node), new_node, axis as nat),
        decreases *old(node),
    {
        match node.take() {
            None => {
                let leaf = new_node;
                assert(leaf.entries() == Set::<Point<DIM>>::empty().union(
                    Set::<Point<DIM>>::empty(),
                ).insert(leaf.point));
                assert(Self::opt_entries(leaf.left) == Set::<Point<DIM>>::empty());
                assert(Self::opt_entries(leaf.right) == Set::<Point<DIM>>::empty());
                assert(leaf.ordered(axis as nat));
                assert(leaf.index_counts() =~= Multiset::empty().insert(leaf.point.index));
                *node = Some(Box::new(leaf));
            },
            Some(mut boxed) => {
                boxed.add_node(new_node, axis);
                *node = Some(boxed);
            },
        }
    }
}

/// A k-d tree over points of type `POINT` with `DIM` integer coordinates each.
///
/// The tree owns its points in the order in which they were given or added; a point's
/// position in that order is its stable index, which never changes. With `DIM == 0` there
/// is no axis to split on: the points are kept, but no tree is built over them and every
/// search finds nothing.
#[derive(Debug)]
pub struct KdTree<const DIM: usize, POINT: KdTreePoint<DIM>> {
    root: Option<Box<Node<DIM>>>,
    points: Vec<POINT>,
}

impl<const DIM: usize, POINT: KdTreePoint<DIM>> View for KdTree<DIM, POINT> {
    type V = Seq<POINT>;

    /// The stored points, by stable index.
    closed spec fn view(&self) -> Seq<POINT> {
        self.points@
    }
}

impl<const DIM: usize, POINT: KdTreePoint<DIM>> KdTree<DIM, POINT> {
    /// The coordinates of the stored points, by stable index.
    pub open spec fn coords(&self) -> Seq<Seq<i32>> {
        self@.map_values(|p: POINT| p.kd_coords())
    }

    /// The height of the tree: 0 when it is empty, else the number of nodes on its
    /// longest path from the root.
    pub open spec fn spec_height(&self) -> nat {
        Node::<DIM>::opt_height(self.root_view())
    }

    /// The tree's nodes, from the root.
    pub closed spec fn root_view(&self) -> Option<Box<Node<DIM>>> {
        self.root
    }

    /// Some node of the tree holds the point with stable index `i`.
    pub open spec fn stores_index(&self, i: int) -> bool {
        exists|e: Point<DIM>| #[trigger]
            Node::<DIM>::opt_entries(self.root_view()).contains(e) && e.index == i
    }

    /// The tree's invariant: the nodes hold exactly the stored points (each with its own
    /// coordinates), split along axis `depth mod DIM` at depth `depth`, and the tree is
    /// no higher than the number of points.
    pub open spec fn well_formed(&self) -> bool {
        &&& DIM == 0 ==> self.root_view() is None
        &&& DIM > 0 ==> (self.root_view() is None <==> self@.len() == 0)
        &&& DIM > 0 ==> Node::<DIM>::opt_ordered(self.root_view(), 0)
        &&& forall|e: Point<DIM>| #[trigger]
            Node::<DIM>::opt_entries(self.root_view()).contains(e) ==> e.index < self@.len()
                && self.coords()[e.index as int] == e.position@
        &&& DIM > 0 ==> forall|i: int| 0 <= i < self@.len() ==> #[trigger] self.stores_index(i)
        &&& Node::<DIM>::opt_height(self.root_view()) <= self@.len()
        &&& DIM > 0 ==> Node::<DIM>::opt_index_counts(self.root_view()).len() == self@.len()
        &&& forall|i: usize| #[trigger]
            Node::<DIM>::opt_index_counts(self.root_view()).count(i) == if DIM > 0 && i
                < self@.len() {
                1nat
            } else {
                0nat
            }
    }

    /// The stable index of the point that the branch-and-bound search for `target` returns,
    /// or `None` when the tree has no node. Among equally near points it is the first one
    /// that the search meets.
    pub open spec fn search_index(&self, target: Seq<i32>) -> Option<int> {
        match self.root_view() {
            None => None,
            Some(n) => Some(n.search(target, 0, None).0.index as int),
        }
    }

    /// `self` is `before` with `point` attached as a new leaf, under the next stable index,
    /// at the end of its insertion path; every other node keeps its parent and side.
    pub open spec fn is_insertion_into(&self, before: Self, point: POINT) -> bool {
        exists|position: [i32; DIM]|
            position@ == point.kd_coords() && self.root_view() == Node::<DIM>::opt_inserted(
                before.root_view(),
                Node {
                    point: Point { position, index: before@.len() as usize },
                    left: None,
                    right: None,
                },
                0,
            )
    }

    /// In a well-formed tree of positive dimension every stored point has `DIM` coordinates.
    proof fn lemma_coords_have_dimension(&self, i: int)
        requires
            self.well_formed(),
            DIM > 0,
            0 <= i < self@.len(),
        ensures
            self.coords()[i].len() == DIM,
    {
        assert(self.stores_index(i));
        let e = choose|e: Point<DIM>|
            #[trigger] Node::<DIM>::opt_entries(self.root).contains(e) && e.index == i;
        assert(self.coords()[e.index as int] == e.position@);
    }

    /// A search for the coordinates of a stored point finds a point with exactly those
    /// coordinates: that point itself or a duplicate of it. (Trees of dimension 0 find
    /// nothing.)
    pub proof fn lemma_stored_point_is_found(&self, j: int, i: int)
        requires
            self.well_formed(),
            DIM > 0,
            0 <= j < self@.len(),
            is_nearest_index(self.coords(), self.coords()[j], i),
        ensures
            self.coords()[i] == self.coords()[j],
    {
        self.lemma_coords_have_dimension(i);
        self.lemma_coords_have_dimension(j);
        distance::lemma_stored_point_found_at_zero(self.coords(), j, i);
    }

    /// Once `point` is added to `before`, giving `after`, and it is strictly nearer to
    /// `target` than every point stored before, a search of `after` for `target` can only
    /// return `point`.
    pub proof fn lemma_added_nearer_point_is_found(
        before: Self,
        after: Self,
        point: POINT,
        target: Seq<i32>,
        i: int,
    )
        requires
            after@ == before@.push(point),
            forall|j: int|
                0 <= j < before@.len() ==> sq_dist(point.kd_coords(), target) < #[trigger] sq_dist(
                    before.coords()[j],
                    target,
                ),
            is_nearest_index(after.coords(), target, i),
        ensures
            i == before@.len(),
            after@[i] == point,
    {
        assert(after.coords() =~= before.coords().push(point.kd_coords()));
        distance::lemma_strictly_nearer_added_point(before.coords(), point.kd_coords(), target, i);
    }

    /// Returns a stored point nearest to `coord` in squared Euclidean distance, or `None`
    /// when the tree holds no point or has dimension 0. Among equally near points, the
    /// search keeps the first one it meets.
    pub fn nearest_by_coord(&self, coord: &[i32; DIM]) -> (r: Option<&POINT>)
        requires
            self.well_formed(),
        ensures
            r is None <==> (DIM == 0 || self@.len() == 0),
            r is Some ==> exists|i: int|
                is_nearest_index(self.coords(), coord@, i) && r == Some(&self@[i]),
            r is Some <==> self.search_index(coord@) is Some,
            r is Some ==> r == Some(&self@[self.search_index(coord@).unwrap()]),
    {
        match &self.root {
            None => None,
            Some(root) => {
                let (best, _) = root.nearest(coord, 0, None);
                let i = best.index;
                proof {
                    assert(Node::<DIM>::opt_entries(self.root) == root.entries());
                    assert forall|j: int| 0 <= j < self@.len() implies sq_dist(
                        self.coords()[i as int],
                        coord@,
                    ) <= #[trigger] sq_dist(self.coords()[j], coord@) by {
                        assert(self.stores_index(j));
                        let e = choose|e: Point<DIM>|
                            #[trigger] Node::<DIM>::opt_entries(self.root).contains(e) && e.index
                                == j;
                        assert(root.entries().contains(e));
                    }
                    assert(is_nearest_index(self.coords(), coord@, i as int));
                }
                Some(&self.points[i])
            },
        }
    }

    /// Returns a stored point nearest to `target` in squared Euclidean distance, or `None`
    /// when the tree holds no point or has dimension 0.
    pub fn nearest(&self, target: &POINT) -> (r: Option<&POINT>)
        requires
            self.well_formed(),
        ensures
            r is None <==> (DIM == 0 || self@.len() == 0),
            r is Some ==> exists|i: int|
                is_nearest_index(self.coords(), target.kd_coords(), i) && r == Some(&self@[i]),
            r is Some <==> self.search_index(target.kd_coords()) is Some,
            r is Some ==> r == Some(&self@[self.search_index(target.kd_coords()).unwrap()]),
    {
        let coord = target.as_kdtree_point();
        self.nearest_by_coord(&coord)
    }

    /// Stores `point` under the next stable index and attaches it below the existing nodes,
    /// without rebalancing.
    pub fn add_point(&mut self, point: POINT)
        requires
            old(self).well_formed(),
        ensures
            final(self).well_formed(),
            final(self)@ == old(self)@.push(point),
            final(self).spec_height() <= old(self).spec_height() + 1,
            final(self).spec_height() >= old(self).spec_height(),
            DIM > 0 ==> final(self).is_insertion_into(*old(self), point),
    {
        let ghost pre = *self;
        let position = point.as_kdtree_point();
        let index = self.points.len();
        self.points.push(point);
        if DIM > 0 {
            let new_node = Node { point: Point { position, index }, left: None, right: None };
            Node::add_to_optional(&mut self.root, new_node, 0);
        }
        proof {
            assert(self.coords() =~= pre.coords().push(point.kd_coords()));
            assert forall|e: Point<DIM>| #[trigger]
                Node::<DIM>::opt_entries(self.root).contains(e) implies e.index
                < self.points@.len() && self.coords()[e.index as int] == e.position@ by {
                if Node::<DIM>::opt_entries(pre.root).contains(e) {
                    assert(e.index < pre.points@.len());
                }
            }
            if DIM > 0 {
                assert forall|j: int| 0 <= j < self.points@.len() implies #[trigger]
                    self.stores_index(j) by {
                    if j < index {
                        assert(pre.stores_index(j));
                        let e = choose|e: Point<DIM>|
                            #[trigger] Node::<DIM>::opt_entries(pre.root).contains(e) && e.index
                                == j;
                        assert(Node::<DIM>::opt_entries(self.root).contains(e));
                    } else {
                        let e = Point::<DIM> { position, index };
                        assert(Node::<DIM>::opt_entries(self.root).contains(e));
                    }
                }
                assert(Node::<DIM>::opt_entries(self.root).contains(Point::<DIM> { position, index }));
                assert(self.root == Node::<DIM>::opt_inserted(
                    pre.root,
                    Node { point: Point { position, index }, left: None, right: None },
                    0,
                ));
                assert(self.is_insertion_into(pre, point));
            }
        }
    }

    /// Whether the tree has no node: it holds no point, or has dimension 0.
    pub fn is_empty(&self) -> (r: bool)
        requires
            self.well_formed(),
        ensures
            r == (DIM == 0 || self@.len() == 0),
    {
        self.root.is_none()
    }

    /// The number of stored points.
    pub fn size(&self) -> (r: usize)
        ensures
            r == self@.len(),
    {
        self.points.len()
    }

    /// The height of the tree: 0 when it has no node.
    pub fn height(&self) -> (r: usize)
        requires
            self.well_formed(),
        ensures
            r == self.spec_height(),
            r <= self@.len(),
            r == 0 <==> (DIM == 0 || self@.len() == 0),
            DIM > 0 ==> self@.len() < pow2(r as nat),
    {
        proof {
            Node::<DIM>::lemma_count_below_pow2_height(self.root);
        }
        // The height is bounded by the number of points, whose count is a `usize`.
        let count = self.points.len();
        assert(self.spec_height() <= count);
        match &self.root {
            Some(root) => root.height(0),
            None => 0,
        }
    }
}

impl<const DIM: usize> Clone for Node<DIM> {
    /// A copy of the whole subtree.
    fn clone(&self) -> (r: Self)
        ensures
            r == *self,
        decreases self,
    {
        let left = match &self.left {
            Some(n) => Some(Box::new((&**n).clone())),
            None => None,
        };
        let right = match &self.right {
            Some(n) => Some(Box::new((&**n).clone())),
            None => None,
        };
        Node { point: self.point, left, right }
    }
}

impl<const DIM: usize, POINT: KdTreePoint<DIM> + Clone> Clone for KdTree<DIM, POINT> {
    /// A copy with the same nodes and a clone of each stored point. When every clone keeps
    /// its point's coordinates, the copy is a well-formed tree exactly when the original is.
    fn clone(&self) -> (r: Self)
        ensures
            r@.len() == self@.len(),
            forall|i: int| 0 <= i < self@.len() ==> cloned::<POINT>(self@[i], r@[i]),
            r.root_view() == self.root_view(),
            self.well_formed() && r.coords() == self.coords() ==> r.well_formed(),
    {
        let root = match &self.root {
            Some(n) => Some(Box::new((&**n).clone())),
            None => None,
        };
        let r = KdTree { root, points: self.points.clone() };
        proof {
            if DIM > 0 && self.well_formed() && r.coords() == self.coords() {
                assert forall|i: int| 0 <= i < r.points@.len() implies #[trigger] r.stores_index(
                    i,
                ) by {
                    assert(self.stores_index(i));
                }
            }
        }
        r
    }
}

impl<const DIM: usize, POINT: KdTreePoint<DIM>> From<Vec<POINT>> for KdTree<DIM, POINT> {
    /// Builds a balanced tree over `value`, which the tree takes over in its order.
    fn from(value: Vec<POINT>) -> (r: Self)
        ensures
            r.well_formed(),
            r@ == value@,
            DIM > 0 ==> r.spec_height() == bit_len(value@.len()),
            DIM > 0 ==> Node::<DIM>::opt_median_split(r.root_view()),
            DIM == 0 ==> r.spec_height() == 0,
    {
        if DIM == 0 {
            return KdTree { root: None, points: value };
        }
        let n = value.len();
        let mut coords: Vec<[i32; DIM]> = Vec::new();
        let mut indices: Vec<usize> = Vec::new();
        let mut i: usize = 0;
        while i < n
            invariant
                n == value.len(),
                i <= n,
                coords.len() == i,
                indices.len() == i,
                forall|j: int| 0 <= j < i ==> #[trigger] indices@[j] == j,
                forall|x: usize| #[trigger]
                    indices@.to_multiset().count(x) == if x < i {
                        1nat
                    } else {
                        0nat
                    },
                forall|j: int| 0 <= j < i ==> #[trigger] coords@[j]@ == value@[j].kd_coords(),
            decreases n - i,
        {
            coords.push(value[i].as_kdtree_point());
            proof {
                assert(indices@.push(i).to_multiset() == indices@.to_multiset().insert(i));
            }
            indices.push(i);
            i = i + 1;
        }
        let ghost all = indices@;
        let root = Node::construct_kdtree(&coords, indices, 0);
        let r = KdTree { root, points: value };
        proof {
            assert forall|j: int| 0 <= j < n implies #[trigger] r.stores_index(j) by {
                let e = Point::<DIM> { position: coords@[j], index: j as usize };
                assert(all[j] == j);
                assert(Node::<DIM>::opt_entries(r.root).contains(e));
            }
            lemma_bit_len_at_most(n as nat);
        }
        r
    }
}

impl<const DIM: usize, POINT: KdTreePoint<DIM>> vstd::std_specs::convert::FromSpecImpl<Vec<POINT>> for KdTree<DIM, POINT> {
    /// The tree that `from` builds depends on how the median selection orders equal
    /// coordinates, so `from` is specified by its own `ensures` only.
    open spec fn obeys_from_spec() -> bool {
        false
    }

    open spec fn from_spec(v: Vec<POINT>) -> Self {
        arbitrary()
    }
}

} // verus!
