//! How a point type exposes its coordinates to the tree.

use vstd::prelude::*;

verus! {

/// A value that can be placed in a `KdTree` of dimension `DIM`.
///
/// The coordinates of a value are fixed: `kd_coords` says what they are, and
/// `as_kdtree_point` computes them.
pub trait KdTreePoint<const DIM: usize> {
    /// The coordinates of this point.
    spec fn kd_coords(&self) -> Seq<i32>;

    /// Computes the coordinates of this point.
    fn as_kdtree_point(&self) -> (r: [i32; DIM])
        ensures
            r@ == self.kd_coords(),
    ;
}

impl<const DIM: usize> KdTreePoint<DIM> for [i32; DIM] {
    open spec fn kd_coords(&self) -> Seq<i32> {
        self@
    }

    fn as_kdtree_point(&self) -> (r: [i32; DIM]) {
        *self
    }
}

impl KdTreePoint<1> for i32 {
    open spec fn kd_coords(&self) -> Seq<i32> {
        seq![*self]
    }

    fn as_kdtree_point(&self) -> (r: [i32; 1]) {
        let r = [*self];
        assert(r@ =~= seq![*self]);
        r
    }
}

impl KdTreePoint<2> for (i32, i32) {
    open spec fn kd_coords(&self) -> Seq<i32> {
        seq![self.0, self.1]
    }

    fn as_kdtree_point(&self) -> (r: [i32; 2]) {
        let r = [self.0, self.1];
        assert(r@ =~= seq![self.0, self.1]);
        r
    }
}

impl KdTreePoint<3> for (i32, i32, i32) {
    open spec fn kd_coords(&self) -> Seq<i32> {
        seq![self.0, self.1, self.2]
    }

    fn as_kdtree_point(&self) -> (r: [i32; 3]) {
        let r = [self.0, self.1, self.2];
        assert(r@ =~= seq![self.0, self.1, self.2]);
        r
    }
}

impl KdTreePoint<4> for (i32, i32, i32, i32) {
    open spec fn kd_coords(&self) -> Seq<i32> {
        seq![self.0, self.1, self.2, self.3]
    }

    fn as_kdtree_point(&self) -> (r: [i32; 4]) {
        let r = [self.0, self.1, self.2, self.3];
        assert(r@ =~= seq![self.0, self.1, self.2, self.3]);
        r
    }
}

} // verus!
