//! An oriented splitting plane of the vector space, built from a pair of
//! sampled points, with a membership test for the positive side.

use vstd::prelude::*;

use crate::vector::{
    avg_coord, coords_bounded, spec_dot, Vector, COORD_BOUND, MAX_DIM,
};

verus! {

/// The positive-side test as a mathematical statement: the point `p` lies
/// on or above the plane `{x : coeffs . x + konst >= 0}`. A point exactly
/// on the plane counts as above; that tie-break is deliberate and kept for
/// reproducibility.
pub open spec fn spec_is_above(coeffs: Seq<i64>, konst: int, p: Seq<i64>) -> bool {
    spec_dot(coeffs, p) + konst >= 0
}

/// An oriented splitting plane `{x : coefficients . x + constant >= 0}`.
/// Immutable after construction; owned by the inner tree node that splits
/// on it.
pub struct HyperPlane {
    pub coefficients: Vector,
    pub constant: i64,
}

impl HyperPlane {
    /// A plane whose coefficients came from a difference of two points of
    /// dimension `dim` and whose constant came from a dot product against a
    /// point: the shape every plane of a built tree has, and enough to keep
    /// the membership test's arithmetic exact.
    pub open spec fn valid(&self, dim: nat) -> bool {
        &&& self.coefficients@.len() == dim
        &&& dim <= MAX_DIM
        &&& coords_bounded(self.coefficients@, 2 * COORD_BOUND as int)
        &&& -(MAX_DIM as int) * (2 * COORD_BOUND as int) * (COORD_BOUND as int) <= self.constant
            <= (MAX_DIM as int) * (2 * COORD_BOUND as int) * (COORD_BOUND as int)
    }

    /// Whether `point` lies on the positive side of the plane (ties count
    /// as above).
    pub fn point_is_above(&self, point: &Vector) -> (r: bool)
        requires
            self.valid(point@.len()),
            point.valid(),
        ensures
            r == spec_is_above(self.coefficients@, self.constant as int, point@),
    {
        proof {
            crate::vector::lemma_spec_dot_bound(self.coefficients@, point@);
        }
        self.coefficients.dot_prod(point) + self.constant >= 0
    }
}

/// The coordinate-wise midpoint of two coordinate sequences, rounded down.
pub open spec fn mid_of(a: Seq<i64>, b: Seq<i64>) -> Seq<i64> {
    Seq::new(a.len(), |i: int| avg_coord(a[i], b[i]))
}

/// The plane `{x : coeffs . x + konst >= 0}` is the one built from the
/// point pair `(a, b)`: its coefficients are the difference `a - b` and
/// its constant is the negated dot product of the coefficients with the
/// midpoint of `a` and `b`.
pub open spec fn plane_built_from(coeffs: Seq<i64>, konst: int, a: Seq<i64>, b: Seq<i64>) -> bool {
    &&& a.len() == b.len()
    &&& coeffs.len() == a.len()
    &&& (forall|i: int| 0 <= i < a.len() ==> coeffs[i] == a[i] - b[i])
    &&& konst == -spec_dot(coeffs, mid_of(a, b))
}

/// Hyperplane consistency: the plane built from two points reports their
/// midpoint as lying on its positive side — the tie lands on "above".
pub proof fn lemma_midpoint_is_above(coeffs: Seq<i64>, konst: int, a: Seq<i64>, b: Seq<i64>)
    requires
        plane_built_from(coeffs, konst, a, b),
    ensures
        spec_is_above(coeffs, konst, mid_of(a, b)),
{
}

} // verus!
