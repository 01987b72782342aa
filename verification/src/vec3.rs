//! Triples of coordinates: points and directions of the scene, as far as the
//! library compares them.

use vstd::prelude::*;
use crate::scalar::Scalar;

verus! {

/// Three coordinates, one per axis.
#[derive(Clone, Copy, Debug, PartialEq, Eq, Structural)]
pub struct Vec3 {
    e0: Scalar,
    e1: Scalar,
    e2: Scalar,
}

/// A position in the scene.
pub type Point3 = Vec3;

impl Vec3 {
    /// Coordinate on the given axis; axes past the third read as the third.
    pub closed spec fn axis(self, a: int) -> Scalar {
        if a == 0 {
            self.e0
        } else if a == 1 {
            self.e1
        } else {
            self.e2
        }
    }

    /// No coordinate is a NaN.
    pub open spec fn numeric(self) -> bool {
        forall|a: int| 0 <= a < 3 ==> !(#[trigger] self.axis(a)).nan()
    }

    pub fn new(e0: Scalar, e1: Scalar, e2: Scalar) -> (v: Vec3)
        ensures
            v.axis(0) == e0,
            v.axis(1) == e1,
            v.axis(2) == e2,
    {
        Vec3 { e0, e1, e2 }
    }

    pub fn x(self) -> (r: Scalar)
        ensures
            r == self.axis(0),
    {
        self.e0
    }

    pub fn y(self) -> (r: Scalar)
        ensures
            r == self.axis(1),
    {
        self.e1
    }

    pub fn z(self) -> (r: Scalar)
        ensures
            r == self.axis(2),
    {
        self.e2
    }

    /// Coordinate on axis `a`.
    pub fn index(self, a: usize) -> (r: Scalar)
        requires
            a < 3,
        ensures
            r == self.axis(a as int),
    {
        if a == 0 {
            self.e0
        } else if a == 1 {
            self.e1
        } else {
            self.e2
        }
    }

    /// The origin.
    pub fn zero() -> (v: Vec3)
        ensures
            forall|a: int| 0 <= a < 3 ==> (#[trigger] v.axis(a)).key == 0,
    {
        Vec3 { e0: Scalar::zero(), e1: Scalar::zero(), e2: Scalar::zero() }
    }

    /// The triple of the lesser coordinates.
    pub closed spec fn lower(self, v: Vec3) -> Vec3 {
        Vec3 { e0: self.e0.lower(v.e0), e1: self.e1.lower(v.e1), e2: self.e2.lower(v.e2) }
    }

    /// The triple of the greater coordinates.
    pub closed spec fn upper(self, v: Vec3) -> Vec3 {
        Vec3 { e0: self.e0.upper(v.e0), e1: self.e1.upper(v.e1), e2: self.e2.upper(v.e2) }
    }

    /// The triple with the sign of every coordinate changed.
    pub closed spec fn negated(self) -> Vec3 {
        Vec3 { e0: self.e0.negated(), e1: self.e1.negated(), e2: self.e2.negated() }
    }

    /// The opposite direction.
    pub fn neg(self) -> (r: Vec3)
        ensures
            r == self.negated(),
            forall|a: int| 0 <= a < 3 ==> #[trigger] r.axis(a) == self.axis(a).negated(),
    {
        Vec3 { e0: self.e0.neg(), e1: self.e1.neg(), e2: self.e2.neg() }
    }

    /// Minimum, axis by axis.
    pub fn min(&self, v: Vec3) -> (r: Vec3)
        ensures
            r == self.lower(v),
            forall|a: int| 0 <= a < 3 ==> #[trigger] r.axis(a) == self.axis(a).lower(v.axis(a)),
    {
        Vec3 { e0: self.e0.min(v.e0), e1: self.e1.min(v.e1), e2: self.e2.min(v.e2) }
    }

    /// Maximum, axis by axis.
    pub fn max(&self, v: Vec3) -> (r: Vec3)
        ensures
            r == self.upper(v),
            forall|a: int| 0 <= a < 3 ==> #[trigger] r.axis(a) == self.axis(a).upper(v.axis(a)),
    {
        Vec3 { e0: self.e0.max(v.e0), e1: self.e1.max(v.e1), e2: self.e2.max(v.e2) }
    }
}

/// The lesser and the greater triple, read axis by axis.
pub proof fn lemma_lower_upper_axes(u: Vec3, v: Vec3)
    ensures
        forall|a: int| 0 <= a < 3 ==> #[trigger] u.lower(v).axis(a) == u.axis(a).lower(v.axis(a)),
        forall|a: int| 0 <= a < 3 ==> #[trigger] u.upper(v).axis(a) == u.axis(a).upper(v.axis(a)),
{
}

/// Two triples with the same coordinates are the same triple.
pub proof fn lemma_vec3_by_axes(u: Vec3, v: Vec3)
    requires
        forall|a: int| 0 <= a < 3 ==> #[trigger] u.axis(a) == v.axis(a),
    ensures
        u == v,
{
    assert(u.axis(0) == v.axis(0));
    assert(u.axis(1) == v.axis(1));
    assert(u.axis(2) == v.axis(2));
}

} // verus!
