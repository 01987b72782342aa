//! What is known of the point where a ray meets a surface.

use vstd::prelude::*;
use crate::closest::clipped_at;
use crate::scalar::Scalar;
use crate::vec3::{Point3, Vec3};

verus! {

/// A hit of a ray on a surface: the point, the normal turned against the ray,
/// the ray parameter, the surface coordinates, and whether the ray came from
/// outside.
#[derive(Clone, Copy, Debug, PartialEq, Eq, Structural)]
pub struct HitRecord {
    pub p: Point3,
    pub normal: Vec3,
    pub t: Scalar,
    pub u: Scalar,
    pub v: Scalar,
    pub front_face: bool,
}

/// The parameter is rejected by a query over `[t_min, t_max]`: it lies before
/// the window or after it. A NaN is not rejected.
pub open spec fn outside(t: Scalar, t_min: Scalar, t_max: Scalar) -> bool {
    t.less(t_min) || t_max.less(t)
}

/// The parameter at which a ray that crosses a surface at `near` and again at
/// `far` hits it within the window: the first crossing if the window takes
/// it, else the second, else none.
pub open spec fn root_in_window(near: Scalar, far: Scalar, t_min: Scalar, t_max: Scalar) -> Option<
    Scalar,
> {
    if !outside(near, t_min, t_max) {
        Some(near)
    } else if !outside(far, t_min, t_max) {
        Some(far)
    } else {
        None
    }
}

/// Tells whether a query over `[t_min, t_max]` rejects the parameter.
pub fn misses_window(t: Scalar, t_min: Scalar, t_max: Scalar) -> (r: bool)
    ensures
        r == outside(t, t_min, t_max),
{
    t.lt(t_min) || t_max.lt(t)
}

/// Picks the crossing at which the ray hits within the window.
pub fn nearest_root(near: Scalar, far: Scalar, t_min: Scalar, t_max: Scalar) -> (r: Option<Scalar>)
    ensures
        r == root_in_window(near, far, t_min, t_max),
{
    if !misses_window(near, t_min, t_max) {
        Some(near)
    } else if !misses_window(far, t_min, t_max) {
        Some(far)
    } else {
        None
    }
}

/// The rule by which a crossing is picked gives faithful answers: for
/// crossings that are numbers in order, the hit lies in the window, and over
/// a window that ends earlier the hit is the same unless it lies past the end.
pub proof fn lemma_root_narrowing(
    near: Scalar,
    far: Scalar,
    t_min: Scalar,
    t_max: Scalar,
    end: Scalar,
)
    requires
        near.at_most(far),
        !t_min.nan(),
        end.at_most(t_max),
    ensures
        root_in_window(near, far, t_min, t_max) matches Some(t) ==> t_min.at_most(t) && t.at_most(
            t_max,
        ),
        root_in_window(near, far, t_min, end) == clipped_at(
            root_in_window(near, far, t_min, t_max),
            end,
        ),
{
}

impl HitRecord {
    /// The ray parameter lies in the window of the query.
    pub open spec fn within(self, t_min: Scalar, t_max: Scalar) -> bool {
        t_min.at_most(self.t) && self.t.at_most(t_max)
    }

    /// Tells whether the ray parameter lies in the window of the query.
    pub fn is_within(&self, t_min: Scalar, t_max: Scalar) -> (r: bool)
        ensures
            r == self.within(t_min, t_max),
    {
        t_min.le(self.t) && self.t.le(t_max)
    }

    /// Turns the normal against the ray. `facing` is the dot product of the
    /// direction of the ray with the outward normal: where it is negative the
    /// ray comes from outside and the outward normal is kept, else the normal
    /// is reversed.
    pub fn set_face_normal(&mut self, facing: Scalar, outward_normal: Vec3)
        ensures
            final(self).front_face == facing.less(Scalar { key: 0 }),
            final(self).normal == (if facing.less(Scalar { key: 0 }) {
                outward_normal
            } else {
                outward_normal.negated()
            }),
            final(self).p == old(self).p,
            final(self).t == old(self).t,
            final(self).u == old(self).u,
            final(self).v == old(self).v,
    {
        self.front_face = facing.lt(Scalar::zero());
        self.normal = if self.front_face {
            outward_normal
        } else {
            outward_normal.neg()
        };
    }
}

} // verus!
