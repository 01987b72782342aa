//! Axis-aligned bounding boxes: the closed box between two corners, the
//! union of two boxes, and the slab test of a ray against a box.

use vstd::prelude::*;
use crate::scalar::Scalar;
use crate::vec3::{lemma_lower_upper_axes, lemma_vec3_by_axes, Point3};

verus! {

/// A closed box given by its least and its greatest corner.
#[derive(Clone, Copy, Debug, PartialEq, Eq, Structural)]
pub struct Aabb {
    minimum: Point3,
    maximum: Point3,
}

/// Crossing of a ray with the two planes that bound a box on one axis: the
/// inverse of the ray's direction on the axis, and the ray parameters at the
/// plane of the least corner and at the plane of the greatest corner.
#[derive(Clone, Copy, Debug, PartialEq, Eq, Structural)]
pub struct Slab {
    pub inv_d: Scalar,
    pub t0: Scalar,
    pub t1: Scalar,
}

impl Slab {
    /// Parameter at which the ray enters the slab.
    pub open spec fn entry(self) -> Scalar {
        if self.inv_d.less(Scalar { key: 0 }) {
            self.t1
        } else {
            self.t0
        }
    }

    /// Parameter at which the ray leaves the slab.
    pub open spec fn exit(self) -> Scalar {
        if self.inv_d.less(Scalar { key: 0 }) {
            self.t0
        } else {
            self.t1
        }
    }

    /// Lower end of the window `[t_min, t_max]` cut down to the slab.
    pub open spec fn raised(self, t_min: Scalar) -> Scalar {
        if t_min.less(self.entry()) {
            self.entry()
        } else {
            t_min
        }
    }

    /// Upper end of the window `[t_min, t_max]` cut down to the slab.
    pub open spec fn lowered(self, t_max: Scalar) -> Scalar {
        if self.exit().less(t_max) {
            self.exit()
        } else {
            t_max
        }
    }
}

/// The window `[t_min, t_max]`, cut down to the slabs from `from` on, stays
/// non-empty: the ray passes through all of them within the window.
pub open spec fn passes(slabs: Seq<Slab>, from: int, t_min: Scalar, t_max: Scalar) -> bool
    decreases slabs.len() - from,
{
    if from < 0 || from >= slabs.len() {
        true
    } else {
        let lo = slabs[from].raised(t_min);
        let hi = slabs[from].lowered(t_max);
        !hi.at_most(lo) && passes(slabs, from + 1, lo, hi)
    }
}

impl Aabb {
    /// The least corner.
    pub closed spec fn lo(self) -> Point3 {
        self.minimum
    }

    /// The greatest corner.
    pub closed spec fn hi(self) -> Point3 {
        self.maximum
    }

    /// On every axis both bounds are numbers and the least does not exceed the
    /// greatest.
    pub open spec fn wf(self) -> bool {
        forall|a: int| 0 <= a < 3 ==> (#[trigger] self.lo().axis(a)).at_most(self.hi().axis(a))
    }

    /// The point lies in the box.
    pub open spec fn contains(self, p: Point3) -> bool {
        forall|a: int|
            0 <= a < 3 ==> self.lo().axis(a).at_most(#[trigger] p.axis(a)) && p.axis(a).at_most(
                self.hi().axis(a),
            )
    }

    /// The point is a corner of the box: on each axis it has the coordinate of
    /// the least or of the greatest corner.
    pub open spec fn has_corner(self, p: Point3) -> bool {
        forall|a: int|
            0 <= a < 3 ==> #[trigger] p.axis(a) == self.lo().axis(a) || p.axis(a)
                == self.hi().axis(a)
    }

    /// Every corner of `other` lies in the box.
    pub open spec fn encloses(self, other: Aabb) -> bool {
        forall|p: Point3| other.has_corner(p) ==> self.contains(p)
    }

    /// The box that [`Aabb::surrounding_box`] computes: on each axis from the
    /// lesser of the least bounds to the greater of the greatest.
    pub open spec fn is_union_of(self, box0: Aabb, box1: Aabb) -> bool {
        &&& forall|a: int|
            0 <= a < 3 ==> (#[trigger] self.lo().axis(a)) == box0.lo().axis(a).lower(
                box1.lo().axis(a),
            )
        &&& forall|a: int|
            0 <= a < 3 ==> (#[trigger] self.hi().axis(a)) == box0.hi().axis(a).upper(
                box1.hi().axis(a),
            )
    }

    /// The least box that holds both boxes.
    pub closed spec fn union(box0: Aabb, box1: Aabb) -> Aabb {
        Aabb {
            minimum: box0.minimum.lower(box1.minimum),
            maximum: box0.maximum.upper(box1.maximum),
        }
    }

    pub fn new(minimum: Point3, maximum: Point3) -> (b: Aabb)
        ensures
            b.lo() == minimum,
            b.hi() == maximum,
    {
        Aabb { minimum, maximum }
    }

    pub fn min(&self) -> (p: Point3)
        ensures
            p == self.lo(),
    {
        self.minimum
    }

    pub fn max(&self) -> (p: Point3)
        ensures
            p == self.hi(),
    {
        self.maximum
    }

    /// Slab test: the ray whose crossings with the three slabs of the box are
    /// given meets the box within `[t_min, t_max]`. The window is cut down
    /// axis by axis and the test fails as soon as it is empty.
    pub fn hit(slabs: &[Slab; 3], t_min: Scalar, t_max: Scalar) -> (r: bool)
        ensures
            r == passes(slabs@, 0, t_min, t_max),
    {
        let mut lo = t_min;
        let mut hi = t_max;
        let mut a: usize = 0;
        while a < 3
            invariant
                a <= 3,
                slabs@.len() == 3,
                passes(slabs@, 0, t_min, t_max) == passes(slabs@, a as int, lo, hi),
            decreases 3 - a,
        {
            let slab = slabs[a];
            let mut t0 = slab.t0;
            let mut t1 = slab.t1;
            if slab.inv_d.lt(Scalar::zero()) {
                let t = t0;
                t0 = t1;
                t1 = t;
            }
            lo = if t0.gt(lo) { t0 } else { lo };
            hi = if t1.lt(hi) { t1 } else { hi };
            if hi.le(lo) {
                return false;
            }
            a = a + 1;
        }
        true
    }

    /// The least box that holds both boxes: the lesser of the two least
    /// corners and the greater of the two greatest, axis by axis.
    pub fn surrounding_box(box0: Aabb, box1: Aabb) -> (b: Aabb)
        ensures
            b == Aabb::union(box0, box1),
            b.is_union_of(box0, box1),
            box0.wf() && box1.wf() ==> b.wf() && b.encloses(box0) && b.encloses(box1),
    {
        let small = Point3::new(
            box0.min().x().min(box1.min().x()),
            box0.min().y().min(box1.min().y()),
            box0.min().z().min(box1.min().z()),
        );
        let big = Point3::new(
            box0.max().x().max(box1.max().x()),
            box0.max().y().max(box1.max().y()),
            box0.max().z().max(box1.max().z()),
        );
        let b = Aabb::new(small, big);
        proof {
            lemma_lower_upper_axes(box0.lo(), box1.lo());
            lemma_lower_upper_axes(box0.hi(), box1.hi());
            lemma_vec3_by_axes(small, box0.lo().lower(box1.lo()));
            lemma_vec3_by_axes(big, box0.hi().upper(box1.hi()));
            assert forall|a: int| 0 <= a < 3 implies (#[trigger] b.lo().axis(a)) == box0.lo().axis(
                a,
            ).lower(box1.lo().axis(a)) by {
                assert(a == 0 || a == 1 || a == 2);
            }
            assert forall|a: int| 0 <= a < 3 implies (#[trigger] b.hi().axis(a)) == box0.hi().axis(
                a,
            ).upper(box1.hi().axis(a)) by {
                assert(a == 0 || a == 1 || a == 2);
            }
            if box0.wf() && box1.wf() {
                lemma_union_encloses(b, box0, box1);
            }
        }
        b
    }
}

/// The union of two boxes runs on each axis from the lesser of the least
/// bounds to the greater of the greatest.
pub proof fn lemma_union_axes(box0: Aabb, box1: Aabb)
    ensures
        Aabb::union(box0, box1).is_union_of(box0, box1),
{
    lemma_lower_upper_axes(box0.lo(), box1.lo());
    lemma_lower_upper_axes(box0.hi(), box1.hi());
}

/// Surrounding box, first half: the union of two well-formed boxes is well
/// formed and holds every corner of both.
pub proof fn lemma_union_encloses(u: Aabb, box0: Aabb, box1: Aabb)
    requires
        box0.wf(),
        box1.wf(),
        u.is_union_of(box0, box1),
    ensures
        u.wf(),
        u.encloses(box0),
        u.encloses(box1),
{
    assert forall|a: int| 0 <= a < 3 implies (#[trigger] u.lo().axis(a)).at_most(u.hi().axis(a)) by {
        assert(box0.lo().axis(a).at_most(box0.hi().axis(a)));
        assert(box1.lo().axis(a).at_most(box1.hi().axis(a)));
    }
    assert forall|p: Point3| box0.has_corner(p) implies u.contains(p) by {
        assert forall|a: int| 0 <= a < 3 implies u.lo().axis(a).at_most(#[trigger] p.axis(a))
            && p.axis(a).at_most(u.hi().axis(a)) by {
            assert(box0.lo().axis(a).at_most(box0.hi().axis(a)));
            assert(box1.lo().axis(a).at_most(box1.hi().axis(a)));
            assert(u.lo().axis(a) == box0.lo().axis(a).lower(box1.lo().axis(a)));
            assert(u.hi().axis(a) == box0.hi().axis(a).upper(box1.hi().axis(a)));
        }
    }
    assert forall|p: Point3| box1.has_corner(p) implies u.contains(p) by {
        assert forall|a: int| 0 <= a < 3 implies u.lo().axis(a).at_most(#[trigger] p.axis(a))
            && p.axis(a).at_most(u.hi().axis(a)) by {
            assert(box0.lo().axis(a).at_most(box0.hi().axis(a)));
            assert(box1.lo().axis(a).at_most(box1.hi().axis(a)));
            assert(u.lo().axis(a) == box0.lo().axis(a).lower(box1.lo().axis(a)));
            assert(u.hi().axis(a) == box0.hi().axis(a).upper(box1.hi().axis(a)));
        }
    }
}

/// Surrounding box, second half: the union is the smallest such box. Each of
/// its faces is a face of one of the two boxes, and any well-formed box that
/// holds both boxes holds the union.
pub proof fn lemma_union_is_least(u: Aabb, box0: Aabb, box1: Aabb, other: Aabb)
    requires
        box0.wf(),
        box1.wf(),
        u.is_union_of(box0, box1),
        other.encloses(box0),
        other.encloses(box1),
    ensures
        forall|a: int|
            0 <= a < 3 ==> (#[trigger] u.lo().axis(a)) == box0.lo().axis(a) || u.lo().axis(a)
                == box1.lo().axis(a),
        forall|a: int|
            0 <= a < 3 ==> (#[trigger] u.hi().axis(a)) == box0.hi().axis(a) || u.hi().axis(a)
                == box1.hi().axis(a),
        other.encloses(u),
{
    assert forall|a: int| 0 <= a < 3 implies ((#[trigger] u.lo().axis(a)) == box0.lo().axis(a)
        || u.lo().axis(a) == box1.lo().axis(a)) && (u.hi().axis(a) == box0.hi().axis(a)
        || u.hi().axis(a) == box1.hi().axis(a)) by {
        assert(u.lo().axis(a) == box0.lo().axis(a).lower(box1.lo().axis(a)));
        assert(u.hi().axis(a) == box0.hi().axis(a).upper(box1.hi().axis(a)));
        assert(box0.lo().axis(a).at_most(box0.hi().axis(a)));
        assert(box1.lo().axis(a).at_most(box1.hi().axis(a)));
    }
    assert(box0.has_corner(box0.lo()));
    assert(box0.has_corner(box0.hi()));
    assert(box1.has_corner(box1.lo()));
    assert(box1.has_corner(box1.hi()));
    assert(other.contains(box0.lo()) && other.contains(box0.hi()));
    assert(other.contains(box1.lo()) && other.contains(box1.hi()));
    assert forall|p: Point3| u.has_corner(p) implies other.contains(p) by {
        assert forall|a: int| 0 <= a < 3 implies other.lo().axis(a).at_most(#[trigger] p.axis(a))
            && p.axis(a).at_most(other.hi().axis(a)) by {
            assert(u.lo().axis(a) == box0.lo().axis(a) || u.lo().axis(a) == box1.lo().axis(a));
            assert(u.hi().axis(a) == box0.hi().axis(a) || u.hi().axis(a) == box1.hi().axis(a));
            assert(other.lo().axis(a).at_most(box0.lo().axis(a)));
            assert(other.lo().axis(a).at_most(box1.lo().axis(a)));
            assert(other.lo().axis(a).at_most(box0.hi().axis(a)));
            assert(other.lo().axis(a).at_most(box1.hi().axis(a)));
            assert(box0.lo().axis(a).at_most(other.hi().axis(a)));
            assert(box1.lo().axis(a).at_most(other.hi().axis(a)));
            assert(box0.hi().axis(a).at_most(other.hi().axis(a)));
            assert(box1.hi().axis(a).at_most(other.hi().axis(a)));
        }
    }
}

} // verus!
