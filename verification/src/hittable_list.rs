//! The scene as a plain list of objects.

use vstd::prelude::*;
use crate::aabb::Aabb;
use crate::bvh::Bounds;
use crate::scalar::Scalar;
use crate::traversal::{Walk, WalkState};

verus! {

/// The objects of a scene in the order in which they were added, each known
/// by the boxes it reports.
#[derive(Debug)]
pub struct HittableList {
    objects: Vec<Bounds>,
}

/// The box around all the objects: none for an empty list or when an object
/// reports no box, else the union of the boxes, taken up one object after the
/// other.
pub open spec fn union_all(objects: Seq<Bounds>) -> Option<Aabb>
    decreases objects.len(),
{
    if objects.len() == 0 {
        None
    } else {
        match objects.last().bbox {
            None => None,
            Some(bb) => if objects.len() == 1 {
                Some(bb)
            } else {
                match union_all(objects.drop_last()) {
                    Some(rest) => Some(Aabb::union(bb, rest)),
                    None => None,
                }
            },
        }
    }
}

impl HittableList {
    /// The objects of the list.
    pub closed spec fn view(&self) -> Seq<Bounds> {
        self.objects@
    }

    /// The empty list.
    pub fn new() -> (list: HittableList)
        ensures
            list@ == Seq::<Bounds>::empty(),
    {
        HittableList { objects: Vec::new() }
    }

    /// Appends an object.
    pub fn add(&mut self, object: Bounds)
        ensures
            final(self)@ == old(self)@.push(object),
    {
        self.objects.push(object);
    }

    /// The objects, for building a hierarchy over them.
    pub fn as_ref(&self) -> (objects: &Vec<Bounds>)
        ensures
            objects@ == self@,
    {
        &self.objects
    }

    /// Starts the nearest-hit query that asks every object in turn, each over
    /// the window cut at the nearest hit before it.
    pub fn hit(&self, t_min: Scalar, t_max: Scalar) -> (walk: Walk<'static>)
        ensures
            walk.state() == WalkState::over_list(self@.len(), t_min, t_max),
    {
        Walk::over_list(self.objects.len(), t_min, t_max)
    }

    /// The box around the whole list.
    pub fn bounding_box(&self) -> (b: Option<Aabb>)
        ensures
            b == union_all(self@),
            b.is_some() <==> self@.len() > 0 && forall|i: int|
                0 <= i < self@.len() ==> (#[trigger] self@[i]).bbox.is_some(),
    {
        if self.objects.len() == 0 {
            return None;
        }
        let mut temp_box: Option<Aabb> = None;
        let mut k: usize = 0;
        while k < self.objects.len()
            invariant
                k <= self.objects@.len(),
                temp_box == union_all(self.objects@.take(k as int)),
                forall|i: int| 0 <= i < k ==> (#[trigger] self.objects@[i]).bbox.is_some(),
                k > 0 ==> temp_box.is_some(),
            decreases self.objects@.len() - k,
        {
            let ghost upto = self.objects@.take(k as int + 1);
            proof {
                assert(upto.drop_last() =~= self.objects@.take(k as int));
                assert(upto.last() == self.objects@[k as int]);
            }
            match self.objects[k].bbox {
                Some(bb) => {
                    temp_box = match temp_box {
                        Some(bb2) => Some(Aabb::surrounding_box(bb, bb2)),
                        None => Some(bb),
                    };
                },
                None => {
                    proof {
                        lemma_missing_box(self.objects@, k as int);
                    }
                    return None;
                },
            }
            k = k + 1;
        }
        proof {
            assert(self.objects@.take(k as int) =~= self.objects@);
        }
        temp_box
    }
}

/// A list in which an object reports no box has no box.
proof fn lemma_missing_box(objects: Seq<Bounds>, k: int)
    requires
        0 <= k < objects.len(),
        objects[k].bbox.is_none(),
    ensures
        union_all(objects).is_none(),
    decreases objects.len(),
{
    if k < objects.len() - 1 {
        lemma_missing_box(objects.drop_last(), k);
    }
}

} // verus!
