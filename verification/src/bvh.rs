//! Bounding-volume hierarchy: a binary tree over the objects of a scene, each
//! node holding the box that encloses everything below it.
//!
//! The hierarchy knows an object by its place in the scene list and by the
//! boxes it reports; testing a ray against an object is the caller's part.

use vstd::prelude::*;
use vstd::seq_lib::*;
use std::cmp::Ordering;
use crate::aabb::Aabb;
use crate::random::random_below;

verus! {

/// Why a hierarchy could not be built.
#[derive(Clone, Copy, Debug, PartialEq, Eq, Structural)]
pub enum BvhConstructionError {
    /// An object of the scene reports no bounding box.
    NoBoundingBox,
}

/// The boxes that one object of the scene reports.
#[derive(Clone, Copy, Debug)]
pub struct Bounds {
    /// Box at the instant the shutter opens, by which objects are ordered.
    pub sort_box: Option<Aabb>,
    /// Box over the whole time the shutter is open, which the nodes enclose.
    pub bbox: Option<Aabb>,
}

/// One side of a node.
#[derive(Debug)]
pub enum Child {
    /// The object at this place in the scene list.
    Leaf(usize),
    /// A subtree.
    Node(Box<BvhNode>),
}

/// A node of the hierarchy with its two sides and the box around both.
#[derive(Debug)]
pub struct BvhNode {
    left: Child,
    right: Child,
    bbox: Aabb,
}

/// Order keys of the objects' sort boxes, one table per axis.
pub struct KeyTables {
    pub x: Vec<i64>,
    pub y: Vec<i64>,
    pub z: Vec<i64>,
}

/// Key by which the object at `index` is ordered along `axis`: the least
/// coordinate of its sort box on that axis.
pub open spec fn sort_key(scene: Seq<Bounds>, index: int, axis: int) -> int {
    scene[index].sort_box.unwrap().lo().axis(axis).key as int
}

/// Along `axis` no object of `left` has a greater key than an object of `right`.
pub open spec fn keys_in_order(
    scene: Seq<Bounds>,
    left: Seq<usize>,
    right: Seq<usize>,
    axis: int,
) -> bool {
    forall|a: int, b: int|
        0 <= a < left.len() && 0 <= b < right.len() ==> sort_key(
            scene,
            #[trigger] left[a] as int,
            axis,
        ) <= sort_key(scene, #[trigger] right[b] as int, axis)
}

/// Key by which an object with the given boxes is ordered along `axis`.
pub open spec fn own_key(object: Bounds, axis: usize) -> i64 {
    object.sort_box.unwrap().lo().axis(axis as int).key
}

/// Compares two objects along an axis by the least coordinate of their sort
/// boxes, in the total order of the coordinates; fails when one of them has
/// no sort box.
pub fn box_compare(a: &Bounds, b: &Bounds, axis: usize) -> (r: Result<
    Ordering,
    BvhConstructionError,
>)
    requires
        axis < 3,
    ensures
        r.is_ok() <==> a.sort_box.is_some() && b.sort_box.is_some(),
        r matches Ok(o) ==> {
            &&& o == Ordering::Less <==> own_key(*a, axis) < own_key(*b, axis)
            &&& o == Ordering::Equal <==> own_key(*a, axis) == own_key(*b, axis)
            &&& o == Ordering::Greater <==> own_key(*a, axis) > own_key(*b, axis)
        },
        r matches Err(e) ==> e == BvhConstructionError::NoBoundingBox,
{
    match (a.sort_box, b.sort_box) {
        (Some(box_a), Some(box_b)) => Ok(
            box_a.min().index(axis).total_cmp(box_b.min().index(axis)),
        ),
        _ => Err(BvhConstructionError::NoBoundingBox),
    }
}

/// The places `0, 1, .., n - 1` in order.
pub open spec fn all_places(n: nat) -> Seq<usize> {
    Seq::new(n, |i: int| i as usize)
}

impl KeyTables {
    /// The table of the given axis.
    pub open spec fn table(self, axis: int) -> Seq<i64> {
        if axis == 0 {
            self.x@
        } else if axis == 1 {
            self.y@
        } else {
            self.z@
        }
    }

    /// The tables hold the sort keys of every object of the scene.
    pub open spec fn describe(self, scene: Seq<Bounds>) -> bool {
        forall|axis: int|
            0 <= axis < 3 ==> {
                &&& (#[trigger] self.table(axis)).len() == scene.len()
                &&& forall|i: int|
                    0 <= i < scene.len() ==> scene[i].sort_box.is_some() && (
                    #[trigger] self.table(axis)[i]) == sort_key(scene, i, axis)
            }
    }
}

impl Child {
    /// Places of the objects under this side, left to right.
    pub open spec fn leaves(self) -> Seq<usize>
        decreases self,
    {
        match self {
            Child::Leaf(i) => seq![i],
            Child::Node(node) => node.leaves(),
        }
    }

    /// The box of this side: of the object for a leaf, of the node for a subtree.
    pub open spec fn bounds(self, scene: Seq<Bounds>) -> Option<Aabb> {
        match self {
            Child::Leaf(i) => if i < scene.len() {
                scene[i as int].bbox
            } else {
                None
            },
            Child::Node(node) => Some(node.bounds()),
        }
    }

    /// See [`BvhNode::shaped`].
    pub open spec fn shaped(self, scene: Seq<Bounds>) -> bool
        decreases self,
    {
        match self {
            Child::Leaf(i) => i < scene.len() && scene[i as int].bbox.is_some(),
            Child::Node(node) => node.shaped(scene),
        }
    }

    /// See [`BvhNode::organized`].
    pub open spec fn organized(self, scene: Seq<Bounds>) -> bool
        decreases self,
    {
        match self {
            Child::Leaf(i) => true,
            Child::Node(node) => node.organized(scene),
        }
    }
}

impl BvhNode {
    /// The left side.
    pub closed spec fn lhs(self) -> Child {
        self.left
    }

    /// The right side.
    pub closed spec fn rhs(self) -> Child {
        self.right
    }

    /// The box cached in the node.
    pub closed spec fn bounds(self) -> Aabb {
        self.bbox
    }

    /// Both sides are the same object: the node stands for that object alone.
    pub open spec fn single(self) -> bool {
        match (self.lhs(), self.rhs()) {
            (Child::Leaf(i), Child::Leaf(j)) => i == j,
            _ => false,
        }
    }

    /// Places of the objects under the node, left to right; an object that
    /// stands on both sides is counted once.
    pub open spec fn leaves(self) -> Seq<usize>
        decreases self,
    {
        if self.single() {
            self.lhs().leaves()
        } else {
            self.lhs().leaves() + self.rhs().leaves()
        }
    }

    /// Every leaf is an object of the scene that has a box, and the box of
    /// every node is the union of the boxes of its two sides.
    pub open spec fn shaped(self, scene: Seq<Bounds>) -> bool
        decreases self,
    {
        &&& self.lhs().shaped(scene)
        &&& self.rhs().shaped(scene)
        &&& self.bounds().is_union_of(
            self.lhs().bounds(scene).unwrap(),
            self.rhs().bounds(scene).unwrap(),
        )
    }

    /// The tree is split as the construction splits a list: a node over one
    /// object holds it on both sides, a node over two holds one on each, and
    /// a node over more holds on its left the half (rounded down) whose keys
    /// along one of the three axes do not exceed any key on its right.
    pub open spec fn organized(self, scene: Seq<Bounds>) -> bool
        decreases self,
    {
        match (self.lhs(), self.rhs()) {
            (Child::Leaf(i), Child::Leaf(j)) => true,
            (Child::Node(l), Child::Node(r)) => {
                &&& l.organized(scene)
                &&& r.organized(scene)
                &&& self.leaves().len() >= 3
                &&& l.leaves().len() == self.leaves().len() / 2
                &&& exists|axis: int|
                    0 <= axis < 3 && #[trigger] keys_in_order(scene, l.leaves(), r.leaves(), axis)
            },
            _ => false,
        }
    }

    /// The box around everything under the node.
    pub fn bounding_box(&self) -> (b: Aabb)
        ensures
            b == self.bounds(),
    {
        self.bbox
    }

    /// The left side.
    pub fn left(&self) -> (c: &Child)
        ensures
            *c == self.lhs(),
    {
        &self.left
    }

    /// The right side.
    pub fn right(&self) -> (c: &Child)
        ensures
            *c == self.rhs(),
    {
        &self.right
    }
}

/// The sides of a node are smaller trees than the node.
pub proof fn lemma_sides_smaller(node: BvhNode)
    ensures
        decreases_to!(node => node.lhs()),
        decreases_to!(node => node.rhs()),
{
}

/// The objects of the scene that the construction has to look at all have
/// the boxes it needs: each one its box, and with three objects or more each
/// one its sort box as well.
pub open spec fn buildable(scene: Seq<Bounds>) -> bool {
    &&& forall|i: int| 0 <= i < scene.len() ==> (#[trigger] scene[i]).bbox.is_some()
    &&& scene.len() >= 3 ==> forall|i: int|
        0 <= i < scene.len() ==> (#[trigger] scene[i]).sort_box.is_some()
}

/// Orders object places by their keys. Calls `sort_by_key` of the standard
/// slice, a stable sort: the places are rearranged, come out with their keys
/// in ascending order, and places with equal keys keep the order they had.
#[verifier::external_body]
fn sort_places(items: &mut Vec<usize>, keys: &Vec<i64>)
    requires
        forall|k: int| 0 <= k < old(items)@.len() ==> old(items)@[k] < keys@.len(),
    ensures
        final(items)@.to_multiset() == old(items)@.to_multiset(),
        forall|i: int, j: int|
            0 <= i <= j < final(items)@.len() ==> keys@[final(items)@[i] as int]
                <= keys@[final(items)@[j] as int],
        old(items)@.no_duplicates() ==> forall|i: int, j: int|
            0 <= i < j < final(items)@.len() && keys@[final(items)@[i] as int]
                == keys@[final(items)@[j] as int] ==> old(items)@.index_of(final(items)@[i])
                < old(items)@.index_of(final(items)@[j]),
{
    items.sort_by_key(|place| keys[*place]);
}

/// An element of a rearranged list is an element of the list.
proof fn lemma_same_members(a: Seq<usize>, b: Seq<usize>)
    requires
        a.to_multiset() == b.to_multiset(),
    ensures
        a.len() == b.len(),
        forall|x: usize| a.contains(x) <==> b.contains(x),
{
    a.to_multiset_ensures();
    b.to_multiset_ensures();
    assert forall|x: usize| a.contains(x) <==> b.contains(x) by {
        assert(a.contains(x) <==> a.to_multiset().count(x) > 0);
        assert(b.contains(x) <==> b.to_multiset().count(x) > 0);
    }
}

/// Copies the part of `items` from `from` up to `to`.
fn part(items: &Vec<usize>, from: usize, to: usize) -> (r: Vec<usize>)
    requires
        from <= to <= items.len(),
    ensures
        r@ == items@.subrange(from as int, to as int),
{
    let mut r: Vec<usize> = Vec::new();
    let mut k: usize = from;
    while k < to
        invariant
            from <= k <= to <= items.len(),
            r@ == items@.subrange(from as int, k as int),
        decreases to - k,
    {
        r.push(items[k]);
        k = k + 1;
        assert(r@ == items@.subrange(from as int, k as int));
    }
    r
}

/// Orders `items` along `axis` and cuts the list in the middle: the first
/// half, rounded down, goes left.
pub fn split(items: Vec<usize>, tables: &KeyTables, axis: usize) -> (halves: (
    Vec<usize>,
    Vec<usize>,
))
    requires
        axis < 3,
        tables.table(0).len() == tables.table(1).len() == tables.table(2).len(),
        forall|k: int| 0 <= k < items@.len() ==> items@[k] < tables.table(0).len(),
    ensures
        halves.0@.len() == items@.len() / 2,
        (halves.0@ + halves.1@).to_multiset() == items@.to_multiset(),
        forall|i: int, j: int|
            0 <= i <= j < items@.len() ==> tables.table(axis as int)[(halves.0@ + halves.1@)[i] as int]
                <= tables.table(axis as int)[(halves.0@ + halves.1@)[j] as int],
        items@.no_duplicates() ==> forall|i: int, j: int|
            0 <= i < j < items@.len() && tables.table(axis as int)[(halves.0@ + halves.1@)[i] as int]
                == tables.table(axis as int)[(halves.0@ + halves.1@)[j] as int]
                ==> items@.index_of((halves.0@ + halves.1@)[i]) < items@.index_of(
                (halves.0@ + halves.1@)[j],
            ),
{
    let mut sorted = items;
    if axis == 0 {
        sort_places(&mut sorted, &tables.x);
    } else if axis == 1 {
        sort_places(&mut sorted, &tables.y);
    } else {
        sort_places(&mut sorted, &tables.z);
    }
    proof {
        lemma_same_members(sorted@, items@);
    }
    let midpoint = sorted.len() / 2;
    let left = part(&sorted, 0, midpoint);
    let right = part(&sorted, midpoint, sorted.len());
    assert(left@ + right@ == sorted@);
    (left, right)
}

/// Reads the sort keys of every object, or reports the first object without
/// a sort box.
fn key_tables(scene: &Vec<Bounds>) -> (r: Result<KeyTables, BvhConstructionError>)
    ensures
        r.is_ok() <==> forall|i: int| 0 <= i < scene@.len() ==> (#[trigger] scene@[i]).sort_box.is_some(),
        r matches Ok(tables) ==> tables.describe(scene@),
        r matches Err(e) ==> e == BvhConstructionError::NoBoundingBox,
{
    let mut tables = KeyTables { x: Vec::new(), y: Vec::new(), z: Vec::new() };
    let mut i: usize = 0;
    while i < scene.len()
        invariant
            i <= scene@.len(),
            tables.x@.len() == i,
            tables.y@.len() == i,
            tables.z@.len() == i,
            forall|k: int|
                0 <= k < i ==> {
                    &&& (#[trigger] scene@[k]).sort_box.is_some()
                    &&& tables.x@[k] == sort_key(scene@, k, 0)
                    &&& tables.y@[k] == sort_key(scene@, k, 1)
                    &&& tables.z@[k] == sort_key(scene@, k, 2)
                },
        decreases scene@.len() - i,
    {
        match scene[i].sort_box {
            Some(b) => {
                let corner = b.min();
                tables.x.push(corner.x().key);
                tables.y.push(corner.y().key);
                tables.z.push(corner.z().key);
            },
            None => {
                return Err(BvhConstructionError::NoBoundingBox);
            },
        }
        i = i + 1;
    }
    proof {
        assert forall|axis: int| 0 <= axis < 3 implies {
            &&& (#[trigger] tables.table(axis)).len() == scene@.len()
            &&& forall|i: int|
                0 <= i < scene@.len() ==> scene@[i].sort_box.is_some() && (
                #[trigger] tables.table(axis)[i]) == sort_key(scene@, i, axis)
        } by {
            assert forall|i: int| 0 <= i < scene@.len() implies scene@[i].sort_box.is_some() && (
            #[trigger] tables.table(axis)[i]) == sort_key(scene@, i, axis) by {
                assert(scene@[i].sort_box.is_some());
            }
        }
    }
    Ok(tables)
}

/// Box of one side, as the node above it reads it.
fn child_box(child: &Child, scene: &Vec<Bounds>) -> (b: Option<Aabb>)
    ensures
        b == child.bounds(scene@),
{
    match child {
        Child::Leaf(i) => if *i < scene.len() {
            scene[*i].bbox
        } else {
            None
        },
        Child::Node(node) => Some(node.bounding_box()),
    }
}

/// A rearranged list without repetitions has none.
proof fn lemma_rearranged_no_duplicates(a: Seq<usize>, b: Seq<usize>)
    requires
        a.to_multiset() == b.to_multiset(),
        a.no_duplicates(),
    ensures
        b.no_duplicates(),
{
    a.lemma_multiset_has_no_duplicates();
    b.lemma_multiset_has_no_duplicates_conv();
}

/// Builds the subtree over the objects at `items`.
fn build(
    rng: &mut rand_xoshiro::Xoshiro256PlusPlus,
    scene: &Vec<Bounds>,
    tables: &KeyTables,
    items: Vec<usize>,
) -> (r: Result<BvhNode, BvhConstructionError>)
    requires
        items@.len() > 0,
        items@.no_duplicates(),
        forall|k: int| 0 <= k < items@.len() ==> items@[k] < scene@.len(),
        items@.len() >= 3 ==> tables.describe(scene@),
    ensures
        r.is_ok() <==> forall|k: int|
            0 <= k < items@.len() ==> scene@[#[trigger] items@[k] as int].bbox.is_some(),
        r matches Ok(tree) ==> {
            &&& tree.shaped(scene@)
            &&& tree.organized(scene@)
            &&& tree.leaves().to_multiset() == items@.to_multiset()
            &&& tree.leaves().len() == items@.len()
        },
        r matches Err(e) ==> e == BvhConstructionError::NoBoundingBox,
    decreases items@.len(),
{
    let n = items.len();
    let ghost listed = items@;
    let (left, right) = if n == 1 {
        (Child::Leaf(items[0]), Child::Leaf(items[0]))
    } else if n == 2 {
        proof {
            assert(listed =~= seq![listed[0]] + seq![listed[1]]);
        }
        (Child::Leaf(items[0]), Child::Leaf(items[1]))
    } else {
        let axis = random_below(rng, 3);
        proof {
            assert(tables.table(0).len() == scene@.len());
            assert(tables.table(1).len() == scene@.len());
            assert(tables.table(2).len() == scene@.len());
        }
        let (first, second) = split(items, tables, axis);
        proof {
            let whole = first@ + second@;
            lemma_same_members(whole, listed);
            lemma_rearranged_no_duplicates(listed, whole);
            assert forall|k: int| 0 <= k < whole.len() implies whole[k] < scene@.len()
                && listed.contains(#[trigger] whole[k]) by {
                assert(whole.contains(whole[k]));
            }
            assert(first@ =~= whole.subrange(0, first@.len() as int));
            assert(second@ =~= whole.subrange(first@.len() as int, whole.len() as int));
            assert forall|k: int| 0 <= k < first@.len() implies first@[k] < scene@.len() by {
                assert(first@[k] == whole[k]);
            }
            assert forall|k: int| 0 <= k < second@.len() implies second@[k] < scene@.len() by {
                assert(second@[k] == whole[k + first@.len()]);
            }
        }
        let ghost first_items = first@;
        let ghost second_items = second@;
        let lower = match build(rng, scene, tables, first) {
            Ok(tree) => tree,
            Err(e) => {
                proof {
                    let k = choose|k: int|
                        0 <= k < first_items.len() && !scene@[#[trigger] first_items[k] as int].bbox.is_some();
                    let whole = first_items + second_items;
                    assert(whole[k] == first_items[k]);
                    assert(listed.contains(whole[k]));
                    let j = choose|j: int| 0 <= j < listed.len() && listed[j] == whole[k];
                    assert(!scene@[listed[j] as int].bbox.is_some());
                }
                return Err(e);
            },
        };
        let upper = match build(rng, scene, tables, second) {
            Ok(tree) => tree,
            Err(e) => {
                proof {
                    let k = choose|k: int|
                        0 <= k < second_items.len() && !scene@[#[trigger] second_items[k] as int].bbox.is_some();
                    let whole = first_items + second_items;
                    assert(whole[k + first_items.len()] == second_items[k]);
                    assert(listed.contains(whole[k + first_items.len()]));
                    let j = choose|j: int|
                        0 <= j < listed.len() && listed[j] == whole[k + first_items.len()];
                    assert(!scene@[listed[j] as int].bbox.is_some());
                }
                return Err(e);
            },
        };
        proof {
            let whole = first_items + second_items;
            lemma_multiset_commutative(lower.leaves(), upper.leaves());
            lemma_multiset_commutative(first_items, second_items);
            lemma_same_members(lower.leaves(), first_items);
            lemma_same_members(upper.leaves(), second_items);
            assert forall|a: int, b: int|
                0 <= a < lower.leaves().len() && 0 <= b < upper.leaves().len() implies sort_key(
                scene@,
                #[trigger] lower.leaves()[a] as int,
                axis as int,
            ) <= sort_key(scene@, #[trigger] upper.leaves()[b] as int, axis as int) by {
                let x = lower.leaves()[a];
                let y = upper.leaves()[b];
                assert(lower.leaves().contains(x));
                assert(upper.leaves().contains(y));
                let i = choose|i: int| 0 <= i < first_items.len() && first_items[i] == x;
                let j = choose|j: int| 0 <= j < second_items.len() && second_items[j] == y;
                assert(whole[i] == x);
                assert(whole[j + first_items.len()] == y);
                assert(tables.table(axis as int)[x as int] == sort_key(scene@, x as int, axis as int));
                assert(tables.table(axis as int)[y as int] == sort_key(scene@, y as int, axis as int));
            }
            assert(keys_in_order(scene@, lower.leaves(), upper.leaves(), axis as int));
        }
        (Child::Node(Box::new(lower)), Child::Node(Box::new(upper)))
    };
    let box_left = child_box(&left, scene);
    let box_right = child_box(&right, scene);
    match (box_left, box_right) {
        (Some(box_left), Some(box_right)) => {
            let bbox = Aabb::surrounding_box(box_left, box_right);
            let tree = BvhNode { left, right, bbox };
            proof {
                if n == 1 {
                    assert(tree.leaves() =~= listed);
                    assert forall|k: int| 0 <= k < listed.len() implies scene@[#[trigger] listed[k] as int].bbox.is_some() by {
                        assert(k == 0);
                    }
                } else if n == 2 {
                    assert(listed[0] != listed[1]);
                    assert(tree.leaves() =~= listed);
                    assert forall|k: int| 0 <= k < listed.len() implies scene@[#[trigger] listed[k] as int].bbox.is_some() by {
                        assert(k == 0 || k == 1);
                    }
                } else {
                    assert(!tree.single());
                    assert forall|k: int| 0 <= k < listed.len() implies scene@[#[trigger] listed[k] as int].bbox.is_some() by {
                        lemma_leaves_have_boxes(tree, scene@);
                        lemma_same_members(tree.leaves(), listed);
                        assert(listed.contains(listed[k]));
                        assert(tree.leaves().contains(listed[k]));
                    }
                }
            }
            Ok(tree)
        },
        _ => {
            proof {
                assert(n == 1 || n == 2);
            }
            Err(BvhConstructionError::NoBoundingBox)
        },
    }
}

/// Every leaf of a shaped tree is an object of the scene with a box.
pub proof fn lemma_leaves_have_boxes(tree: BvhNode, scene: Seq<Bounds>)
    requires
        tree.shaped(scene),
    ensures
        forall|x: usize| #[trigger]
            tree.leaves().contains(x) ==> x < scene.len() && scene[x as int].bbox.is_some(),
    decreases tree,
{
    assert forall|x: usize| #[trigger] tree.leaves().contains(x) implies x < scene.len()
        && scene[x as int].bbox.is_some() by {
        let k = choose|k: int| 0 <= k < tree.leaves().len() && tree.leaves()[k] == x;
        let l = tree.lhs().leaves();
        let r = tree.rhs().leaves();
        if tree.single() || k < l.len() {
            assert(l[k] == x);
            match tree.lhs() {
                Child::Leaf(i) => {},
                Child::Node(node) => {
                    lemma_leaves_have_boxes(*node, scene);
                    assert(node.leaves().contains(x));
                },
            }
        } else {
            assert(r[k - l.len()] == x);
            match tree.rhs() {
                Child::Leaf(i) => {},
                Child::Node(node) => {
                    lemma_leaves_have_boxes(*node, scene);
                    assert(node.leaves().contains(x));
                },
            }
        }
    }
}

impl BvhNode {
    /// Builds the hierarchy over a scene. One object stands on both sides of
    /// its node and two objects stand one on each side; a longer list is
    /// ordered along an axis drawn from `rng`, cut in the middle, and each half
    /// is built in the same way. Fails when an object lacks a box that the
    /// construction reads.
    pub fn new(rng: &mut rand_xoshiro::Xoshiro256PlusPlus, src_objects: &Vec<Bounds>) -> (r: Result<
        BvhNode,
        BvhConstructionError,
    >)
        requires
            src_objects@.len() > 0,
        ensures
            r.is_ok() <==> buildable(src_objects@),
            r matches Ok(tree) ==> {
                &&& tree.shaped(src_objects@)
                &&& tree.organized(src_objects@)
                &&& tree.leaves().to_multiset() == all_places(src_objects@.len()).to_multiset()
                &&& tree.leaves().len() == src_objects@.len()
                &&& tree.leaves().no_duplicates()
            },
            r matches Err(e) ==> e == BvhConstructionError::NoBoundingBox,
    {
        let n = src_objects.len();
        let mut items: Vec<usize> = Vec::new();
        let mut i: usize = 0;
        while i < n
            invariant
                i <= n,
                items@ == all_places(i as nat),
            decreases n - i,
        {
            items.push(i);
            i = i + 1;
            assert(items@ =~= all_places(i as nat));
        }
        let tables = if n >= 3 {
            match key_tables(src_objects) {
                Ok(tables) => tables,
                Err(e) => {
                    return Err(e);
                },
            }
        } else {
            KeyTables { x: Vec::new(), y: Vec::new(), z: Vec::new() }
        };
        let r = build(rng, src_objects, &tables, items);
        proof {
            let places = all_places(n as nat);
            assert forall|k: int| 0 <= k < n implies places[k] == k by {}
            if buildable(src_objects@) {
                assert forall|k: int| 0 <= k < places.len() implies src_objects@[#[trigger] places[k] as int].bbox.is_some() by {
                    assert(src_objects@[k].bbox.is_some());
                }
            }
            if r.is_ok() {
                assert forall|k: int| 0 <= k < src_objects@.len() implies (#[trigger] src_objects@[k]).bbox.is_some() by {
                    assert(src_objects@[places[k] as int].bbox.is_some());
                }
                lemma_rearranged_no_duplicates(places, r.unwrap().leaves());
            }
        }
        r
    }
}

} // verus!
