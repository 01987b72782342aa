//! The hierarchy finds the nearest hit: a walk over the tree ends at the same
//! ray parameter as a walk over the plain list of objects.

use vstd::prelude::*;
use crate::aabb::{lemma_union_encloses, Aabb};
use crate::bvh::{
    all_places,
    lemma_leaves_have_boxes,
    lemma_sides_smaller,
    Bounds,
    BvhNode,
    Child,
};
use crate::scalar::Scalar;
use crate::traversal::{
    lemma_run_is_outcome,
    lemma_walk_is_query,
    listed,
    Hit,
    Oracle,
    Task,
    WalkState,
};

verus! {

/// Where the ray first hits the object at `index` within the whole window.
pub open spec fn first_hit(oracle: Oracle, index: usize, t_min: Scalar, t_max: Scalar) -> Option<
    Scalar,
> {
    (oracle.primitive)(index, t_min, t_max)
}

/// A hit, kept only if it lies at or before `t_max`.
pub open spec fn clipped_at(hit: Option<Scalar>, t_max: Scalar) -> Option<Scalar> {
    match hit {
        Some(t) => if t.at_most(t_max) {
            Some(t)
        } else {
            None
        },
        None => None,
    }
}

/// The answers are those of sound tests on the scene. An object is hit at
/// its first hit in the window, or not at all once the window ends before it;
/// a reported hit lies in the window; and a ray that hits an object within a
/// window also meets every box that encloses the object's box.
pub open spec fn faithful(oracle: Oracle, scene: Seq<Bounds>, t_min: Scalar, t_max: Scalar) -> bool {
    &&& !t_max.nan()
    &&& forall|i: usize, end: Scalar|
        i < scene.len() && end.at_most(t_max) ==> #[trigger] (oracle.primitive)(i, t_min, end)
            == clipped_at(first_hit(oracle, i, t_min, t_max), end)
    &&& forall|i: usize|
        i < scene.len() ==> (#[trigger] first_hit(oracle, i, t_min, t_max) matches Some(t)
            ==> t_min.at_most(t) && t.at_most(t_max))
    &&& forall|b: Aabb, i: usize, end: Scalar|
        i < scene.len() && scene[i as int].bbox.is_some() && #[trigger] b.encloses(
            scene[i as int].bbox.unwrap(),
        ) && (#[trigger] (oracle.primitive)(i, t_min, end)).is_some() ==> (oracle.bounds)(
            b,
            t_min,
            end,
        )
}

/// Every box that an object of the scene reports is well formed.
pub open spec fn boxes_wf(scene: Seq<Bounds>) -> bool {
    forall|i: int|
        0 <= i < scene.len() && (#[trigger] scene[i]).bbox.is_some() ==> scene[i].bbox.unwrap().wf()
}

/// `found` is the nearest of the first hits of the objects in `among` that
/// lie at or before `end`, or `None` when there is none.
pub open spec fn is_nearest(
    oracle: Oracle,
    t_min: Scalar,
    t_max: Scalar,
    among: Seq<usize>,
    end: Scalar,
    found: Option<Hit>,
) -> bool {
    match found {
        None => forall|x: usize|
            among.contains(x) ==> clipped_at(#[trigger] first_hit(oracle, x, t_min, t_max), end)
                is None,
        Some(rec) => {
            &&& among.contains(rec.index)
            &&& first_hit(oracle, rec.index, t_min, t_max) == Some(rec.t)
            &&& rec.t.at_most(end)
            &&& forall|x: usize|
                among.contains(x) ==> (#[trigger] first_hit(oracle, x, t_min, t_max) matches Some(t)
                    ==> rec.t.at_most(t))
        },
    }
}

/// Two results are the same as far as the ray parameter goes.
pub open spec fn same_time(a: Option<Hit>, b: Option<Hit>) -> bool {
    match (a, b) {
        (None, None) => true,
        (Some(x), Some(y)) => x.t.rank() == y.t.rank(),
        _ => false,
    }
}

/// A box that encloses a box encloses what that box encloses.
proof fn lemma_encloses_trans(a: Aabb, b: Aabb, c: Aabb)
    requires
        a.encloses(b),
        b.encloses(c),
    ensures
        a.encloses(c),
{
    assert(b.has_corner(b.lo()));
    assert(b.has_corner(b.hi()));
    assert(a.contains(b.lo()));
    assert(a.contains(b.hi()));
    assert forall|p| c.has_corner(p) implies a.contains(p) by {
        assert(b.contains(p));
        assert forall|k: int| 0 <= k < 3 implies a.lo().axis(k).at_most(#[trigger] p.axis(k))
            && p.axis(k).at_most(a.hi().axis(k)) by {
            assert(b.lo().axis(k).at_most(p.axis(k)));
            assert(a.lo().axis(k).at_most(b.lo().axis(k)));
            assert(b.hi().axis(k).at_most(a.hi().axis(k)));
        }
    }
}

/// A well-formed box encloses itself.
proof fn lemma_encloses_self(a: Aabb)
    requires
        a.wf(),
    ensures
        a.encloses(a),
{
    assert forall|p| a.has_corner(p) implies a.contains(p) by {
        assert forall|k: int| 0 <= k < 3 implies a.lo().axis(k).at_most(#[trigger] p.axis(k))
            && p.axis(k).at_most(a.hi().axis(k)) by {
            assert(a.lo().axis(k).at_most(a.hi().axis(k)));
        }
    }
}

/// The box of a side of a shaped tree is well formed and encloses the box of
/// every object below it.
proof fn lemma_child_encloses(child: Child, scene: Seq<Bounds>)
    requires
        child.shaped(scene),
        boxes_wf(scene),
    ensures
        child.bounds(scene).is_some(),
        child.bounds(scene).unwrap().wf(),
        forall|x: usize| #[trigger]
            child.leaves().contains(x) ==> x < scene.len() && scene[x as int].bbox.is_some()
                && child.bounds(scene).unwrap().encloses(scene[x as int].bbox.unwrap()),
    decreases child,
{
    match child {
        Child::Leaf(i) => {
            let own = scene[i as int].bbox.unwrap();
            assert(own.wf());
            lemma_encloses_self(own);
            assert(child.bounds(scene) == Some(own));
            assert forall|x: usize| #[trigger] child.leaves().contains(x) implies x < scene.len()
                && scene[x as int].bbox.is_some() && child.bounds(scene).unwrap().encloses(
                scene[x as int].bbox.unwrap(),
            ) by {
                let k = choose|k: int| 0 <= k < child.leaves().len() && child.leaves()[k] == x;
                assert(x == i);
            }
        },
        Child::Node(node) => {
            lemma_node_encloses(*node, scene);
            assert(child.leaves() == node.leaves());
            assert(child.bounds(scene) == Some(node.bounds()));
            assert forall|x: usize| #[trigger] child.leaves().contains(x) implies x < scene.len()
                && scene[x as int].bbox.is_some() && child.bounds(scene).unwrap().encloses(
                scene[x as int].bbox.unwrap(),
            ) by {
                assert(node.leaves().contains(x));
            }
        },
    }
}

/// The box of a shaped tree is well formed and encloses the box of every object
/// below it.
pub proof fn lemma_node_encloses(node: BvhNode, scene: Seq<Bounds>)
    requires
        node.shaped(scene),
        boxes_wf(scene),
    ensures
        node.bounds().wf(),
        forall|x: usize| #[trigger]
            node.leaves().contains(x) ==> x < scene.len() && scene[x as int].bbox.is_some()
                && node.bounds().encloses(scene[x as int].bbox.unwrap()),
    decreases node,
{
    lemma_sides_smaller(node);
    lemma_child_encloses(node.lhs(), scene);
    lemma_child_encloses(node.rhs(), scene);
    let bl = node.lhs().bounds(scene).unwrap();
    let br = node.rhs().bounds(scene).unwrap();
    lemma_union_encloses(node.bounds(), bl, br);
    assert forall|x: usize| #[trigger] node.leaves().contains(x) implies x < scene.len()
        && scene[x as int].bbox.is_some() && node.bounds().encloses(
        scene[x as int].bbox.unwrap(),
    ) by {
        let k = choose|k: int| 0 <= k < node.leaves().len() && node.leaves()[k] == x;
        let l = node.lhs().leaves();
        let r = node.rhs().leaves();
        if node.single() || k < l.len() {
            assert(l[k] == x);
            assert(l.contains(x));
            lemma_encloses_trans(node.bounds(), bl, scene[x as int].bbox.unwrap());
        } else {
            assert(r[k - l.len()] == x);
            assert(r.contains(x));
            lemma_encloses_trans(node.bounds(), br, scene[x as int].bbox.unwrap());
        }
    }
}

/// The query on one side of a shaped tree finds the nearest hit below it.
proof fn lemma_child_nearest(
    child: Child,
    scene: Seq<Bounds>,
    oracle: Oracle,
    t_min: Scalar,
    t_max: Scalar,
    end: Scalar,
)
    requires
        child.shaped(scene),
        boxes_wf(scene),
        faithful(oracle, scene, t_min, t_max),
        end.at_most(t_max),
    ensures
        is_nearest(oracle, t_min, t_max, child.leaves(), end, child.spec_hit(oracle, t_min, end)),
    decreases child,
{
    match child {
        Child::Leaf(i) => {
            assert(child.leaves()[0] == i);
            assert(child.leaves().contains(i));
            assert forall|x: usize| child.leaves().contains(x) implies x == i by {
                let k = choose|k: int| 0 <= k < child.leaves().len() && child.leaves()[k] == x;
            }
            assert((oracle.primitive)(i, t_min, end) == clipped_at(
                first_hit(oracle, i, t_min, t_max),
                end,
            ));
        },
        Child::Node(node) => {
            lemma_node_nearest(*node, scene, oracle, t_min, t_max, end);
        },
    }
}

/// The query on a shaped tree finds the nearest hit below it.
pub proof fn lemma_node_nearest(
    node: BvhNode,
    scene: Seq<Bounds>,
    oracle: Oracle,
    t_min: Scalar,
    t_max: Scalar,
    end: Scalar,
)
    requires
        node.shaped(scene),
        boxes_wf(scene),
        faithful(oracle, scene, t_min, t_max),
        end.at_most(t_max),
    ensures
        is_nearest(oracle, t_min, t_max, node.leaves(), end, node.spec_hit(oracle, t_min, end)),
    decreases node,
{
    lemma_sides_smaller(node);
    lemma_leaves_have_boxes(node, scene);
    let found = node.spec_hit(oracle, t_min, end);
    let l = node.lhs().leaves();
    let r = node.rhs().leaves();
    if !(oracle.bounds)(node.bounds(), t_min, end) {
        lemma_node_encloses(node, scene);
        assert forall|x: usize| node.leaves().contains(x) implies clipped_at(
            #[trigger] first_hit(oracle, x, t_min, t_max),
            end,
        ) is None by {
            assert(node.bounds().encloses(scene[x as int].bbox.unwrap()));
            assert((oracle.primitive)(x, t_min, end) == clipped_at(
                first_hit(oracle, x, t_min, t_max),
                end,
            ));
        }
    } else if node.single() {
        lemma_child_nearest(node.lhs(), scene, oracle, t_min, t_max, end);
    } else {
        lemma_child_nearest(node.lhs(), scene, oracle, t_min, t_max, end);
        let hit_left = node.lhs().spec_hit(oracle, t_min, end);
        let cut = match hit_left {
            Some(rec) => rec.t,
            None => end,
        };
        lemma_child_nearest(node.rhs(), scene, oracle, t_min, t_max, cut);
        let hit_right = node.rhs().spec_hit(oracle, t_min, cut);
        assert forall|x: usize| node.leaves().contains(x) implies l.contains(x) || r.contains(
            x,
        ) by {
            let k = choose|k: int| 0 <= k < node.leaves().len() && node.leaves()[k] == x;
            if k < l.len() {
                assert(l[k] == x);
            } else {
                assert(r[k - l.len()] == x);
            }
        }
        assert forall|x: usize| l.contains(x) || r.contains(x) implies node.leaves().contains(
            x,
        ) by {
            if l.contains(x) {
                let k = choose|k: int| 0 <= k < l.len() && l[k] == x;
                assert(node.leaves()[k] == x);
            } else {
                let k = choose|k: int| 0 <= k < r.len() && r[k] == x;
                assert(node.leaves()[k + l.len()] == x);
            }
        }
        match found {
            None => {
                assert forall|x: usize| node.leaves().contains(x) implies clipped_at(
                    #[trigger] first_hit(oracle, x, t_min, t_max),
                    end,
                ) is None by {
                    assert(l.contains(x) || r.contains(x));
                }
            },
            Some(rec) => {
                assert forall|x: usize| node.leaves().contains(x) implies (#[trigger] first_hit(
                    oracle,
                    x,
                    t_min,
                    t_max,
                ) matches Some(t) ==> rec.t.at_most(t)) by {
                    assert(l.contains(x) || r.contains(x));
                    assert(x < scene.len());
                    if let Some(t) = first_hit(oracle, x, t_min, t_max) {
                        assert(t.at_most(t_max));
                        assert(clipped_at(first_hit(oracle, x, t_min, t_max), cut) is None
                            ==> !t.at_most(cut));
                        assert(clipped_at(first_hit(oracle, x, t_min, t_max), end) is None
                            ==> !t.at_most(end));
                    }
                }
            },
        }
    }
}

/// The places of the objects that a stack of leaves still has to visit.
pub open spec fn waiting(tasks: Seq<Task>) -> Seq<usize> {
    Seq::new(
        tasks.len(),
        |k: int|
            match tasks[k] {
                Task::Leaf(i) => i,
                Task::Node(node) => 0,
            },
    )
}

/// A walk over leaves, from a state in which the best hit is the nearest
/// among the objects visited, ends with the nearest among those and the ones
/// still waiting.
proof fn lemma_list_nearest(
    state: WalkState,
    scene: Seq<Bounds>,
    oracle: Oracle,
    t_max: Scalar,
    visited: Seq<usize>,
)
    requires
        faithful(oracle, scene, state.t_min, t_max),
        forall|k: int| 0 <= k < state.tasks.len() ==> (#[trigger] state.tasks[k] matches Task::Leaf(i) && i < scene.len()),
        forall|x: usize| visited.contains(x) ==> x < scene.len(),
        state.best is None ==> state.t_max == t_max,
        state.best matches Some(rec) ==> state.t_max == rec.t,
        is_nearest(oracle, state.t_min, t_max, visited, t_max, state.best),
    ensures
        is_nearest(
            oracle,
            state.t_min,
            t_max,
            visited + waiting(state.tasks),
            t_max,
            state.outcome(oracle),
        ),
    decreases state.tasks.len(),
{
    let t_min = state.t_min;
    if state.tasks.len() == 0 {
        assert(visited + waiting(state.tasks) =~= visited);
    } else {
        let rest = state.tasks.drop_last();
        let i = state.tasks.last()->Leaf_0;
        assert(state.tasks[state.tasks.len() - 1] matches Task::Leaf(j) && j < scene.len());
        assert(state.t_max.at_most(t_max));
        assert((oracle.primitive)(i, t_min, state.t_max) == clipped_at(
            first_hit(oracle, i, t_min, t_max),
            state.t_max,
        ));
        let found = state.tasks.last().spec_hit(oracle, t_min, state.t_max);
        let next = match found {
            Some(rec) => WalkState { tasks: rest, t_min, t_max: rec.t, best: Some(rec) },
            None => WalkState { tasks: rest, ..state },
        };
        let seen = visited.push(i);
        assert forall|x: usize| seen.contains(x) implies visited.contains(x) || x == i by {
            let k = choose|k: int| 0 <= k < seen.len() && seen[k] == x;
            if k < visited.len() {
                assert(visited[k] == x);
            }
        }
        assert(seen[visited.len() as int] == i);
        assert forall|x: usize| visited.contains(x) implies seen.contains(x) by {
            let k = choose|k: int| 0 <= k < visited.len() && visited[k] == x;
            assert(seen[k] == x);
        }
        match found {
            Some(rec) => {
                assert forall|x: usize| seen.contains(x) implies (#[trigger] first_hit(
                    oracle,
                    x,
                    t_min,
                    t_max,
                ) matches Some(t) ==> rec.t.at_most(t)) by {
                    assert(visited.contains(x) || x == i);
                }
            },
            None => {
                match state.best {
                    Some(rec) => {
                        assert forall|x: usize| seen.contains(x) implies (#[trigger] first_hit(
                            oracle,
                            x,
                            t_min,
                            t_max,
                        ) matches Some(t) ==> rec.t.at_most(t)) by {
                            assert(visited.contains(x) || x == i);
                        }
                    },
                    None => {
                        assert forall|x: usize| seen.contains(x) implies clipped_at(
                            #[trigger] first_hit(oracle, x, t_min, t_max),
                            t_max,
                        ) is None by {
                            assert(visited.contains(x) || x == i);
                        }
                    },
                }
            },
        }
        assert(is_nearest(oracle, t_min, t_max, seen, t_max, next.best));
        assert forall|k: int| 0 <= k < rest.len() implies (#[trigger] rest[k] matches Task::Leaf(j) && j < scene.len()) by {
            assert(rest[k] == state.tasks[k]);
        }
        lemma_list_nearest(next, scene, oracle, t_max, seen);
        assert(next.outcome(oracle) == state.outcome(oracle));
        // the stack is visited from its last element down
        assert forall|x: usize| (seen + waiting(rest)).contains(x) <==> (visited + waiting(
            state.tasks,
        )).contains(x) by {
            lemma_contains_concat(seen, waiting(rest), x);
            lemma_contains_concat(visited, waiting(state.tasks), x);
            if waiting(rest).contains(x) {
                let k = choose|k: int| 0 <= k < waiting(rest).len() && waiting(rest)[k] == x;
                assert(waiting(state.tasks)[k] == x);
            }
            if waiting(state.tasks).contains(x) {
                let k = choose|k: int|
                    0 <= k < waiting(state.tasks).len() && waiting(state.tasks)[k] == x;
                if k < rest.len() {
                    assert(waiting(rest)[k] == x);
                } else {
                    assert(x == i);
                }
            }
            assert(waiting(state.tasks)[state.tasks.len() - 1] == i);
        }
        lemma_nearest_same_members(
            oracle,
            t_min,
            t_max,
            seen + waiting(rest),
            visited + waiting(state.tasks),
            state.outcome(oracle),
        );
    }
}

/// Membership in a list put together from two is membership in one of them.
proof fn lemma_contains_concat(a: Seq<usize>, b: Seq<usize>, x: usize)
    ensures
        (a + b).contains(x) <==> a.contains(x) || b.contains(x),
{
    if (a + b).contains(x) {
        let k = choose|k: int| 0 <= k < (a + b).len() && (a + b)[k] == x;
        if k < a.len() {
            assert(a[k] == x);
        } else {
            assert(b[k - a.len()] == x);
        }
    }
    if a.contains(x) {
        let k = choose|k: int| 0 <= k < a.len() && a[k] == x;
        assert((a + b)[k] == x);
    }
    if b.contains(x) {
        let k = choose|k: int| 0 <= k < b.len() && b[k] == x;
        assert((a + b)[k + a.len()] == x);
    }
}

/// Being the nearest depends on which objects are listed, not on their order.
proof fn lemma_nearest_same_members(
    oracle: Oracle,
    t_min: Scalar,
    t_max: Scalar,
    a: Seq<usize>,
    b: Seq<usize>,
    found: Option<Hit>,
)
    requires
        forall|x: usize| a.contains(x) <==> b.contains(x),
        is_nearest(oracle, t_min, t_max, a, t_max, found),
    ensures
        is_nearest(oracle, t_min, t_max, b, t_max, found),
{
}

/// Closest hit. On a scene of well-formed boxes and with faithful answers,
/// the walk over a hierarchy that holds every object of the scene ends at the
/// same ray parameter as the walk over the plain list of the objects: both
/// find no hit, or both find a hit at the same distance along the ray.
pub proof fn lemma_closest_hit(
    root: BvhNode,
    scene: Seq<Bounds>,
    oracle: Oracle,
    t_min: Scalar,
    t_max: Scalar,
)
    requires
        scene.len() <= usize::MAX,
        root.shaped(scene),
        root.leaves().to_multiset() == all_places(scene.len()).to_multiset(),
        boxes_wf(scene),
        faithful(oracle, scene, t_min, t_max),
    ensures
        same_time(
            WalkState::at_root(root, t_min, t_max).run(oracle),
            WalkState::over_list(scene.len(), t_min, t_max).run(oracle),
        ),
        is_nearest(
            oracle,
            t_min,
            t_max,
            all_places(scene.len()),
            t_max,
            WalkState::at_root(root, t_min, t_max).run(oracle),
        ),
        WalkState::at_root(root, t_min, t_max).run(oracle) matches Some(rec) ==> t_min.at_most(
            rec.t,
        ) && rec.t.at_most(t_max),
{
    let n = scene.len();
    let places = all_places(n);
    let by_tree = WalkState::at_root(root, t_min, t_max).run(oracle);
    let plain = WalkState::over_list(n, t_min, t_max);
    let by_list = plain.run(oracle);
    lemma_walk_is_query(root, oracle, t_min, t_max);
    lemma_node_nearest(root, scene, oracle, t_min, t_max, t_max);
    lemma_run_is_outcome(plain, oracle);
    assert forall|k: int| 0 <= k < plain.tasks.len() implies (#[trigger] plain.tasks[k] matches Task::Leaf(i) && i < scene.len()) by {
        assert(plain.tasks[k] == Task::Leaf((n - 1 - k) as usize));
    }
    let none: Seq<usize> = Seq::empty();
    assert(is_nearest(oracle, t_min, t_max, none, t_max, None));
    lemma_list_nearest(plain, scene, oracle, t_max, none);
    // both walks range over every place of the scene
    root.leaves().to_multiset_ensures();
    places.to_multiset_ensures();
    assert forall|x: usize| root.leaves().contains(x) <==> places.contains(x) by {
        assert(root.leaves().contains(x) <==> root.leaves().to_multiset().count(x) > 0);
        assert(places.contains(x) <==> places.to_multiset().count(x) > 0);
    }
    assert forall|x: usize| (none + waiting(plain.tasks)).contains(x) <==> places.contains(x) by {
        let w = none + waiting(plain.tasks);
        if w.contains(x) {
            let k = choose|k: int| 0 <= k < w.len() && w[k] == x;
            assert(plain.tasks[k] == Task::Leaf((n - 1 - k) as usize));
            assert(places[n - 1 - k] == x);
        }
        if places.contains(x) {
            let k = choose|k: int| 0 <= k < places.len() && places[k] == x;
            assert(plain.tasks[n - 1 - k] == Task::Leaf(k as usize));
            assert(w[n - 1 - k] == x);
        }
    }
    lemma_nearest_same_members(oracle, t_min, t_max, root.leaves(), places, by_tree);
    lemma_nearest_same_members(
        oracle,
        t_min,
        t_max,
        none + waiting(plain.tasks),
        places,
        by_list,
    );
    if let Some(rec) = by_tree {
        assert(places.contains(rec.index));
        let k = choose|k: int| 0 <= k < places.len() && places[k] == rec.index;
        assert(rec.index < scene.len());
        assert(first_hit(oracle, rec.index, t_min, t_max) == Some(rec.t));
    }
    match (by_tree, by_list) {
        (Some(a), Some(b)) => {
            assert(a.t.at_most(b.t));
            assert(b.t.at_most(a.t));
        },
        (Some(a), None) => {
            assert(clipped_at(first_hit(oracle, a.index, t_min, t_max), t_max) is None);
        },
        (None, Some(b)) => {
            assert(clipped_at(first_hit(oracle, b.index, t_min, t_max), t_max) is None);
        },
        (None, None) => {},
    }
}

} // verus!
