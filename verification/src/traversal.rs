//! Nearest-hit query on a hierarchy or on a plain list of objects.
//!
//! Testing a ray against a box or against an object is arithmetic on the
//! caller's side. A query is therefore a [`Walk`]: it names the next test to
//! make, takes the answer, and keeps the nearest hit found. The caller asks
//! for the probe, makes the test over the walk's current window and hands the
//! answer back, until the walk is finished.

use vstd::prelude::*;
use crate::aabb::Aabb;
use crate::bvh::{lemma_sides_smaller, BvhNode, Child};
use crate::scalar::Scalar;

verus! {

/// What a walk keeps of a hit: the place of the object in the scene list and
/// the ray parameter of the hit.
#[derive(Clone, Copy, Debug, PartialEq, Eq, Structural)]
pub struct Hit {
    pub index: usize,
    pub t: Scalar,
}

/// The test that a walk waits for.
#[derive(Clone, Copy, Debug, PartialEq, Eq, Structural)]
pub enum Probe {
    /// Does the ray meet this box within the window?
    Bounds(Aabb),
    /// Where does the ray hit the object at this place within the window?
    Primitive(usize),
    /// Nothing is left to test.
    Finished,
}

/// A subtree or an object that a walk has still to visit.
#[derive(Clone, Copy, Debug)]
pub enum Pending<'a> {
    Node(&'a BvhNode),
    Leaf(usize),
}

/// A pending visit as a value.
pub enum Task {
    Node(BvhNode),
    Leaf(usize),
}

/// Answers to every test that a walk may ask for, for one ray.
pub struct Oracle {
    /// Slab test of a box over a window.
    pub bounds: spec_fn(Aabb, Scalar, Scalar) -> bool,
    /// Ray parameter at which the object at a place is hit within a window.
    pub primitive: spec_fn(usize, Scalar, Scalar) -> Option<Scalar>,
}

impl Oracle {
    /// Hit of the object at `index` within the window.
    pub open spec fn leaf_hit(self, index: usize, t_min: Scalar, t_max: Scalar) -> Option<Hit> {
        match (self.primitive)(index, t_min, t_max) {
            Some(t) => Some(Hit { index, t }),
            None => None,
        }
    }
}

impl Child {
    /// Result of the query on this side.
    pub open spec fn spec_hit(self, oracle: Oracle, t_min: Scalar, t_max: Scalar) -> Option<Hit>
        decreases self,
    {
        match self {
            Child::Leaf(i) => oracle.leaf_hit(i, t_min, t_max),
            Child::Node(node) => node.spec_hit(oracle, t_min, t_max),
        }
    }

    /// Number of tests that a visit of this side can take at most.
    pub open spec fn weight(self) -> nat
        decreases self,
    {
        match self {
            Child::Leaf(i) => 1,
            Child::Node(node) => node.weight(),
        }
    }

    /// This side as a pending visit.
    pub open spec fn task(self) -> Task {
        match self {
            Child::Leaf(i) => Task::Leaf(i),
            Child::Node(node) => Task::Node(*node),
        }
    }
}

impl BvhNode {
    /// Result of the query on the subtree. A ray that misses the node's box
    /// hits nothing below it. A node that stands for one object asks that
    /// object. Otherwise the left side is asked over the whole window and the
    /// right side over the window cut at the left hit; a hit on the right
    /// replaces the one on the left.
    pub open spec fn spec_hit(self, oracle: Oracle, t_min: Scalar, t_max: Scalar) -> Option<Hit>
        decreases self,
    {
        proof {
            lemma_sides_smaller(self);
        }
        if !(oracle.bounds)(self.bounds(), t_min, t_max) {
            None
        } else if self.single() {
            self.lhs().spec_hit(oracle, t_min, t_max)
        } else {
            let hit_left = self.lhs().spec_hit(oracle, t_min, t_max);
            let hit_right = self.rhs().spec_hit(
                oracle,
                t_min,
                match hit_left {
                    Some(rec) => rec.t,
                    None => t_max,
                },
            );
            if hit_right.is_none() {
                hit_left
            } else {
                hit_right
            }
        }
    }

    /// Number of tests that a visit of the subtree can take at most.
    pub open spec fn weight(self) -> nat
        decreases self,
    {
        proof {
            lemma_sides_smaller(self);
        }
        1 + self.lhs().weight() + self.rhs().weight()
    }
}

impl Task {
    /// Result of the query on what is to be visited.
    pub open spec fn spec_hit(self, oracle: Oracle, t_min: Scalar, t_max: Scalar) -> Option<Hit> {
        match self {
            Task::Leaf(i) => oracle.leaf_hit(i, t_min, t_max),
            Task::Node(node) => node.spec_hit(oracle, t_min, t_max),
        }
    }

    pub open spec fn weight(self) -> nat {
        match self {
            Task::Leaf(i) => 1,
            Task::Node(node) => node.weight(),
        }
    }
}

impl<'a> Pending<'a> {
    pub open spec fn task(self) -> Task {
        match self {
            Pending::Leaf(i) => Task::Leaf(i),
            Pending::Node(node) => Task::Node(*node),
        }
    }
}

/// Sum of the weights of the pending visits.
pub open spec fn total_weight(tasks: Seq<Task>) -> nat
    decreases tasks.len(),
{
    if tasks.len() == 0 {
        0
    } else {
        tasks.last().weight() + total_weight(tasks.drop_last())
    }
}

/// The objects at the places `0 .. n`, stacked so that the first is visited first.
pub open spec fn listed(n: nat) -> Seq<Task> {
    Seq::new(n, |k: int| Task::Leaf((n - 1 - k) as usize))
}

/// A walk as a value: the visits still to make, the last of them next, the
/// window of the ray, and the nearest hit so far.
pub struct WalkState {
    pub tasks: Seq<Task>,
    pub t_min: Scalar,
    pub t_max: Scalar,
    pub best: Option<Hit>,
}

impl WalkState {
    /// The walk that starts at the root of a hierarchy.
    pub open spec fn at_root(root: BvhNode, t_min: Scalar, t_max: Scalar) -> WalkState {
        WalkState { tasks: seq![Task::Node(root)], t_min, t_max, best: None }
    }

    /// The walk over the first `n` objects of a list, in order.
    pub open spec fn over_list(n: nat, t_min: Scalar, t_max: Scalar) -> WalkState {
        WalkState { tasks: listed(n), t_min, t_max, best: None }
    }

    /// The test that the walk waits for.
    pub open spec fn probe(self) -> Probe {
        if self.tasks.len() == 0 {
            Probe::Finished
        } else {
            match self.tasks.last() {
                Task::Node(node) => Probe::Bounds(node.bounds()),
                Task::Leaf(i) => Probe::Primitive(i),
            }
        }
    }

    /// The walk after the answer to a box test: a miss drops the subtree, a
    /// hit puts its sides in its place, the left one to be visited first.
    pub open spec fn after_bounds(self, hit: bool) -> WalkState {
        let rest = self.tasks.drop_last();
        match self.tasks.last() {
            Task::Node(node) => WalkState {
                tasks: if !hit {
                    rest
                } else if node.single() {
                    rest.push(node.lhs().task())
                } else {
                    rest.push(node.rhs().task()).push(node.lhs().task())
                },
                ..self
            },
            Task::Leaf(i) => self,
        }
    }

    /// The walk after the answer to an object test: a hit becomes the nearest
    /// hit and its parameter the upper end of the window.
    pub open spec fn after_primitive(self, t: Option<Scalar>) -> WalkState {
        match self.tasks.last() {
            Task::Leaf(index) => match t {
                Some(t) => WalkState {
                    tasks: self.tasks.drop_last(),
                    t_min: self.t_min,
                    t_max: t,
                    best: Some(Hit { index, t }),
                },
                None => WalkState { tasks: self.tasks.drop_last(), ..self },
            },
            Task::Node(node) => self,
        }
    }

    /// The walk after its probe has been answered by the oracle.
    pub open spec fn answered(self, oracle: Oracle) -> WalkState {
        match self.probe() {
            Probe::Bounds(b) => self.after_bounds((oracle.bounds)(b, self.t_min, self.t_max)),
            Probe::Primitive(i) => self.after_primitive(
                (oracle.primitive)(i, self.t_min, self.t_max),
            ),
            Probe::Finished => self,
        }
    }

    /// What the pending visits amount to: each is queried in turn over the
    /// window that the hits before it have left.
    pub open spec fn outcome(self, oracle: Oracle) -> Option<Hit>
        decreases self.tasks.len(),
    {
        if self.tasks.len() == 0 {
            self.best
        } else {
            match self.tasks.last().spec_hit(oracle, self.t_min, self.t_max) {
                Some(rec) => WalkState {
                    tasks: self.tasks.drop_last(),
                    t_min: self.t_min,
                    t_max: rec.t,
                    best: Some(rec),
                }.outcome(oracle),
                None => WalkState { tasks: self.tasks.drop_last(), ..self }.outcome(oracle),
            }
        }
    }

    /// Number of tests that the walk can still take.
    pub open spec fn remaining(self) -> nat {
        total_weight(self.tasks)
    }

    /// The nearest hit that the walk ends with when every probe is answered by
    /// the oracle.
    pub open spec fn run(self, oracle: Oracle) -> Option<Hit>
        decreases self.remaining(),
    {
        if self.tasks.len() == 0 {
            self.best
        } else {
            if self.answered(oracle).remaining() < self.remaining() {
                self.answered(oracle).run(oracle)
            } else {
                self.best
            }
        }
    }
}

/// A side weighs the same as the pending visit made of it.
proof fn lemma_task_weight(child: Child)
    ensures
        child.task().weight() == child.weight(),
        child.weight() >= 1,
{
}

/// Each answer takes the walk nearer to its end.
pub proof fn lemma_answer_shortens(state: WalkState, oracle: Oracle)
    requires
        state.tasks.len() > 0,
    ensures
        state.answered(oracle).remaining() < state.remaining(),
{
    let rest = state.tasks.drop_last();
    let next = state.answered(oracle);
    assert(total_weight(state.tasks) == state.tasks.last().weight() + total_weight(rest));
    match state.tasks.last() {
        Task::Node(node) => {
            let hit = (oracle.bounds)(node.bounds(), state.t_min, state.t_max);
            lemma_task_weight(node.lhs());
            lemma_task_weight(node.rhs());
            if !hit {
                assert(next.tasks == rest);
            } else if node.single() {
                let t1 = rest.push(node.lhs().task());
                assert(t1.drop_last() =~= rest);
                assert(t1.last() == node.lhs().task());
                assert(next.tasks == t1);
                assert(total_weight(t1) == t1.last().weight() + total_weight(t1.drop_last()));
            } else {
                let t1 = rest.push(node.rhs().task());
                let t2 = t1.push(node.lhs().task());
                assert(t1.drop_last() =~= rest);
                assert(t2.drop_last() =~= t1);
                assert(t1.last() == node.rhs().task());
                assert(t2.last() == node.lhs().task());
                assert(next.tasks == t2);
                assert(total_weight(t1) == t1.last().weight() + total_weight(t1.drop_last()));
                assert(total_weight(t2) == t2.last().weight() + total_weight(t2.drop_last()));
            }
        },
        Task::Leaf(i) => {
            assert(next.tasks == rest);
        },
    }
}

/// An answer that agrees with the oracle leaves the outcome of the walk as it was.
pub proof fn lemma_answer_keeps_outcome(state: WalkState, oracle: Oracle)
    ensures
        state.answered(oracle).outcome(oracle) == state.outcome(oracle),
{
    if state.tasks.len() > 0 {
        let rest = state.tasks.drop_last();
        let next = state.answered(oracle);
        match state.tasks.last() {
            Task::Node(node) => {
                let hit = (oracle.bounds)(node.bounds(), state.t_min, state.t_max);
                if !hit {
                    assert(next.tasks == rest);
                } else if node.single() {
                    let t1 = rest.push(node.lhs().task());
                    assert(t1.drop_last() == rest);
                    assert(next.tasks == t1);
                    assert(node.lhs().task().spec_hit(oracle, state.t_min, state.t_max)
                        == node.lhs().spec_hit(oracle, state.t_min, state.t_max));
                } else {
                    let t1 = rest.push(node.rhs().task());
                    let t2 = t1.push(node.lhs().task());
                    assert(t1.drop_last() == rest);
                    assert(t2.drop_last() == t1);
                    assert(next.tasks == t2);
                    let hit_left = node.lhs().spec_hit(oracle, state.t_min, state.t_max);
                    assert(node.lhs().task().spec_hit(oracle, state.t_min, state.t_max)
                        == hit_left);
                    let mid = match hit_left {
                        Some(rec) => WalkState {
                            tasks: t1,
                            t_min: state.t_min,
                            t_max: rec.t,
                            best: Some(rec),
                        },
                        None => WalkState { tasks: t1, ..state },
                    };
                    assert(next.outcome(oracle) == mid.outcome(oracle));
                    assert(node.rhs().task().spec_hit(oracle, mid.t_min, mid.t_max)
                        == node.rhs().spec_hit(oracle, mid.t_min, mid.t_max));
                }
            },
            Task::Leaf(i) => {
                assert(next.tasks == rest);
            },
        }
    }
}

/// Driving a walk to its end with the oracle's answers yields its outcome.
pub proof fn lemma_run_is_outcome(state: WalkState, oracle: Oracle)
    ensures
        state.run(oracle) == state.outcome(oracle),
    decreases state.remaining(),
{
    if state.tasks.len() > 0 {
        lemma_answer_shortens(state, oracle);
        lemma_answer_keeps_outcome(state, oracle);
        lemma_run_is_outcome(state.answered(oracle), oracle);
    }
}

/// A walk from the root of a hierarchy, driven to its end, returns what the
/// query on the root is defined to return.
pub proof fn lemma_walk_is_query(root: BvhNode, oracle: Oracle, t_min: Scalar, t_max: Scalar)
    ensures
        WalkState::at_root(root, t_min, t_max).run(oracle) == root.spec_hit(oracle, t_min, t_max),
{
    let start = WalkState::at_root(root, t_min, t_max);
    lemma_run_is_outcome(start, oracle);
    assert(start.tasks.last() == Task::Node(root));
    assert(start.tasks.drop_last().len() == 0);
    match root.spec_hit(oracle, t_min, t_max) {
        Some(rec) => {
            let then = WalkState {
                tasks: start.tasks.drop_last(),
                t_min,
                t_max: rec.t,
                best: Some(rec),
            };
            assert(then.outcome(oracle) == Some(rec));
        },
        None => {
            let then = WalkState { tasks: start.tasks.drop_last(), ..start };
            assert(then.outcome(oracle) == start.best);
        },
    }
}

/// Pruning. When the ray misses the box of the root, the first answer ends
/// the walk: no object is ever tested, and there is no hit.
pub proof fn lemma_miss_prunes(root: BvhNode, oracle: Oracle, t_min: Scalar, t_max: Scalar)
    requires
        !(oracle.bounds)(root.bounds(), t_min, t_max),
    ensures
        WalkState::at_root(root, t_min, t_max).probe() == Probe::Bounds(root.bounds()),
        WalkState::at_root(root, t_min, t_max).answered(oracle).probe() == Probe::Finished,
        WalkState::at_root(root, t_min, t_max).answered(oracle).best.is_none(),
        WalkState::at_root(root, t_min, t_max).run(oracle).is_none(),
        root.spec_hit(oracle, t_min, t_max).is_none(),
{
    lemma_walk_is_query(root, oracle, t_min, t_max);
}

/// A nearest-hit query in progress.
pub struct Walk<'a> {
    tasks: Vec<Pending<'a>>,
    t_min: Scalar,
    t_max: Scalar,
    best: Option<Hit>,
}

impl<'a> Walk<'a> {
    /// The walk as a value.
    pub closed spec fn state(&self) -> WalkState {
        WalkState {
            tasks: self.tasks@.map_values(|p: Pending<'a>| p.task()),
            t_min: self.t_min,
            t_max: self.t_max,
            best: self.best,
        }
    }

    /// Starts the walk over the first `n` objects of a list, in order.
    pub fn over_list(n: usize, t_min: Scalar, t_max: Scalar) -> (walk: Walk<'a>)
        ensures
            walk.state() == WalkState::over_list(n as nat, t_min, t_max),
    {
        let mut tasks: Vec<Pending<'a>> = Vec::new();
        let mut k: usize = n;
        while k > 0
            invariant
                k <= n,
                tasks@.len() == n - k,
                forall|j: int| 0 <= j < tasks@.len() ==> tasks@[j] == Pending::<'a>::Leaf((n - 1 - j) as usize),
            decreases k,
        {
            k = k - 1;
            tasks.push(Pending::Leaf(k));
        }
        let walk = Walk { tasks, t_min, t_max, best: None };
        assert(walk.state().tasks =~= listed(n as nat));
        walk
    }

    /// The test to make next.
    pub fn probe(&self) -> (p: Probe)
        ensures
            p == self.state().probe(),
    {
        let n = self.tasks.len();
        if n == 0 {
            Probe::Finished
        } else {
            match self.tasks[n - 1] {
                Pending::Node(node) => Probe::Bounds(node.bounding_box()),
                Pending::Leaf(i) => Probe::Primitive(i),
            }
        }
    }

    /// Lower end of the window over which the next test is made.
    pub fn t_min(&self) -> (t: Scalar)
        ensures
            t == self.state().t_min,
    {
        self.t_min
    }

    /// Upper end of the window over which the next test is made.
    pub fn t_max(&self) -> (t: Scalar)
        ensures
            t == self.state().t_max,
    {
        self.t_max
    }

    /// The nearest hit found so far; the result of the query once the walk is
    /// finished.
    pub fn result(&self) -> (r: Option<Hit>)
        ensures
            r == self.state().best,
    {
        self.best
    }

    /// Takes the answer to the box test that the walk waits for.
    pub fn bounds_tested(&mut self, hit: bool)
        requires
            old(self).state().probe() is Bounds,
        ensures
            final(self).state() == old(self).state().after_bounds(hit),
    {
        let ghost before = self.state();
        let top = self.tasks.pop();
        match top {
            Some(Pending::Node(node)) => {
                if hit {
                    match (node.left(), node.right()) {
                        (Child::Leaf(i), Child::Leaf(j)) => {
                            if *i == *j {
                                self.tasks.push(Pending::Leaf(*i));
                            } else {
                                self.tasks.push(Pending::Leaf(*j));
                                self.tasks.push(Pending::Leaf(*i));
                            }
                        },
                        (left, right) => {
                            self.tasks.push(pending(right));
                            self.tasks.push(pending(left));
                        },
                    }
                }
            },
            _ => {},
        }
        assert(self.state().tasks =~= before.after_bounds(hit).tasks);
    }

    /// Takes the answer to the object test that the walk waits for.
    pub fn primitive_tested(&mut self, t: Option<Scalar>)
        requires
            old(self).state().probe() is Primitive,
        ensures
            final(self).state() == old(self).state().after_primitive(t),
    {
        let ghost before = self.state();
        let top = self.tasks.pop();
        match top {
            Some(Pending::Leaf(index)) => {
                match t {
                    Some(t) => {
                        self.t_max = t;
                        self.best = Some(Hit { index, t });
                    },
                    None => {},
                }
            },
            _ => {},
        }
        assert(self.state().tasks =~= before.after_primitive(t).tasks);
    }
}

/// One side of a node as a pending visit.
fn pending<'a>(child: &'a Child) -> (p: Pending<'a>)
    ensures
        p.task() == child.task(),
{
    match child {
        Child::Leaf(i) => Pending::Leaf(*i),
        Child::Node(node) => Pending::Node(&**node),
    }
}

impl BvhNode {
    /// Starts the nearest-hit query on the hierarchy over `[t_min, t_max]`.
    pub fn hit<'a>(&'a self, t_min: Scalar, t_max: Scalar) -> (walk: Walk<'a>)
        ensures
            walk.state() == WalkState::at_root(*self, t_min, t_max),
    {
        let mut tasks: Vec<Pending<'a>> = Vec::new();
        tasks.push(Pending::Node(self));
        let walk = Walk { tasks, t_min, t_max, best: None };
        assert(walk.state().tasks =~= seq![Task::Node(*self)]);
        walk
    }
}

} // verus!
