//! The per-agent re-planner: a two-objective state machine over shortest
//! paths.
//!
//! An agent travels alternately to its work and home poses. On arrival the
//! objective flips and the cached plan is dropped; whenever no plan is
//! cached, a shortest path to the current objective is searched. Each tick
//! the planner emits a horizon of immediate actions read off the cached path,
//! padded with waits, and drops the plan when the agent's actual pose has
//! diverged from it.

use vstd::prelude::*;

use crate::coords::{
    coords_step_safe, from_pair_spec, next_coords_spec, Actions, Coords, RobotName,
};
use crate::world::{Robot, World};
use pathfinding::prelude::astar;

verus! {

/// Relies on num's integer `sqrt`: the truncated principal square root of a
/// non-negative integer; negative input panics and is excluded.
#[verifier::external_body]
fn int_sqrt(n: i64) -> (r: i64)
    requires
        n >= 0,
    ensures
        0 <= r,
        r * r <= n,
        n < (r + 1) * (r + 1),
{
    num::integer::sqrt(n)
}

/// The squared Euclidean distance between two poses' cells.
pub open spec fn dist_sq(a: Coords, b: Coords) -> int {
    (a.xy.x - b.xy.x) * (a.xy.x - b.xy.x) + (a.xy.y - b.xy.y) * (a.xy.y - b.xy.y)
}

impl Coords {
    /// The straight-line distance to another pose's cell, rounded down.
    pub fn dist(&self, other: &Coords) -> (r: u32)
        ensures
            r * r <= dist_sq(*self, *other),
            dist_sq(*self, *other) < (r + 1) * (r + 1),
    {
        let dx = self.xy.x as i64 - other.xy.x as i64;
        let dy = self.xy.y as i64 - other.xy.y as i64;
        proof {
            assert(dx * dx + dy * dy <= 2 * 65535 * 65535) by (nonlinear_arith)
                requires
                    -65535 <= dx <= 65535,
                    -65535 <= dy <= 65535,
            ;
            assert(dx * dx >= 0 && dy * dy >= 0) by (nonlinear_arith);
        }
        let s = int_sqrt(dx * dx + dy * dy);
        proof {
            assert(s <= 92681) by (nonlinear_arith)
                requires
                    s >= 0,
                    s * s <= 2 * 65535 * 65535,
            ;
        }
        s as u32
    }
}

/// Some action legal at `p` leads from `p` to `q`: `q` is a successor of `p`.
pub open spec fn linked_at(w: World, p: Coords, q: Coords) -> bool {
    exists|a: Actions| #[trigger] w.legal_action_spec(p, a) && q == next_coords_spec(p, a)
}

/// A concrete action witnesses `linked_at`.
pub proof fn lemma_linked_at_intro(w: World, p: Coords, q: Coords, a: Actions)
    requires
        w.legal_action_spec(p, a),
        q == next_coords_spec(p, a),
    ensures
        linked_at(w, p, q),
{
    assert(w.legal_action_spec(p, a) && q == next_coords_spec(p, a));
}

/// Each consecutive pair of the path is joined by an action that is legal at
/// its source pose.
pub open spec fn path_linked(w: World, path: Seq<Coords>) -> bool {
    forall|i: int|
        0 <= i < path.len() - 1 ==> linked_at(w, #[trigger] path[i], path[i + 1])
}

/// A path is usable by the planner: it is not empty, every pose on it is a
/// valid standing pose, and each consecutive pair is joined by an action that
/// is legal at its source pose.
pub open spec fn path_ok(w: World, path: Seq<Coords>) -> bool {
    &&& path.len() >= 1
    &&& forall|i: int| 0 <= i < path.len() ==> w.valid_coords_spec(#[trigger] path[i])
    &&& forall|i: int|
        0 <= i < path.len() - 1 ==> #[trigger] from_pair_spec(path[i], path[i + 1]) is Some
    &&& path_linked(w, path)
}

/// Cutting the first pose off a linked path keeps it linked.
proof fn lemma_path_linked_drop_first(w: World, before: Seq<Coords>, after: Seq<Coords>)
    requires
        path_linked(w, before),
        before.len() >= 2,
        after == before.drop_first(),
    ensures
        path_linked(w, after),
{
    assert forall|i: int|
        0 <= i < after.len() - 1 implies linked_at(w, #[trigger] after[i], after[i + 1]) by {
        assert(after[i] == before[i + 1]);
        assert(after[i + 1] == before[i + 2]);
        assert(linked_at(w, before[i + 1], before[i + 2]));
    }
}

/// A usable path in one world is usable in another in which every pose is
/// equally valid and every action equally legal — in particular in the same
/// world after a tick, which moves robots but never edits cells' legality.
pub proof fn lemma_path_ok_stable(w1: World, w2: World, path: Seq<Coords>)
    requires
        path_ok(w1, path),
        forall|c: Coords| #[trigger] w2.valid_coords_spec(c) == w1.valid_coords_spec(c),
        forall|c: Coords, a: Actions|
            w1.grid.in_bounds(c.xy) ==> #[trigger] w2.legal_action_spec(c, a)
                == w1.legal_action_spec(c, a),
    ensures
        path_ok(w2, path),
{
    assert forall|i: int| 0 <= i < path.len() implies w2.valid_coords_spec(
        #[trigger] path[i],
    ) by {}
    assert forall|i: int|
        0 <= i < path.len() - 1 implies linked_at(w2, #[trigger] path[i], path[i + 1]) by {
        assert(linked_at(w1, path[i], path[i + 1]));
        let a = choose|a: Actions|
            #[trigger] w1.legal_action_spec(path[i], a) && path[i + 1] == next_coords_spec(
                path[i],
                a,
            );
        assert(w1.valid_coords_spec(path[i]));
        assert(w1.grid.in_bounds(path[i].xy));
        lemma_linked_at_intro(w2, path[i], path[i + 1], a);
    }
}

/// An agent's cached plan stays well-formed across a tick that moves robots
/// but never edits cells' legality.
pub proof fn lemma_plan_wf_stable(agent: SimpleAgent, w1: World, w2: World)
    requires
        agent.plan_wf(w1),
        forall|c: Coords| #[trigger] w2.valid_coords_spec(c) == w1.valid_coords_spec(c),
        forall|c: Coords, a: Actions|
            w1.grid.in_bounds(c.xy) ==> #[trigger] w2.legal_action_spec(c, a)
                == w1.legal_action_spec(c, a),
    ensures
        agent.plan_wf(w2),
{
    match agent.plan {
        Some(PlanResult::Success(path)) => {
            lemma_path_ok_stable(w1, w2, path@);
        },
        _ => {},
    }
}

/// Relies on pathfinding's `astar` over the world's successor function with
/// unit edge cost and the straight-line distance heuristic: a returned path
/// comprises both the start and a goal pose, and each pose after the first is
/// a successor of its predecessor, so every pose on it is valid. The search
/// computes a lowest-cost route, and the truncated Euclidean heuristic never
/// exceeds the remaining step count, so no usable pose path with the same
/// endpoints is shorter than the returned one. `None` is returned exactly
/// when no path exists, so on `None` no usable pose path joins the start to
/// the goal.
#[verifier::external_body]
fn astar_search(world: &World, start: &Coords, goal: &Coords) -> (r: Option<Vec<Coords>>)
    requires
        world.grid.wf(),
        world.valid_coords_spec(*start),
    ensures
        match r {
            Some(path) => path_ok(*world, path@) && path@[0] == *start && path@[path@.len() - 1]
                == *goal && forall|p2: Seq<Coords>|
                #[trigger] path_ok(*world, p2) && p2[0] == *start && p2[p2.len() - 1] == *goal
                    ==> p2.len() >= path@.len(),
            None => forall|path: Seq<Coords>|
                !(#[trigger] path_ok(*world, path) && path[0] == *start && path[path.len() - 1]
                    == *goal),
        },
{
    match astar(
        start,
        |c: &Coords| world.successors(c).into_iter().map(|p| (p, 1u32)),
        |c: &Coords| goal.dist(c),
        |c: &Coords| *c == *goal,
    ) {
        Some((path, _cost)) => Some(path),
        None => None,
    }
}

/// A horizon of waits.
pub fn wait_horizon(horizon: usize) -> (r: Vec<Actions>)
    ensures
        r@.len() == horizon,
        forall|i: int| 0 <= i < r@.len() ==> r@[i] == Actions::Wait,
{
    let mut r: Vec<Actions> = Vec::new();
    while r.len() < horizon
        invariant
            r@.len() <= horizon,
            forall|i: int| 0 <= i < r@.len() ==> r@[i] == Actions::Wait,
        decreases horizon - r@.len(),
    {
        r.push(Actions::Wait);
    }
    r
}

/// Translate up to `horizon` consecutive pose pairs of a usable path into
/// the actions that join them, padding the rest of the horizon with waits.
#[verifier::loop_isolation(false)]
pub fn emit_horizon(world: &World, path: &Vec<Coords>, horizon: usize) -> (r: Vec<Actions>)
    requires
        world.grid.wf(),
        path_ok(*world, path@),
    ensures
        r@.len() == horizon,
        ({
            let n_av = if horizon < path@.len() - 1 {
                horizon as int
            } else {
                path@.len() - 1
            };
            &&& forall|i: int|
                0 <= i < n_av ==> Some(#[trigger] r@[i]) == from_pair_spec(path@[i], path@[i + 1])
            &&& forall|i: int| n_av <= i < horizon ==> #[trigger] r@[i] == Actions::Wait
        }),
{
    let navailable = if horizon < path.len() - 1 {
        horizon
    } else {
        path.len() - 1
    };
    let mut immediate: Vec<Actions> = Vec::new();
    let mut i: usize = 0;
    while i < navailable
        invariant
            i <= navailable,
            navailable <= path@.len() - 1,
            immediate@.len() == i,
            forall|k: int|
                0 <= k < i ==> Some(#[trigger] immediate@[k]) == from_pair_spec(
                    path@[k],
                    path@[k + 1],
                ),
        decreases navailable - i,
    {
        proof {
            assert(world.valid_coords_spec(path@[i as int]));
            assert(coords_step_safe(path@[i as int]));
            assert(from_pair_spec(path@[i as int], path@[i as int + 1]) is Some);
        }
        match Actions::from_pair(&path[i], &path[i + 1]) {
            Some(a) => {
                immediate.push(a);
            },
            None => {
                proof {
                    assert(false);
                }
            },
        }
        i = i + 1;
    }
    while immediate.len() < horizon
        invariant
            navailable <= immediate@.len() <= horizon,
            forall|k: int|
                0 <= k < navailable ==> Some(#[trigger] immediate@[k]) == from_pair_spec(
                    path@[k],
                    path@[k + 1],
                ),
            forall|k: int| navailable <= k < immediate@.len() ==> #[trigger] immediate@[k]
                == Actions::Wait,
        decreases horizon - immediate@.len(),
    {
        immediate.push(Actions::Wait);
    }
    immediate
}

/// An agent's two objectives.
#[derive(Debug, Copy, Clone, PartialEq, Eq, Structural)]
pub struct Objectives {
    pub home: Coords,
    pub work: Coords,
}

/// Which objective the agent is currently traveling to.
#[allow(non_camel_case_types)]
#[derive(Debug, Copy, Clone, PartialEq, Eq, Structural)]
pub enum SimpleAgentStates {
    TRAVELING_TO_WORK,
    TRAVELING_TO_HOME,
}

/// The cached outcome of the last path search: a pose path on success, or a
/// marker that the objective was unreachable.
#[derive(Debug)]
pub enum PlanResult {
    Success(Vec<Coords>),
    Failure,
}

/// The per-agent re-planner state.
#[derive(Debug)]
pub struct SimpleAgent {
    pub objectives: Objectives,
    pub state: SimpleAgentStates,
    pub plan: Option<PlanResult>,
}

impl SimpleAgent {
    /// The pose of the objective currently traveled to.
    pub open spec fn goal_spec(self) -> Coords {
        match self.state {
            SimpleAgentStates::TRAVELING_TO_WORK => self.objectives.work,
            SimpleAgentStates::TRAVELING_TO_HOME => self.objectives.home,
        }
    }

    /// Any cached successful plan is a usable path in the given world.
    pub open spec fn plan_wf(self, w: World) -> bool {
        match self.plan {
            Some(PlanResult::Success(path)) => path_ok(w, path@),
            _ => true,
        }
    }

    /// The pose of the objective currently traveled to.
    pub fn get_goal(&self) -> (r: Coords)
        ensures
            r == self.goal_spec(),
    {
        match self.state {
            SimpleAgentStates::TRAVELING_TO_WORK => self.objectives.work,
            SimpleAgentStates::TRAVELING_TO_HOME => self.objectives.home,
        }
    }

    /// Search a shortest path from the current pose to the goal and cache the
    /// outcome: a path from the pose to the goal, or the failure marker when
    /// the goal is unreachable.
    pub fn replan(&mut self, start: &Coords, world: &World, goal: Coords)
        requires
            world.grid.wf(),
            world.valid_coords_spec(*start),
        ensures
            final(self).objectives == old(self).objectives,
            final(self).state == old(self).state,
            final(self).plan_wf(*world),
            final(self).plan is Some,
            match final(self).plan {
                Some(PlanResult::Success(path)) => path@[0] == *start && path@[path@.len() - 1]
                    == goal && forall|p2: Seq<Coords>|
                    #[trigger] path_ok(*world, p2) && p2[0] == *start && p2[p2.len() - 1] == goal
                        ==> p2.len() >= path@.len(),
                Some(PlanResult::Failure) => forall|path: Seq<Coords>|
                    !(#[trigger] path_ok(*world, path) && path[0] == *start && path[path.len()
                        - 1] == goal),
                None => false,
            },
    {
        match astar_search(world, start, &goal) {
            Some(path) => {
                self.plan = Some(PlanResult::Success(path));
            },
            None => {
                self.plan = Some(PlanResult::Failure);
            },
        }
    }

    /// One planner tick: flip the objective on arrival, re-plan when no plan
    /// is cached, drop a plan the agent has diverged from, and emit up to
    /// `horizon` immediate actions from the cached path, padded with waits.
    #[verifier::rlimit(100)]
    pub fn update(
        &mut self,
        name: RobotName,
        robot: &Robot,
        world: &World,
        horizon: usize,
    ) -> (r: Vec<Actions>)
        requires
            world.grid.wf(),
            world.valid_coords_spec(robot.coords),
            old(self).plan_wf(*world),
        ensures
            r@.len() == horizon,
            final(self).objectives == old(self).objectives,
            final(self).plan_wf(*world),
            final(self).state == if robot.coords == old(self).goal_spec() {
                match old(self).state {
                    SimpleAgentStates::TRAVELING_TO_WORK => SimpleAgentStates::TRAVELING_TO_HOME,
                    SimpleAgentStates::TRAVELING_TO_HOME => SimpleAgentStates::TRAVELING_TO_WORK,
                }
            } else {
                old(self).state
            },
            match final(self).plan {
                Some(PlanResult::Success(path)) => {
                    &&& path@[0] == robot.coords
                    &&& ({
                        let n_av = if horizon < path@.len() - 1 {
                            horizon as int
                        } else {
                            path@.len() - 1
                        };
                        &&& forall|i: int|
                            0 <= i < n_av ==> Some(#[trigger] r@[i]) == from_pair_spec(
                                path@[i],
                                path@[i + 1],
                            )
                        &&& forall|i: int| n_av <= i < horizon ==> #[trigger] r@[i] == Actions::Wait
                    })
                },
                Some(PlanResult::Failure) => forall|i: int|
                    0 <= i < r@.len() ==> #[trigger] r@[i] == Actions::Wait,
                None => forall|i: int| 0 <= i < r@.len() ==> #[trigger] r@[i] == Actions::Wait,
            },
            robot.coords != old(self).goal_spec() && (match old(self).plan {
                Some(PlanResult::Success(path0)) => path0@[0] != robot.coords && (path0@.len() < 2
                    || path0@[1] != robot.coords),
                _ => false,
            }) ==> final(self).plan is None && (forall|i: int|
                0 <= i < r@.len() ==> r@[i] == Actions::Wait),
            robot.coords == old(self).goal_spec() || old(self).plan is None ==> final(self).plan
                is Some && match final(self).plan {
                Some(PlanResult::Success(path)) => path@[path@.len() - 1]
                    == final(self).goal_spec(),
                Some(PlanResult::Failure) => forall|path: Seq<Coords>|
                    !(#[trigger] path_ok(*world, path) && path[0] == robot.coords && path[path.len()
                        - 1] == final(self).goal_spec()),
                None => false,
            },
    {
        match self.state {
            SimpleAgentStates::TRAVELING_TO_WORK => {
                if robot.coords == self.objectives.work {
                    self.state = SimpleAgentStates::TRAVELING_TO_HOME;
                    self.plan = None;
                }
            },
            SimpleAgentStates::TRAVELING_TO_HOME => {
                if robot.coords == self.objectives.home {
                    self.state = SimpleAgentStates::TRAVELING_TO_WORK;
                    self.plan = None;
                }
            },
        }
        let goal = self.get_goal();
        let need_replan = match &self.plan {
            None => true,
            Some(_) => false,
        };
        if need_replan {
            self.replan(&robot.coords, world, goal);
        }
        match &mut self.plan {
            None => {
                proof {
                    assert(false);
                }
                wait_horizon(horizon)
            },
            Some(PlanResult::Success(path)) => {
                if path.len() >= 2 && path[1] == robot.coords {
                    let ghost before = path@;
                    path.remove(0);
                    proof {
                        assert(path@ =~= before.drop_first());
                        lemma_path_linked_drop_first(*world, before, path@);
                        assert forall|i: int| 0 <= i < path@.len() implies world.valid_coords_spec(
                            #[trigger] path@[i],
                        ) by {
                            assert(path@[i] == before[i + 1]);
                        }
                        assert forall|i: int|
                            0 <= i < path@.len() - 1 implies #[trigger] from_pair_spec(
                            path@[i],
                            path@[i + 1],
                        ) is Some by {
                            assert(path@[i] == before[i + 1]);
                            assert(path@[i + 1] == before[i + 2]);
                            assert(from_pair_spec(before[i + 1], before[i + 2]) is Some);
                        }
                        assert(path_ok(*world, path@));
                    }
                }
                let head_matches = path[0] == robot.coords;
                if !head_matches {
                    self.plan = None;
                    wait_horizon(horizon)
                } else {
                    emit_horizon(world, path, horizon)
                }
            },
            Some(PlanResult::Failure) => wait_horizon(horizon),
        }
    }
}

} // verus!
