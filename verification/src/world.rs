//! The world: a grid plus the robots living on it.
//!
//! A robot's identity is its index in the world's robot list, stable for the
//! run. The world's invariant ties both directions together: every robot
//! stands on the cell its pose names, and every occupied cell names the robot
//! standing on it — so no cell ever holds two robots.

use vstd::prelude::*;

use crate::cell::{Cell, Rgb};
use crate::coords::{
    check_sim_safe, coords_step_safe, next_coords, next_coords_spec, Actions, Coords, Orientations, RobotName, Size,
    XYCell,
};
use crate::arbitration::is_perm_of;
use crate::grid::Grid;
use crate::rng::rand_below;

verus! {

/// A robot: its pose and its display color.
#[derive(Debug, Copy, Clone, PartialEq, Eq, Structural)]
pub struct Robot {
    pub coords: Coords,
    pub color: Rgb,
}

impl Robot {
    /// The robot's orientation.
    pub fn orientation(&self) -> (r: Orientations)
        ensures
            r == self.coords.orientation,
    {
        self.coords.orientation
    }

    /// The robot's cell coordinate.
    pub fn xy(&self) -> (r: XYCell)
        ensures
            r == self.coords.xy,
    {
        self.coords.xy
    }
}

/// The color a robot placed on `xy` is painted with, cycling through a fixed
/// palette by cell coordinate.
pub fn robot_color(xy: &XYCell) -> Rgb
    requires
        xy.x >= 0,
        xy.y >= 0,
{
    let i = ((xy.x as usize) + (xy.y as usize)) % 7;
    match i {
        0 => Rgb { red: 255, green: 0, blue: 0 },
        1 => Rgb { red: 0, green: 255, blue: 0 },
        2 => Rgb { red: 0, green: 0, blue: 255 },
        3 => Rgb { red: 255, green: 255, blue: 0 },
        4 => Rgb { red: 0, green: 255, blue: 255 },
        5 => Rgb { red: 255, green: 0, blue: 255 },
        _ => Rgb { red: 255, green: 255, blue: 255 },
    }
}

/// The grid plus the ordered robot list; a robot's index is its identity.
pub struct World {
    pub grid: Grid,
    pub robots: Vec<Robot>,
}

impl World {
    /// Well-formedness: the grid is well-formed, every robot stands in bounds
    /// on the cell its pose names, and every occupied cell names the robot
    /// standing on it.
    pub open spec fn wf(self) -> bool {
        &&& self.grid.wf()
        &&& forall|i: usize|
            i < self.robots@.len() ==> {
                let c = (#[trigger] self.robots@[i as int]).coords;
                self.grid.in_bounds(c.xy) && self.grid.cell_at(c.xy).present == Some(i)
            }
        &&& forall|xy: XYCell|
            self.grid.in_bounds(xy) ==> match (#[trigger] self.grid.cell_at(xy)).present {
                Some(i) => i < self.robots@.len() && self.robots@[i as int].coords.xy == xy,
                None => true,
            }
    }

    /// A world over a grid with no robot placed yet.
    pub fn new(grid: Grid) -> (r: Self)
        requires
            grid.wf(),
            forall|xy: XYCell|
                grid.in_bounds(xy) ==> (#[trigger] grid.cell_at(xy)).empty_spec(),
        ensures
            r.wf(),
            r.grid == grid,
            r.robots@.len() == 0,
    {
        World { grid, robots: Vec::new() }
    }

    /// A world over a blank grid of the given size.
    pub fn blank(size: Size) -> (r: Self)
        requires
            size.x >= 0,
            size.y >= 0,
        ensures
            r.wf(),
            r.robots@.len() == 0,
            r.grid.size == size,
    {
        let grid = Grid::new(size);
        World::new(grid)
    }

    /// The grid's size.
    pub fn size(&self) -> (r: Size)
        ensures
            r == self.grid.size,
    {
        self.grid.size
    }

    /// Whether a robot may stand at this pose: the cell is on the grid and
    /// admits the pose's orientation.
    pub open spec fn valid_coords_spec(self, coords: Coords) -> bool {
        self.grid.in_bounds(coords.xy) && self.grid.cell_at(coords.xy).or_for_spec(
            coords.orientation,
        ).robot_allowed
    }

    /// Whether a robot may stand at this pose.
    pub fn valid_coords(&self, coords: &Coords) -> (r: bool)
        requires
            self.grid.wf(),
        ensures
            r == self.valid_coords_spec(*coords),
    {
        let xy = coords.xy;
        if !self.grid.size.in_bounds(xy) {
            return false;
        }
        let cell = self.grid.get_cell(&xy);
        cell.is_allowed(coords.orientation)
    }

    /// Whether the action is legal from the pose if the robot were alone:
    /// waiting always is; any other action must be allowed by the cell's
    /// legality mask for the pose's orientation and lead to a valid pose.
    pub open spec fn legal_action_spec(self, coords: Coords, a: Actions) -> bool {
        a == Actions::Wait || (self.grid.cell_at(coords.xy).or_for_spec(
            coords.orientation,
        ).action_allowed_spec(a) && self.valid_coords_spec(next_coords_spec(coords, a)))
    }

    /// Every action legal from the pose assuming the robot is alone, in the
    /// fixed action order, `Wait` always among them.
    pub fn allowed_robot_actions_if_empty(&self, coords: &Coords) -> (r: Vec<Actions>)
        requires
            self.grid.wf(),
            self.grid.in_bounds(coords.xy),
        ensures
            forall|a: Actions| r@.contains(a) <==> self.legal_action_spec(*coords, a),
            forall|i: int, j: int| 0 <= i < j < r@.len() ==> r@[i] != r@[j],
            r@.len() >= 1,
            r@[0] == Actions::Wait,
    {
        proof {
            assert(coords_step_safe(*coords));
        }
        let or = self.grid.get_cell(&coords.xy).or_for(coords.orientation);
        let mut r: Vec<Actions> = Vec::new();
        r.push(Actions::Wait);
        let ghost mut pos_f: int = -1;
        let ghost mut pos_l: int = -1;
        let ghost mut pos_r: int = -1;
        let ghost mut pos_b: int = -1;
        if or.allow_forward && self.valid_coords(&next_coords(coords, Actions::Forward)) {
            proof {
                pos_f = r@.len() as int;
            }
            r.push(Actions::Forward);
        }
        if or.allow_turn_left && self.valid_coords(&next_coords(coords, Actions::TurnLeft)) {
            proof {
                pos_l = r@.len() as int;
            }
            r.push(Actions::TurnLeft);
        }
        if or.allow_turn_right && self.valid_coords(&next_coords(coords, Actions::TurnRight)) {
            proof {
                pos_r = r@.len() as int;
            }
            r.push(Actions::TurnRight);
        }
        if or.allow_backward && self.valid_coords(&next_coords(coords, Actions::Backward)) {
            proof {
                pos_b = r@.len() as int;
            }
            r.push(Actions::Backward);
        }
        proof {
            assert forall|a: Actions| r@.contains(a) <==> self.legal_action_spec(
                *coords,
                a,
            ) by {
                assert(r@[0] == Actions::Wait);
                if self.legal_action_spec(*coords, a) {
                    match a {
                        Actions::Wait => {
                            assert(r@.contains(a));
                        },
                        Actions::Forward => {
                            assert(r@[pos_f] == Actions::Forward);
                        },
                        Actions::TurnLeft => {
                            assert(r@[pos_l] == Actions::TurnLeft);
                        },
                        Actions::TurnRight => {
                            assert(r@[pos_r] == Actions::TurnRight);
                        },
                        Actions::Backward => {
                            assert(r@[pos_b] == Actions::Backward);
                        },
                    }
                }
                if r@.contains(a) {
                    let k = choose|k: int| 0 <= k < r@.len() && r@[k] == a;
                    assert(self.legal_action_spec(*coords, r@[k]));
                }
            }
        }
        r
    }

    /// The successor poses of every action legal from the pose: the poses a
    /// lone robot could occupy next.
    pub fn successors(&self, coords: &Coords) -> (r: Vec<Coords>)
        requires
            self.grid.wf(),
            self.valid_coords_spec(*coords),
        ensures
            forall|i: int| 0 <= i < r@.len() ==> self.valid_coords_spec(#[trigger] r@[i]),
            forall|i: int|
                0 <= i < r@.len() ==> exists|a: Actions|
                    self.legal_action_spec(*coords, a) && #[trigger] r@[i] == next_coords_spec(
                        *coords,
                        a,
                    ),
            forall|a: Actions|
                self.legal_action_spec(*coords, a) ==> r@.contains(
                    next_coords_spec(*coords, a),
                ),
            r@.contains(*coords),
    {
        proof {
            assert(coords_step_safe(*coords));
        }
        let actions = self.allowed_robot_actions_if_empty(coords);
        let mut r: Vec<Coords> = Vec::new();
        let mut i: usize = 0;
        while i < actions.len()
            invariant
                i <= actions@.len(),
                r@.len() == i,
                self.grid.wf(),
                self.valid_coords_spec(*coords),
                coords_step_safe(*coords),
                forall|a: Actions| actions@.contains(a) <==> self.legal_action_spec(*coords, a),
                forall|k: int|
                    0 <= k < i ==> #[trigger] r@[k] == next_coords_spec(*coords, actions@[k]),
            decreases actions@.len() - i,
        {
            proof {
                assert(actions@.contains(actions@[i as int]));
            }
            let n = next_coords(coords, actions[i]);
            r.push(n);
            i = i + 1;
        }
        proof {
            assert forall|k: int| 0 <= k < r@.len() implies self.valid_coords_spec(
                #[trigger] r@[k],
            ) by {
                assert(actions@.contains(actions@[k]));
                if actions@[k] == Actions::Wait {
                    assert(r@[k] == *coords);
                }
            }
            assert forall|k: int| 0 <= k < r@.len() implies exists|a: Actions|
                self.legal_action_spec(*coords, a) && #[trigger] r@[k] == next_coords_spec(
                    *coords,
                    a,
                ) by {
                assert(actions@.contains(actions@[k]));
                assert(self.legal_action_spec(*coords, actions@[k]) && r@[k] == next_coords_spec(
                    *coords,
                    actions@[k],
                ));
            }
            assert forall|a: Actions| self.legal_action_spec(*coords, a) implies r@.contains(
                next_coords_spec(*coords, a),
            ) by {
                assert(actions@.contains(a));
                let k = choose|k: int| 0 <= k < actions@.len() && actions@[k] == a;
                assert(r@[k] == next_coords_spec(*coords, a));
            }
            assert(actions@.contains(Actions::Wait));
            let k = choose|k: int| 0 <= k < actions@.len() && actions@[k] == Actions::Wait;
            assert(r@[k] == *coords);
        }
        r
    }

    /// Place a new robot at the pose; its identity is the next free index.
    /// Placing a robot on an occupied cell is a caller bug, excluded by
    /// precondition.
    pub fn place_robot(&mut self, coords: Coords) -> (r: RobotName)
        requires
            old(self).wf(),
            old(self).grid.in_bounds(coords.xy),
            old(self).grid.cell_at(coords.xy).empty_spec(),
        ensures
            final(self).wf(),
            r == old(self).robots@.len(),
            final(self).robots@.len() == old(self).robots@.len() + 1,
            final(self).robots@[r as int].coords == coords,
            forall|i: int|
                0 <= i < old(self).robots@.len() ==> final(self).robots@[i] == old(
                    self,
                ).robots@[i],
            final(self).grid.size == old(self).grid.size,
            final(self).grid.cell_at(coords.xy) == (Cell {
                present: Some(r),
                ..old(self).grid.cell_at(coords.xy)
            }),
            forall|xy: XYCell|
                old(self).grid.in_bounds(xy) && xy != coords.xy ==> final(self).grid.cell_at(xy)
                    == old(self).grid.cell_at(xy),
    {
        let robot_name = self.robots.len();
        let cell = self.grid.get_cell(&coords.xy);
        self.grid.replace_cell(&coords.xy, Cell { present: Some(robot_name), ..cell });
        let color = robot_color(&coords.xy);
        self.robots.push(Robot { coords, color });
        proof {
            assert forall|i: usize| i < self.robots@.len() implies {
                let c = (#[trigger] self.robots@[i as int]).coords;
                self.grid.in_bounds(c.xy) && self.grid.cell_at(c.xy).present == Some(i)
            } by {
                if i < robot_name {
                    assert(old(self).grid.cell_at(self.robots@[i as int].coords.xy).present
                        == Some(i));
                    assert(self.robots@[i as int].coords.xy != coords.xy);
                }
            }
            assert forall|xy: XYCell| self.grid.in_bounds(xy) implies match (
            #[trigger] self.grid.cell_at(xy)).present {
                Some(i) => i < self.robots@.len() && self.robots@[i as int].coords.xy == xy,
                None => true,
            } by {
                if xy != coords.xy {
                    assert(self.grid.cell_at(xy) == old(self).grid.cell_at(xy));
                }
            }
        }
        robot_name
    }

    /// Place a new robot on a random vacant traversable cell.
    pub fn place_random_robot(&mut self, rng: &mut rand::rngs::ThreadRng) -> (r: RobotName)
        requires
            old(self).wf(),
            old(self).grid.empty_traversable_set() != Set::<XYCell>::empty(),
        ensures
            final(self).wf(),
            r == old(self).robots@.len(),
            final(self).robots@.len() == old(self).robots@.len() + 1,
            final(self).grid.size == old(self).grid.size,
            ({
                let c = final(self).robots@[r as int].coords;
                &&& old(self).grid.in_bounds(c.xy)
                &&& old(self).grid.cell_at(c.xy).empty_spec()
                &&& old(self).grid.cell_at(c.xy).traversable_spec()
                &&& old(self).grid.cell_at(c.xy).or_for_spec(c.orientation).robot_allowed
            }),
    {
        let coords = self.grid.random_available_coords(rng);
        self.place_robot(coords)
    }

    /// Place a new robot on a random vacant parking cell.
    pub fn place_random_robot_parking(&mut self, rng: &mut rand::rngs::ThreadRng) -> (r: RobotName)
        requires
            old(self).wf(),
            old(self).grid.empty_parking_set() != Set::<XYCell>::empty(),
            forall|xy: XYCell|
                #[trigger] old(self).grid.empty_parking_set().contains(xy) ==> old(
                    self,
                ).grid.cell_at(xy).traversable_spec(),
        ensures
            final(self).wf(),
            r == old(self).robots@.len(),
            final(self).robots@.len() == old(self).robots@.len() + 1,
            final(self).grid.size == old(self).grid.size,
            ({
                let c = final(self).robots@[r as int].coords;
                &&& old(self).grid.in_bounds(c.xy)
                &&& old(self).grid.cell_at(c.xy).empty_spec()
                &&& old(self).grid.cell_at(c.xy).is_parking
                &&& old(self).grid.cell_at(c.xy).or_for_spec(c.orientation).robot_allowed
            }),
    {
        let coords = self.grid.random_available_parking(rng);
        self.place_robot(coords)
    }

    /// Move one robot to a destination pose, updating both cells' occupancy.
    /// Moving onto a cell occupied by another robot is a caller bug, excluded
    /// by precondition.
    pub fn move_robot(&mut self, robot_name: RobotName, dest: Coords)
        requires
            old(self).wf(),
            robot_name < old(self).robots@.len(),
            old(self).grid.in_bounds(dest.xy),
            dest.xy == old(self).robots@[robot_name as int].coords.xy || old(self).grid.cell_at(
                dest.xy,
            ).empty_spec(),
        ensures
            final(self).wf(),
            final(self).robots@.len() == old(self).robots@.len(),
            final(self).robots@[robot_name as int].coords == dest,
            final(self).robots@[robot_name as int].color == old(self).robots@[
                robot_name as int
            ].color,
            forall|i: int|
                0 <= i < old(self).robots@.len() && i != robot_name ==> final(self).robots@[i]
                    == old(self).robots@[i],
            final(self).grid.size == old(self).grid.size,
            forall|xy: XYCell|
                old(self).grid.in_bounds(xy) && xy != dest.xy && xy != old(
                    self,
                ).robots@[robot_name as int].coords.xy ==> final(self).grid.cell_at(xy) == old(
                    self,
                ).grid.cell_at(xy),
            final(self).grid.cell_at(dest.xy).present == Some(robot_name),
            final(self).grid.cell_at(dest.xy) == (Cell {
                present: Some(robot_name),
                ..old(self).grid.cell_at(dest.xy)
            }),
            dest.xy != old(self).robots@[robot_name as int].coords.xy ==> final(self).grid.cell_at(
                old(self).robots@[robot_name as int].coords.xy,
            ) == (Cell {
                present: None,
                ..old(self).grid.cell_at(old(self).robots@[robot_name as int].coords.xy)
            }),
    {
        let src = self.robots[robot_name].coords;
        let color = self.robots[robot_name].color;
        if src.xy.x != dest.xy.x || src.xy.y != dest.xy.y {
            let old_cell = self.grid.get_cell(&src.xy);
            self.grid.replace_cell(&src.xy, Cell { present: None, ..old_cell });
            let new_cell = self.grid.get_cell(&dest.xy);
            self.grid.replace_cell(&dest.xy, Cell { present: Some(robot_name), ..new_cell });
        }
        self.robots.set(robot_name, Robot { coords: dest, color });
        proof {
            assert(src.xy == old(self).robots@[robot_name as int].coords.xy);
            assert(old(self).grid.cell_at(src.xy).present == Some(robot_name));
            assert forall|i: usize| i < self.robots@.len() implies {
                let c = (#[trigger] self.robots@[i as int]).coords;
                self.grid.in_bounds(c.xy) && self.grid.cell_at(c.xy).present == Some(i)
            } by {
                if i != robot_name {
                    assert(self.robots@[i as int] == old(self).robots@[i as int]);
                    assert(old(self).grid.cell_at(self.robots@[i as int].coords.xy).present
                        == Some(i));
                    assert(self.robots@[i as int].coords.xy != src.xy);
                    if dest.xy != src.xy {
                        assert(old(self).grid.cell_at(dest.xy).present is None);
                    }
                    assert(self.robots@[i as int].coords.xy != dest.xy);
                    assert(self.grid.cell_at(self.robots@[i as int].coords.xy) == old(
                        self,
                    ).grid.cell_at(self.robots@[i as int].coords.xy));
                }
            }
            assert forall|xy: XYCell| self.grid.in_bounds(xy) implies match (
            #[trigger] self.grid.cell_at(xy)).present {
                Some(i) => i < self.robots@.len() && self.robots@[i as int].coords.xy == xy,
                None => true,
            } by {
                if xy != src.xy && xy != dest.xy {
                    assert(self.grid.cell_at(xy) == old(self).grid.cell_at(xy));
                }
            }
        }
    }
}

/// The number of `true` entries in a boolean sequence.
pub open spec fn num_true(s: Seq<bool>) -> int
    decreases s.len(),
{
    if s.len() == 0 {
        0
    } else {
        num_true(s.drop_last()) + if s.last() {
            1int
        } else {
            0int
        }
    }
}

/// The count of `true` entries never exceeds the length.
proof fn lemma_num_true_bound(s: Seq<bool>)
    ensures
        0 <= num_true(s) <= s.len(),
    decreases s.len(),
{
    if s.len() > 0 {
        lemma_num_true_bound(s.drop_last());
    }
}

/// Turning one `false` entry `true` raises the count by one.
proof fn lemma_num_true_update(s: Seq<bool>, i: int)
    requires
        0 <= i < s.len(),
        !s[i],
    ensures
        num_true(s.update(i, true)) == num_true(s) + 1,
    decreases s.len(),
{
    let t = s.update(i, true);
    if i == s.len() - 1 {
        assert(t.drop_last() =~= s.drop_last());
    } else {
        assert(t.drop_last() =~= s.drop_last().update(i, true));
        lemma_num_true_update(s.drop_last(), i);
    }
}

/// When no entry is `true` the count is zero.
proof fn lemma_num_true_none(s: Seq<bool>)
    requires
        forall|i: int| 0 <= i < s.len() ==> !s[i],
    ensures
        num_true(s) == 0,
    decreases s.len(),
{
    if s.len() > 0 {
        lemma_num_true_none(s.drop_last());
    }
}

/// When every entry is `true` the count equals the length.
proof fn lemma_num_true_full(s: Seq<bool>)
    requires
        forall|i: int| 0 <= i < s.len() ==> s[i],
    ensures
        num_true(s) == s.len(),
    decreases s.len(),
{
    if s.len() > 0 {
        lemma_num_true_full(s.drop_last());
    }
}

/// The total number of agents listed over all components.
pub open spec fn total_len(cs: Seq<Vec<usize>>) -> int
    decreases cs.len(),
{
    if cs.len() == 0 {
        0
    } else {
        total_len(cs.drop_last()) + cs.last()@.len()
    }
}

/// Whether the two horizon traces touch a common cell at a common tick.
pub open spec fn traces_conflict_spec(ta: Seq<Coords>, tb: Seq<Coords>) -> bool {
    exists|t: int| 0 <= t < ta.len() && t < tb.len() && #[trigger] ta[t].xy == tb[t].xy
}

/// A concrete tick witnesses a trace conflict.
pub proof fn lemma_traces_conflict_intro(ta: Seq<Coords>, tb: Seq<Coords>, t: int)
    requires
        0 <= t < ta.len(),
        t < tb.len(),
        ta[t].xy == tb[t].xy,
    ensures
        traces_conflict_spec(ta, tb),
        traces_conflict_spec(tb, ta),
{
    assert(0 <= t < ta.len() && t < tb.len() && #[trigger] ta[t].xy == tb[t].xy);
    assert(0 <= t < tb.len() && t < ta.len() && #[trigger] tb[t].xy == ta[t].xy);
}

/// The conflict relation does not depend on the order of its traces.
pub proof fn lemma_traces_conflict_sym(ta: Seq<Coords>, tb: Seq<Coords>)
    requires
        traces_conflict_spec(ta, tb),
    ensures
        traces_conflict_spec(tb, ta),
{
    let t = choose|t: int| 0 <= t < ta.len() && t < tb.len() && #[trigger] ta[t].xy == tb[t].xy;
    lemma_traces_conflict_intro(ta, tb, t);
}

/// The agent is listed in the component.
pub open spec fn component_member(comp: Seq<usize>, w: usize) -> bool {
    exists|l: int| 0 <= l < comp.len() && comp[l] == w
}

/// A concrete position witnesses membership.
pub proof fn lemma_component_member_intro(comp: Seq<usize>, w: usize, l: int)
    requires
        0 <= l < comp.len(),
        comp[l] == w,
    ensures
        component_member(comp, w),
{
    assert(0 <= l < comp.len() && comp[l] == w);
}

/// The component's member at position `l` conflicts with an earlier member:
/// every member hangs off the chain grown from the component's first agent.
pub open spec fn linked_earlier(traces: Seq<Vec<Coords>>, comp: Seq<usize>, l: int) -> bool {
    exists|l2: int|
        0 <= l2 < l && traces_conflict_spec(
            (#[trigger] traces[comp[l2] as int])@,
            traces[comp[l] as int]@,
        )
}

/// A concrete earlier position witnesses the link.
pub proof fn lemma_linked_earlier_intro(
    traces: Seq<Vec<Coords>>,
    comp: Seq<usize>,
    l: int,
    l2: int,
)
    requires
        0 <= l2 < l,
        traces_conflict_spec(traces[comp[l2] as int]@, traces[comp[l] as int]@),
    ensures
        linked_earlier(traces, comp, l),
{
    assert(0 <= l2 < l && traces_conflict_spec(
        (#[trigger] traces[comp[l2] as int])@,
        traces[comp[l] as int]@,
    ));
}

/// Whether the two horizon traces touch a common cell at a common tick.
pub fn traces_conflict(ta: &Vec<Coords>, tb: &Vec<Coords>) -> (r: bool)
    ensures
        r == traces_conflict_spec(ta@, tb@),
{
    let m = if ta.len() < tb.len() {
        ta.len()
    } else {
        tb.len()
    };
    let mut t: usize = 0;
    while t < m
        invariant
            t <= m,
            m <= ta@.len() && m <= tb@.len(),
            m == ta@.len() || m == tb@.len(),
            forall|u: int| 0 <= u < t ==> ta@[u].xy != tb@[u].xy,
        decreases m - t,
    {
        if ta[t].xy.x == tb[t].xy.x && ta[t].xy.y == tb[t].xy.y {
            proof {
                lemma_traces_conflict_intro(ta@, tb@, t as int);
            }
            return true;
        }
        t = t + 1;
    }
    proof {
        if traces_conflict_spec(ta@, tb@) {
            let u = choose|u: int|
                0 <= u < ta@.len() && u < tb@.len() && #[trigger] ta@[u].xy == tb@[u].xy;
            assert(false);
        }
    }
    false
}

/// The agent is listed in one of the components.
pub open spec fn in_some_component(cs: Seq<Vec<usize>>, w: usize) -> bool {
    exists|k: int| 0 <= k < cs.len() && component_member((#[trigger] cs[k])@, w)
}

/// A concrete component witnesses `in_some_component`.
pub proof fn lemma_in_some_component_intro(cs: Seq<Vec<usize>>, w: usize, k: int)
    requires
        0 <= k < cs.len(),
        component_member(cs[k]@, w),
    ensures
        in_some_component(cs, w),
{
    assert(0 <= k < cs.len() && component_member((#[trigger] cs[k])@, w));
}

/// The component position `l` is waiting on the expansion stack.
pub open spec fn on_stack(sp: Seq<int>, l: int) -> bool {
    exists|s: int| 0 <= s < sp.len() && sp[s] == l
}

/// A concrete stack slot witnesses `on_stack`.
pub proof fn lemma_on_stack_intro(sp: Seq<int>, l: int, s: int)
    requires
        0 <= s < sp.len(),
        sp[s] == l,
    ensures
        on_stack(sp, l),
{
    assert(0 <= s < sp.len() && sp[s] == l);
}

/// The connected components of the conflict graph over the horizon traces:
/// two agents are linked when their traces touch a common cell at a common
/// tick. Every agent lands in exactly one component: the listed indices are
/// pairwise distinct and together count every agent. Within one component
/// every agent after the first conflicts with an earlier member, and every
/// conflict partner of a member lies in the same component, so no conflict
/// crosses components. The grouping is diagnostic infrastructure; the
/// per-tick commit does not depend on it.
#[verifier::loop_isolation(false)]
#[verifier::rlimit(100)]
pub fn conflict_components(traces: &Vec<Vec<Coords>>) -> (components: Vec<Vec<usize>>)
    ensures
        forall|k: int, l: int|
            0 <= k < components@.len() && 0 <= l < components@[k]@.len()
                ==> #[trigger] components@[k]@[l] < traces@.len(),
        forall|k1: int, l1: int, k2: int, l2: int|
            0 <= k1 < components@.len() && 0 <= l1 < components@[k1]@.len() && 0 <= k2
                < components@.len() && 0 <= l2 < components@[k2]@.len() && (k1 != k2 || l1 != l2)
                ==> #[trigger] components@[k1]@[l1] != #[trigger] components@[k2]@[l2],
        total_len(components@) == traces@.len(),
        forall|k: int, l: int|
            0 <= k < components@.len() && 1 <= l < components@[k]@.len()
                ==> #[trigger] linked_earlier(traces@, components@[k]@, l),
        forall|k: int, l: int, w: usize|
            0 <= k < components@.len() && 0 <= l < components@[k]@.len() && w < traces@.len()
                && traces_conflict_spec(
                traces@[#[trigger] components@[k]@[l] as int]@,
                (#[trigger] traces@[w as int])@,
            ) ==> component_member(components@[k]@, w),
{
    let n = traces.len();
    let mut visited: Vec<bool> = Vec::new();
    let mut i: usize = 0;
    while i < n
        invariant
            i <= n,
            visited@.len() == i,
            forall|w: int| 0 <= w < i ==> !visited@[w],
        decreases n - i,
    {
        visited.push(false);
        i = i + 1;
    }
    let mut components: Vec<Vec<usize>> = Vec::new();
    proof {
        lemma_num_true_none(visited@);
    }
    let mut v: usize = 0;
    while v < n
        invariant
            v <= n,
            visited@.len() == n,
            forall|w: int| 0 <= w < v ==> visited@[w],
            forall|k: int, l: int|
                0 <= k < components@.len() && 0 <= l < components@[k]@.len()
                    ==> #[trigger] components@[k]@[l] < n,
            forall|k: int, l: int|
                0 <= k < components@.len() && 0 <= l < components@[k]@.len() ==> visited@[
                    #[trigger] components@[k]@[l] as int
                ],
            forall|k1: int, l1: int, k2: int, l2: int|
                0 <= k1 < components@.len() && 0 <= l1 < components@[k1]@.len() && 0 <= k2
                    < components@.len() && 0 <= l2 < components@[k2]@.len() && (k1 != k2 || l1
                    != l2) ==> #[trigger] components@[k1]@[l1] != #[trigger] components@[k2]@[l2],
            total_len(components@) == num_true(visited@),
            forall|k: int, l: int|
                0 <= k < components@.len() && 1 <= l < components@[k]@.len()
                    ==> #[trigger] linked_earlier(traces@, components@[k]@, l),
            forall|k: int, l: int, w: usize|
                0 <= k < components@.len() && 0 <= l < components@[k]@.len() && w < n
                    && traces_conflict_spec(
                    traces@[#[trigger] components@[k]@[l] as int]@,
                    (#[trigger] traces@[w as int])@,
                ) ==> component_member(components@[k]@, w),
            forall|w: usize|
                w < n && visited@[w as int] ==> in_some_component(components@, w),
        decreases n - v,
    {
        if !visited[v] {
            let mut comp: Vec<usize> = Vec::new();
            let mut stack: Vec<usize> = Vec::new();
            proof {
                lemma_num_true_update(visited@, v as int);
            }
            visited.set(v, true);
            comp.push(v);
            stack.push(v);
            let ghost mut stack_pos: Seq<int> = seq![0int];
            let ghost mut settled: Seq<bool> = seq![false];
            proof {
                assert(comp@[0] == v);
                lemma_component_member_intro(comp@, v, 0);
                lemma_on_stack_intro(stack_pos, 0, 0);
                assert forall|l: int| 0 <= l < comp@.len() implies #[trigger] settled[l]
                    || on_stack(stack_pos, l) by {
                    assert(on_stack(stack_pos, 0));
                }
            }
            let ghost mut nt0: int = 0;
            let ghost mut sl0: int = 0;
            while stack.len() > 0
                invariant
                    visited@.len() == n,
                    forall|w: int| 0 <= w < v ==> visited@[w],
                    visited@[v as int],
                    forall|l: int| 0 <= l < stack@.len() ==> #[trigger] stack@[l] < n,
                    forall|l: int| 0 <= l < comp@.len() ==> #[trigger] comp@[l] < n,
                    forall|l: int| 0 <= l < comp@.len() ==> visited@[#[trigger] comp@[l] as int],
                    forall|l1: int, l2: int|
                        0 <= l1 < l2 < comp@.len() ==> #[trigger] comp@[l1] != #[trigger] comp@[
                            l2
                        ],
                    forall|k: int, l: int|
                        0 <= k < components@.len() && 0 <= l < components@[k]@.len()
                            ==> #[trigger] components@[k]@[l] < n,
                    forall|k: int, l: int|
                        0 <= k < components@.len() && 0 <= l < components@[k]@.len() ==> visited@[
                            #[trigger] components@[k]@[l] as int
                        ],
                    forall|k1: int, l1: int, k2: int, l2: int|
                        0 <= k1 < components@.len() && 0 <= l1 < components@[k1]@.len() && 0 <= k2
                            < components@.len() && 0 <= l2 < components@[k2]@.len() && (k1 != k2
                            || l1 != l2) ==> #[trigger] components@[k1]@[l1]
                            != #[trigger] components@[k2]@[l2],
                    forall|k: int, l: int, l2: int|
                        0 <= k < components@.len() && 0 <= l < components@[k]@.len() && 0 <= l2
                            < comp@.len() ==> #[trigger] components@[k]@[l] != #[trigger] comp@[
                            l2
                        ],
                    total_len(components@) + comp@.len() == num_true(visited@),
                    forall|k: int, l: int|
                        0 <= k < components@.len() && 1 <= l < components@[k]@.len()
                            ==> #[trigger] linked_earlier(traces@, components@[k]@, l),
                    forall|k: int, l: int, w: usize|
                        0 <= k < components@.len() && 0 <= l < components@[k]@.len() && w < n
                            && traces_conflict_spec(
                            traces@[#[trigger] components@[k]@[l] as int]@,
                            (#[trigger] traces@[w as int])@,
                        ) ==> component_member(components@[k]@, w),
                    forall|w: usize|
                        w < n && visited@[w as int] ==> in_some_component(components@, w)
                            || component_member(comp@, w),
                    stack_pos.len() == stack@.len(),
                    forall|s: int|
                        0 <= s < stack_pos.len() ==> 0 <= #[trigger] stack_pos[s] < comp@.len()
                            && comp@[stack_pos[s]] == stack@[s],
                    settled.len() == comp@.len(),
                    forall|l: int|
                        0 <= l < comp@.len() ==> #[trigger] settled[l] || on_stack(stack_pos, l),
                    forall|l: int, w: usize|
                        0 <= l < comp@.len() && #[trigger] settled[l] && w < n
                            && traces_conflict_spec(
                            traces@[comp@[l] as int]@,
                            (#[trigger] traces@[w as int])@,
                        ) ==> visited@[w as int],
                    forall|l: int|
                        1 <= l < comp@.len() ==> linked_earlier(traces@, comp@, l),
                decreases n - num_true(visited@), stack@.len(),
            {
                proof {
                    lemma_num_true_bound(visited@);
                }
                let u = stack[stack.len() - 1];
                stack.pop();
                let ghost u_pos = stack_pos.last();
                proof {
                    let sp_old = stack_pos;
                    stack_pos = stack_pos.drop_last();
                    assert forall|l: int|
                        0 <= l < comp@.len() && l != u_pos implies #[trigger] settled[l]
                            || on_stack(stack_pos, l) by {
                        if !settled[l] {
                            assert(on_stack(sp_old, l));
                            let st = choose|st: int|
                                0 <= st < sp_old.len() && sp_old[st] == l;
                            assert(st < sp_old.len() - 1);
                            assert(stack_pos[st] == sp_old[st]);
                            lemma_on_stack_intro(stack_pos, l, st);
                        }
                    }
                    nt0 = num_true(visited@);
                    sl0 = stack@.len() as int;
                }
                let mut w: usize = 0;
                while w < n
                    invariant
                        u < n,
                        0 <= u_pos < comp@.len(),
                        comp@[u_pos] == u,
                        visited@.len() == n,
                        w <= n,
                        forall|w2: int| 0 <= w2 < v ==> visited@[w2],
                        visited@[v as int],
                        forall|l: int| 0 <= l < stack@.len() ==> #[trigger] stack@[l] < n,
                        forall|l: int| 0 <= l < comp@.len() ==> #[trigger] comp@[l] < n,
                        forall|l: int|
                            0 <= l < comp@.len() ==> visited@[#[trigger] comp@[l] as int],
                        forall|l1: int, l2: int|
                            0 <= l1 < l2 < comp@.len() ==> #[trigger] comp@[l1]
                                != #[trigger] comp@[l2],
                        forall|k: int, l: int|
                            0 <= k < components@.len() && 0 <= l < components@[k]@.len()
                                ==> #[trigger] components@[k]@[l] < n,
                        forall|k: int, l: int|
                            0 <= k < components@.len() && 0 <= l < components@[k]@.len()
                                ==> visited@[#[trigger] components@[k]@[l] as int],
                        forall|k1: int, l1: int, k2: int, l2: int|
                            0 <= k1 < components@.len() && 0 <= l1 < components@[k1]@.len() && 0
                                <= k2 < components@.len() && 0 <= l2 < components@[k2]@.len() && (
                            k1 != k2 || l1 != l2) ==> #[trigger] components@[k1]@[l1]
                                != #[trigger] components@[k2]@[l2],
                        forall|k: int, l: int, l2: int|
                            0 <= k < components@.len() && 0 <= l < components@[k]@.len() && 0 <= l2
                                < comp@.len() ==> #[trigger] components@[k]@[l]
                                != #[trigger] comp@[l2],
                        total_len(components@) + comp@.len() == num_true(visited@),
                        forall|k: int, l: int|
                            0 <= k < components@.len() && 1 <= l < components@[k]@.len()
                                ==> #[trigger] linked_earlier(traces@, components@[k]@, l),
                        forall|k: int, l: int, w2: usize|
                            0 <= k < components@.len() && 0 <= l < components@[k]@.len() && w2 < n
                                && traces_conflict_spec(
                                traces@[#[trigger] components@[k]@[l] as int]@,
                                (#[trigger] traces@[w2 as int])@,
                            ) ==> component_member(components@[k]@, w2),
                        forall|w2: usize|
                            w2 < n && visited@[w2 as int] ==> in_some_component(components@, w2)
                                || component_member(comp@, w2),
                        stack_pos.len() == stack@.len(),
                        forall|s: int|
                            0 <= s < stack_pos.len() ==> 0 <= #[trigger] stack_pos[s]
                                < comp@.len() && comp@[stack_pos[s]] == stack@[s],
                        settled.len() == comp@.len(),
                        forall|l: int|
                            0 <= l < comp@.len() && l != u_pos ==> #[trigger] settled[l]
                                || on_stack(stack_pos, l),
                        forall|l: int, w2: usize|
                            0 <= l < comp@.len() && #[trigger] settled[l] && w2 < n
                                && traces_conflict_spec(
                                traces@[comp@[l] as int]@,
                                (#[trigger] traces@[w2 as int])@,
                            ) ==> visited@[w2 as int],
                        forall|l: int|
                            1 <= l < comp@.len() ==> linked_earlier(traces@, comp@, l),
                        forall|w2: usize|
                            w2 < w && traces_conflict_spec(
                                traces@[u as int]@,
                                (#[trigger] traces@[w2 as int])@,
                            ) ==> visited@[w2 as int],
                        num_true(visited@) - nt0 == stack@.len() - sl0,
                        num_true(visited@) >= nt0,
                        num_true(visited@) <= n,
                    decreases n - w,
                {
                    if !visited[w] && traces_conflict(&traces[u], &traces[w]) {
                        proof {
                            lemma_num_true_update(visited@, w as int);
                        }
                        let ghost comp_prev = comp@;
                        visited.set(w, true);
                        proof {
                            lemma_num_true_bound(visited@);
                        }
                        comp.push(w);
                        stack.push(w);
                        proof {
                            let sp_prev = stack_pos;
                            stack_pos = stack_pos.push(comp@.len() - 1);
                            settled = settled.push(false);
                            assert(comp@[comp@.len() - 1] == w);
                            lemma_component_member_intro(comp@, w, comp@.len() - 1);
                            assert forall|w2: usize|
                                w2 < n && visited@[w2 as int] implies in_some_component(
                                components@,
                                w2,
                            ) || component_member(comp@, w2) by {
                                if w2 != w && component_member(comp_prev, w2) {
                                    let l = choose|l: int|
                                        0 <= l < comp_prev.len() && comp_prev[l] == w2;
                                    lemma_component_member_intro(comp@, w2, l);
                                }
                            }
                            assert forall|k: int, l: int, l2: int|
                                0 <= k < components@.len() && 0 <= l < components@[k]@.len() && 0
                                    <= l2 < comp@.len() implies #[trigger] components@[k]@[l]
                                    != #[trigger] comp@[l2] by {
                                if l2 == comp@.len() - 1 {
                                    assert(!visited@[components@[k]@[l] as int] || visited@[
                                        components@[k]@[l] as int
                                    ]);
                                    assert(components@[k]@[l] != w);
                                }
                            }
                            assert(comp@[u_pos] == u);
                            lemma_linked_earlier_intro(traces@, comp@, comp@.len() - 1, u_pos);
                            assert forall|l: int|
                                1 <= l < comp@.len() - 1 implies linked_earlier(
                                traces@,
                                comp@,
                                l,
                            ) by {
                                assert(linked_earlier(traces@, comp_prev, l));
                                let l2 = choose|l2: int|
                                    0 <= l2 < l && traces_conflict_spec(
                                        (#[trigger] traces@[comp_prev[l2] as int])@,
                                        traces@[comp_prev[l] as int]@,
                                    );
                                assert(comp@[l2] == comp_prev[l2]);
                                assert(comp@[l] == comp_prev[l]);
                                lemma_linked_earlier_intro(traces@, comp@, l, l2);
                            }
                            assert forall|s: int|
                                0 <= s < stack_pos.len() implies 0 <= #[trigger] stack_pos[s]
                                    < comp@.len() && comp@[stack_pos[s]] == stack@[s] by {}
                            assert forall|l: int|
                                0 <= l < comp@.len() && l != u_pos implies #[trigger] settled[l]
                                    || on_stack(stack_pos, l) by {
                                if l == comp@.len() - 1 {
                                    lemma_on_stack_intro(stack_pos, l, stack_pos.len() - 1);
                                } else if !settled[l] {
                                    assert(on_stack(sp_prev, l));
                                    let st = choose|st: int|
                                        0 <= st < sp_prev.len() && sp_prev[st] == l;
                                    assert(stack_pos[st] == sp_prev[st]);
                                    lemma_on_stack_intro(stack_pos, l, st);
                                }
                            }
                        }
                    }
                    w = w + 1;
                }
                proof {
                    settled = settled.update(u_pos, true);
                }
            }
            let ghost comp_prev = components@;
            proof {
                assert forall|l: int| 0 <= l < comp@.len() implies #[trigger] settled[l] by {
                    if !settled[l] {
                        let st = choose|st: int|
                            0 <= st < stack_pos.len() && stack_pos[st] == l;
                        assert(false);
                    }
                }
            }
            components.push(comp);
            proof {
                assert(components@.drop_last() =~= comp_prev);
                let newc = components@[components@.len() - 1]@;
                assert forall|l: int, w: usize|
                    0 <= l < newc.len() && w < n && #[trigger] traces_conflict_spec(
                        traces@[newc[l] as int]@,
                        traces@[w as int]@,
                    ) implies component_member(newc, w) by {
                    assert(settled[l]);
                    assert(visited@[w as int]);
                    if !component_member(newc, w) {
                        assert(in_some_component(comp_prev, w));
                        let k0 = choose|k0: int|
                            0 <= k0 < comp_prev.len() && component_member(
                                (#[trigger] comp_prev[k0])@,
                                w,
                            );
                        let l0 = choose|l0: int|
                            0 <= l0 < comp_prev[k0]@.len() && comp_prev[k0]@[l0] == w;
                        lemma_traces_conflict_sym(traces@[newc[l] as int]@, traces@[w as int]@);
                        assert(component_member(comp_prev[k0]@, newc[l] as usize));
                        let l1 = choose|l1: int|
                            0 <= l1 < comp_prev[k0]@.len() && comp_prev[k0]@[l1] == newc[l] as usize;
                        assert(comp_prev[k0]@[l1] != newc[l]);
                        assert(false);
                    }
                }
                assert forall|w2: usize|
                    w2 < n && visited@[w2 as int] implies in_some_component(components@, w2) by {
                    if component_member(newc, w2) {
                        lemma_in_some_component_intro(components@, w2, components@.len() - 1);
                    } else {
                        let k0 = choose|k0: int|
                            0 <= k0 < comp_prev.len() && component_member(
                                (#[trigger] comp_prev[k0])@,
                                w2,
                            );
                        lemma_in_some_component_intro(components@, w2, k0);
                    }
                }
                assert forall|k: int, l: int, w2: usize|
                    0 <= k < components@.len() && 0 <= l < components@[k]@.len() && w2 < n
                        && traces_conflict_spec(
                        traces@[#[trigger] components@[k]@[l] as int]@,
                        (#[trigger] traces@[w2 as int])@,
                    ) implies component_member(components@[k]@, w2) by {
                    if k < components@.len() - 1 {
                        assert(components@[k] == comp_prev[k]);
                    }
                }
            }
        } else {
            proof {
                assert(in_some_component(components@, v));
            }
        }
        v = v + 1;
    }
    proof {
        lemma_num_true_full(visited@);
    }
    components
}

/// The pose an agent's proposal asks for this tick: the successor of its
/// current pose under its first proposed action, or its current pose when
/// the proposal is empty or would leave the computable coordinate range.
pub open spec fn proposed_pose(w: World, proposals: Seq<Vec<Actions>>, i: int) -> Coords {
    let c0 = w.robots@[i].coords;
    if proposals[i]@.len() > 0 && coords_step_safe(c0) {
        next_coords_spec(c0, proposals[i]@[0])
    } else {
        c0
    }
}

/// Nothing contests agent `i`'s proposed destination: the cell is on the
/// grid, free, no other agent proposes to enter it, and no other agent
/// stands on it. Such an agent always reaches its destination, whatever the
/// random commit order.
pub open spec fn uncontested(w: World, proposals: Seq<Vec<Actions>>, i: int) -> bool {
    let dest = proposed_pose(w, proposals, i);
    &&& w.grid.in_bounds(dest.xy)
    &&& w.grid.cell_at(dest.xy).empty_spec()
    &&& forall|j: int|
        0 <= j < w.robots@.len() && j != i ==> (#[trigger] proposed_pose(w, proposals, j)).xy
            != dest.xy && w.robots@[j].coords.xy != dest.xy
}

/// Agent `i` stands at one of the first `idx` places of the commit order.
pub open spec fn in_prefix(order: Seq<usize>, idx: int, i: int) -> bool {
    exists|k: int| 0 <= k < idx && order[k] == i
}

/// A concrete place witnesses `in_prefix`.
pub proof fn lemma_in_prefix_intro(order: Seq<usize>, idx: int, i: int, k: int)
    requires
        0 <= k < idx,
        order[k] == i,
    ensures
        in_prefix(order, idx, i),
{
    assert(0 <= k < idx && order[k] == i);
}

/// The robots' poses, in agent-index order.
pub open spec fn poses_of(robots: Seq<Robot>) -> Seq<Coords> {
    robots.map_values(|r: Robot| r.coords)
}

/// No robot stands on the cell.
pub open spec fn cell_free(poses: Seq<Coords>, xy: XYCell) -> bool {
    forall|j: int| 0 <= j < poses.len() ==> (#[trigger] poses[j]).xy != xy
}

/// One greedy one-tick commit pass: visit the agents in the given order and
/// move each to its proposed destination exactly when that cell is on the
/// grid and, at the agent's turn, free or its own; everyone else stays.
pub open spec fn commit_fold(
    size: Size,
    dests: Seq<Coords>,
    order: Seq<usize>,
    k: int,
    poses: Seq<Coords>,
) -> Seq<Coords>
    decreases order.len() - k,
{
    if k < 0 || k >= order.len() {
        poses
    } else {
        let a = order[k] as int;
        let dest = dests[a];
        let next = if size.in_bounds_spec(dest.xy) && (poses[a].xy == dest.xy || cell_free(
            poses,
            dest.xy,
        )) {
            poses.update(a, dest)
        } else {
            poses
        };
        commit_fold(size, dests, order, k + 1, next)
    }
}

/// The result is the greedy one-tick commit of the proposals under some
/// visiting order of the agents.
pub open spec fn myopic_outcome(w: World, proposals: Seq<Vec<Actions>>, result: Seq<Coords>) -> bool {
    exists|order: Seq<usize>|
        #[trigger] is_perm_of(order, w.robots@.len()) && result == commit_fold(
            w.grid.size,
            Seq::new(w.robots@.len(), |i: int| proposed_pose(w, proposals, i)),
            order,
            0,
            poses_of(w.robots@),
        )
}

/// A lone agent always commits its proposed move: with a single robot the
/// greedy one-tick fold takes it to any in-bounds destination, whatever the
/// visiting order — the per-tick progress step behind the re-planner's
/// liveness.
pub proof fn lemma_lone_agent_commits(
    size: Size,
    dests: Seq<Coords>,
    order: Seq<usize>,
    poses: Seq<Coords>,
)
    requires
        poses.len() == 1,
        dests.len() == 1,
        is_perm_of(order, 1),
        size.in_bounds_spec(dests[0].xy),
    ensures
        commit_fold(size, dests, order, 0, poses) == poses.update(0, dests[0]),
{
    assert(order[0] == 0);
    if poses[0].xy != dests[0].xy {
        assert forall|j: int| 0 <= j < poses.len() implies (#[trigger] poses[j]).xy
            != dests[0].xy by {}
        assert(cell_free(poses, dests[0].xy));
    }
    assert(commit_fold(size, dests, order, 1, poses.update(0, dests[0])) == poses.update(
        0,
        dests[0],
    ));
}

/// A concrete visiting order witnesses `myopic_outcome`.
pub proof fn lemma_myopic_outcome_intro(
    w: World,
    proposals: Seq<Vec<Actions>>,
    result: Seq<Coords>,
    order: Seq<usize>,
)
    requires
        is_perm_of(order, w.robots@.len()),
        result == commit_fold(
            w.grid.size,
            Seq::new(w.robots@.len(), |i: int| proposed_pose(w, proposals, i)),
            order,
            0,
            poses_of(w.robots@),
        ),
    ensures
        myopic_outcome(w, proposals, result),
{
    assert(#[trigger] is_perm_of(order, w.robots@.len()) && result == commit_fold(
        w.grid.size,
        Seq::new(w.robots@.len(), |i: int| proposed_pose(w, proposals, i)),
        order,
        0,
        poses_of(w.robots@),
    ));
}

/// A concrete index witnesses sequence membership.
proof fn lemma_usize_seq_contains(s: Seq<usize>, v: usize, i: int)
    requires
        0 <= i < s.len(),
        s[i] == v,
    ensures
        s.contains(v),
{
    assert(0 <= i < s.len() && s[i] == v);
}

/// When every cell changed at most in its occupant, pose validity and action
/// legality are unchanged everywhere.
pub proof fn lemma_masks_stable(w1: World, w2: World)
    requires
        w1.grid.size == w2.grid.size,
        forall|xy: XYCell|
            w1.grid.in_bounds(xy) ==> #[trigger] w2.grid.cell_at(xy) == (Cell {
                present: w2.grid.cell_at(xy).present,
                ..w1.grid.cell_at(xy)
            }),
    ensures
        forall|c: Coords| #[trigger] w2.valid_coords_spec(c) == w1.valid_coords_spec(c),
        forall|c: Coords, a: Actions|
            w1.grid.in_bounds(c.xy) ==> #[trigger] w2.legal_action_spec(c, a)
                == w1.legal_action_spec(c, a),
{
    assert forall|c: Coords| #[trigger] w2.valid_coords_spec(c) == w1.valid_coords_spec(c) by {
        if w1.grid.in_bounds(c.xy) {
            assert(w2.grid.cell_at(c.xy).or_for_spec(c.orientation) == w1.grid.cell_at(
                c.xy,
            ).or_for_spec(c.orientation));
        }
    }
    assert forall|c: Coords, a: Actions|
        w1.grid.in_bounds(c.xy) implies #[trigger] w2.legal_action_spec(c, a)
            == w1.legal_action_spec(c, a) by {
        assert(w2.grid.cell_at(c.xy).or_for_spec(c.orientation) == w1.grid.cell_at(
            c.xy,
        ).or_for_spec(c.orientation));
        assert(w2.valid_coords_spec(next_coords_spec(c, a)) == w1.valid_coords_spec(
            next_coords_spec(c, a),
        ));
    }
}

impl World {
    /// One tick of the live simulation: simulate each agent's proposed
    /// horizon to build the conflict graph and its components (diagnostic),
    /// then commit only each agent's first proposed action, in a uniformly
    /// random agent order, moving an agent exactly when its destination cell
    /// is free or its own; every other agent stays in place for this tick.
    /// Proposals that would leave the computable coordinate range, or lead
    /// off the grid, keep their agent in place.
    #[verifier::loop_isolation(false)]
    #[verifier::rlimit(100)]
    pub fn step_robots(
        &mut self,
        proposals: &Vec<Vec<Actions>>,
        rng: &mut rand::rngs::ThreadRng,
    ) -> (components: Vec<Vec<usize>>)
        requires
            old(self).wf(),
            proposals@.len() == old(self).robots@.len(),
        ensures
            final(self).wf(),
            final(self).robots@.len() == old(self).robots@.len(),
            final(self).grid.size == old(self).grid.size,
            forall|i: int|
                0 <= i < final(self).robots@.len() ==> (#[trigger] final(self).robots@[i]).coords
                    == old(self).robots@[i].coords || (proposals@[i]@.len() > 0
                    && final(self).robots@[i].coords == next_coords_spec(
                    old(self).robots@[i].coords,
                    proposals@[i]@[0],
                )),
            forall|i: int|
                0 <= i < final(self).robots@.len() && uncontested(*old(self), proposals@, i)
                    ==> (#[trigger] final(self).robots@[i]).coords == proposed_pose(
                    *old(self),
                    proposals@,
                    i,
                ),
            forall|xy: XYCell|
                old(self).grid.in_bounds(xy) ==> #[trigger] final(self).grid.cell_at(xy) == (Cell {
                    present: final(self).grid.cell_at(xy).present,
                    ..old(self).grid.cell_at(xy)
                }),
            forall|c: Coords|
                #[trigger] final(self).valid_coords_spec(c) == old(self).valid_coords_spec(c),
            forall|c: Coords, a: Actions|
                old(self).grid.in_bounds(c.xy) ==> #[trigger] final(self).legal_action_spec(c, a)
                    == old(self).legal_action_spec(c, a),
            myopic_outcome(*old(self), proposals@, poses_of(final(self).robots@)),
            forall|k: int, l: int|
                0 <= k < components@.len() && 0 <= l < components@[k]@.len()
                    ==> #[trigger] components@[k]@[l] < old(self).robots@.len(),
            forall|k1: int, l1: int, k2: int, l2: int|
                0 <= k1 < components@.len() && 0 <= l1 < components@[k1]@.len() && 0 <= k2
                    < components@.len() && 0 <= l2 < components@[k2]@.len() && (k1 != k2 || l1
                    != l2) ==> #[trigger] components@[k1]@[l1] != #[trigger] components@[k2]@[l2],
            total_len(components@) == old(self).robots@.len(),
    {
        let n = self.robots.len();
        let mut traces: Vec<Vec<Coords>> = Vec::new();
        let mut i: usize = 0;
        while i < n
            invariant
                i <= n,
                traces@.len() == i,
            decreases n - i,
        {
            let c0 = self.robots[i].coords;
            if proposals[i].len() > 0 && check_sim_safe(c0, &proposals[i]) {
                traces.push(crate::coords::simulate(c0, &proposals[i]));
            } else {
                let mut t: Vec<Coords> = Vec::new();
                t.push(c0);
                traces.push(t);
            }
            i = i + 1;
        }
        let components = conflict_components(&traces);
        let mut proposed: Vec<Coords> = Vec::new();
        let mut i2: usize = 0;
        while i2 < n
            invariant
                i2 <= n,
                proposed@.len() == i2,
                forall|k: int|
                    0 <= k < i2 ==> #[trigger] proposed@[k] == proposed_pose(*self, proposals@, k),
            decreases n - i2,
        {
            let c0 = self.robots[i2].coords;
            let mut nex = c0;
            if proposals[i2].len() > 0 && c0.xy.x > i16::MIN && c0.xy.x < i16::MAX && c0.xy.y
                > i16::MIN && c0.xy.y < i16::MAX {
                nex = next_coords(&c0, proposals[i2][0]);
            }
            proof {
                assert(self.grid.in_bounds(self.robots@[i2 as int].coords.xy));
                assert(self.grid.cell_at(self.robots@[i2 as int].coords.xy).present == Some(i2));
            }
            let cell = self.grid.get_cell(&c0.xy);
            match cell.present {
                None => {},
                Some(rn) => {
                    if rn != i2 {
                        nex = c0;
                    }
                },
            }
            proposed.push(nex);
            i2 = i2 + 1;
        }
        let mut order: Vec<usize> = Vec::new();
        let mut i3: usize = 0;
        while i3 < n
            invariant
                i3 <= n,
                order@.len() == i3,
                forall|k: int| 0 <= k < i3 ==> #[trigger] order@[k] == k,
            decreases n - i3,
        {
            order.push(i3);
            i3 = i3 + 1;
        }
        let ghost mut pos = Seq::new(n as nat, |v: int| v);
        if n > 1 {
            let mut k: usize = n - 1;
            while k >= 1
                invariant
                    k <= n - 1,
                    order@.len() == n,
                    pos.len() == n,
                    forall|l: int| 0 <= l < n ==> #[trigger] order@[l] < n,
                    forall|l1: int, l2: int|
                        0 <= l1 < l2 < n ==> #[trigger] order@[l1] != #[trigger] order@[l2],
                    forall|v: int|
                        0 <= v < n ==> 0 <= #[trigger] pos[v] < n && order@[pos[v]] == v,
                decreases k,
            {
                let j = rand_below(rng, k + 1);
                let a = order[k];
                let b = order[j];
                let ghost before = order@;
                order.set(k, b);
                order.set(j, a);
                proof {
                    assert forall|l1: int, l2: int| 0 <= l1 < l2 < n implies #[trigger] order@[l1]
                        != #[trigger] order@[l2] by {
                        assert(order@[l1] == if l1 == j as int {
                            before[k as int]
                        } else if l1 == k as int {
                            before[j as int]
                        } else {
                            before[l1]
                        });
                        assert(order@[l2] == if l2 == j as int {
                            before[k as int]
                        } else if l2 == k as int {
                            before[j as int]
                        } else {
                            before[l2]
                        });
                    }
                    pos = pos.update(a as int, j as int).update(b as int, k as int);
                    assert forall|v: int| 0 <= v < n implies 0 <= #[trigger] pos[v] < n
                        && order@[pos[v]] == v by {
                        if v == b as int {
                            assert(order@[k as int] == b);
                        } else if v == a as int {
                            assert(order@[j as int] == a);
                        }
                    }
                }
                k = k - 1;
            }
        }
        self.commit_moves(&proposed, &order, Ghost(proposals@), Ghost(pos));
        proof {
            assert forall|v: usize| v < n implies order@.contains(v) by {
                lemma_usize_seq_contains(order@, v, pos[v as int]);
            }
            assert(is_perm_of(order@, n as nat));
            lemma_myopic_outcome_intro(*old(self), proposals@, poses_of(self.robots@), order@);
            lemma_masks_stable(*old(self), *self);
        }
        components
    }
}

impl World {
    /// Commit the proposals in the given visiting order: each visited agent
    /// moves to its proposed pose exactly when that cell is on the grid and,
    /// at the agent's turn, free or its own; everyone else stays in place.
    /// The final placement is the greedy one-tick commit fold of this order,
    /// cells change at most in their occupant, and an uncontested agent
    /// always reaches its destination.
    #[verifier::rlimit(100)]
    fn commit_moves(
        &mut self,
        proposed: &Vec<Coords>,
        order: &Vec<usize>,
        Ghost(proposals): Ghost<Seq<Vec<Actions>>>,
        Ghost(pos): Ghost<Seq<int>>,
    )
        requires
            old(self).wf(),
            proposals.len() == old(self).robots@.len(),
            proposed@.len() == old(self).robots@.len(),
            order@.len() == old(self).robots@.len(),
            forall|l: int| 0 <= l < order@.len() ==> #[trigger] order@[l] < order@.len(),
            forall|l1: int, l2: int|
                0 <= l1 < l2 < order@.len() ==> #[trigger] order@[l1] != #[trigger] order@[l2],
            pos.len() == order@.len(),
            forall|v: int|
                0 <= v < pos.len() ==> 0 <= #[trigger] pos[v] < pos.len() && order@[pos[v]] == v,
            forall|kk: int|
                0 <= kk < proposed@.len() ==> #[trigger] proposed@[kk] == proposed_pose(
                    *old(self),
                    proposals,
                    kk,
                ),
        ensures
            final(self).wf(),
            final(self).robots@.len() == old(self).robots@.len(),
            final(self).grid.size == old(self).grid.size,
            forall|i: int|
                0 <= i < final(self).robots@.len() ==> (#[trigger] final(self).robots@[i]).coords
                    == old(self).robots@[i].coords || (proposals[i]@.len() > 0
                    && final(self).robots@[i].coords == next_coords_spec(
                    old(self).robots@[i].coords,
                    proposals[i]@[0],
                )),
            forall|i: int|
                0 <= i < final(self).robots@.len() && uncontested(*old(self), proposals, i)
                    ==> (#[trigger] final(self).robots@[i]).coords == proposed_pose(
                    *old(self),
                    proposals,
                    i,
                ),
            forall|xy: XYCell|
                old(self).grid.in_bounds(xy) ==> #[trigger] final(self).grid.cell_at(xy) == (Cell {
                    present: final(self).grid.cell_at(xy).present,
                    ..old(self).grid.cell_at(xy)
                }),
            poses_of(final(self).robots@) == commit_fold(
                old(self).grid.size,
                Seq::new(
                    old(self).robots@.len(),
                    |i: int| proposed_pose(*old(self), proposals, i),
                ),
                order@,
                0,
                poses_of(old(self).robots@),
            ),
    {
        let n = self.robots.len();
        let ghost size0 = old(self).grid.size;
        let ghost dests = Seq::new(
            old(self).robots@.len(),
            |i: int| proposed_pose(*old(self), proposals, i),
        );
        let ghost poses0 = poses_of(old(self).robots@);
        let ghost mut done = Seq::new(n as nat, |i: int| false);
        let mut idx: usize = 0;
        while idx < n
            invariant
                idx <= n,
                self.wf(),
                self.robots@.len() == n,
                n == old(self).robots@.len(),
                self.grid.size == old(self).grid.size,
                old(self).wf(),
                proposals.len() == n,
                proposed@.len() == n,
                order@.len() == n,
                forall|l: int| 0 <= l < n ==> #[trigger] order@[l] < n,
                forall|l1: int, l2: int|
                    0 <= l1 < l2 < n ==> #[trigger] order@[l1] != #[trigger] order@[l2],
                pos.len() == n,
                forall|v: int| 0 <= v < n ==> 0 <= #[trigger] pos[v] < n && order@[pos[v]] == v,
                forall|kk: int|
                    0 <= kk < n ==> #[trigger] proposed@[kk] == proposed_pose(
                        *old(self),
                        proposals,
                        kk,
                    ),
                size0 == old(self).grid.size,
                dests == Seq::new(
                    old(self).robots@.len(),
                    |i: int| proposed_pose(*old(self), proposals, i),
                ),
                poses0 == poses_of(old(self).robots@),
                done.len() == n,
                forall|k: int| 0 <= k < idx ==> done[#[trigger] order@[k] as int],
                forall|i4: int|
                    0 <= i4 < n && #[trigger] done[i4] ==> in_prefix(order@, idx as int, i4),
                forall|i4: int|
                    0 <= i4 < n && !(#[trigger] done[i4]) ==> self.robots@[i4] == old(
                        self,
                    ).robots@[i4],
                forall|i4: int|
                    0 <= i4 < n && #[trigger] done[i4] && uncontested(*old(self), proposals, i4)
                        ==> self.robots@[i4].coords == proposed_pose(*old(self), proposals, i4),
                forall|i4: int|
                    0 <= i4 < n && !(#[trigger] done[i4]) && uncontested(*old(self), proposals, i4)
                        ==> self.grid.cell_at(
                        proposed_pose(*old(self), proposals, i4).xy,
                    ).empty_spec(),
                forall|i4: int|
                    0 <= i4 < n ==> (#[trigger] self.robots@[i4]).coords == old(
                        self,
                    ).robots@[i4].coords || (proposals[i4]@.len() > 0 && self.robots@[i4].coords
                        == next_coords_spec(old(self).robots@[i4].coords, proposals[i4]@[0])),
                forall|xy: XYCell|
                    old(self).grid.in_bounds(xy) ==> #[trigger] self.grid.cell_at(xy) == (Cell {
                        present: self.grid.cell_at(xy).present,
                        ..old(self).grid.cell_at(xy)
                    }),
                commit_fold(size0, dests, order@, 0, poses0) == commit_fold(
                    size0,
                    dests,
                    order@,
                    idx as int,
                    poses_of(self.robots@),
                ),
            decreases n - idx,
        {
            let a = order[idx];
            proof {
                if done[a as int] {
                    let k = choose|k: int| 0 <= k < idx && order@[k] == a as int;
                    assert(order@[k] != order@[idx as int]);
                    assert(false);
                }
            }
            let ghost before = *self;
            let ghost cur = poses_of(before.robots@);
            let dest = proposed[a];
            proof {
                assert(dests[a as int] == dest);
            }
            if self.grid.size.in_bounds(dest.xy) {
                let cell = self.grid.get_cell(&dest.xy);
                let can_move = match cell.present {
                    None => true,
                    Some(rn) => rn == a,
                };
                if can_move {
                    proof {
                        match before.grid.cell_at(dest.xy).present {
                            None => {
                                assert forall|j: int|
                                    0 <= j < cur.len() implies (#[trigger] cur[j]).xy
                                        != dest.xy by {
                                    assert(before.grid.cell_at(before.robots@[j].coords.xy).present
                                        == Some(j as usize));
                                }
                                assert(cell_free(cur, dest.xy));
                            },
                            Some(rn) => {
                                assert(before.robots@[a as int].coords.xy == dest.xy);
                                assert(cur[a as int].xy == dest.xy);
                            },
                        }
                    }
                    self.move_robot(a, dest);
                    proof {
                        assert(poses_of(self.robots@) =~= cur.update(a as int, dest));
                    }
                } else {
                    proof {
                        let rn = before.grid.cell_at(dest.xy).present->Some_0;
                        assert(before.robots@[rn as int].coords.xy == dest.xy);
                        assert(cur[rn as int].xy == dest.xy);
                        assert(!cell_free(cur, dest.xy));
                        if cur[a as int].xy == dest.xy {
                            assert(before.grid.cell_at(dest.xy).present == Some(a));
                            assert(false);
                        }
                    }
                }
            } else {
                proof {
                    assert(!uncontested(*old(self), proposals, a as int));
                }
            }
            proof {
                let stepped = if size0.in_bounds_spec(dest.xy) && (cur[a as int].xy == dest.xy
                    || cell_free(cur, dest.xy)) {
                    cur.update(a as int, dest)
                } else {
                    cur
                };
                assert(poses_of(self.robots@) =~= stepped);
                assert(commit_fold(size0, dests, order@, idx as int, cur) == commit_fold(
                    size0,
                    dests,
                    order@,
                    idx as int + 1,
                    stepped,
                ));
                assert forall|xy: XYCell| old(self).grid.in_bounds(xy) implies #[trigger] self.grid.cell_at(
                    xy,
                ) == (Cell {
                    present: self.grid.cell_at(xy).present,
                    ..old(self).grid.cell_at(xy)
                }) by {
                    assert(before.grid.cell_at(xy) == (Cell {
                        present: before.grid.cell_at(xy).present,
                        ..old(self).grid.cell_at(xy)
                    }));
                }
                if uncontested(*old(self), proposals, a as int) {
                    assert(before.grid.cell_at(dest.xy).empty_spec());
                    assert(self.robots@[a as int].coords == dest);
                }
                done = done.update(a as int, true);
                assert forall|i4: int|
                    0 <= i4 < n && #[trigger] done[i4] implies in_prefix(
                    order@,
                    idx as int + 1,
                    i4,
                ) by {
                    if i4 == a as int {
                        lemma_in_prefix_intro(order@, idx as int + 1, i4, idx as int);
                    } else {
                        let k = choose|k: int| 0 <= k < idx && order@[k] == i4;
                        lemma_in_prefix_intro(order@, idx as int + 1, i4, k);
                    }
                }
                assert forall|i4: int|
                    0 <= i4 < n && !(#[trigger] done[i4]) && uncontested(
                        *old(self),
                        proposals,
                        i4,
                    ) implies self.grid.cell_at(
                    proposed_pose(*old(self), proposals, i4).xy,
                ).empty_spec() by {
                    let di = proposed_pose(*old(self), proposals, i4).xy;
                    assert(proposed_pose(*old(self), proposals, a as int).xy != di);
                    assert(old(self).robots@[a as int].coords.xy != di);
                    assert(before.robots@[a as int].coords.xy != di);
                    assert(self.grid.cell_at(di) == before.grid.cell_at(di));
                }
            }
            idx = idx + 1;
        }
        proof {
            assert forall|i4: int|
                0 <= i4 < n && uncontested(*old(self), proposals, i4) implies (
            #[trigger] self.robots@[i4]).coords == proposed_pose(*old(self), proposals, i4) by {
                assert(order@[pos[i4]] == i4);
                assert(done[order@[pos[i4]] as int]);
            }
        }
    }
}

/// No cell ever holds two robots: in a well-formed world, distinct robots
/// stand on distinct cells.
pub proof fn lemma_no_double_occupancy(w: World, i: usize, j: usize)
    requires
        w.wf(),
        i < w.robots@.len(),
        j < w.robots@.len(),
        i != j,
    ensures
        w.robots@[i as int].coords.xy != w.robots@[j as int].coords.xy,
{
    assert(w.grid.cell_at(w.robots@[i as int].coords.xy).present == Some(i));
    assert(w.grid.cell_at(w.robots@[j as int].coords.xy).present == Some(j));
}

} // verus!
