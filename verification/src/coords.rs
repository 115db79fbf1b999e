//! Cells, orientations, poses and the action transition function.
//!
//! A pose (`Coords`) is a cell coordinate plus an orientation; an `Actions`
//! value moves a pose to its successor pose through `next_coords`, the pure
//! and deterministic transition function of the whole scheduler.

use vstd::prelude::*;

verus! {

/// Number of distinct actions.
pub const NUM_ACTIONS: usize = 5;

/// Number of distinct orientations.
pub const NUM_ORIENTATIONS: usize = 4;

/// A compass orientation of a robot on the grid.
#[derive(Debug, Copy, Clone, PartialEq, Eq, Hash, Structural)]
pub enum Orientations {
    NORTH,
    SOUTH,
    WEST,
    EAST,
}

/// An integer cell coordinate; also used for rectangle sizes.
#[derive(Debug, Copy, Clone, PartialEq, Eq, Hash, Structural)]
pub struct XY {
    pub x: i16,
    pub y: i16,
}

/// A cell coordinate on the grid.
pub type XYCell = XY;

/// A rectangle size: the grid covers `[0, size.x) x [0, size.y)`.
pub type Size = XY;

/// The dense integer identity of a robot: its index in the world's list.
pub type RobotName = usize;

impl Orientations {
    /// The index of this orientation, used to address per-orientation data.
    pub open spec fn index_spec(self) -> int {
        match self {
            Orientations::NORTH => 0,
            Orientations::SOUTH => 1,
            Orientations::WEST => 2,
            Orientations::EAST => 3,
        }
    }

    /// The index of this orientation as an executable value.
    pub fn index(&self) -> (r: usize)
        ensures
            r == self.index_spec(),
    {
        match self {
            Orientations::NORTH => 0,
            Orientations::SOUTH => 1,
            Orientations::WEST => 2,
            Orientations::EAST => 3,
        }
    }

    /// The orientation with the given index.
    pub fn from_index(a: usize) -> (r: Self)
        requires
            a < NUM_ORIENTATIONS,
        ensures
            r.index_spec() == a,
    {
        match a {
            0 => Orientations::NORTH,
            1 => Orientations::SOUTH,
            2 => Orientations::WEST,
            _ => Orientations::EAST,
        }
    }

    pub open spec fn angle_spec(self) -> int {
        match self {
            Orientations::EAST => 0,
            Orientations::NORTH => 90,
            Orientations::WEST => 180,
            Orientations::SOUTH => 270,
        }
    }

    /// The angle of this orientation in degrees, counterclockwise from east.
    pub fn angle(&self) -> (r: u16)
        ensures
            r == self.angle_spec(),
    {
        match self {
            Orientations::EAST => 0,
            Orientations::NORTH => 90,
            Orientations::WEST => 180,
            Orientations::SOUTH => 270,
        }
    }

    /// The orientation whose angle equals the given angle modulo 360 degrees.
    pub fn from_angle(angle: u16) -> (r: Self)
        requires
            angle % 360 == 0 || angle % 360 == 90 || angle % 360 == 180 || angle % 360 == 270,
        ensures
            r.angle_spec() == angle % 360,
    {
        let a = angle % 360;
        match a {
            0 => Orientations::EAST,
            90 => Orientations::NORTH,
            180 => Orientations::WEST,
            _ => Orientations::SOUTH,
        }
    }

    /// The unit displacement of one forward step in this orientation.
    pub open spec fn vector_spec(self) -> XY {
        match self {
            Orientations::NORTH => XY { x: 0i16, y: 1i16 },
            Orientations::SOUTH => XY { x: 0i16, y: -1i16 },
            Orientations::WEST => XY { x: -1i16, y: 0i16 },
            Orientations::EAST => XY { x: 1i16, y: 0i16 },
        }
    }

    /// The unit displacement as an executable value.
    pub fn vector(&self) -> (r: XY)
        ensures
            r == self.vector_spec(),
    {
        match self {
            Orientations::NORTH => XY { x: 0, y: 1 },
            Orientations::SOUTH => XY { x: 0, y: -1 },
            Orientations::WEST => XY { x: -1, y: 0 },
            Orientations::EAST => XY { x: 1, y: 0 },
        }
    }

    pub open spec fn rotate_left_spec(self) -> Self {
        match self {
            Orientations::NORTH => Orientations::WEST,
            Orientations::SOUTH => Orientations::EAST,
            Orientations::WEST => Orientations::SOUTH,
            Orientations::EAST => Orientations::NORTH,
        }
    }

    /// A quarter turn counterclockwise.
    pub fn rotate_left(&self) -> (r: Self)
        ensures
            r == self.rotate_left_spec(),
    {
        match self {
            Orientations::NORTH => Orientations::WEST,
            Orientations::SOUTH => Orientations::EAST,
            Orientations::WEST => Orientations::SOUTH,
            Orientations::EAST => Orientations::NORTH,
        }
    }

    pub open spec fn rotate_right_spec(self) -> Self {
        match self {
            Orientations::NORTH => Orientations::EAST,
            Orientations::SOUTH => Orientations::WEST,
            Orientations::WEST => Orientations::NORTH,
            Orientations::EAST => Orientations::SOUTH,
        }
    }

    /// A quarter turn clockwise.
    pub fn rotate_right(&self) -> (r: Self)
        ensures
            r == self.rotate_right_spec(),
    {
        match self {
            Orientations::NORTH => Orientations::EAST,
            Orientations::SOUTH => Orientations::WEST,
            Orientations::WEST => Orientations::NORTH,
            Orientations::EAST => Orientations::SOUTH,
        }
    }
}

/// The two rotations are total, cyclic, and mutually inverse.
pub proof fn lemma_rotate_inverse(o: Orientations)
    ensures
        o.rotate_right_spec().rotate_left_spec() == o,
        o.rotate_left_spec().rotate_right_spec() == o,
{
}

/// Four clockwise quarter turns return to the starting orientation.
pub proof fn lemma_rotate_four(o: Orientations)
    ensures
        o.rotate_right_spec().rotate_right_spec().rotate_right_spec().rotate_right_spec() == o,
{
}

impl XY {
    pub fn new(x: i16, y: i16) -> (r: Self)
        ensures
            r == (XY { x, y }),
    {
        XY { x, y }
    }

    pub open spec fn in_bounds_spec(self, p: XY) -> bool {
        0 <= p.x < self.x && 0 <= p.y < self.y
    }

    /// Whether `p` lies inside the rectangle `[0, self.x) x [0, self.y)`.
    pub fn in_bounds(&self, p: XY) -> (r: bool)
        ensures
            r == self.in_bounds_spec(p),
    {
        p.x >= 0 && p.y >= 0 && p.x < self.x && p.y < self.y
    }

    /// Every coordinate pair of the rectangle, in column-major order.
    pub fn iterate(&self) -> (r: Vec<(i16, i16)>)
        ensures
            r@.len() == if self.x >= 0 && self.y >= 0 {
                self.x * self.y
            } else {
                0
            },
            forall|k: int|
                0 <= k < r@.len() ==> r@[k] == ((k / (self.y as int)) as i16, (k % (self.y
                    as int)) as i16),
    {
        let pairs = self.iterate_xy();
        let mut r: Vec<(i16, i16)> = Vec::new();
        let mut i: usize = 0;
        while i < pairs.len()
            invariant
                i <= pairs@.len(),
                r@.len() == i,
                forall|k: int| 0 <= k < i ==> r@[k] == (pairs@[k].x, pairs@[k].y),
                forall|k: int|
                    0 <= k < pairs@.len() ==> pairs@[k] == (XY {
                        x: (k / (self.y as int)) as i16,
                        y: (k % (self.y as int)) as i16,
                    }),
            decreases pairs@.len() - i,
        {
            let p = pairs[i];
            r.push((p.x, p.y));
            i = i + 1;
        }
        r
    }

    /// Every cell coordinate of the rectangle, in column-major order.
    pub fn iterate_xy(&self) -> (r: Vec<XY>)
        ensures
            r@.len() == if self.x >= 0 && self.y >= 0 {
                self.x * self.y
            } else {
                0
            },
            forall|k: int|
                0 <= k < r@.len() ==> r@[k] == (XY {
                    x: (k / (self.y as int)) as i16,
                    y: (k % (self.y as int)) as i16,
                }),
    {
        let mut r: Vec<XY> = Vec::new();
        if self.x < 0 || self.y < 0 {
            return r;
        }
        let mut x: i16 = 0;
        while x < self.x
            invariant
                0 <= x <= self.x,
                0 <= self.y,
                r@.len() == x * self.y,
                forall|k: int|
                    0 <= k < r@.len() ==> r@[k] == (XY {
                        x: (k / (self.y as int)) as i16,
                        y: (k % (self.y as int)) as i16,
                    }),
            decreases self.x - x,
        {
            let mut y: i16 = 0;
            while y < self.y
                invariant
                    0 <= x < self.x,
                    0 <= y <= self.y,
                    r@.len() == x * self.y + y,
                    forall|k: int|
                        0 <= k < r@.len() ==> r@[k] == (XY {
                            x: (k / (self.y as int)) as i16,
                            y: (k % (self.y as int)) as i16,
                        }),
                decreases self.y - y,
            {
                proof {
                    vstd::arithmetic::div_mod::lemma_fundamental_div_mod_converse(
                        x * self.y + y,
                        self.y as int,
                        x as int,
                        y as int,
                    );
                    assert((x + 1) * self.y == x * self.y + self.y) by (nonlinear_arith);
                    assert(x * self.y + y < i16::MAX * i16::MAX) by (nonlinear_arith)
                        requires
                            0 <= x < i16::MAX,
                            0 <= y < self.y <= i16::MAX,
                            0 <= x * self.y + y,
                    ;
                }
                r.push(XY { x, y });
                y = y + 1;
            }
            proof {
                assert((x + 1) * self.y == x * self.y + self.y) by (nonlinear_arith);
            }
            x = x + 1;
        }
        r
    }

    /// Every cell coordinate strictly inside the rectangle's one-cell border.
    pub fn iterate_xy_interior(&self) -> (r: Vec<XY>)
        ensures
            forall|k: int|
                0 <= k < r@.len() ==> 1 <= #[trigger] r@[k].x < self.x - 1 && 1 <= r@[k].y < self.y
                    - 1,
            forall|p: XY|
                1 <= p.x < self.x - 1 && 1 <= p.y < self.y - 1 ==> r@.contains(p),
    {
        let mut r: Vec<XY> = Vec::new();
        if self.x < 3 || self.y < 3 {
            return r;
        }
        let mut x: i16 = 1;
        while x < self.x - 1
            invariant
                1 <= x <= self.x - 1,
                3 <= self.x,
                3 <= self.y,
                forall|k: int|
                    0 <= k < r@.len() ==> 1 <= #[trigger] r@[k].x < self.x - 1 && 1 <= r@[k].y
                        < self.y - 1,
                forall|p: XY|
                    1 <= p.x < x && 1 <= p.y < self.y - 1 ==> r@.contains(p),
            decreases self.x - x,
        {
            let mut y: i16 = 1;
            while y < self.y - 1
                invariant
                    1 <= x < self.x - 1,
                    1 <= y <= self.y - 1,
                    3 <= self.x,
                    3 <= self.y,
                    forall|k: int|
                        0 <= k < r@.len() ==> 1 <= #[trigger] r@[k].x < self.x - 1 && 1 <= r@[k].y
                            < self.y - 1,
                    forall|p: XY|
                        1 <= p.x < x && 1 <= p.y < self.y - 1 ==> r@.contains(p),
                    forall|p: XY| p.x == x && 1 <= p.y < y ==> r@.contains(p),
                decreases self.y - y,
            {
                let ghost prev = r@;
                r.push(XY { x, y });
                proof {
                    assert forall|p: XY|
                        (1 <= p.x < x && 1 <= p.y < self.y - 1) || (p.x == x && 1 <= p.y < y
                            + 1) implies r@.contains(p) by {
                        if p.x == x && p.y == y {
                            assert(r@[r@.len() - 1] == p);
                        } else {
                            assert(prev.contains(p));
                            let k = choose|k: int| 0 <= k < prev.len() && prev[k] == p;
                            assert(r@[k] == p);
                        }
                    }
                }
                y = y + 1;
            }
            x = x + 1;
        }
        r
    }
}

/// A pose: a cell coordinate together with an orientation.
#[derive(Debug, Copy, Clone, PartialEq, Eq, Hash, Structural)]
pub struct Coords {
    pub xy: XYCell,
    pub orientation: Orientations,
}

impl Coords {
    pub fn from(xy: XYCell, orientation: Orientations) -> (r: Self)
        ensures
            r == (Coords { xy, orientation }),
    {
        Coords { xy, orientation }
    }
}

/// A discrete move a robot can make in one tick.
#[derive(Debug, Copy, Clone, PartialEq, Eq, Hash, Structural)]
pub enum Actions {
    Wait,
    Forward,
    TurnLeft,
    TurnRight,
    Backward,
}

impl Actions {
    /// The index of this action, used to address per-action data.
    pub open spec fn index_spec(self) -> int {
        match self {
            Actions::Wait => 0,
            Actions::Forward => 1,
            Actions::TurnLeft => 2,
            Actions::TurnRight => 3,
            Actions::Backward => 4,
        }
    }

    /// The action with the given index.
    pub fn from_index(a: usize) -> (r: Self)
        requires
            a < NUM_ACTIONS,
        ensures
            r.index_spec() == a,
    {
        match a {
            0 => Actions::Wait,
            1 => Actions::Forward,
            2 => Actions::TurnLeft,
            3 => Actions::TurnRight,
            _ => Actions::Backward,
        }
    }

    /// The first action, in the fixed action order, whose transition takes
    /// `c1` to `c2`; `None` when no action does.
    pub fn from_pair(c1: &Coords, c2: &Coords) -> (r: Option<Self>)
        requires
            coords_step_safe(*c1),
        ensures
            r == from_pair_spec(*c1, *c2),
    {
        if next_coords(c1, Actions::Wait) == *c2 {
            Some(Actions::Wait)
        } else if next_coords(c1, Actions::Forward) == *c2 {
            Some(Actions::Forward)
        } else if next_coords(c1, Actions::TurnLeft) == *c2 {
            Some(Actions::TurnLeft)
        } else if next_coords(c1, Actions::TurnRight) == *c2 {
            Some(Actions::TurnRight)
        } else if next_coords(c1, Actions::Backward) == *c2 {
            Some(Actions::Backward)
        } else {
            None
        }
    }
}

/// The action, if any, whose transition takes `c1` to `c2`, searched in the
/// fixed action order.
pub open spec fn from_pair_spec(c1: Coords, c2: Coords) -> Option<Actions> {
    if next_coords_spec(c1, Actions::Wait) == c2 {
        Some(Actions::Wait)
    } else if next_coords_spec(c1, Actions::Forward) == c2 {
        Some(Actions::Forward)
    } else if next_coords_spec(c1, Actions::TurnLeft) == c2 {
        Some(Actions::TurnLeft)
    } else if next_coords_spec(c1, Actions::TurnRight) == c2 {
        Some(Actions::TurnRight)
    } else if next_coords_spec(c1, Actions::Backward) == c2 {
        Some(Actions::Backward)
    } else {
        None
    }
}

/// One transition step can be computed without leaving the coordinate type's
/// range: a forward or backward step changes a coordinate by at most one.
pub open spec fn coords_step_safe(c: Coords) -> bool {
    i16::MIN < c.xy.x < i16::MAX && i16::MIN < c.xy.y < i16::MAX
}

/// The successor pose of `coord` under `action`: `Wait` keeps the pose,
/// `Forward`/`Backward` translate by the orientation's unit vector, the two
/// turns rotate in place.
pub open spec fn next_coords_spec(coord: Coords, action: Actions) -> Coords {
    match action {
        Actions::Wait => coord,
        Actions::Forward => Coords {
            xy: XY {
                x: (coord.xy.x + coord.orientation.vector_spec().x) as i16,
                y: (coord.xy.y + coord.orientation.vector_spec().y) as i16,
            },
            orientation: coord.orientation,
        },
        Actions::Backward => Coords {
            xy: XY {
                x: (coord.xy.x - coord.orientation.vector_spec().x) as i16,
                y: (coord.xy.y - coord.orientation.vector_spec().y) as i16,
            },
            orientation: coord.orientation,
        },
        Actions::TurnLeft => Coords {
            xy: coord.xy,
            orientation: coord.orientation.rotate_left_spec(),
        },
        Actions::TurnRight => Coords {
            xy: coord.xy,
            orientation: coord.orientation.rotate_right_spec(),
        },
    }
}

/// The transition function from a pose and an action to the successor pose.
pub fn next_coords(coord: &Coords, action: Actions) -> (r: Coords)
    requires
        coords_step_safe(*coord),
    ensures
        r == next_coords_spec(*coord, action),
{
    match action {
        Actions::Wait => *coord,
        Actions::Forward => {
            let v = coord.orientation.vector();
            Coords { xy: XY { x: coord.xy.x + v.x, y: coord.xy.y + v.y }, orientation: coord.orientation }
        },
        Actions::Backward => {
            let v = coord.orientation.vector();
            Coords { xy: XY { x: coord.xy.x - v.x, y: coord.xy.y - v.y }, orientation: coord.orientation }
        },
        Actions::TurnLeft => Coords {
            xy: coord.xy,
            orientation: coord.orientation.rotate_left(),
        },
        Actions::TurnRight => Coords {
            xy: coord.xy,
            orientation: coord.orientation.rotate_right(),
        },
    }
}

/// Searching the actions in order after a transition finds the action that
/// was taken: distinct actions lead to distinct poses from a safe pose.
pub proof fn lemma_from_pair_round_trip(p: Coords, a: Actions)
    requires
        coords_step_safe(p),
    ensures
        from_pair_spec(p, next_coords_spec(p, a)) == Some(a),
{
}

/// The pose reached from `c0` after the first `i` actions of `actions`.
pub open spec fn pose_at(c0: Coords, actions: Seq<Actions>, i: int) -> Coords
    decreases i,
{
    if i <= 0 {
        c0
    } else {
        next_coords_spec(pose_at(c0, actions, i - 1), actions[i - 1])
    }
}

/// Every pose from which a step of `actions` is taken stays in the safe
/// coordinate range, so the whole walk is computable.
pub open spec fn sim_safe(c0: Coords, actions: Seq<Actions>) -> bool {
    forall|i: int| 0 <= i < actions.len() ==> coords_step_safe(#[trigger] pose_at(c0, actions, i))
}

/// The trace of poses visited when executing `actions` from `c0`: the
/// starting pose followed by the pose after each action.
pub fn simulate(c0: Coords, actions: &Vec<Actions>) -> (res: Vec<Coords>)
    requires
        sim_safe(c0, actions@),
    ensures
        res@.len() == actions@.len() + 1,
        forall|i: int| 0 <= i <= actions@.len() ==> res@[i] == pose_at(c0, actions@, i),
{
    let mut res: Vec<Coords> = Vec::new();
    let mut coords = c0;
    res.push(coords);
    let mut i: usize = 0;
    while i < actions.len()
        invariant
            i <= actions@.len(),
            res@.len() == i + 1,
            coords == pose_at(c0, actions@, i as int),
            forall|j: int| 0 <= j <= i ==> res@[j] == pose_at(c0, actions@, j),
            sim_safe(c0, actions@),
        decreases actions@.len() - i,
    {
        coords = next_coords(&coords, actions[i]);
        res.push(coords);
        i = i + 1;
    }
    res
}

/// Whether the whole walk of `actions` from `c0` stays in the computable
/// coordinate range, decided by walking it.
pub fn check_sim_safe(c0: Coords, actions: &Vec<Actions>) -> (r: bool)
    ensures
        r == sim_safe(c0, actions@),
{
    let mut coords = c0;
    let mut i: usize = 0;
    while i < actions.len()
        invariant
            i <= actions@.len(),
            coords == pose_at(c0, actions@, i as int),
            forall|j: int|
                0 <= j < i ==> coords_step_safe(#[trigger] pose_at(c0, actions@, j)),
        decreases actions@.len() - i,
    {
        let safe = coords.xy.x > i16::MIN && coords.xy.x < i16::MAX && coords.xy.y > i16::MIN
            && coords.xy.y < i16::MAX;
        if !safe {
            proof {
                assert(!coords_step_safe(pose_at(c0, actions@, i as int)));
            }
            return false;
        }
        coords = next_coords(&coords, actions[i]);
        i = i + 1;
    }
    true
}

} // verus!
