//! Grid cells: per-orientation legality, occupancy and rendering data.
//!
//! A cell records, per orientation, whether a robot may occupy it facing that
//! way and which actions are allowed from it, together with at most one
//! occupying robot, parking and charging flags, a display color, and the
//! block the cell came from.

use vstd::prelude::*;

use crate::coords::{Actions, Orientations, RobotName, XYCell};
use crate::rng::rand_below;

verus! {

/// A display color; presentation data only, never read by the scheduler.
#[derive(Debug, Copy, Clone, PartialEq, Eq, Hash, Structural)]
pub struct Rgb {
    pub red: u8,
    pub green: u8,
    pub blue: u8,
}

/// Per-orientation cell data: whether a robot may occupy the cell facing this
/// way, and which actions it may take from here when facing this way.
#[derive(Debug, Copy, Clone, PartialEq, Eq, Structural)]
pub struct CellOr {
    pub robot_allowed: bool,
    pub allow_wait: bool,
    pub allow_forward: bool,
    pub allow_turn_left: bool,
    pub allow_turn_right: bool,
    pub allow_backward: bool,
}

impl CellOr {
    /// Whether the given action is allowed.
    pub open spec fn action_allowed_spec(self, a: Actions) -> bool {
        match a {
            Actions::Wait => self.allow_wait,
            Actions::Forward => self.allow_forward,
            Actions::TurnLeft => self.allow_turn_left,
            Actions::TurnRight => self.allow_turn_right,
            Actions::Backward => self.allow_backward,
        }
    }

    /// Whether the given action is allowed.
    pub fn action_allowed(&self, a: Actions) -> (r: bool)
        ensures
            r == self.action_allowed_spec(a),
    {
        match a {
            Actions::Wait => self.allow_wait,
            Actions::Forward => self.allow_forward,
            Actions::TurnLeft => self.allow_turn_left,
            Actions::TurnRight => self.allow_turn_right,
            Actions::Backward => self.allow_backward,
        }
    }

    /// The default legality mask: occupancy not yet granted, every action
    /// allowed except backing up, which only parking cells permit.
    pub fn default() -> (r: Self)
        ensures
            !r.robot_allowed,
            r.allow_wait,
            r.allow_forward,
            r.allow_turn_left,
            r.allow_turn_right,
            !r.allow_backward,
    {
        CellOr {
            robot_allowed: false,
            allow_wait: true,
            allow_forward: true,
            allow_turn_left: true,
            allow_turn_right: true,
            allow_backward: false,
        }
    }
}

/// One grid cell.
#[derive(Debug, Copy, Clone, PartialEq, Eq, Structural)]
pub struct Cell {
    /// The robot occupying this cell, at most one.
    pub present: Option<RobotName>,
    pub or_north: CellOr,
    pub or_south: CellOr,
    pub or_west: CellOr,
    pub or_east: CellOr,
    pub is_parking: bool,
    pub is_charging: bool,
    pub color: Rgb,
    /// The block this cell was stitched from; provenance only.
    pub block: Option<XYCell>,
}

impl Cell {
    /// The per-orientation data for the given orientation.
    pub open spec fn or_for_spec(self, o: Orientations) -> CellOr {
        match o {
            Orientations::NORTH => self.or_north,
            Orientations::SOUTH => self.or_south,
            Orientations::WEST => self.or_west,
            Orientations::EAST => self.or_east,
        }
    }

    /// The per-orientation data for the given orientation.
    pub fn or_for(&self, o: Orientations) -> (r: CellOr)
        ensures
            r == self.or_for_spec(o),
    {
        match o {
            Orientations::NORTH => self.or_north,
            Orientations::SOUTH => self.or_south,
            Orientations::WEST => self.or_west,
            Orientations::EAST => self.or_east,
        }
    }

    /// The same cell with the data for one orientation replaced.
    pub open spec fn with_or_spec(self, o: Orientations, v: CellOr) -> Self {
        match o {
            Orientations::NORTH => Cell { or_north: v, ..self },
            Orientations::SOUTH => Cell { or_south: v, ..self },
            Orientations::WEST => Cell { or_west: v, ..self },
            Orientations::EAST => Cell { or_east: v, ..self },
        }
    }

    /// The same cell with occupancy granted for one orientation.
    pub open spec fn set_allowed_spec(self, o: Orientations) -> Self {
        self.with_or_spec(o, CellOr { robot_allowed: true, ..self.or_for_spec(o) })
    }

    /// The same cell with the data for one orientation replaced.
    pub fn with_or(self, o: Orientations, v: CellOr) -> (r: Self)
        ensures
            r == self.with_or_spec(o, v),
            r.or_for_spec(o) == v,
            forall|o2: Orientations| o2 != o ==> r.or_for_spec(o2) == self.or_for_spec(o2),
            r.present == self.present,
            r.is_parking == self.is_parking,
            r.is_charging == self.is_charging,
            r.color == self.color,
            r.block == self.block,
    {
        match o {
            Orientations::NORTH => Cell { or_north: v, ..self },
            Orientations::SOUTH => Cell { or_south: v, ..self },
            Orientations::WEST => Cell { or_west: v, ..self },
            Orientations::EAST => Cell { or_east: v, ..self },
        }
    }

    /// Whether no robot occupies this cell.
    pub open spec fn empty_spec(self) -> bool {
        self.present is None
    }

    /// Whether no robot occupies this cell.
    pub fn empty(&self) -> (r: bool)
        ensures
            r == self.empty_spec(),
    {
        self.present.is_none()
    }

    /// A cell is traversable when at least one orientation admits a robot.
    pub open spec fn traversable_spec(self) -> bool {
        self.or_north.robot_allowed || self.or_south.robot_allowed || self.or_west.robot_allowed
            || self.or_east.robot_allowed
    }

    /// Whether at least one orientation admits a robot.
    pub fn traversable(&self) -> (r: bool)
        ensures
            r == self.traversable_spec(),
    {
        self.or_north.robot_allowed || self.or_south.robot_allowed || self.or_west.robot_allowed
            || self.or_east.robot_allowed
    }

    /// Whether a robot may occupy this cell facing the given orientation.
    pub fn is_allowed(&self, orientation: Orientations) -> (r: bool)
        ensures
            r == self.or_for_spec(orientation).robot_allowed,
    {
        self.or_for(orientation).robot_allowed
    }

    /// The same cell with occupancy granted for the given orientation.
    pub fn set_allowed(self, orientation: Orientations) -> (r: Self)
        ensures
            r == self.set_allowed_spec(orientation),
            r.or_for_spec(orientation) == (CellOr {
                robot_allowed: true,
                ..self.or_for_spec(orientation)
            }),
            forall|o2: Orientations|
                o2 != orientation ==> r.or_for_spec(o2) == self.or_for_spec(o2),
            r.traversable_spec(),
            r.present == self.present,
            r.is_parking == self.is_parking,
            r.is_charging == self.is_charging,
            r.color == self.color,
            r.block == self.block,
    {
        let or = self.or_for(orientation);
        let r = self.with_or(orientation, CellOr { robot_allowed: true, ..or });
        r
    }

    /// The same cell with occupancy revoked for the given orientation.
    pub fn set_unallowed(self, orientation: Orientations) -> (r: Self)
        ensures
            r.or_for_spec(orientation) == (CellOr {
                robot_allowed: false,
                ..self.or_for_spec(orientation)
            }),
            forall|o2: Orientations|
                o2 != orientation ==> r.or_for_spec(o2) == self.or_for_spec(o2),
            r.present == self.present,
            r.is_parking == self.is_parking,
            r.is_charging == self.is_charging,
            r.color == self.color,
            r.block == self.block,
    {
        let or = self.or_for(orientation);
        self.with_or(orientation, CellOr { robot_allowed: false, ..or })
    }

    /// A blank terrain cell: unoccupied, no orientation admitted, no parking.
    pub fn new() -> (r: Self)
        ensures
            r.present is None,
            !r.is_parking,
            !r.is_charging,
            r.block is None,
            forall|o: Orientations| !r.or_for_spec(o).robot_allowed,
            forall|o: Orientations, a: Actions|
                r.or_for_spec(o).action_allowed_spec(a) == (a != Actions::Backward),
            !r.traversable_spec(),
    {
        let or = CellOr::default();
        Cell {
            present: None,
            or_north: or,
            or_south: or,
            or_west: or,
            or_east: or,
            is_parking: false,
            is_charging: false,
            color: Rgb { red: 0, green: 40, blue: 0 },
            block: None,
        }
    }

    /// A uniformly chosen orientation among those that admit a robot here.
    pub fn random_direction(&self, rng: &mut rand::rngs::ThreadRng) -> (r: Orientations)
        requires
            self.traversable_spec(),
        ensures
            self.or_for_spec(r).robot_allowed,
    {
        let mut options: Vec<Orientations> = Vec::new();
        if self.or_north.robot_allowed {
            options.push(Orientations::NORTH);
        }
        if self.or_south.robot_allowed {
            options.push(Orientations::SOUTH);
        }
        if self.or_west.robot_allowed {
            options.push(Orientations::WEST);
        }
        if self.or_east.robot_allowed {
            options.push(Orientations::EAST);
        }
        assert(options@.len() > 0);
        assert(forall|i: int|
            0 <= i < options@.len() ==> self.or_for_spec(#[trigger] options@[i]).robot_allowed);
        let i = rand_below(rng, options.len());
        options[i]
    }
}

} // verus!
