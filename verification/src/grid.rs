//! The grid: cell storage plus three samplable cell sets.
//!
//! Beside the two-dimensional cell array the grid maintains three sets for
//! constant-time random sampling: all traversable cells, the vacant
//! traversable cells, and the vacant parking cells. Every mutation keeps each
//! set equal to the set of cells that satisfy its defining predicate; callers
//! never update the sets directly.

use vstd::prelude::*;

use crate::cell::{Cell, CellOr, Rgb};
use crate::coords::{coords_step_safe, next_coords, Actions, Coords, Orientations, Size, XY, XYCell};
use crate::sampling::SetSampler;

verus! {

/// The color cells are painted when a road is drawn over them.
pub open spec fn color_road_spec() -> Rgb {
    Rgb { red: 0, green: 0, blue: 0 }
}

/// The color of parking cells.
pub open spec fn color_parking_spec() -> Rgb {
    Rgb { red: 0, green: 120, blue: 120 }
}

/// A `size.x` by `size.y` array of blank cells.
#[verifier::loop_isolation(false)]
pub fn blank_grid(size: Size) -> (r: Vec<Vec<Cell>>)
    requires
        size.x >= 0,
        size.y >= 0,
    ensures
        r@.len() == size.x,
        forall|i: int| 0 <= i < r@.len() ==> (#[trigger] r@[i])@.len() == size.y,
        forall|i: int, j: int|
            0 <= i < r@.len() && 0 <= j < size.y ==> {
                let c = #[trigger] r@[i]@[j];
                !c.traversable_spec() && !c.is_parking && c.empty_spec()
            },
{
    let mut grid: Vec<Vec<Cell>> = Vec::new();
    let mut x: i16 = 0;
    while x < size.x
        invariant
            0 <= x <= size.x,
            grid@.len() == x,
            forall|i: int| 0 <= i < grid@.len() ==> (#[trigger] grid@[i])@.len() == size.y,
            forall|i: int, j: int|
                0 <= i < grid@.len() && 0 <= j < size.y ==> {
                    let c = #[trigger] grid@[i]@[j];
                    !c.traversable_spec() && !c.is_parking && c.empty_spec()
                },
        decreases size.x - x,
    {
        let mut row: Vec<Cell> = Vec::new();
        let mut y: i16 = 0;
        while y < size.y
            invariant
                0 <= y <= size.y,
                row@.len() == y,
                forall|j: int|
                    0 <= j < row@.len() ==> {
                        let c = #[trigger] row@[j];
                        !c.traversable_spec() && !c.is_parking && c.empty_spec()
                    },
            decreases size.y - y,
        {
            row.push(Cell::new());
            y = y + 1;
        }
        grid.push(row);
        x = x + 1;
    }
    grid
}

/// The grid: cells plus the three incrementally maintained samplable sets.
pub struct Grid {
    pub size: Size,
    pub cells: Vec<Vec<Cell>>,
    pub traversable_cells: SetSampler,
    pub empty_parking_cells: SetSampler,
    pub empty_traversable_cells: SetSampler,
}

impl Grid {
    /// The cell at the given coordinate.
    pub open spec fn cell_at(self, xy: XYCell) -> Cell {
        self.cells@[xy.x as int]@[xy.y as int]
    }

    /// Whether the coordinate lies on the grid.
    pub open spec fn in_bounds(self, xy: XYCell) -> bool {
        self.size.in_bounds_spec(xy)
    }

    /// The set of traversable cells.
    pub open spec fn traversable_set(self) -> Set<XYCell> {
        Set::new(|xy: XYCell| self.in_bounds(xy) && self.cell_at(xy).traversable_spec())
    }

    /// The set of vacant traversable cells.
    pub open spec fn empty_traversable_set(self) -> Set<XYCell> {
        Set::new(
            |xy: XYCell|
                self.in_bounds(xy) && self.cell_at(xy).traversable_spec() && self.cell_at(
                    xy,
                ).empty_spec(),
        )
    }

    /// The set of vacant parking cells.
    pub open spec fn empty_parking_set(self) -> Set<XYCell> {
        Set::new(
            |xy: XYCell|
                self.in_bounds(xy) && self.cell_at(xy).is_parking && self.cell_at(xy).empty_spec(),
        )
    }

    /// Well-formedness: the cell array matches the size, and each samplable
    /// set holds exactly the cells that satisfy its predicate.
    pub open spec fn wf(self) -> bool {
        &&& self.size.x >= 0 && self.size.y >= 0
        &&& self.cells@.len() == self.size.x
        &&& forall|i: int|
            0 <= i < self.cells@.len() ==> (#[trigger] self.cells@[i])@.len() == self.size.y
        &&& self.traversable_cells.contents() == self.traversable_set()
        &&& self.empty_traversable_cells.contents() == self.empty_traversable_set()
        &&& self.empty_parking_cells.contents() == self.empty_parking_set()
    }

    /// A blank grid of the given size.
    pub fn new(size: Size) -> (r: Self)
        requires
            size.x >= 0,
            size.y >= 0,
        ensures
            r.wf(),
            r.size == size,
            forall|xy: XYCell|
                r.in_bounds(xy) ==> !(#[trigger] r.cell_at(xy)).traversable_spec() && !r.cell_at(
                    xy,
                ).is_parking && r.cell_at(xy).empty_spec(),
    {
        let cells = blank_grid(size);
        let r = Grid {
            size,
            cells,
            traversable_cells: SetSampler::new(),
            empty_parking_cells: SetSampler::new(),
            empty_traversable_cells: SetSampler::new(),
        };
        proof {
            assert(r.traversable_set() =~= Set::<XYCell>::empty());
            assert(r.empty_traversable_set() =~= Set::<XYCell>::empty());
            assert(r.empty_parking_set() =~= Set::<XYCell>::empty());
        }
        r
    }

    /// The cell at the given coordinate; reading outside the grid is a
    /// caller bug, excluded by precondition.
    pub fn get_cell(&self, xy: &XYCell) -> (r: Cell)
        requires
            self.wf(),
            self.in_bounds(*xy),
        ensures
            r == self.cell_at(*xy),
    {
        self.cells[xy.x as usize][xy.y as usize]
    }

    /// Replace one cell and repair the three samplable sets around it.
    pub fn replace_cell(&mut self, xy: &XYCell, cell: Cell)
        requires
            old(self).wf(),
            old(self).in_bounds(*xy),
        ensures
            final(self).wf(),
            final(self).size == old(self).size,
            final(self).cell_at(*xy) == cell,
            forall|xy2: XYCell|
                old(self).in_bounds(xy2) && xy2 != *xy ==> final(self).cell_at(xy2) == old(
                    self,
                ).cell_at(xy2),
    {
        self.cells[xy.x as usize][xy.y as usize] = cell;
        let traversable = cell.traversable();
        let vacant = cell.empty();
        if traversable {
            self.traversable_cells.insert(*xy);
        } else {
            self.traversable_cells.remove(*xy);
        }
        if traversable && vacant {
            self.empty_traversable_cells.insert(*xy);
        } else {
            self.empty_traversable_cells.remove(*xy);
        }
        if cell.is_parking && vacant {
            self.empty_parking_cells.insert(*xy);
        } else {
            self.empty_parking_cells.remove(*xy);
        }
        proof {
            assert forall|xy2: XYCell|
                old(self).in_bounds(xy2) && xy2 != *xy implies final(self).cell_at(xy2) == old(
                self,
            ).cell_at(xy2) by {}
            if traversable {
                assert(self.traversable_set() =~= old(self).traversable_set().insert(*xy));
            } else {
                assert(self.traversable_set() =~= old(self).traversable_set().remove(*xy));
            }
            if traversable && vacant {
                assert(self.empty_traversable_set() =~= old(self).empty_traversable_set().insert(
                    *xy,
                ));
            } else {
                assert(self.empty_traversable_set() =~= old(self).empty_traversable_set().remove(
                    *xy,
                ));
            }
            if cell.is_parking && vacant {
                assert(self.empty_parking_set() =~= old(self).empty_parking_set().insert(*xy));
            } else {
                assert(self.empty_parking_set() =~= old(self).empty_parking_set().remove(*xy));
            }
        }
    }

    /// Grant occupancy of the pose's cell facing the pose's orientation.
    pub fn set_valid(&mut self, c: &Coords)
        requires
            old(self).wf(),
            old(self).in_bounds(c.xy),
        ensures
            final(self).wf(),
            final(self).size == old(self).size,
            final(self).cell_at(c.xy).or_for_spec(c.orientation) == (CellOr {
                robot_allowed: true,
                ..old(self).cell_at(c.xy).or_for_spec(c.orientation)
            }),
            forall|o2: Orientations|
                o2 != c.orientation ==> final(self).cell_at(c.xy).or_for_spec(o2) == old(
                    self,
                ).cell_at(c.xy).or_for_spec(o2),
            final(self).cell_at(c.xy).present == old(self).cell_at(c.xy).present,
            final(self).cell_at(c.xy).is_parking == old(self).cell_at(c.xy).is_parking,
            forall|xy2: XYCell|
                old(self).in_bounds(xy2) && xy2 != c.xy ==> final(self).cell_at(xy2) == old(
                    self,
                ).cell_at(xy2),
    {
        let cell = self.get_cell(&c.xy);
        self.replace_cell(&c.xy, cell.set_allowed(c.orientation));
    }

    /// Paint one cell as road and grant occupancy for one orientation.
    fn add_road_cell(&mut self, xy: XYCell, direction: Orientations)
        requires
            old(self).wf(),
            old(self).in_bounds(xy),
        ensures
            final(self).wf(),
            final(self).size == old(self).size,
            final(self).cell_at(xy) == (Cell {
                color: color_road_spec(),
                ..old(self).cell_at(xy)
            }).set_allowed_spec(direction),
            final(self).cell_at(xy).or_for_spec(direction).robot_allowed,
            final(self).cell_at(xy).color == color_road_spec(),
            final(self).cell_at(xy).present == old(self).cell_at(xy).present,
            final(self).cell_at(xy).is_parking == old(self).cell_at(xy).is_parking,
            forall|xy2: XYCell|
                old(self).in_bounds(xy2) && xy2 != xy ==> final(self).cell_at(xy2) == old(
                    self,
                ).cell_at(xy2),
    {
        let cell = self.get_cell(&xy);
        let painted = Cell { color: Rgb { red: 0, green: 0, blue: 0 }, ..cell };
        self.replace_cell(&xy, painted.set_allowed(direction));
    }

    /// Draw a northbound road: the cells `(x, y0) .. (x, y1)` become road
    /// cells that robots may occupy facing north.
    pub fn draw_north(&mut self, x: i16, y0: i16, y1: i16)
        requires
            old(self).wf(),
            y0 <= y1,
            0 <= x < old(self).size.x,
            0 <= y0,
            y1 <= old(self).size.y,
        ensures
            final(self).wf(),
            final(self).size == old(self).size,
            forall|y: i16|
                y0 <= y < y1 ==> #[trigger] final(self).cell_at(XY { x, y }) == (Cell {
                    color: color_road_spec(),
                    ..old(self).cell_at(XY { x, y })
                }).set_allowed_spec(Orientations::NORTH),
            forall|xy2: XYCell|
                old(self).in_bounds(xy2) && !(xy2.x == x && y0 <= xy2.y < y1)
                    ==> final(self).cell_at(xy2) == old(self).cell_at(xy2),
    {
        let mut y = y0;
        while y < y1
            invariant
                y0 <= y <= y1,
                self.wf(),
                self.size == old(self).size,
                0 <= x < self.size.x,
                0 <= y0,
                y1 <= self.size.y,
                forall|yy: i16|
                    y0 <= yy < y ==> #[trigger] self.cell_at(XY { x, y: yy }) == (Cell {
                        color: color_road_spec(),
                        ..old(self).cell_at(XY { x, y: yy })
                    }).set_allowed_spec(Orientations::NORTH),
                forall|xy2: XYCell|
                    old(self).in_bounds(xy2) && !(xy2.x == x && y0 <= xy2.y < y) ==> self.cell_at(
                        xy2,
                    ) == old(self).cell_at(xy2),
            decreases y1 - y,
        {
            self.add_road_cell(XY { x, y }, Orientations::NORTH);
            y = y + 1;
        }
    }

    /// Draw a southbound road: the cells `(x, y0) .. (x, y1)` become road
    /// cells that robots may occupy facing south.
    pub fn draw_south(&mut self, x: i16, y0: i16, y1: i16)
        requires
            old(self).wf(),
            y0 <= y1,
            0 <= x < old(self).size.x,
            0 <= y0,
            y1 <= old(self).size.y,
        ensures
            final(self).wf(),
            final(self).size == old(self).size,
            forall|y: i16|
                y0 <= y < y1 ==> #[trigger] final(self).cell_at(XY { x, y }) == (Cell {
                    color: color_road_spec(),
                    ..old(self).cell_at(XY { x, y })
                }).set_allowed_spec(Orientations::SOUTH),
            forall|xy2: XYCell|
                old(self).in_bounds(xy2) && !(xy2.x == x && y0 <= xy2.y < y1)
                    ==> final(self).cell_at(xy2) == old(self).cell_at(xy2),
    {
        let mut y = y0;
        while y < y1
            invariant
                y0 <= y <= y1,
                self.wf(),
                self.size == old(self).size,
                0 <= x < self.size.x,
                0 <= y0,
                y1 <= self.size.y,
                forall|yy: i16|
                    y0 <= yy < y ==> #[trigger] self.cell_at(XY { x, y: yy }) == (Cell {
                        color: color_road_spec(),
                        ..old(self).cell_at(XY { x, y: yy })
                    }).set_allowed_spec(Orientations::SOUTH),
                forall|xy2: XYCell|
                    old(self).in_bounds(xy2) && !(xy2.x == x && y0 <= xy2.y < y) ==> self.cell_at(
                        xy2,
                    ) == old(self).cell_at(xy2),
            decreases y1 - y,
        {
            self.add_road_cell(XY { x, y }, Orientations::SOUTH);
            y = y + 1;
        }
    }

    /// Draw an eastbound road: the cells `(x0, y) .. (x1, y)` become road
    /// cells that robots may occupy facing east.
    pub fn draw_east(&mut self, y: i16, x0: i16, x1: i16)
        requires
            old(self).wf(),
            x0 <= x1,
            0 <= y < old(self).size.y,
            0 <= x0,
            x1 <= old(self).size.x,
        ensures
            final(self).wf(),
            final(self).size == old(self).size,
            forall|x: i16|
                x0 <= x < x1 ==> #[trigger] final(self).cell_at(XY { x, y }) == (Cell {
                    color: color_road_spec(),
                    ..old(self).cell_at(XY { x, y })
                }).set_allowed_spec(Orientations::EAST),
            forall|xy2: XYCell|
                old(self).in_bounds(xy2) && !(xy2.y == y && x0 <= xy2.x < x1)
                    ==> final(self).cell_at(xy2) == old(self).cell_at(xy2),
    {
        let mut x = x0;
        while x < x1
            invariant
                x0 <= x <= x1,
                self.wf(),
                self.size == old(self).size,
                0 <= y < self.size.y,
                0 <= x0,
                x1 <= self.size.x,
                forall|xx: i16|
                    x0 <= xx < x ==> #[trigger] self.cell_at(XY { x: xx, y }) == (Cell {
                        color: color_road_spec(),
                        ..old(self).cell_at(XY { x: xx, y })
                    }).set_allowed_spec(Orientations::EAST),
                forall|xy2: XYCell|
                    old(self).in_bounds(xy2) && !(xy2.y == y && x0 <= xy2.x < x) ==> self.cell_at(
                        xy2,
                    ) == old(self).cell_at(xy2),
            decreases x1 - x,
        {
            self.add_road_cell(XY { x, y }, Orientations::EAST);
            x = x + 1;
        }
    }

    /// Draw a westbound road: the cells `(x0, y) .. (x1, y)` become road
    /// cells that robots may occupy facing west.
    pub fn draw_west(&mut self, y: i16, x0: i16, x1: i16)
        requires
            old(self).wf(),
            x0 <= x1,
            0 <= y < old(self).size.y,
            0 <= x0,
            x1 <= old(self).size.x,
        ensures
            final(self).wf(),
            final(self).size == old(self).size,
            forall|x: i16|
                x0 <= x < x1 ==> #[trigger] final(self).cell_at(XY { x, y }) == (Cell {
                    color: color_road_spec(),
                    ..old(self).cell_at(XY { x, y })
                }).set_allowed_spec(Orientations::WEST),
            forall|xy2: XYCell|
                old(self).in_bounds(xy2) && !(xy2.y == y && x0 <= xy2.x < x1)
                    ==> final(self).cell_at(xy2) == old(self).cell_at(xy2),
    {
        let mut x = x0;
        while x < x1
            invariant
                x0 <= x <= x1,
                self.wf(),
                self.size == old(self).size,
                0 <= y < self.size.y,
                0 <= x0,
                x1 <= self.size.x,
                forall|xx: i16|
                    x0 <= xx < x ==> #[trigger] self.cell_at(XY { x: xx, y }) == (Cell {
                        color: color_road_spec(),
                        ..old(self).cell_at(XY { x: xx, y })
                    }).set_allowed_spec(Orientations::WEST),
                forall|xy2: XYCell|
                    old(self).in_bounds(xy2) && !(xy2.y == y && x0 <= xy2.x < x) ==> self.cell_at(
                        xy2,
                    ) == old(self).cell_at(xy2),
            decreases x1 - x,
        {
            self.add_road_cell(XY { x, y }, Orientations::WEST);
            x = x + 1;
        }
    }

    /// Turn the pose's cell into a fresh parking cell that admits the pose's
    /// orientation and allows backing out, and grant the cell one step behind
    /// the pose occupancy in the pose's orientation, so a robot can reverse
    /// out of the spot into traffic facing the right way.
    pub fn make_parking_cell(&mut self, coords: &Coords)
        requires
            old(self).wf(),
            old(self).in_bounds(coords.xy),
            old(self).in_bounds(
                crate::coords::next_coords_spec(*coords, Actions::Backward).xy,
            ),
        ensures
            final(self).wf(),
            final(self).size == old(self).size,
            final(self).cell_at(coords.xy).is_parking,
            final(self).cell_at(coords.xy).empty_spec(),
            final(self).cell_at(coords.xy).or_for_spec(coords.orientation).robot_allowed,
            final(self).cell_at(coords.xy).or_for_spec(coords.orientation).allow_backward,
            final(self).cell_at(
                crate::coords::next_coords_spec(*coords, Actions::Backward).xy,
            ).or_for_spec(coords.orientation).robot_allowed,
            final(self).cell_at(
                crate::coords::next_coords_spec(*coords, Actions::Backward).xy,
            ).present == old(self).cell_at(
                crate::coords::next_coords_spec(*coords, Actions::Backward).xy,
            ).present,
            forall|xy2: XYCell|
                old(self).in_bounds(xy2) && xy2 != coords.xy && xy2
                    != crate::coords::next_coords_spec(*coords, Actions::Backward).xy
                    ==> final(self).cell_at(xy2) == old(self).cell_at(xy2),
    {
        proof {
            assert(coords_step_safe(*coords));
        }
        let mut cell = Cell::new();
        cell.color = Rgb { red: 0, green: 120, blue: 120 };
        cell.is_parking = true;
        let cell = cell.set_allowed(coords.orientation);
        let or = cell.or_for(coords.orientation);
        let cell = cell.with_or(coords.orientation, CellOr { allow_backward: true, ..or });
        self.replace_cell(&coords.xy, cell);
        self.set_valid(coords);
        let previous = next_coords(coords, Actions::Backward);
        self.set_valid(&previous);
    }

    /// The number of vacant traversable cells, by a full scan.
    pub fn num_vacant_cells(&self) -> (r: usize)
        requires
            self.wf(),
        ensures
            r == count_vacant(self.cells@, self.size.x as int, self.size.y as int),
    {
        let mut count: usize = 0;
        let mut x: i16 = 0;
        while x < self.size.x
            invariant
                self.wf(),
                0 <= x <= self.size.x,
                count == count_vacant(self.cells@, x as int, self.size.y as int),
                count <= x * self.size.y,
            decreases self.size.x - x,
        {
            let mut y: i16 = 0;
            proof {
                lemma_count_vacant_col_bound(self.cells@[x as int]@, 0);
            }
            while y < self.size.y
                invariant
                    self.wf(),
                    0 <= x < self.size.x,
                    0 <= y <= self.size.y,
                    count == count_vacant(self.cells@, x as int, self.size.y as int)
                        + count_vacant_col(self.cells@[x as int]@, y as int),
                    count <= x * self.size.y + y,
                decreases self.size.y - y,
            {
                let cell = self.get_cell(&XY { x, y });
                proof {
                    assert(cell == self.cells@[x as int]@[y as int]);
                    assert(x * self.size.y + y + 1 <= i16::MAX * i16::MAX) by (nonlinear_arith)
                        requires
                            0 <= x < i16::MAX,
                            0 <= y < self.size.y <= i16::MAX,
                    ;
                }
                if cell.traversable() && cell.empty() {
                    count = count + 1;
                }
                y = y + 1;
            }
            proof {
                assert((x + 1) * self.size.y == x * self.size.y + self.size.y) by (nonlinear_arith);
            }
            x = x + 1;
        }
        count
    }

    /// Whether some traversable cell is vacant.
    pub fn has_vacant_traversable(&self) -> (r: bool)
        requires
            self.wf(),
        ensures
            r == (self.empty_traversable_set() != Set::<XYCell>::empty()),
    {
        !self.empty_traversable_cells.is_empty()
    }

    /// Whether some parking cell is vacant.
    pub fn has_vacant_parking(&self) -> (r: bool)
        requires
            self.wf(),
        ensures
            r == (self.empty_parking_set() != Set::<XYCell>::empty()),
    {
        !self.empty_parking_cells.is_empty()
    }

    /// A pose on a vacant traversable cell, facing an orientation that cell
    /// admits; the cell is drawn from the vacant-traversable sampler and the
    /// orientation uniformly among the admitted ones. Calling this with no
    /// vacant traversable cell is a caller bug, excluded by precondition.
    pub fn random_available_coords(&self, rng: &mut rand::rngs::ThreadRng) -> (r: Coords)
        requires
            self.wf(),
            self.empty_traversable_set() != Set::<XYCell>::empty(),
        ensures
            self.in_bounds(r.xy),
            self.cell_at(r.xy).traversable_spec(),
            self.cell_at(r.xy).empty_spec(),
            self.cell_at(r.xy).or_for_spec(r.orientation).robot_allowed,
    {
        let got = self.empty_traversable_cells.get_random();
        match got {
            Some(xy) => {
                proof {
                    assert(self.empty_traversable_set().contains(xy));
                }
                let cell = self.get_cell(&xy);
                let orientation = cell.random_direction(rng);
                Coords { xy, orientation }
            },
            None => {
                proof {
                    assert(false);
                }
                Coords { xy: XY { x: 0, y: 0 }, orientation: Orientations::NORTH }
            },
        }
    }

    /// A pose on a vacant parking cell that is also traversable, facing an
    /// orientation that cell admits. Calling this with no vacant traversable
    /// parking cell is a caller bug, excluded by precondition.
    pub fn random_available_parking(&self, rng: &mut rand::rngs::ThreadRng) -> (r: Coords)
        requires
            self.wf(),
            self.empty_parking_set() != Set::<XYCell>::empty(),
            forall|xy: XYCell|
                #[trigger] self.empty_parking_set().contains(xy) ==> self.cell_at(
                    xy,
                ).traversable_spec(),
        ensures
            self.in_bounds(r.xy),
            self.cell_at(r.xy).is_parking,
            self.cell_at(r.xy).empty_spec(),
            self.cell_at(r.xy).or_for_spec(r.orientation).robot_allowed,
    {
        let got = self.empty_parking_cells.get_random();
        match got {
            Some(xy) => {
                proof {
                    assert(self.empty_parking_set().contains(xy));
                }
                let cell = self.get_cell(&xy);
                let orientation = cell.random_direction(rng);
                Coords { xy, orientation }
            },
            None => {
                proof {
                    assert(false);
                }
                Coords { xy: XY { x: 0, y: 0 }, orientation: Orientations::NORTH }
            },
        }
    }

    /// Every coordinate of the grid paired with its cell, in column-major
    /// order.
    pub fn iterate_cells(&self) -> (r: Vec<(XYCell, Cell)>)
        requires
            self.wf(),
        ensures
            r@.len() == self.size.x * self.size.y,
            forall|k: int|
                0 <= k < r@.len() ==> {
                    let xy = (#[trigger] r@[k]).0;
                    self.in_bounds(xy) && r@[k].1 == self.cell_at(xy) && xy == (XY {
                        x: (k / (self.size.y as int)) as i16,
                        y: (k % (self.size.y as int)) as i16,
                    })
                },
    {
        let pairs = self.size.iterate_xy();
        proof {
            assert forall|k: int| 0 <= k < pairs@.len() implies self.in_bounds(
                #[trigger] pairs@[k],
            ) by {
                assert(pairs@.len() == self.size.x * self.size.y);
                let sy = self.size.y as int;
                let sx = self.size.x as int;
                if sy == 0 {
                    assert(sx * sy == 0) by (nonlinear_arith)
                        requires
                            sy == 0,
                    ;
                }
                assert(0 <= k / sy < sx && 0 <= k % sy < sy) by (nonlinear_arith)
                    requires
                        0 <= k < sx * sy,
                        sy > 0,
                ;
            }
        }
        let mut r: Vec<(XYCell, Cell)> = Vec::new();
        let mut i: usize = 0;
        while i < pairs.len()
            invariant
                self.wf(),
                i <= pairs@.len(),
                r@.len() == i,
                pairs@.len() == self.size.x * self.size.y,
                forall|k: int|
                    0 <= k < pairs@.len() ==> #[trigger] pairs@[k] == (XY {
                        x: (k / (self.size.y as int)) as i16,
                        y: (k % (self.size.y as int)) as i16,
                    }),
                forall|k: int|
                    0 <= k < pairs@.len() ==> self.in_bounds(#[trigger] pairs@[k]),
                forall|k: int|
                    0 <= k < i ==> #[trigger] r@[k] == (pairs@[k], self.cell_at(pairs@[k])),
            decreases pairs@.len() - i,
        {
            let xy = pairs[i];
            let cell = self.get_cell(&xy);
            r.push((xy, cell));
            i = i + 1;
        }
        r
    }
}

/// The number of vacant traversable cells among the first `j` cells of one
/// column.
pub open spec fn count_vacant_col(col: Seq<Cell>, j: int) -> int
    decreases j,
{
    if j <= 0 {
        0
    } else {
        count_vacant_col(col, j - 1) + if col[j - 1].traversable_spec() && col[
            j - 1
        ].empty_spec() {
            1int
        } else {
            0int
        }
    }
}

/// The number of vacant traversable cells in the first `i` columns.
pub open spec fn count_vacant(cells: Seq<Vec<Cell>>, i: int, sy: int) -> int
    decreases i,
{
    if i <= 0 {
        0
    } else {
        count_vacant(cells, i - 1, sy) + count_vacant_col(cells[i - 1]@, sy)
    }
}

/// A column's vacant count over `j` cells is at most `j`.
pub proof fn lemma_count_vacant_col_bound(col: Seq<Cell>, j: int)
    ensures
        count_vacant_col(col, j) <= if j <= 0 {
            0int
        } else {
            j
        },
        count_vacant_col(col, j) >= 0,
    decreases j,
{
    if j > 0 {
        lemma_count_vacant_col_bound(col, j - 1);
    }
}

} // verus!
