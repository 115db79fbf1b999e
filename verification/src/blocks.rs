//! Composable map blocks and the block map that stitches them into one grid.
//!
//! A block is a small grid with roads drawn along its border, optionally
//! with parking cells along the inner ring. A block map arranges blocks in a
//! rectangle and stitches them into one large grid, recording in each cell
//! the block it came from.

use vstd::prelude::*;

use crate::cell::{Cell, CellOr};
use crate::coords::{Actions, Coords, Orientations, Size, XY, XYCell, NUM_ORIENTATIONS};
use crate::grid::Grid;
use crate::rng::rand_below;

verus! {

/// What a block is used for; provenance metadata only.
#[derive(Debug, Copy, Clone, PartialEq, Eq, Structural)]
pub enum BlockType {
    Empty,
    Residential,
    Business,
}

/// A block: a small grid together with its type.
pub struct Block {
    pub block_type: BlockType,
    pub grid: Grid,
}

/// A block's grid is well-formed, matches the expected size, and holds no
/// robot.
pub open spec fn block_wf(b: Block, block_size: Size) -> bool {
    &&& b.grid.wf()
    &&& b.grid.size == block_size
    &&& forall|xy: XYCell|
        b.grid.in_bounds(xy) ==> (#[trigger] b.grid.cell_at(xy)).empty_spec()
}

impl Block {
    /// A block from parts.
    pub fn new(block_type: BlockType, grid: Grid) -> (r: Self)
        ensures
            r.block_type == block_type,
            r.grid == grid,
    {
        Block { block_type, grid }
    }

    /// A blank block of the given size.
    pub fn empty(size: Size) -> (r: Self)
        requires
            size.x >= 0,
            size.y >= 0,
        ensures
            block_wf(r, size),
            r.block_type == BlockType::Empty,
    {
        let grid = Grid::new(size);
        Block { block_type: BlockType::Empty, grid }
    }

    /// A residential block with a one-way road ring along its border:
    /// northbound up the west edge, eastbound along the north edge,
    /// southbound down the east edge, westbound along the south edge. At one
    /// randomly chosen corner, left turns are forbidden.
    #[verifier::loop_isolation(false)]
    pub fn basic_with_roads(size: Size, rng: &mut rand::rngs::ThreadRng) -> (r: Self)
        requires
            size.x >= 1,
            size.y >= 1,
        ensures
            block_wf(r, size),
            r.block_type == BlockType::Residential,
    {
        let mut grid = Grid::new(size);
        grid.draw_west(0, 0, size.x);
        grid.draw_east(size.y - 1, 0, size.x);
        grid.draw_north(0, 0, size.y);
        grid.draw_south(size.x - 1, 0, size.y);
        let corner = rand_below(rng, 4);
        let xy = match corner {
            0 => XY { x: 0, y: 0 },
            1 => XY { x: 0, y: size.y - 1 },
            2 => XY { x: size.x - 1, y: size.y - 1 },
            _ => XY { x: size.x - 1, y: 0 },
        };
        let mut cell = grid.get_cell(&xy);
        let mut i: usize = 0;
        while i < NUM_ORIENTATIONS
            invariant
                cell.present == grid.cell_at(xy).present,
            decreases NUM_ORIENTATIONS - i,
        {
            let o = Orientations::from_index(i);
            let or = cell.or_for(o);
            cell = cell.with_or(o, CellOr { allow_turn_left: false, ..or });
            i = i + 1;
        }
        grid.replace_cell(&xy, cell);
        Block { block_type: BlockType::Residential, grid }
    }

    /// A residential block with parking cells spaced along the inner ring,
    /// each facing away from the adjacent road so a robot backs out of the
    /// spot onto the road.
    #[verifier::loop_isolation(false)]
    pub fn with_parking(size: Size, parking_distance: i16, rng: &mut rand::rngs::ThreadRng) -> (r:
        Self)
        requires
            size.x >= 2,
            size.y >= 2,
            parking_distance >= 1,
        ensures
            block_wf(r, size),
            r.block_type == BlockType::Residential,
    {
        let mut basic = Self::basic_with_roads(size, rng);
        let buffer_on_corners: i32 = 2;
        let mut x: i16 = 0;
        while x < size.x
            invariant
                0 <= x <= size.x,
                block_wf(basic, size),
                basic.block_type == BlockType::Residential,
            decreases size.x - x,
        {
            if x % parking_distance == 0 && (x as i32) > buffer_on_corners && (x as i32) < (size.x
                as i32) - (parking_distance as i32) - buffer_on_corners {
                let cpark = Coords::from(XY::new(x, 1), Orientations::NORTH);
                basic.grid.make_parking_cell(&cpark);
                let cpark = Coords::from(XY::new(x, size.y - 2), Orientations::SOUTH);
                basic.grid.make_parking_cell(&cpark);
            }
            x = x + 1;
        }
        let mut y: i16 = 0;
        while y < size.y
            invariant
                0 <= y <= size.y,
                block_wf(basic, size),
                basic.block_type == BlockType::Residential,
            decreases size.y - y,
        {
            if y % parking_distance == 0 && (y as i32) > buffer_on_corners && (y as i32) < (size.y
                as i32) - (parking_distance as i32) - buffer_on_corners {
                let cpark = Coords::from(XY::new(1, y), Orientations::EAST);
                basic.grid.make_parking_cell(&cpark);
                let cpark = Coords::from(XY::new(size.x - 2, y), Orientations::WEST);
                basic.grid.make_parking_cell(&cpark);
            }
            y = y + 1;
        }
        basic
    }
}

/// A rectangle of blocks, all of one size, to be stitched into one grid.
pub struct BlockMap {
    pub size: Size,
    pub block_size: Size,
    pub blocks: Vec<Vec<Block>>,
}

impl BlockMap {
    /// Well-formedness: the block array matches the size and every block is
    /// well-formed at the common block size.
    pub open spec fn wf(self) -> bool {
        &&& self.size.x >= 0 && self.size.y >= 0
        &&& self.block_size.x >= 0 && self.block_size.y >= 0
        &&& self.blocks@.len() == self.size.x
        &&& forall|i: int|
            0 <= i < self.blocks@.len() ==> (#[trigger] self.blocks@[i])@.len() == self.size.y
        &&& forall|i: int, j: int|
            0 <= i < self.blocks@.len() && 0 <= j < self.size.y ==> block_wf(
                #[trigger] self.blocks@[i]@[j],
                self.block_size,
            )
    }

    /// A block map filled with blank blocks.
    #[verifier::loop_isolation(false)]
    pub fn new(size: Size, block_size: Size) -> (r: Self)
        requires
            size.x >= 0,
            size.y >= 0,
            block_size.x >= 0,
            block_size.y >= 0,
        ensures
            r.wf(),
            r.size == size,
            r.block_size == block_size,
    {
        let mut blocks: Vec<Vec<Block>> = Vec::new();
        let mut x: i16 = 0;
        while x < size.x
            invariant
                0 <= x <= size.x,
                blocks@.len() == x,
                forall|i: int| 0 <= i < blocks@.len() ==> (#[trigger] blocks@[i])@.len() == size.y,
                forall|i: int, j: int|
                    0 <= i < blocks@.len() && 0 <= j < size.y ==> block_wf(
                        #[trigger] blocks@[i]@[j],
                        block_size,
                    ),
            decreases size.x - x,
        {
            let mut row: Vec<Block> = Vec::new();
            let mut y: i16 = 0;
            while y < size.y
                invariant
                    0 <= y <= size.y,
                    row@.len() == y,
                    forall|j: int| 0 <= j < row@.len() ==> block_wf(#[trigger] row@[j], block_size),
                decreases size.y - y,
            {
                row.push(Block::empty(block_size));
                y = y + 1;
            }
            blocks.push(row);
            x = x + 1;
        }
        BlockMap { size, block_size, blocks }
    }

    /// Replace one block. A position off the map or a block of the wrong
    /// size is a caller bug, excluded by precondition.
    pub fn set_block(&mut self, xy: XY, block: Block)
        requires
            old(self).wf(),
            0 <= xy.x < old(self).size.x,
            0 <= xy.y < old(self).size.y,
            block_wf(block, old(self).block_size),
        ensures
            final(self).wf(),
            final(self).size == old(self).size,
            final(self).block_size == old(self).block_size,
            final(self).blocks@[xy.x as int]@[xy.y as int] == block,
    {
        let x = xy.x as usize;
        let y = xy.y as usize;
        self.blocks[x][y] = block;
    }

    /// Stitch the blocks into one large grid: each block's cells are copied
    /// to its offset in the large grid, tagged with the block's position.
    #[verifier::loop_isolation(false)]
    pub fn stitch(&self) -> (r: Grid)
        requires
            self.wf(),
            self.size.x * self.block_size.x <= i16::MAX,
            self.size.y * self.block_size.y <= i16::MAX,
        ensures
            r.wf(),
            r.size.x == self.size.x * self.block_size.x,
            r.size.y == self.size.y * self.block_size.y,
            forall|xy: XYCell| r.in_bounds(xy) ==> (#[trigger] r.cell_at(xy)).empty_spec(),
    {
        proof {
            assert(self.size.x * self.block_size.x >= 0) by (nonlinear_arith)
                requires
                    self.size.x >= 0,
                    self.block_size.x >= 0,
            ;
            assert(self.size.y * self.block_size.y >= 0) by (nonlinear_arith)
                requires
                    self.size.y >= 0,
                    self.block_size.y >= 0,
            ;
        }
        let bigsize = XY::new(self.size.x * self.block_size.x, self.size.y * self.block_size.y);
        let mut grid = Grid::new(bigsize);
        let mut x: i16 = 0;
        while x < self.size.x
            invariant
                0 <= x <= self.size.x,
                grid.wf(),
                grid.size == bigsize,
                bigsize.x == self.size.x * self.block_size.x,
                bigsize.y == self.size.y * self.block_size.y,
                forall|xy: XYCell|
                    grid.in_bounds(xy) ==> (#[trigger] grid.cell_at(xy)).empty_spec(),
            decreases self.size.x - x,
        {
            let mut y: i16 = 0;
            while y < self.size.y
                invariant
                    0 <= x < self.size.x,
                    0 <= y <= self.size.y,
                    grid.wf(),
                    grid.size == bigsize,
                    bigsize.x == self.size.x * self.block_size.x,
                    bigsize.y == self.size.y * self.block_size.y,
                    forall|xy: XYCell|
                        grid.in_bounds(xy) ==> (#[trigger] grid.cell_at(xy)).empty_spec(),
                decreases self.size.y - y,
            {
                let block = &self.blocks[x as usize][y as usize];
                proof {
                    assert(0 <= x * self.block_size.x && (x + 1) * self.block_size.x <= bigsize.x
                        && 0 <= y * self.block_size.y && (y + 1) * self.block_size.y <= bigsize.y
                        && x * self.block_size.x + self.block_size.x == (x + 1)
                        * self.block_size.x && y * self.block_size.y + self.block_size.y == (y + 1)
                        * self.block_size.y && x * self.block_size.x <= bigsize.x && y
                        * self.block_size.y <= bigsize.y) by (nonlinear_arith)
                        requires
                            0 <= x < self.size.x,
                            0 <= y < self.size.y,
                            self.block_size.x >= 0,
                            self.block_size.y >= 0,
                            bigsize.x == self.size.x * self.block_size.x,
                            bigsize.y == self.size.y * self.block_size.y,
                    ;
                    assert(block_wf(self.blocks@[x as int]@[y as int], self.block_size));
                }
                let blockxy = XY::new(x * self.block_size.x, y * self.block_size.y);
                let cells = block.grid.iterate_cells();
                let mut k: usize = 0;
                while k < cells.len()
                    invariant
                        0 <= x < self.size.x,
                        0 <= y < self.size.y,
                        k <= cells@.len(),
                        grid.wf(),
                        grid.size == bigsize,
                        blockxy.x == x * self.block_size.x,
                        blockxy.y == y * self.block_size.y,
                        0 <= blockxy.x,
                        0 <= blockxy.y,
                        blockxy.x + self.block_size.x <= bigsize.x,
                        blockxy.y + self.block_size.y <= bigsize.y,
                        forall|k2: int|
                            0 <= k2 < cells@.len() ==> self.block_size.in_bounds_spec(
                                (#[trigger] cells@[k2]).0,
                            ) && cells@[k2].1.empty_spec(),
                        forall|xy: XYCell|
                            grid.in_bounds(xy) ==> (#[trigger] grid.cell_at(xy)).empty_spec(),
                    decreases cells@.len() - k,
                {
                    let (cxy, cc) = cells[k];
                    let mut cc2 = cc;
                    cc2.block = Some(XY::new(x, y));
                    let new_xy = XY::new(blockxy.x + cxy.x, blockxy.y + cxy.y);
                    grid.replace_cell(&new_xy, cc2);
                    k = k + 1;
                }
                y = y + 1;
            }
            x = x + 1;
        }
        grid
    }
}

} // verus!
