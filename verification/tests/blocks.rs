use dpg::blocks::{Block, BlockMap};
use dpg::coords::{Size, XY};
use dpg::rng::RNG;

#[test]
fn creation() {
    let map_size = Size::new(16, 24);
    let block_size = Size::new(32, 10);
    let mut bl = BlockMap::new(map_size, block_size);
    let mut rng = RNG::default();
    for p in map_size.iterate_xy() {
        bl.set_block(p, Block::basic_with_roads(block_size, &mut rng));
    }
    let g = bl.stitch();
    assert_eq!(g.size, XY { x: 512, y: 240 });
}

#[test]
fn parking_blocks_have_parking_cells() {
    let mut rng = RNG::default();
    let block = Block::with_parking(Size::new(16, 16), 1, &mut rng);
    let mut nparkings = 0;
    for (_, cell) in block.grid.iterate_cells() {
        if cell.is_parking {
            nparkings += 1;
        }
    }
    assert!(nparkings > 0);
}

#[test]
fn roads_ring_the_block() {
    let mut rng = RNG::default();
    let block = Block::basic_with_roads(Size::new(8, 8), &mut rng);
    let west_edge = block.grid.get_cell(&XY { x: 0, y: 3 });
    assert!(west_edge.traversable());
    let center = block.grid.get_cell(&XY { x: 4, y: 4 });
    assert!(!center.traversable());
}
