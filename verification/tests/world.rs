use dpg::cell::Cell;
use dpg::coords::{Actions, Coords, Orientations, XY};
use dpg::grid::Grid;
use dpg::rng::RNG;
use dpg::world::World;

fn road_world() -> World {
    // A single eastbound road along row 0 of a 6 x 3 grid.
    let mut grid = Grid::new(XY { x: 6, y: 3 });
    grid.draw_east(0, 0, 6);
    World::new(grid)
}

#[test]
fn place_and_move_robot() {
    let mut world = road_world();
    let start = Coords {
        xy: XY { x: 0, y: 0 },
        orientation: Orientations::EAST,
    };
    let name = world.place_robot(start);
    assert_eq!(name, 0);
    assert_eq!(world.robots[0].coords, start);
    let dest = Coords {
        xy: XY { x: 1, y: 0 },
        orientation: Orientations::EAST,
    };
    world.move_robot(0, dest);
    assert_eq!(world.robots[0].coords, dest);
    let src_cell: Cell = world.grid.get_cell(&XY { x: 0, y: 0 });
    assert!(src_cell.present.is_none());
    let dst_cell: Cell = world.grid.get_cell(&XY { x: 1, y: 0 });
    assert_eq!(dst_cell.present, Some(0));
}

#[test]
fn allowed_actions_on_a_road() {
    let world = road_world();
    let pose = Coords {
        xy: XY { x: 2, y: 0 },
        orientation: Orientations::EAST,
    };
    let actions = world.allowed_robot_actions_if_empty(&pose);
    assert!(actions.contains(&Actions::Wait));
    assert!(actions.contains(&Actions::Forward));
    assert!(!actions.contains(&Actions::Backward));
    assert!(!actions.contains(&Actions::TurnLeft));
    let succs = world.successors(&pose);
    assert!(succs.contains(&pose));
    assert!(succs.contains(&Coords {
        xy: XY { x: 3, y: 0 },
        orientation: Orientations::EAST,
    }));
}

#[test]
fn step_commits_first_actions_without_collisions() {
    let mut world = road_world();
    let a = world.place_robot(Coords {
        xy: XY { x: 0, y: 0 },
        orientation: Orientations::EAST,
    });
    let b = world.place_robot(Coords {
        xy: XY { x: 1, y: 0 },
        orientation: Orientations::EAST,
    });
    let mut rng = RNG::default();
    // Both propose to advance; the follower may be blocked for one tick if
    // committed before the leader, but no two robots ever share a cell.
    for _ in 0..4 {
        let proposals = vec![vec![Actions::Forward; 2], vec![Actions::Forward; 2]];
        let components = world.step_robots(&proposals, &mut rng);
        let total: usize = components.iter().map(|c| c.len()).sum();
        assert_eq!(total, 2);
        assert_ne!(world.robots[a].coords.xy, world.robots[b].coords.xy);
    }
}

#[test]
fn random_placement_lands_on_vacant_road() {
    let mut world = road_world();
    assert!(world.grid.has_vacant_traversable());
    let mut rng = RNG::default();
    let name = world.place_random_robot(&mut rng);
    let pose = world.robots[name].coords;
    let cell = world.grid.get_cell(&pose.xy);
    assert_eq!(cell.present, Some(name));
    assert!(cell.is_allowed(pose.orientation));
}

#[test]
fn vacancy_count_tracks_occupancy() {
    let mut world = road_world();
    assert_eq!(world.grid.num_vacant_cells(), 6);
    world.place_robot(Coords {
        xy: XY { x: 0, y: 0 },
        orientation: Orientations::EAST,
    });
    assert_eq!(world.grid.num_vacant_cells(), 5);
}
