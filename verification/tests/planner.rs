use dpg::coords::{Coords, Orientations, XY};
use dpg::grid::Grid;
use dpg::planner::{Objectives, PlanResult, SimpleAgent, SimpleAgentStates};
use dpg::rng::RNG;
use dpg::world::World;

fn straight_road_world() -> World {
    let mut grid = Grid::new(XY { x: 6, y: 2 });
    grid.draw_east(0, 0, 6);
    World::new(grid)
}

#[test]
fn dist_is_truncated_euclidean() {
    let a = Coords {
        xy: XY { x: 0, y: 0 },
        orientation: Orientations::NORTH,
    };
    let b = Coords {
        xy: XY { x: 3, y: 4 },
        orientation: Orientations::NORTH,
    };
    assert_eq!(a.dist(&b), 5);
    assert_eq!(a.dist(&a), 0);
    let c = Coords {
        xy: XY { x: 1, y: 1 },
        orientation: Orientations::NORTH,
    };
    assert_eq!(a.dist(&c), 1);
}

#[test]
fn replan_finds_path_from_start_to_goal() {
    let world = straight_road_world();
    let start = Coords {
        xy: XY { x: 0, y: 0 },
        orientation: Orientations::EAST,
    };
    let goal = Coords {
        xy: XY { x: 4, y: 0 },
        orientation: Orientations::EAST,
    };
    let mut agent = SimpleAgent {
        objectives: Objectives { home: start, work: goal },
        state: SimpleAgentStates::TRAVELING_TO_WORK,
        plan: None,
    };
    agent.replan(&start, &world, goal);
    match &agent.plan {
        Some(PlanResult::Success(path)) => {
            assert_eq!(path[0], start);
            assert_eq!(*path.last().unwrap(), goal);
            assert_eq!(path.len(), 5);
        }
        _ => panic!("expected a successful plan"),
    }
}

#[test]
fn unreachable_goal_yields_failure_and_waits() {
    let world = straight_road_world();
    let start = Coords {
        xy: XY { x: 0, y: 0 },
        orientation: Orientations::EAST,
    };
    // Row 1 is terrain: no pose there is valid, so the goal is unreachable.
    let goal = Coords {
        xy: XY { x: 3, y: 1 },
        orientation: Orientations::EAST,
    };
    let mut agent = SimpleAgent {
        objectives: Objectives { home: start, work: goal },
        state: SimpleAgentStates::TRAVELING_TO_WORK,
        plan: None,
    };
    agent.replan(&start, &world, goal);
    assert!(matches!(agent.plan, Some(PlanResult::Failure)));
    let robot = dpg::world::Robot {
        coords: start,
        color: dpg::cell::Rgb { red: 0, green: 0, blue: 0 },
    };
    let horizon = agent.update(0, &robot, &world, 5);
    assert_eq!(horizon.len(), 5);
    assert!(horizon.iter().all(|a| *a == dpg::coords::Actions::Wait));
}

#[test]
fn replanner_reaches_goal_in_shortest_path_ticks() {
    // A lone agent with a reachable objective covers it in exactly the
    // number of ticks of the shortest path found by the search.
    let mut world = straight_road_world();
    let start = Coords {
        xy: XY { x: 0, y: 0 },
        orientation: Orientations::EAST,
    };
    let goal = Coords {
        xy: XY { x: 4, y: 0 },
        orientation: Orientations::EAST,
    };
    let name = world.place_robot(start);
    let mut agent = SimpleAgent {
        objectives: Objectives { home: start, work: goal },
        state: SimpleAgentStates::TRAVELING_TO_WORK,
        plan: None,
    };
    let mut rng = RNG::default();
    let shortest = 4;
    for _tick in 0..shortest {
        let robot = world.robots[name];
        let proposal = agent.update(name, &robot, &world, 3);
        let proposals = vec![proposal];
        world.step_robots(&proposals, &mut rng);
    }
    assert_eq!(world.robots[name].coords, goal);
    // On arrival the state machine flips to the other objective.
    let robot = world.robots[name];
    agent.update(name, &robot, &world, 3);
    assert!(matches!(agent.state, SimpleAgentStates::TRAVELING_TO_HOME));
}
