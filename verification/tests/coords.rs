use dpg::coords::{
    next_coords, simulate, Actions, Coords, Orientations, XY, NUM_ORIENTATIONS,
};

#[test]
pub fn test_1() {
    let c1 = Coords {
        xy: XY { x: 0, y: 0 },
        orientation: Orientations::NORTH,
    };
    let c2 = next_coords(&c1, Actions::TurnRight);
    println!("c1: {:?} c2 {:?}", c1, c2);
}

#[test]
pub fn test_2() {
    let initial = Orientations::NORTH;
    let mut orientation = initial;
    for i in 0..NUM_ORIENTATIONS {
        let next_orientation = orientation.rotate_right();
        println!("{}: RIGHT {:?} -> {:?}", i, orientation, next_orientation);
        let orientation2 = next_orientation.rotate_left();
        assert_eq!(orientation2, orientation);
        orientation = next_orientation;
    }
    assert_eq!(initial, orientation);
}

#[test]
fn transition_round_trip_every_action() {
    let p = Coords {
        xy: XY { x: 5, y: 7 },
        orientation: Orientations::EAST,
    };
    for a in [
        Actions::Wait,
        Actions::Forward,
        Actions::TurnLeft,
        Actions::TurnRight,
        Actions::Backward,
    ] {
        let q = next_coords(&p, a);
        assert_eq!(Actions::from_pair(&p, &q), Some(a));
    }
}

#[test]
fn from_pair_none_for_distant_poses() {
    let p = Coords {
        xy: XY { x: 0, y: 0 },
        orientation: Orientations::NORTH,
    };
    let q = Coords {
        xy: XY { x: 3, y: 3 },
        orientation: Orientations::NORTH,
    };
    assert_eq!(Actions::from_pair(&p, &q), None);
}

#[test]
fn transition_moves_as_documented() {
    let p = Coords {
        xy: XY { x: 2, y: 2 },
        orientation: Orientations::NORTH,
    };
    assert_eq!(next_coords(&p, Actions::Forward).xy, XY { x: 2, y: 3 });
    assert_eq!(next_coords(&p, Actions::Backward).xy, XY { x: 2, y: 1 });
    assert_eq!(next_coords(&p, Actions::Wait), p);
    assert_eq!(
        next_coords(&p, Actions::TurnLeft).orientation,
        Orientations::WEST
    );
    assert_eq!(
        next_coords(&p, Actions::TurnRight).orientation,
        Orientations::EAST
    );
}

#[test]
fn angles_and_indices() {
    assert_eq!(Orientations::EAST.angle(), 0);
    assert_eq!(Orientations::NORTH.angle(), 90);
    assert_eq!(Orientations::from_angle(450), Orientations::NORTH);
    assert_eq!(Orientations::from_index(2), Orientations::WEST);
    assert_eq!(Actions::from_index(4), Actions::Backward);
    assert_eq!(Orientations::SOUTH.vector(), XY { x: 0, y: -1 });
}

#[test]
fn simulate_traces_poses() {
    let c0 = Coords {
        xy: XY { x: 0, y: 0 },
        orientation: Orientations::EAST,
    };
    let actions = vec![Actions::Forward, Actions::Forward, Actions::TurnLeft];
    let trace = simulate(c0, &actions);
    assert_eq!(trace.len(), 4);
    assert_eq!(trace[0], c0);
    assert_eq!(trace[2].xy, XY { x: 2, y: 0 });
    assert_eq!(trace[3].orientation, Orientations::NORTH);
}

#[test]
fn iterate_xy_orders_column_major() {
    let size = XY { x: 2, y: 3 };
    let cells = size.iterate_xy();
    assert_eq!(cells.len(), 6);
    assert_eq!(cells[0], XY { x: 0, y: 0 });
    assert_eq!(cells[1], XY { x: 0, y: 1 });
    assert_eq!(cells[3], XY { x: 1, y: 0 });
    let interior = XY { x: 4, y: 4 }.iterate_xy_interior();
    assert_eq!(interior.len(), 4);
    let pairs = size.iterate();
    assert_eq!(pairs[4], (1, 1));
}
