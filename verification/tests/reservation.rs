use dpg::coords::{Actions, Coords, Orientations, XY};
use dpg::reservation::{
    are_resources_available, get_resources_needed, is_action_feasible, mark_occupied,
    occupied_by_someone_else, ResourceTable,
};

#[test]
fn mark_occupied_is_idempotent() {
    let mut table = ResourceTable::new();
    let xy = XY { x: 3, y: 4 };
    mark_occupied(&mut table, 2, &xy, 7);
    assert_eq!(table.len(), 1);
    mark_occupied(&mut table, 2, &xy, 7);
    assert_eq!(table.len(), 1);
    assert!(!occupied_by_someone_else(&table, 2, &xy, 7));
    assert!(occupied_by_someone_else(&table, 2, &xy, 8));
    assert!(!occupied_by_someone_else(&table, 3, &xy, 8));
}

#[test]
fn footprint_claims_three_resources() {
    let coord = Coords {
        xy: XY { x: 0, y: 0 },
        orientation: Orientations::EAST,
    };
    let needed = get_resources_needed(0, &coord, Actions::Forward, 1);
    assert_eq!(needed.len(), 3);
    let waiting = get_resources_needed(0, &coord, Actions::Wait, 1);
    assert_eq!(waiting.len(), 2);
}

#[test]
fn availability_and_feasibility() {
    let coord = Coords {
        xy: XY { x: 0, y: 0 },
        orientation: Orientations::EAST,
    };
    let mut committed = ResourceTable::new();
    let needed = get_resources_needed(0, &coord, Actions::Forward, 1);
    assert!(are_resources_available(&committed, &needed));
    // Another agent claims the destination cell at the same tick.
    mark_occupied(&mut committed, 0, &XY { x: 1, y: 0 }, 9);
    assert!(!are_resources_available(&committed, &needed));
    assert!(is_action_feasible(&committed, 1, &coord, 0, Actions::Forward).is_none());
    // The same agent owning the key keeps the action feasible.
    let mut own = ResourceTable::new();
    mark_occupied(&mut own, 0, &XY { x: 1, y: 0 }, 1);
    let committed2 = is_action_feasible(&own, 1, &coord, 0, Actions::Forward);
    assert!(committed2.is_some());
    let (c2, t2) = committed2.unwrap();
    assert_eq!(c2.xy, XY { x: 1, y: 0 });
    assert_eq!(t2.len(), 3);
}
