use dpg::coords::XY;
use dpg::sampling::SetSampler;

#[test]
fn sampler_tracks_membership() {
    let mut s = SetSampler::new();
    assert!(s.is_empty());
    assert_eq!(s.get_random(), None);
    let a = XY { x: 1, y: 2 };
    let b = XY { x: 3, y: 4 };
    s.insert(a);
    s.insert(b);
    assert!(!s.is_empty());
    let got = s.get_random().unwrap();
    assert!(got == a || got == b);
    s.remove(a);
    assert_eq!(s.get_random(), Some(b));
    let popped = s.pop_random().unwrap();
    assert_eq!(popped, b);
    assert!(s.is_empty());
}

#[test]
fn single_allowed_direction_is_always_chosen() {
    let mut rng = dpg::rng::RNG::default();
    let cell = dpg::cell::Cell::new().set_allowed(dpg::coords::Orientations::SOUTH);
    for _ in 0..8 {
        assert_eq!(
            cell.random_direction(&mut rng),
            dpg::coords::Orientations::SOUTH
        );
    }
}
