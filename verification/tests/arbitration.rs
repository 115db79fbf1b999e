use dpg::arbitration::{
    find_feasible_plans, get_permutations, le, leq, max_n_where_permutation_less_than, vec_eq,
    ArbAgent, ArbSetup,
};
use dpg::coords::{Actions, Coords, Orientations, XYCell};
use dpg::rng::RNG;
use rand::seq::SliceRandom;

const F: Actions = Actions::Forward;

fn get_e(ord: usize, nsteps: usize) -> ArbAgent {
    ArbAgent {
        coord: Coords::from(XYCell::new(1 + (ord as i16), 0), Orientations::WEST),
        plan: vec![F; nsteps],
    }
}

fn get_n(ord: usize, nsteps: usize) -> ArbAgent {
    ArbAgent {
        coord: Coords::from(XYCell::new(-1 - (ord as i16), 1), Orientations::SOUTH),
        plan: vec![F; nsteps],
    }
}

fn get_w(ord: usize, nsteps: usize) -> ArbAgent {
    ArbAgent {
        coord: Coords::from(XYCell::new(-2 + (ord as i16), -1), Orientations::EAST),
        plan: vec![F; nsteps],
    }
}

fn get_s(ord: usize, nsteps: usize) -> ArbAgent {
    ArbAgent {
        coord: Coords::from(XYCell::new(0, -2 - (ord as i16)), Orientations::NORTH),
        plan: vec![F; nsteps],
    }
}

#[test]
fn test_arb1() {
    let h = 3;
    let e1 = get_e(0, h);
    let n1 = get_n(0, h);
    let w1 = get_w(0, h);
    let s1 = get_s(0, h);
    let agents = vec![e1, n1, w1, s1];
    let setup = ArbSetup { agents };
    let result = find_feasible_plans(&setup, 0);
    println!("result = {:?}", result.solutions.iter().map(|e| &e.0).collect::<Vec<_>>());
    let result_min = result.remove_redundant(&mut RNG::default());
    assert_eq!(result.solutions.len(), 6);
    assert_eq!(result_min.solutions.len(), 6);
    // Four outcomes where one agent goes first and the others queue behind
    // it, plus the two criss-cross outcomes where opposite agents pass while
    // the other pair waits out the crossing.
    let mut keys: Vec<Vec<usize>> = result.solutions.iter().map(|e| e.0.clone()).collect();
    keys.sort();
    assert_eq!(
        keys,
        vec![
            vec![0, 3, 0, 3],
            vec![0, 3, 2, 1],
            vec![1, 0, 3, 2],
            vec![2, 1, 0, 3],
            vec![3, 0, 3, 0],
            vec![3, 2, 1, 0],
        ]
    );
}

#[test]
fn test_arb2() {
    // Ten agents with parallel, non-intersecting eastbound plans, shuffled
    // into a random starting order: the capped order search converges to
    // exactly one non-dominated cost vector, the all-zero one.
    let rng = &mut RNG::default();
    let n = 10;
    let h = 3;
    let mut agents: Vec<ArbAgent> = (0..n)
        .map(|i| ArbAgent {
            coord: Coords::from(XYCell::new(0, i as i16), Orientations::EAST),
            plan: vec![F; h],
        })
        .collect();
    agents.shuffle(rng);
    let setup = ArbSetup { agents };
    let result = find_feasible_plans(&setup, 1000);
    assert_eq!(result.solutions.len(), 1);
    assert_eq!(result.solutions[0].0, vec![0usize; n]);
    println!("result = {:?}", result.solutions.iter().map(|e| &e.0).collect::<Vec<_>>());
}

#[test]
fn convoy_waits_scale_with_position() {
    // A convoy of followers behind one leader: processed front to back, each
    // trailing agent absorbs one more wait than the agent ahead of it.
    let n = 10;
    let agents: Vec<ArbAgent> = (0..n).map(|i| get_e(i, 3)).collect();
    let setup = ArbSetup { agents };
    let result = find_feasible_plans(&setup, 1000);
    assert_eq!(result.solutions.len(), 1);
    let expected: Vec<usize> = (0..n).collect();
    assert_eq!(result.solutions[0].0, expected);
}

#[test]
fn frontier_is_pairwise_non_dominated() {
    let h = 3;
    let agents = vec![get_e(0, h), get_n(0, h), get_w(0, h), get_s(0, h)];
    let setup = ArbSetup { agents };
    let result = find_feasible_plans(&setup, 0);
    for i in 0..result.solutions.len() {
        for j in 0..result.solutions.len() {
            if i != j {
                assert!(!le(&result.solutions[i].0, &result.solutions[j].0));
            }
        }
    }
}

#[test]
fn pick_one_returns_a_frontier_solution() {
    let h = 3;
    let agents = vec![get_e(0, h), get_n(0, h)];
    let setup = ArbSetup { agents };
    let result = find_feasible_plans(&setup, 0);
    assert!(result.solutions.len() >= 1);
    let sol = result.pick_one(&mut RNG::default());
    let found = result
        .solutions
        .iter()
        .any(|entry| vec_eq(&entry.0, &sol.costs));
    assert!(found);
}

#[test]
fn pareto_comparisons() {
    let a = vec![0usize, 1, 2];
    let b = vec![0usize, 2, 2];
    assert!(leq(&a, &b));
    assert!(le(&a, &b));
    assert!(!le(&b, &a));
    assert!(!le(&a, &a));
    assert!(vec_eq(&a, &a));
    assert!(!vec_eq(&a, &b));
}

#[test]
fn permutation_prefix_bounds() {
    assert_eq!(max_n_where_permutation_less_than(0), 0);
    assert_eq!(max_n_where_permutation_less_than(1), 0);
    assert_eq!(max_n_where_permutation_less_than(2), 1);
    assert_eq!(max_n_where_permutation_less_than(7), 3);
    assert_eq!(max_n_where_permutation_less_than(1000), 6);
}

#[test]
fn permutations_exhaustive_and_capped() {
    let all = get_permutations(3, 0);
    assert_eq!(all.len(), 6);
    for p in &all {
        let mut seen = [false; 3];
        for &v in p {
            assert!(v < 3);
            assert!(!seen[v]);
            seen[v] = true;
        }
    }
    let capped = get_permutations(10, 1000);
    assert_eq!(capped.len(), 720);
    for p in &capped {
        assert_eq!(p.len(), 10);
        for t in 6..10 {
            assert_eq!(p[t], t);
        }
    }
}
