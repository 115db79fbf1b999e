//! Sequential arbitration and Pareto order search.
//!
//! Given a visiting order of agents and each agent's desired action plan,
//! the arbitration walks each plan in order, reserving the resources of every
//! action and substituting `Wait` whenever the desired move's resources are
//! claimed by another agent. The order search enumerates visiting orders,
//! scores each feasible one by its per-agent wait-cost vector, and keeps the
//! non-dominated frontier of cost vectors.

use vstd::prelude::*;

use crate::coords::{
    coords_step_safe, next_coords_spec, pose_at, sim_safe, Actions, Coords, RobotName,
};
use crate::reservation::{
    is_action_feasible, lemma_entries_in_map, lemma_map_of_domain, lemma_max_key_time,
    lemma_max_key_time_le, map_of, mark_occupied, max_key_time, needed_keys_spec,
    occupied_by_other_spec, occupied_by_someone_else, ResourceKey, ResourceTable,
};
use crate::rng::rand_below;
use itertools::Itertools;
use rand::rngs::ThreadRng;

verus! {

/// An ordered sequence of actions for one agent, consumed front to back.
pub type Plan = Vec<Actions>;

/// The wait-cost of one agent in a committed solution.
pub type Cost = usize;

/// Per-agent costs in agent-index order, compared by the Pareto order.
pub type Costs = Vec<usize>;

/// One agent as the arbitration sees it: a starting pose and a desired plan.
#[derive(Debug)]
pub struct ArbAgent {
    pub coord: Coords,
    pub plan: Vec<Actions>,
}

/// A fixed set of agents to arbitrate.
#[derive(Debug)]
pub struct ArbSetup {
    pub agents: Vec<ArbAgent>,
}

/// A sub-game extracted from a larger population: an arbitration setup plus
/// the original identity of each participating agent.
#[derive(Debug)]
pub struct ExtractedGame {
    pub setup: ArbSetup,
    pub index2name: Vec<RobotName>,
}

/// One agent's outcome in a committed solution: the committed plan (desired
/// actions with waits spliced in) and the count of inserted waits.
#[derive(Debug)]
pub struct RobotResult {
    pub plan: Plan,
    pub cost: Cost,
}

/// A committed conflict-free solution for one visiting order.
#[derive(Debug)]
pub struct ArbSolution {
    /// The visiting order that produced this solution.
    pub perm: Vec<usize>,
    /// Per-agent wait-costs, in agent-index order.
    pub costs: Costs,
    /// Per-agent committed plans, in agent-index order.
    pub robots: Vec<RobotResult>,
}

/// The non-dominated frontier: each entry maps one cost vector to all the
/// solutions achieving exactly that vector.
#[derive(Debug)]
pub struct ArbResult {
    pub solutions: Vec<(Costs, Vec<ArbSolution>)>,
}

/// Componentwise comparison of two cost vectors of equal length.
pub open spec fn leq_spec(a: Seq<usize>, b: Seq<usize>) -> bool {
    a.len() == b.len() && forall|i: int| 0 <= i < a.len() ==> a[i] <= b[i]
}

/// `a` dominates `b`: no worse in every component and strictly better in one.
pub open spec fn le_spec(a: Seq<usize>, b: Seq<usize>) -> bool {
    leq_spec(a, b) && a != b
}

/// Whether every component of `a` is at most the matching component of `b`.
/// The two vectors must have the same length: costs are only comparable
/// within one agent population.
pub fn leq(a: &Vec<usize>, b: &Vec<usize>) -> (r: bool)
    requires
        a@.len() == b@.len(),
    ensures
        r == leq_spec(a@, b@),
{
    let n = a.len();
    let mut i: usize = 0;
    while i < n
        invariant
            i <= n,
            n == a@.len() == b@.len(),
            forall|j: int| 0 <= j < i ==> a@[j] <= b@[j],
        decreases n - i,
    {
        if !(a[i] <= b[i]) {
            return false;
        }
        i = i + 1;
    }
    true
}

/// Whether the two vectors hold the same components.
pub fn vec_eq(a: &Vec<usize>, b: &Vec<usize>) -> (r: bool)
    ensures
        r == (a@ == b@),
{
    if a.len() != b.len() {
        proof {
            assert(a@ != b@);
        }
        return false;
    }
    let n = a.len();
    let mut i: usize = 0;
    while i < n
        invariant
            i <= n,
            n == a@.len() == b@.len(),
            forall|j: int| 0 <= j < i ==> a@[j] == b@[j],
        decreases n - i,
    {
        if a[i] != b[i] {
            proof {
                assert(a@[i as int] != b@[i as int]);
            }
            return false;
        }
        i = i + 1;
    }
    proof {
        assert(a@ =~= b@);
    }
    true
}

/// Pareto domination: componentwise no worse and not equal.
pub fn le(a: &Vec<usize>, b: &Vec<usize>) -> (r: bool)
    requires
        a@.len() == b@.len(),
    ensures
        r == le_spec(a@, b@),
{
    leq(a, b) && !vec_eq(a, b)
}

/// The factorial of `n`.
pub open spec fn fact(n: nat) -> nat
    decreases n,
{
    if n == 0 {
        1
    } else {
        n * fact((n - 1) as nat)
    }
}

/// The factorial is positive and strictly increasing from 1 upward.
pub proof fn lemma_fact_increases(a: nat, b: nat)
    requires
        a <= b,
    ensures
        fact(a) <= fact(b),
        fact(a) >= 1,
    decreases b,
{
    if a < b {
        lemma_fact_increases(a, (b - 1) as nat);
        assert(fact(b) == b * fact((b - 1) as nat));
        assert(b * fact((b - 1) as nat) >= 1 * fact((b - 1) as nat)) by (nonlinear_arith)
            requires
                b >= 1,
                fact((b - 1) as nat) >= 1,
        ;
    } else if a == 0 {
    } else {
        lemma_fact_increases((a - 1) as nat, (b - 1) as nat);
        assert(fact(a) == a * fact((a - 1) as nat));
        assert(a * fact((a - 1) as nat) >= 1 * fact((a - 1) as nat)) by (nonlinear_arith)
            requires
                a >= 1,
                fact((a - 1) as nat) >= 1,
        ;
    }
}

/// Unfolding the factorial one step at a time shows that `21!` no longer
/// fits in 64 bits.
proof fn lemma_fact_21_large()
    ensures
        fact(21) > 0xFFFF_FFFF_FFFF_FFFFu64,
{
    assert(fact(0) == 1);
    assert(fact(1) == 1);
    assert(fact(2) == 2);
    assert(fact(3) == 6);
    assert(fact(4) == 24);
    assert(fact(5) == 120);
    assert(fact(6) == 720);
    assert(fact(7) == 5040);
    assert(fact(8) == 40320);
    assert(fact(9) == 362880);
    assert(fact(10) == 3628800);
    assert(fact(11) == 39916800);
    assert(fact(12) == 479001600);
    assert(fact(13) == 6227020800);
    assert(fact(14) == 87178291200);
    assert(fact(15) == 1307674368000);
    assert(fact(16) == 20922789888000);
    assert(fact(17) == 355687428096000);
    assert(fact(18) == 6402373705728000);
    assert(fact(19) == 121645100408832000);
    assert(fact(20) == 2432902008176640000);
    assert(fact(21) == 51090942171709440000);
}

/// `n0` is the cap prefix for `max`: the largest length whose factorial is
/// strictly below `max`, and `0` when there is none (`max <= 1`).
pub open spec fn is_cap(n0: nat, max: nat) -> bool {
    &&& fact(n0 + 1) >= max
    &&& n0 > 0 ==> fact(n0) < max
    &&& n0 <= 20
}

/// The cap prefix for `max`; one value satisfies `is_cap` for each `max` a
/// machine can hold.
pub open spec fn cap_of(max: nat) -> nat {
    choose|n0: nat| is_cap(n0, max)
}

/// At most one length satisfies `is_cap` for a given `max`.
pub proof fn lemma_cap_unique(a: nat, b: nat, max: nat)
    requires
        is_cap(a, max),
        is_cap(b, max),
    ensures
        a == b,
{
    if a < b {
        lemma_fact_increases(a + 1, b);
        assert(fact(b) >= max);
        if b > 0 {
            assert(fact(b) < max);
        }
        assert(false);
    }
    if b < a {
        lemma_fact_increases(b + 1, a);
        assert(fact(a) >= max);
        if a > 0 {
            assert(fact(a) < max);
        }
        assert(false);
    }
}

/// The largest `n` whose factorial is strictly below `max`, and `0` when
/// there is none (`max <= 1`): exactly the cap prefix for `max`.
pub fn max_n_where_permutation_less_than(max: usize) -> (r: usize)
    ensures
        fact((r + 1) as nat) >= max,
        r > 0 ==> fact(r as nat) < max,
        r <= 20,
        r == cap_of(max as nat),
{
    proof {
        lemma_fact_21_large();
        assert(fact(0) == 1);
        assert(fact(1) == 1);
    }
    let mut n: usize = 1;
    let mut f: u128 = 1;
    while f < max as u128
        invariant
            1 <= n <= 21,
            f == fact(n as nat),
            n > 1 ==> fact((n - 1) as nat) < max,
            fact(21) > 0xFFFF_FFFF_FFFF_FFFFu64,
            max <= 0xFFFF_FFFF_FFFF_FFFFu64,
        decreases (if f < max as u128 { max as u128 - f } else { 0 }),
    {
        proof {
            lemma_fact_increases(1, n as nat);
            if n >= 21 {
                lemma_fact_increases(21, n as nat);
                assert(false);
            }
            assert(f * ((n + 1) as u128) == ((n + 1) as nat) * fact(n as nat)) by (nonlinear_arith)
                requires
                    f == fact(n as nat),
                    1 <= n <= 20,
            ;
            assert(fact((n + 1) as nat) == ((n + 1) as nat) * fact(n as nat));
            assert(f * ((n + 1) as u128) >= f + f) by (nonlinear_arith)
                requires
                    f >= 1,
                    n >= 1,
            ;
            assert(f < 0x1_0000_0000_0000_0000u128);
            assert(f * ((n + 1) as u128) < 0x1_0000_0000_0000_0000u128 * 32) by (nonlinear_arith)
                requires
                    f < 0x1_0000_0000_0000_0000u128,
                    1 <= n <= 20,
            ;
        }
        let ghost f_old = f;
        n = n + 1;
        f = f * (n as u128);
        proof {
            assert(f >= f_old + 1) by (nonlinear_arith)
                requires
                    f == f_old * n,
                    n >= 2,
                    f_old >= 1,
            ;
        }
    }
    let r = n - 1;
    proof {
        assert(is_cap(r as nat, max as nat));
        assert(is_cap(cap_of(max as nat), max as nat));
        lemma_cap_unique(r as nat, cap_of(max as nat), max as nat);
    }
    r
}

/// A permutation of `0..n`: each value below `n` occurs exactly once.
pub open spec fn is_perm_of(p: Seq<usize>, n: nat) -> bool {
    &&& p.len() == n
    &&& forall|i: int| 0 <= i < p.len() ==> p[i] < n
    &&& forall|v: usize| v < n ==> p.contains(v)
    &&& forall|i: int, j: int| 0 <= i < j < p.len() ==> p[i] != p[j]
}

/// Relies on itertools' `permutations` over `0..n` with `k == n`: it yields
/// every ordering of the `n` distinct input values exactly once, `n!` of
/// them, so every permutation of `0..n` occurs in the output.
#[verifier::external_body]
fn all_permutations(n: usize) -> (r: Vec<Vec<usize>>)
    requires
        n <= 20,
    ensures
        r@.len() == fact(n as nat),
        forall|i: int| 0 <= i < r@.len() ==> is_perm_of((#[trigger] r@[i])@, n as nat),
        forall|i: int, j: int| 0 <= i < j < r@.len() ==> (#[trigger] r@[i])@ != (#[trigger] r@[j])@,
        forall|p: Seq<usize>|
            #[trigger] is_perm_of(p, n as nat) ==> exists|i: int|
                0 <= i < r@.len() && (#[trigger] r@[i])@ == p,
{
    (0..n).permutations(n).collect()
}

/// Whether the bounded order search over `n` agents capped at `max` tries
/// the visiting order `p`: every permutation when `max` is `0` or small
/// factorials allow, and otherwise every permutation of the largest prefix
/// `0..n0` with `n0! < max`, completed by the remaining agents in identity
/// order.
pub open spec fn order_tried(n: nat, max: nat, p: Seq<usize>) -> bool {
    if max == 0 || n <= cap_of(max) {
        is_perm_of(p, n)
    } else {
        let n0 = cap_of(max);
        &&& p.len() == n
        &&& is_perm_of(p.take(n0 as int), n0)
        &&& forall|t: int| n0 <= t < n ==> p[t] == t
    }
}

/// The visiting orders the search tries: exactly those that `order_tried`
/// admits, each exactly once.
pub fn get_permutations(n: usize, max: usize) -> (r: Vec<Vec<usize>>)
    requires
        max == 0 ==> n <= 20,
    ensures
        forall|i: int| 0 <= i < r@.len() ==> is_perm_of((#[trigger] r@[i])@, n as nat),
        forall|i: int, j: int| 0 <= i < j < r@.len() ==> (#[trigger] r@[i])@ != (#[trigger] r@[j])@,
        forall|i: int| 0 <= i < r@.len() ==> order_tried(n as nat, max as nat, (#[trigger] r@[i])@),
        forall|p: Seq<usize>|
            #[trigger] order_tried(n as nat, max as nat, p) ==> exists|i: int|
                0 <= i < r@.len() && (#[trigger] r@[i])@ == p,
        r@.len() >= 1,
        (max == 0 || n <= cap_of(max as nat)) ==> r@.len() == fact(n as nat),
        (max > 0 && n > cap_of(max as nat)) ==> r@.len() == fact(cap_of(max as nat)),
{
    if max == 0 {
        let r = all_permutations(n);
        proof {
            lemma_fact_increases(0, n as nat);
            assert forall|p: Seq<usize>|
                #[trigger] order_tried(n as nat, max as nat, p) implies exists|i: int|
                0 <= i < r@.len() && (#[trigger] r@[i])@ == p by {
                assert(is_perm_of(p, n as nat));
            }
        }
        return r;
    }
    let n0 = max_n_where_permutation_less_than(max);
    if n <= n0 {
        let r = all_permutations(n);
        proof {
            lemma_fact_increases(0, n as nat);
            assert forall|p: Seq<usize>|
                #[trigger] order_tried(n as nat, max as nat, p) implies exists|i: int|
                0 <= i < r@.len() && (#[trigger] r@[i])@ == p by {
                assert(is_perm_of(p, n as nat));
            }
        }
        return r;
    }
    let prefix = all_permutations(n0);
    proof {
        lemma_fact_increases(0, n0 as nat);
    }
    let mut r: Vec<Vec<usize>> = Vec::new();
    let mut i: usize = 0;
    while i < prefix.len()
        invariant
            i <= prefix@.len(),
            r@.len() == i,
            n0 < n,
            forall|k: int|
                0 <= k < prefix@.len() ==> is_perm_of((#[trigger] prefix@[k])@, n0 as nat),
            forall|k: int, j: int|
                0 <= k < j < prefix@.len() ==> (#[trigger] prefix@[k])@ != (#[trigger] prefix@[j])@,
            forall|k: int| 0 <= k < i ==> is_perm_of((#[trigger] r@[k])@, n as nat),
            forall|k: int| 0 <= k < i ==> (#[trigger] r@[k])@.take(n0 as int) == prefix@[k]@,
            forall|k: int| 0 <= k < i ==> (#[trigger] r@[k])@.len() == n,
            forall|k: int, t: int|
                0 <= k < i && n0 <= t < n ==> #[trigger] r@[k]@[t] == t,
            forall|k: int, j: int| 0 <= k < j < i ==> (#[trigger] r@[k])@ != (#[trigger] r@[j])@,
        decreases prefix@.len() - i,
    {
        let p = &prefix[i];
        let mut v: Vec<usize> = Vec::new();
        let mut j: usize = 0;
        while j < p.len()
            invariant
                j <= p@.len(),
                v@ == p@.take(j as int),
            decreases p@.len() - j,
        {
            v.push(p[j]);
            assert(v@ =~= p@.take(j + 1));
            j = j + 1;
        }
        assert(v@ =~= p@);
        let mut k: usize = n0;
        while k < n
            invariant
                n0 <= k <= n,
                v@.len() == k,
                v@.take(n0 as int) == p@,
                is_perm_of(p@, n0 as nat),
                forall|t: int| n0 <= t < k ==> v@[t] == t,
            decreases n - k,
        {
            v.push(k);
            assert(v@.take(n0 as int) =~= p@);
            k = k + 1;
        }
        proof {
            assert forall|val: usize| val < n implies v@.contains(val) by {
                if val < n0 {
                    assert(p@.contains(val));
                    let w = choose|w: int| 0 <= w < p@.len() && p@[w] == val;
                    assert(v@[w] == v@.take(n0 as int)[w]);
                } else {
                    assert(v@[val as int] == val);
                }
            }
            assert forall|t: int| 0 <= t < v@.len() implies v@[t] < n by {
                if t < n0 {
                    assert(v@[t] == v@.take(n0 as int)[t]);
                    assert(p@[t] < n0);
                } else {
                    assert(v@[t] == t);
                }
            }
            assert forall|a: int, b: int| 0 <= a < b < v@.len() implies v@[a] != v@[b] by {
                if b < n0 {
                    assert(p@[a] == v@.take(n0 as int)[a]);
                    assert(p@[b] == v@.take(n0 as int)[b]);
                } else if a < n0 {
                    assert(v@[a] == v@.take(n0 as int)[a]);
                    assert(p@[a] < n0);
                    assert(v@[b] == b);
                } else {
                    assert(v@[a] == a);
                    assert(v@[b] == b);
                }
            }
            assert(is_perm_of(v@, n as nat));
        }
        let ghost prev = r@;
        r.push(v);
        proof {
            assert forall|k2: int, j2: int| 0 <= k2 < j2 < r@.len() implies (#[trigger] r@[k2])@ != (
            #[trigger] r@[j2])@ by {
                if j2 == r@.len() - 1 {
                    assert(r@[k2]@.take(n0 as int) == prefix@[k2]@);
                    assert(r@[j2]@.take(n0 as int) == prefix@[i as int]@);
                    if r@[k2]@ == r@[j2]@ {
                        assert(prefix@[k2]@ == prefix@[i as int]@);
                    }
                }
            }
        }
        i = i + 1;
    }
    proof {
        lemma_fact_increases(1, n0 as nat + 1);
        assert(n0 == cap_of(max as nat));
        assert forall|k: int| 0 <= k < r@.len() implies order_tried(
            n as nat,
            max as nat,
            (#[trigger] r@[k])@,
        ) by {
            assert(is_perm_of(r@[k]@.take(n0 as int), n0 as nat));
        }
        assert forall|p: Seq<usize>|
            #[trigger] order_tried(n as nat, max as nat, p) implies exists|i2: int|
            0 <= i2 < r@.len() && (#[trigger] r@[i2])@ == p by {
            let q = p.take(n0 as int);
            assert(is_perm_of(q, n0 as nat));
            let i2 = choose|i2: int|
                0 <= i2 < prefix@.len() && (#[trigger] prefix@[i2])@ == q;
            assert forall|t: int| 0 <= t < n implies r@[i2]@[t] == p[t] by {
                if t < n0 {
                    assert(r@[i2]@[t] == r@[i2]@.take(n0 as int)[t]);
                    assert(p[t] == p.take(n0 as int)[t]);
                } else {
                    assert(r@[i2]@[t] == t);
                    assert(p[t] == t);
                }
            }
            assert(r@[i2]@ =~= p);
        }
    }
    r
}


/// The ledger after one action's three-key footprint is claimed for `robot`.
pub open spec fn commit_footprint(
    m: Map<ResourceKey, RobotName>,
    t0: usize,
    coord: Coords,
    action: Actions,
    robot: RobotName,
) -> Map<ResourceKey, RobotName> {
    m.insert(needed_keys_spec(t0, coord, action)[0], robot).insert(
        needed_keys_spec(t0, coord, action)[1],
        robot,
    ).insert(needed_keys_spec(t0, coord, action)[2], robot)
}

/// Every key of the action's footprint is unset or already owned by `robot`.
pub open spec fn footprint_free(
    m: Map<ResourceKey, RobotName>,
    t0: usize,
    coord: Coords,
    action: Actions,
    robot: RobotName,
) -> bool {
    forall|k: ResourceKey|
        #[trigger] needed_keys_spec(t0, coord, action).contains(k) ==> (m.contains_key(k)
            ==> m[k] == robot)
}

/// One agent's greedy walk over its remaining desired actions: commit the
/// next action when its footprint is free, otherwise wait in place for one
/// tick, reserving only the current cell; the walk fails when the cell the
/// agent must wait in is owned by another agent. `fuel` is a step allowance:
/// a sufficiently provisioned walk never exhausts it, so exhaustion only ever
/// stands for a genuinely stuck walk.
pub open spec fn assign_walk(
    m: Map<ResourceKey, RobotName>,
    robot: RobotName,
    coord: Coords,
    committed: Seq<Actions>,
    remaining: Seq<Actions>,
    fuel: nat,
) -> Option<(Map<ResourceKey, RobotName>, Seq<Actions>)>
    decreases fuel,
{
    if remaining.len() == 0 {
        Some((m, committed))
    } else if fuel == 0 || committed.len() >= usize::MAX {
        None
    } else {
        let delay = committed.len() as usize;
        let action = remaining[0];
        if footprint_free(m, delay, coord, action, robot) {
            assign_walk(
                commit_footprint(m, delay, coord, action, robot),
                robot,
                next_coords_spec(coord, action),
                committed.push(action),
                remaining.drop_first(),
                (fuel - 1) as nat,
            )
        } else if !occupied_by_other_spec(m, delay, coord.xy, robot) {
            assign_walk(
                m.insert((delay, coord.xy), robot),
                robot,
                coord,
                committed.push(Actions::Wait),
                remaining,
                (fuel - 1) as nat,
            )
        } else {
            None
        }
    }
}

/// A step allowance that a walk from this table can never exhaust: one step
/// per remaining action plus one wait per time slot up to just beyond the
/// last reserved time step.
pub open spec fn walk_fuel(table: ResourceTable, remaining: Seq<Actions>) -> nat {
    (remaining.len() + max_key_time(table.entries@) + 2) as nat
}

/// An action sequence with the waits filtered out: the moves it makes.
pub open spec fn non_waits(s: Seq<Actions>) -> Seq<Actions> {
    s.filter(|a: Actions| a != Actions::Wait)
}

/// Taking one more element equals pushing that element.
proof fn lemma_step_content(v1: Seq<Actions>, committed: Seq<Actions>, a: Actions)
    requires
        v1.len() >= committed.len() + 1,
        v1.take((committed.len() + 1) as int) == committed.push(a),
    ensures
        v1.take(committed.len() as int) == committed,
        v1[committed.len() as int] == a,
        v1.skip(committed.len() as int) == seq![a] + v1.skip((committed.len() + 1) as int),
{
    let n = committed.len() as int;
    assert forall|i: int| 0 <= i < n implies v1[i] == committed[i] by {
        assert(v1.take(n + 1)[i] == committed.push(a)[i]);
    }
    assert(v1.take(n) =~= committed);
    assert(v1[n] == v1.take(n + 1)[n]);
    assert(v1.skip(n) =~= seq![a] + v1.skip(n + 1));
}

/// Filtering the waits out of a sequence that starts with `a`.
proof fn lemma_non_waits_cons(a: Actions, s: Seq<Actions>)
    ensures
        non_waits(seq![a] + s) == if a != Actions::Wait {
            seq![a] + non_waits(s)
        } else {
            non_waits(s)
        },
{
    Seq::filter_distributes_over_add(seq![a], s, |x: Actions| x != Actions::Wait);
    reveal_with_fuel(Seq::filter, 2);
    assert(seq![a].drop_last() =~= Seq::<Actions>::empty());
    if a != Actions::Wait {
        assert(non_waits(seq![a]) =~= seq![a]);
    } else {
        assert(non_waits(seq![a]) =~= Seq::<Actions>::empty());
    }
}

/// What a successful walk produces: the committed prefix is kept, the moves
/// of the remaining plan are preserved in order with only waits inserted, and
/// the ledger grows without changing any existing reservation; every new
/// reservation belongs to the walking agent.
pub proof fn lemma_walk_props(
    m: Map<ResourceKey, RobotName>,
    robot: RobotName,
    coord: Coords,
    committed: Seq<Actions>,
    remaining: Seq<Actions>,
    fuel: nat,
)
    requires
        assign_walk(m, robot, coord, committed, remaining, fuel) is Some,
    ensures
        ({
            let v = assign_walk(m, robot, coord, committed, remaining, fuel)->Some_0;
            &&& v.1.len() >= committed.len() + remaining.len()
            &&& v.1.take(committed.len() as int) == committed
            &&& non_waits(v.1.skip(committed.len() as int)) == non_waits(remaining)
            &&& forall|k: ResourceKey|
                #[trigger] m.contains_key(k) ==> v.0.contains_key(k) && v.0[k] == m[k]
            &&& forall|k: ResourceKey|
                #[trigger] v.0.contains_key(k) && !m.contains_key(k) ==> v.0[k] == robot && k.0
                    <= committed.len() + fuel
        }),
    decreases fuel,
{
    let v = assign_walk(m, robot, coord, committed, remaining, fuel)->Some_0;
    if remaining.len() == 0 {
        assert(v.0 == m);
        assert(forall|k: ResourceKey|
            #[trigger] m.contains_key(k) ==> v.0.contains_key(k) && v.0[k] == m[k]);
        assert(forall|k: ResourceKey|
            #[trigger] v.0.contains_key(k) && !m.contains_key(k) ==> v.0[k] == robot && k.0
                <= committed.len() + fuel);
        assert(v.1.take(committed.len() as int) =~= committed);
        assert(v.1.skip(committed.len() as int) =~= Seq::<Actions>::empty());
        reveal_with_fuel(Seq::filter, 1);
        assert(non_waits(v.1.skip(committed.len() as int)) =~= non_waits(remaining));
    } else {
        let delay = committed.len() as usize;
        let action = remaining[0];
        let n = committed.len() as int;
        if footprint_free(m, delay, coord, action, robot) {
            let m2 = commit_footprint(m, delay, coord, action, robot);
            lemma_walk_props(
                m2,
                robot,
                next_coords_spec(coord, action),
                committed.push(action),
                remaining.drop_first(),
                (fuel - 1) as nat,
            );
            lemma_step_content(v.1, committed, action);
            lemma_non_waits_cons(action, v.1.skip(n + 1));
            lemma_non_waits_cons(action, remaining.drop_first());
            assert(seq![action] + remaining.drop_first() =~= remaining);
            assert(non_waits(v.1.skip(n)) == non_waits(remaining));
            let keys = needed_keys_spec(delay, coord, action);
            assert(keys.contains(keys[0]));
            assert(keys.contains(keys[1]));
            assert(keys.contains(keys[2]));
            assert forall|k: ResourceKey| #[trigger] m.contains_key(k) implies v.0.contains_key(k)
                && v.0[k] == m[k] by {
                assert(m2.contains_key(k));
                if k == keys[0] || k == keys[1] || k == keys[2] {
                    assert(keys.contains(k));
                    assert(m[k] == robot);
                }
                assert(m2[k] == m[k]);
            }
            assert forall|k: ResourceKey|
                #[trigger] v.0.contains_key(k) && !m.contains_key(k) implies v.0[k] == robot && k.0
                    <= committed.len() + fuel by {
                if m2.contains_key(k) {
                    assert(k == keys[0] || k == keys[1] || k == keys[2]);
                    assert(m2[k] == robot);
                    assert(v.0[k] == m2[k]);
                    assert(k.0 <= committed.len() + 1);
                } else {
                    assert(v.0[k] == robot && k.0 <= committed.push(action).len() + (fuel - 1));
                }
            }
        } else {
            let m2 = m.insert((delay, coord.xy), robot);
            lemma_walk_props(
                m2,
                robot,
                coord,
                committed.push(Actions::Wait),
                remaining,
                (fuel - 1) as nat,
            );
            lemma_step_content(v.1, committed, Actions::Wait);
            lemma_non_waits_cons(Actions::Wait, v.1.skip(n + 1));
            assert(non_waits(v.1.skip(n)) == non_waits(remaining));
            assert forall|k: ResourceKey| #[trigger] m.contains_key(k) implies v.0.contains_key(k)
                && v.0[k] == m[k] by {
                assert(m2.contains_key(k));
                if k == (delay, coord.xy) {
                    assert(m[k] == robot);
                }
                assert(m2[k] == m[k]);
            }
            assert forall|k: ResourceKey|
                #[trigger] v.0.contains_key(k) && !m.contains_key(k) implies v.0[k] == robot && k.0
                    <= committed.len() + fuel by {
                if m2.contains_key(k) {
                    assert(k == (delay, coord.xy));
                    assert(m2[k] == robot);
                    assert(v.0[k] == m2[k]);
                } else {
                    assert(v.0[k] == robot && k.0 <= committed.push(Actions::Wait).len() + (fuel
                        - 1));
                }
            }
        }
    }
}

/// An independent copy of an action sequence.
pub fn clone_actions(v: &Vec<Actions>) -> (r: Vec<Actions>)
    ensures
        r@ == v@,
{
    let mut r: Vec<Actions> = Vec::new();
    let mut i: usize = 0;
    while i < v.len()
        invariant
            i <= v@.len(),
            r@ == v@.take(i as int),
        decreases v@.len() - i,
    {
        r.push(v[i]);
        assert(r@ =~= v@.take(i + 1));
        i = i + 1;
    }
    assert(r@ =~= v@);
    r
}

/// An independent copy of a cost vector.
pub fn clone_costs(v: &Vec<usize>) -> (r: Vec<usize>)
    ensures
        r@ == v@,
{
    let mut r: Vec<usize> = Vec::new();
    let mut i: usize = 0;
    while i < v.len()
        invariant
            i <= v@.len(),
            r@ == v@.take(i as int),
        decreases v@.len() - i,
    {
        r.push(v[i]);
        assert(r@ =~= v@.take(i + 1));
        i = i + 1;
    }
    assert(r@ =~= v@);
    r
}

/// Walk one agent's remaining desired actions over the committed ledger,
/// greedily committing each action whose footprint is free and waiting in
/// place otherwise. The result is exactly what the walk `assign_walk`
/// computes with a sufficient step allowance: the extended ledger and the
/// committed action sequence on success, and nothing when the agent gets
/// stuck waiting in a cell that another agent owns.
#[verifier::loop_isolation(false)]
pub fn assign_actions(
    resources: &ResourceTable,
    robot_name: RobotName,
    coord: &Coords,
    actions_committed: &Vec<Actions>,
    actions_remaining: &Vec<Actions>,
) -> (r: Option<(ResourceTable, Vec<Actions>)>)
    requires
        resources.wf(),
        sim_safe(*coord, actions_remaining@),
    ensures
        match r {
            Some(v) => v.0.wf() && forall|f: nat|
                f >= walk_fuel(*resources, actions_remaining@) ==> Some((v.0@, v.1@))
                    == assign_walk(
                    resources@,
                    robot_name,
                    *coord,
                    actions_committed@,
                    actions_remaining@,
                    f,
                ),
            None => forall|f: nat|
                f >= walk_fuel(*resources, actions_remaining@) ==> assign_walk(
                    resources@,
                    robot_name,
                    *coord,
                    actions_committed@,
                    actions_remaining@,
                    f,
                ) is None,
        },
{
    let ghost m0 = resources@;
    let ghost fuel0 = walk_fuel(*resources, actions_remaining@);
    let ghost t_max = max_key_time(resources.entries@);
    proof {
        lemma_max_key_time(resources.entries@);
        lemma_map_of_domain(resources.entries@);
    }
    let mut table = resources.duplicate();
    let mut cur = *coord;
    let mut committed = clone_actions(actions_committed);
    let mut idx: usize = 0;
    let ghost mut fuel_left = fuel0;
    let ghost mut consumed: nat = 0;
    proof {
        assert forall|k: ResourceKey| #[trigger] table@.contains_key(k) && table@[k] != robot_name
            implies k.0 <= t_max by {
            let i = choose|i: int|
                0 <= i < resources.entries@.len() && (#[trigger] resources.entries@[i]).0 == k;
            assert(resources.entries@[i].0.0 <= t_max);
        }
    }
    proof {
        assert(actions_remaining@.skip(0) =~= actions_remaining@);
    }
    while idx < actions_remaining.len()
        invariant
            idx <= actions_remaining@.len(),
            table.wf(),
            sim_safe(*coord, actions_remaining@),
            cur == pose_at(*coord, actions_remaining@, idx as int),
            consumed + fuel_left == fuel0,
            forall|f: nat|
                f >= fuel0 ==> assign_walk(
                    m0,
                    robot_name,
                    *coord,
                    actions_committed@,
                    actions_remaining@,
                    f,
                ) == assign_walk(
                    table@,
                    robot_name,
                    cur,
                    committed@,
                    actions_remaining@.skip(idx as int),
                    (f - consumed) as nat,
                ),
            fuel_left >= (actions_remaining@.len() - idx) + (if committed@.len() <= t_max + 1 {
                t_max + 2 - committed@.len()
            } else {
                0
            }),
            forall|k: ResourceKey|
                #[trigger] table@.contains_key(k) && table@[k] != robot_name ==> k.0 <= t_max,
        decreases actions_remaining@.len() - idx, fuel_left,
    {
        let action = actions_remaining[idx];
        let delay = committed.len();
        proof {
            assert(coords_step_safe(cur));
            assert(fuel_left > 0);
        }
        if delay == usize::MAX {
            proof {
                assert(actions_remaining@.skip(idx as int).len() == actions_remaining@.len() - idx);
                assert forall|f: nat| f >= fuel0 implies assign_walk(
                    m0,
                    robot_name,
                    *coord,
                    actions_committed@,
                    actions_remaining@,
                    f,
                ) is None by {
                    assert((f - consumed) as nat >= fuel_left);
                    assert(assign_walk(
                        table@,
                        robot_name,
                        cur,
                        committed@,
                        actions_remaining@.skip(idx as int),
                        (f - consumed) as nat,
                    ) is None);
                }
            }
            return None;
        }
        let ghost table_prev = table@;
        let ghost committed_prev = committed@;
        let ghost rem_prev = actions_remaining@.skip(idx as int);
        proof {
            assert(rem_prev.len() == actions_remaining@.len() - idx);
            assert(rem_prev[0] == actions_remaining@[idx as int]);
            assert(rem_prev.drop_first() =~= actions_remaining@.skip(idx + 1));
        }
        match is_action_feasible(&table, robot_name, &cur, delay, action) {
            Some(pair) => {
                proof {
                    assert(footprint_free(table_prev, delay, cur, action, robot_name));
                    assert(pair.1@ == commit_footprint(
                        table_prev,
                        delay,
                        cur,
                        action,
                        robot_name,
                    ));
                    assert forall|f: nat| f >= fuel0 implies assign_walk(
                        m0,
                        robot_name,
                        *coord,
                        actions_committed@,
                        actions_remaining@,
                        f,
                    ) == assign_walk(
                        pair.1@,
                        robot_name,
                        next_coords_spec(cur, action),
                        committed_prev.push(action),
                        rem_prev.drop_first(),
                        (f - (consumed + 1)) as nat,
                    ) by {
                        assert((f - consumed) as nat >= fuel_left);
                        assert(assign_walk(
                            table_prev,
                            robot_name,
                            cur,
                            committed_prev,
                            rem_prev,
                            (f - consumed) as nat,
                        ) == assign_walk(
                            pair.1@,
                            robot_name,
                            next_coords_spec(cur, action),
                            committed_prev.push(action),
                            rem_prev.drop_first(),
                            ((f - consumed) - 1) as nat,
                        ));
                        assert(((f - consumed) - 1) as nat == (f - (consumed + 1)) as nat);
                    }
                    assert forall|k: ResourceKey|
                        #[trigger] pair.1@.contains_key(k) && pair.1@[k] != robot_name
                        implies k.0 <= t_max by {
                        let keys = needed_keys_spec(delay, cur, action);
                        if k == keys[0] || k == keys[1] || k == keys[2] {
                            assert(pair.1@[k] == robot_name);
                        } else {
                            assert(table_prev.contains_key(k) && table_prev[k] == pair.1@[k]);
                        }
                    }
                    fuel_left = (fuel_left - 1) as nat;
                    consumed = consumed + 1;
                }
                let (c2, t2) = pair;
                table = t2;
                cur = c2;
                committed.push(action);
                idx = idx + 1;
            },
            None => {
                proof {
                    assert(!footprint_free(table_prev, delay, cur, action, robot_name));
                }
                if occupied_by_someone_else(&table, delay, &cur.xy, robot_name) {
                    proof {
                        assert forall|f: nat| f >= fuel0 implies assign_walk(
                            m0,
                            robot_name,
                            *coord,
                            actions_committed@,
                            actions_remaining@,
                            f,
                        ) is None by {
                            assert((f - consumed) as nat >= fuel_left);
                            assert(assign_walk(
                                table_prev,
                                robot_name,
                                cur,
                                committed_prev,
                                rem_prev,
                                (f - consumed) as nat,
                            ) is None);
                        }
                    }
                    return None;
                }
                proof {
                    let keys = needed_keys_spec(delay, cur, action);
                    let k = choose|k: ResourceKey|
                        #[trigger] keys.contains(k) && table_prev.contains_key(k) && table_prev[k]
                            != robot_name;
                    assert(keys.contains(k));
                    let i = choose|i: int| 0 <= i < keys.len() && keys[i] == k;
                    assert(k.0 == delay || k.0 == delay + 1);
                    assert(delay <= t_max);
                    assert forall|f: nat| f >= fuel0 implies assign_walk(
                        m0,
                        robot_name,
                        *coord,
                        actions_committed@,
                        actions_remaining@,
                        f,
                    ) == assign_walk(
                        table_prev.insert((delay, cur.xy), robot_name),
                        robot_name,
                        cur,
                        committed_prev.push(Actions::Wait),
                        rem_prev,
                        (f - (consumed + 1)) as nat,
                    ) by {
                        assert((f - consumed) as nat >= fuel_left);
                        assert(assign_walk(
                            table_prev,
                            robot_name,
                            cur,
                            committed_prev,
                            rem_prev,
                            (f - consumed) as nat,
                        ) == assign_walk(
                            table_prev.insert((delay, cur.xy), robot_name),
                            robot_name,
                            cur,
                            committed_prev.push(Actions::Wait),
                            rem_prev,
                            ((f - consumed) - 1) as nat,
                        ));
                        assert(((f - consumed) - 1) as nat == (f - (consumed + 1)) as nat);
                    }
                    fuel_left = (fuel_left - 1) as nat;
                    consumed = consumed + 1;
                }
                mark_occupied(&mut table, delay, &cur.xy, robot_name);
                committed.push(Actions::Wait);
            },
        }
    }
    proof {
        assert(actions_remaining@.skip(idx as int) =~= Seq::<Actions>::empty());
        assert forall|f: nat| f >= fuel0 implies assign_walk(
            m0,
            robot_name,
            *coord,
            actions_committed@,
            actions_remaining@,
            f,
        ) == Some((table@, committed@)) by {
            assert(assign_walk(
                table@,
                robot_name,
                cur,
                committed@,
                actions_remaining@.skip(idx as int),
                (f - consumed) as nat,
            ) == Some((table@, committed@)));
        }
    }
    Some((table, committed))
}

/// The ledger seeded with the first `k` agents' start cells at time zero.
pub open spec fn seeded_map(agents: Seq<ArbAgent>, k: int) -> Map<ResourceKey, RobotName>
    decreases k,
{
    if k <= 0 {
        Map::empty()
    } else {
        seeded_map(agents, k - 1).insert((0usize, agents[k - 1].coord.xy), (k - 1) as usize)
    }
}

/// The key is the time-zero reservation of one of the first `k` agents'
/// start cells.
pub open spec fn seed_key_of(agents: Seq<ArbAgent>, k: int, key: ResourceKey) -> bool {
    exists|j: int| 0 <= j < k && key == (0usize, (#[trigger] agents[j]).coord.xy)
}

/// A concrete agent index witnesses `seed_key_of`.
pub proof fn lemma_seed_key_intro(agents: Seq<ArbAgent>, k: int, key: ResourceKey, j: int)
    requires
        0 <= j < k,
        key == (0usize, agents[j].coord.xy),
    ensures
        seed_key_of(agents, k, key),
{
    assert(0 <= j < k && key == (0usize, (#[trigger] agents[j]).coord.xy));
}

/// What the seeded ledger holds when no two agents share a start cell: every
/// key is a start cell at time zero, owned by the agent standing there.
pub proof fn lemma_seeded_props(agents: Seq<ArbAgent>, k: int)
    requires
        0 <= k <= agents.len(),
        agents.len() <= usize::MAX,
        forall|i: int, j: int|
            0 <= i < j < agents.len() ==> (#[trigger] agents[i]).coord.xy != (
            #[trigger] agents[j]).coord.xy,
    ensures
        forall|key: ResourceKey|
            #[trigger] seeded_map(agents, k).contains_key(key) <==> seed_key_of(agents, k, key),
        forall|j: int|
            0 <= j < k ==> seeded_map(agents, k)[(0usize, (#[trigger] agents[j]).coord.xy)] == j,
        forall|key: ResourceKey| #[trigger] seeded_map(agents, k).contains_key(key) ==> key.0 == 0,
    decreases k,
{
    if k > 0 {
        lemma_seeded_props(agents, k - 1);
        assert forall|key: ResourceKey| #[trigger] seeded_map(agents, k).contains_key(
            key,
        ) implies seed_key_of(agents, k, key) by {
            if key == (0usize, agents[k - 1].coord.xy) {
                lemma_seed_key_intro(agents, k, key, k - 1);
            } else {
                assert(seeded_map(agents, k - 1).contains_key(key));
                assert(seed_key_of(agents, k - 1, key));
                let j = choose|j: int|
                    0 <= j < k - 1 && key == (0usize, (#[trigger] agents[j]).coord.xy);
                lemma_seed_key_intro(agents, k, key, j);
            }
        }
        assert forall|key: ResourceKey| seed_key_of(agents, k, key) implies #[trigger] seeded_map(
            agents,
            k,
        ).contains_key(key) by {
            let j = choose|j: int|
                0 <= j < k && key == (0usize, (#[trigger] agents[j]).coord.xy);
            if j < k - 1 {
                lemma_seed_key_intro(agents, k - 1, key, j);
                assert(seeded_map(agents, k - 1).contains_key(key));
            }
        }
        assert forall|j: int| 0 <= j < k implies seeded_map(agents, k)[(
            0usize,
            (#[trigger] agents[j]).coord.xy,
        )] == j by {
            if j < k - 1 {
                assert(agents[j].coord.xy != agents[k - 1].coord.xy);
                assert(seeded_map(agents, k - 1)[(0usize, agents[j].coord.xy)] == j);
            }
        }
    }
}

/// The per-agent committed plans of a solution, in agent-index order.
pub open spec fn plans_of(robots: Seq<RobotResult>) -> Seq<Seq<Actions>> {
    robots.map_values(|r: RobotResult| r.plan@)
}

/// The per-agent plans before any agent was visited: all empty.
pub open spec fn blank_plans(n: nat) -> Seq<Seq<Actions>> {
    Seq::new(n, |i: int| Seq::<Actions>::empty())
}

/// The fold of every agent's greedy walk over the ledger, in visiting order:
/// the agent visited at step `k` walks its whole plan over the ledger left by
/// its predecessors, and its committed plan replaces its slot. `tb` bounds
/// every reserved time step, so each walk's step allowance suffices and the
/// fold's value does not depend on it. `None` exactly when some walk gets
/// stuck.
pub open spec fn assign_fold(
    agents: Seq<ArbAgent>,
    order: Seq<usize>,
    k: int,
    m: Map<ResourceKey, RobotName>,
    tb: nat,
    plans: Seq<Seq<Actions>>,
) -> Option<(Map<ResourceKey, RobotName>, Seq<Seq<Actions>>)>
    decreases order.len() - k,
{
    if k < 0 || k >= order.len() {
        Some((m, plans))
    } else {
        let i = order[k] as int;
        match assign_walk(
            m,
            order[k],
            agents[i].coord,
            Seq::empty(),
            agents[i].plan@,
            (agents[i].plan@.len() + tb + 2) as nat,
        ) {
            None => None,
            Some(v) => assign_fold(
                agents,
                order,
                k + 1,
                v.0,
                (tb + agents[i].plan@.len() + 2) as nat,
                plans.update(i, v.1),
            ),
        }
    }
}

/// The arbitration of the whole setup under one visiting order: the fold
/// from the seeded ledger with every agent's plan still blank.
pub open spec fn arb_of_order(s: ArbSetup, order: Seq<usize>) -> Option<
    (Map<ResourceKey, RobotName>, Seq<Seq<Actions>>),
> {
    assign_fold(
        s.agents@,
        order,
        0,
        seeded_map(s.agents@, s.agents@.len() as int),
        0,
        blank_plans(s.agents@.len()),
    )
}

/// A resource the agent's unobstructed walk claims: its start cell at time
/// zero, or a key of the footprint of one of its plan's actions, taken at
/// the pose the plan reaches by then.
pub open spec fn agent_claims(agent: ArbAgent, k: ResourceKey) -> bool {
    ||| k == (0usize, agent.coord.xy)
    ||| exists|t: int|
        0 <= t < agent.plan@.len() && #[trigger] needed_keys_spec(
            t as usize,
            pose_at(agent.coord, agent.plan@, t),
            agent.plan@[t],
        ).contains(k)
}

/// A concrete plan step witnesses a claim.
pub proof fn lemma_agent_claims_intro(agent: ArbAgent, k: ResourceKey, t: int)
    requires
        0 <= t < agent.plan@.len(),
        needed_keys_spec(t as usize, pose_at(agent.coord, agent.plan@, t), agent.plan@[t]).contains(
            k,
        ),
    ensures
        agent_claims(agent, k),
{
    assert(0 <= t < agent.plan@.len() && #[trigger] needed_keys_spec(
        t as usize,
        pose_at(agent.coord, agent.plan@, t),
        agent.plan@[t],
    ).contains(k));
}

/// No two agents' unobstructed walks claim a common resource, the start
/// cells included: the plans are parallel and non-intersecting.
pub open spec fn disjoint_claims(agents: Seq<ArbAgent>) -> bool {
    forall|i: int, j: int, k: ResourceKey|
        0 <= i < agents.len() && 0 <= j < agents.len() && i != j ==> !(#[trigger] agent_claims(
            agents[i],
            k,
        ) && #[trigger] agent_claims(agents[j], k))
}

/// Every reserved resource is owned by an agent whose own walk claims it.
pub open spec fn claims_respected(agents: Seq<ArbAgent>, m: Map<ResourceKey, RobotName>) -> bool {
    forall|k: ResourceKey|
        #[trigger] m.contains_key(k) ==> m[k] < agents.len() && agent_claims(
            agents[m[k] as int],
            k,
        )
}

/// Over a ledger whose every reservation lies in its own owner's footprint,
/// an agent with a footprint disjoint from every other agent's walks its
/// whole plan without one inserted wait, and the ledger keeps the property.
pub proof fn lemma_walk_unobstructed(
    agents: Seq<ArbAgent>,
    i: usize,
    m: Map<ResourceKey, RobotName>,
    committed: Seq<Actions>,
    d: int,
    fuel: nat,
)
    requires
        (i as int) < agents.len(),
        agents.len() <= usize::MAX,
        disjoint_claims(agents),
        claims_respected(agents, m),
        0 <= d <= agents[i as int].plan@.len(),
        committed.len() == d,
        fuel >= agents[i as int].plan@.len() - d,
        agents[i as int].plan@.len() < usize::MAX,
    ensures
        ({
            let agent = agents[i as int];
            let w = assign_walk(
                m,
                i,
                pose_at(agent.coord, agent.plan@, d),
                committed,
                agent.plan@.skip(d),
                fuel,
            );
            &&& w is Some
            &&& w->Some_0.1 == committed + agent.plan@.skip(d)
            &&& claims_respected(agents, w->Some_0.0)
        }),
    decreases agents[i as int].plan@.len() - d,
{
    let agent = agents[i as int];
    let plan = agent.plan@;
    let rem = plan.skip(d);
    let cur = pose_at(agent.coord, plan, d);
    if d == plan.len() {
        assert(committed + rem =~= committed);
    } else {
        assert(rem[0] == plan[d]);
        let delay = committed.len() as usize;
        let keys = needed_keys_spec(delay, cur, plan[d]);
        assert forall|k: ResourceKey|
            #[trigger] keys.contains(k) && m.contains_key(k) implies m[k] == i by {
            lemma_agent_claims_intro(agent, k, d);
            if m[k] != i {
                assert(agent_claims(agents[m[k] as int], k));
                assert(agent_claims(agents[i as int], k));
                assert(false);
            }
        }
        assert(footprint_free(m, delay, cur, plan[d], i));
        let m2 = commit_footprint(m, delay, cur, plan[d], i);
        assert(keys.contains(keys[0]));
        assert(keys.contains(keys[1]));
        assert(keys.contains(keys[2]));
        assert forall|k: ResourceKey| #[trigger] m2.contains_key(k) implies m2[k] < agents.len()
            && agent_claims(agents[m2[k] as int], k) by {
            if k == keys[0] || k == keys[1] || k == keys[2] {
                assert(m2[k] == i);
                lemma_agent_claims_intro(agent, k, d);
            } else {
                assert(m.contains_key(k) && m2[k] == m[k]);
            }
        }
        lemma_walk_unobstructed(agents, i, m2, committed.push(plan[d]), d + 1, (fuel - 1) as nat);
        assert(next_coords_spec(cur, plan[d]) == pose_at(agent.coord, plan, d + 1));
        assert(rem.drop_first() =~= plan.skip(d + 1));
        assert((committed.push(plan[d])) + plan.skip(d + 1) =~= committed + rem);
    }
}

/// With pairwise disjoint footprints, the fold visits every listed agent and
/// hands each its desired plan unchanged: no walk inserts a wait or fails.
pub proof fn lemma_fold_unobstructed(
    agents: Seq<ArbAgent>,
    order: Seq<usize>,
    k: int,
    m: Map<ResourceKey, RobotName>,
    tb: nat,
    plans: Seq<Seq<Actions>>,
)
    requires
        agents.len() <= usize::MAX,
        disjoint_claims(agents),
        claims_respected(agents, m),
        forall|l: int| 0 <= l < order.len() ==> #[trigger] order[l] < agents.len(),
        forall|i2: int|
            0 <= i2 < agents.len() ==> (#[trigger] agents[i2]).plan@.len() < usize::MAX,
        plans.len() == agents.len(),
        0 <= k <= order.len(),
    ensures
        ({
            let f = assign_fold(agents, order, k, m, tb, plans);
            &&& f is Some
            &&& f->Some_0.1.len() == agents.len()
            &&& forall|i2: int|
                0 <= i2 < agents.len() ==> #[trigger] f->Some_0.1[i2] == plans[i2]
                    || f->Some_0.1[i2] == agents[i2].plan@
            &&& forall|l: int|
                k <= l < order.len() ==> #[trigger] f->Some_0.1[order[l] as int] == agents[order[l]
                    as int].plan@
        }),
    decreases order.len() - k,
{
    if k < order.len() {
        let i = order[k];
        let agent = agents[i as int];
        let fuel = (agent.plan@.len() + tb + 2) as nat;
        lemma_walk_unobstructed(agents, i, m, Seq::empty(), 0, fuel);
        assert(pose_at(agent.coord, agent.plan@, 0) == agent.coord);
        assert(agent.plan@.skip(0) =~= agent.plan@);
        assert(Seq::<Actions>::empty() + agent.plan@ =~= agent.plan@);
        let w = assign_walk(m, i, agent.coord, Seq::empty(), agent.plan@, fuel);
        lemma_fold_unobstructed(
            agents,
            order,
            k + 1,
            w->Some_0.0,
            (tb + agent.plan@.len() + 2) as nat,
            plans.update(i as int, w->Some_0.1),
        );
    }
}

/// With pairwise disjoint footprints every agent commits its desired plan
/// unchanged under any visiting order: the arbitration succeeds and every
/// agent's wait-cost is zero. This is why the bounded order search converges
/// to the single all-zero cost vector for parallel, non-intersecting plans.
pub proof fn lemma_disjoint_claims_zero_costs(s: ArbSetup, order: Seq<usize>)
    requires
        setup_wf(s),
        s.agents@.len() <= usize::MAX,
        disjoint_claims(s.agents@),
        forall|i2: int|
            0 <= i2 < s.agents@.len() ==> (#[trigger] s.agents@[i2]).plan@.len() < usize::MAX,
        is_perm_of(order, s.agents@.len()),
    ensures
        arb_of_order(s, order) is Some,
        order_costs(s, order) == Seq::new(s.agents@.len(), |i: int| 0usize),
{
    let n = s.agents@.len() as int;
    let seed = seeded_map(s.agents@, n);
    lemma_seeded_props(s.agents@, n);
    assert forall|k: ResourceKey| #[trigger] seed.contains_key(k) implies seed[k] < s.agents@.len()
        && agent_claims(s.agents@[seed[k] as int], k) by {
        assert(seed_key_of(s.agents@, n, k));
        let j = choose|j: int| 0 <= j < n && k == (0usize, (#[trigger] s.agents@[j]).coord.xy);
        assert(seed[(0usize, s.agents@[j].coord.xy)] == j);
        assert(agent_claims(s.agents@[j], k));
    }
    lemma_fold_unobstructed(s.agents@, order, 0, seed, 0, blank_plans(s.agents@.len()));
    let f = arb_of_order(s, order);
    assert forall|i2: int| 0 <= i2 < n implies #[trigger] f->Some_0.1[i2] == s.agents@[i2].plan@ by {
        assert(order.contains(i2 as usize));
        let l = choose|l: int| 0 <= l < order.len() && order[l] == i2 as usize;
        assert(f->Some_0.1[order[l] as int] == s.agents@[order[l] as int].plan@);
    }
    assert(order_costs(s, order) =~= Seq::new(s.agents@.len(), |i: int| 0usize));
}

/// A well-formed frontier that accounts for the all-zero cost vector holds
/// exactly one cost vector, the all-zero one: zero is dominated by nothing
/// and dominates every other vector of its length.
pub proof fn lemma_zero_covered_frontier(f: Seq<(Costs, Vec<ArbSolution>)>, n: nat)
    requires
        frontier_wf(f),
        forall|i: int| 0 <= i < f.len() ==> (#[trigger] f[i]).0@.len() == n,
        covered(f, Seq::new(n, |i: int| 0usize)),
    ensures
        f.len() == 1,
        f[0].0@ == Seq::new(n, |i: int| 0usize),
{
    let zero = Seq::new(n, |i: int| 0usize);
    let j = choose|j: int| 0 <= j < f.len() && leq_spec((#[trigger] f[j]).0@, zero);
    assert(f[j].0@ =~= zero);
    if f.len() >= 2 {
        let i = if j == 0 {
            1int
        } else {
            0int
        };
        assert(leq_spec(f[j].0@, f[i].0@));
        assert(!le_spec(f[j].0@, f[i].0@));
        assert(f[i].0@ == f[j].0@);
        assert(false);
    }
    assert(f.len() == 1);
    assert(f[0].0@ == zero);
}

/// The well-formedness of an arbitration setup: every agent's walk stays in
/// the computable coordinate range, and no two agents start on the same cell.
pub open spec fn setup_wf(s: ArbSetup) -> bool {
    &&& forall|i: int|
        0 <= i < s.agents@.len() ==> sim_safe(
            (#[trigger] s.agents@[i]).coord,
            s.agents@[i].plan@,
        )
    &&& forall|i: int, j: int|
        0 <= i < j < s.agents@.len() ==> (#[trigger] s.agents@[i]).coord.xy != (
        #[trigger] s.agents@[j]).coord.xy
}

/// One agent's committed result is the agent's desired plan with waits
/// spliced in, and its cost counts exactly the inserted waits.
pub open spec fn robot_result_ok(agent: ArbAgent, r: RobotResult) -> bool {
    &&& r.plan@.len() >= agent.plan@.len()
    &&& non_waits(r.plan@) == non_waits(agent.plan@)
    &&& r.cost == r.plan@.len() - agent.plan@.len()
}

/// Arbitrate one visiting order: seed the ledger with every agent's starting
/// cell at time zero, then walk each agent's desired plan in the given order,
/// inserting waits on conflicts. On success the committed ledger is returned
/// together with the per-agent committed plans and wait-costs in agent-index
/// order; the arbitration fails when some agent's walk gets stuck.
#[verifier::loop_isolation(false)]
pub fn assign(s: &ArbSetup, order: &Vec<usize>) -> (r: Option<(ResourceTable, ArbSolution)>)
    requires
        setup_wf(*s),
        forall|i: int| 0 <= i < order@.len() ==> order@[i] < s.agents@.len(),
    ensures
        match r {
            Some(v) => {
                &&& v.0.wf()
                &&& v.1.perm@ == order@
                &&& v.1.robots@.len() == s.agents@.len()
                &&& v.1.costs@.len() == s.agents@.len()
                &&& forall|i: int|
                    0 <= i < s.agents@.len() ==> v.1.costs@[i] == (#[trigger] v.1.robots@[i]).cost
                &&& forall|i: int|
                    0 <= i < s.agents@.len() && order@.contains(i as usize) ==> robot_result_ok(
                        s.agents@[i],
                        #[trigger] v.1.robots@[i],
                    )
                &&& forall|i: int|
                    0 <= i < s.agents@.len() && !order@.contains(i as usize) ==> (
                    #[trigger] v.1.robots@[i]).plan@ == Seq::<Actions>::empty()
                        && v.1.robots@[i].cost == 0
                &&& arb_of_order(*s, order@) == Some((v.0@, plans_of(v.1.robots@)))
                &&& forall|i: int|
                    0 <= i < s.agents@.len() ==> v.0@.contains_key(
                        (0usize, (#[trigger] s.agents@[i]).coord.xy),
                    ) && v.0@[(0usize, s.agents@[i].coord.xy)] == i
            },
            None => arb_of_order(*s, order@) is None,
        },
{
    let n = s.agents.len();
    let mut resources = ResourceTable::new();
    let mut a: usize = 0;
    while a < n
        invariant
            a <= n,
            resources.wf(),
            resources@ == seeded_map(s.agents@, a as int),
        decreases n - a,
    {
        proof {
            lemma_seeded_props(s.agents@, a as int);
            if occupied_by_other_spec(resources@, 0, s.agents@[a as int].coord.xy, a) {
                let k = (0usize, s.agents@[a as int].coord.xy);
                assert(resources@.contains_key(k));
                assert(seed_key_of(s.agents@, a as int, k));
                let j = choose|j: int|
                    0 <= j < a && k == (0usize, (#[trigger] s.agents@[j]).coord.xy);
                assert(s.agents@[j].coord.xy == s.agents@[a as int].coord.xy);
                assert(false);
            }
        }
        mark_occupied(&mut resources, 0, &s.agents[a].coord.xy, a);
        a = a + 1;
    }
    let mut agents_results: Vec<RobotResult> = Vec::new();
    let mut b: usize = 0;
    while b < n
        invariant
            b <= n,
            agents_results@.len() == b,
            forall|j: int|
                0 <= j < b ==> (#[trigger] agents_results@[j]).plan@ == Seq::<Actions>::empty()
                    && agents_results@[j].cost == 0,
        decreases n - b,
    {
        agents_results.push(RobotResult { plan: Vec::new(), cost: 0 });
        b = b + 1;
    }
    let ghost mut tb: nat = 0;
    proof {
        lemma_seeded_props(s.agents@, n as int);
        assert(plans_of(agents_results@) =~= blank_plans(n as nat));
        assert forall|i2: int| 0 <= i2 < n implies resources@.contains_key(
            (0usize, (#[trigger] s.agents@[i2]).coord.xy),
        ) && resources@[(0usize, s.agents@[i2].coord.xy)] == i2 by {
            lemma_seed_key_intro(
                s.agents@,
                n as int,
                (0usize, s.agents@[i2].coord.xy),
                i2,
            );
        }
    }
    let mut oi: usize = 0;
    while oi < order.len()
        invariant
            oi <= order@.len(),
            resources.wf(),
            agents_results@.len() == n,
            assign_fold(
                s.agents@,
                order@,
                oi as int,
                resources@,
                tb,
                plans_of(agents_results@),
            ) == arb_of_order(*s, order@),
            forall|k: ResourceKey| #[trigger] resources@.contains_key(k) ==> k.0 <= tb,
            forall|i2: int|
                0 <= i2 < n ==> resources@.contains_key(
                    (0usize, (#[trigger] s.agents@[i2]).coord.xy),
                ) && resources@[(0usize, s.agents@[i2].coord.xy)] == i2,
            forall|j: int|
                0 <= j < n && (exists|k: int| 0 <= k < oi && order@[k] == j) ==> robot_result_ok(
                    s.agents@[j],
                    #[trigger] agents_results@[j],
                ),
            forall|j: int|
                0 <= j < n && !(exists|k: int| 0 <= k < oi && order@[k] == j) ==> (
                #[trigger] agents_results@[j]).plan@ == Seq::<Actions>::empty()
                    && agents_results@[j].cost == 0,
        decreases order@.len() - oi,
    {
        let i = order[oi];
        let agent = &s.agents[i];
        let empty: Vec<Actions> = Vec::new();
        let ghost prev = resources@;
        let ghost step_fuel = (s.agents@[i as int].plan@.len() + tb + 2) as nat;
        proof {
            lemma_entries_in_map(resources.entries@);
            assert forall|e: int| 0 <= e < resources.entries@.len() implies (
            #[trigger] resources.entries@[e]).0.0 <= tb by {
                assert(resources@.contains_key(resources.entries@[e].0));
            }
            lemma_max_key_time_le(resources.entries@, tb as int);
            assert(step_fuel >= walk_fuel(resources, agent.plan@));
        }
        match assign_actions(&resources, i, &agent.coord, &empty, &agent.plan) {
            None => {
                proof {
                    assert(assign_walk(
                        prev,
                        i as RobotName,
                        agent.coord,
                        empty@,
                        agent.plan@,
                        step_fuel,
                    ) is None);
                    assert(assign_fold(
                        s.agents@,
                        order@,
                        oi as int,
                        prev,
                        tb,
                        plans_of(agents_results@),
                    ) is None);
                }
                return None;
            },
            Some(pair) => {
                proof {
                    assert(Some((pair.0@, pair.1@)) == assign_walk(
                        prev,
                        i as RobotName,
                        agent.coord,
                        empty@,
                        agent.plan@,
                        step_fuel,
                    ));
                    lemma_walk_props(
                        prev,
                        i as RobotName,
                        agent.coord,
                        empty@,
                        agent.plan@,
                        step_fuel,
                    );
                    assert(pair.1@.skip(0) =~= pair.1@);
                    assert(pair.1@.take(0) =~= Seq::<Actions>::empty());
                }
                let cost = pair.1.len() - agent.plan.len();
                let ghost plans_prev = plans_of(agents_results@);
                let ghost new_plan = pair.1@;
                let ghost new_map = pair.0@;
                let (r2, acts) = pair;
                resources = r2;
                agents_results.set(i, RobotResult { plan: acts, cost });
                proof {
                    let ghost tb_new = (tb + s.agents@[i as int].plan@.len() + 2) as nat;
                    assert(plans_of(agents_results@) =~= plans_prev.update(i as int, new_plan));
                    assert(assign_fold(s.agents@, order@, oi as int, prev, tb, plans_prev)
                        == assign_fold(
                        s.agents@,
                        order@,
                        oi as int + 1,
                        new_map,
                        tb_new,
                        plans_prev.update(i as int, new_plan),
                    ));
                    assert forall|k: ResourceKey| #[trigger] resources@.contains_key(
                        k,
                    ) implies k.0 <= tb_new by {
                        if !prev.contains_key(k) {
                            assert(k.0 <= empty@.len() + step_fuel);
                        }
                    }
                    assert forall|i2: int| 0 <= i2 < n implies resources@.contains_key(
                        (0usize, (#[trigger] s.agents@[i2]).coord.xy),
                    ) && resources@[(0usize, s.agents@[i2].coord.xy)] == i2 by {
                        assert(prev.contains_key((0usize, s.agents@[i2].coord.xy)));
                    }
                    tb = tb_new;
                }
            },
        }
        oi = oi + 1;
        proof {
            assert forall|j: int|
                0 <= j < n && (exists|k: int| 0 <= k < oi && order@[k] == j)
                    && j != i implies robot_result_ok(
                s.agents@[j],
                #[trigger] agents_results@[j],
            ) by {
                let k = choose|k: int| 0 <= k < oi && order@[k] == j;
                assert(k < oi - 1 || order@[oi - 1] == i);
                assert(exists|k2: int| 0 <= k2 < oi - 1 && order@[k2] == j);
            }
        }
    }
    let mut costs: Vec<usize> = Vec::new();
    let mut c: usize = 0;
    while c < n
        invariant
            c <= n,
            costs@.len() == c,
            agents_results@.len() == n,
            forall|j: int| 0 <= j < c ==> costs@[j] == (#[trigger] agents_results@[j]).cost,
        decreases n - c,
    {
        costs.push(agents_results[c].cost);
        c = c + 1;
    }
    let perm = clone_costs(order);
    proof {
        assert forall|j: int|
            0 <= j < n && #[trigger] order@.contains(j as usize) implies (exists|k: int|
            0 <= k < oi && #[trigger] order@[k] == j) by {
            let k = choose|k: int| 0 <= k < order@.len() && order@[k] == j as usize;
            assert(order@[k] == j);
        }
    }
    Some((resources, ArbSolution { perm, costs, robots: agents_results }))
}

/// A committed solution fits its setup: one result and one cost per agent, a
/// visiting order that is a permutation of the agents, and every agent's
/// committed plan preserves its desired moves with only waits inserted,
/// costed by the number of those waits.
pub open spec fn solution_ok(s: ArbSetup, sol: ArbSolution) -> bool {
    &&& sol.robots@.len() == s.agents@.len()
    &&& sol.costs@.len() == s.agents@.len()
    &&& is_perm_of(sol.perm@, s.agents@.len())
    &&& forall|i: int|
        0 <= i < s.agents@.len() ==> sol.costs@[i] == (#[trigger] sol.robots@[i]).cost
    &&& forall|i: int|
        0 <= i < s.agents@.len() ==> robot_result_ok(s.agents@[i], #[trigger] sol.robots@[i])
}

/// A well-formed frontier: cost vectors are pairwise distinct and pairwise
/// non-dominated, every entry holds at least one solution, and every solution
/// of an entry has exactly the entry's cost vector.
pub open spec fn frontier_wf(f: Seq<(Costs, Vec<ArbSolution>)>) -> bool {
    &&& forall|i: int, j: int|
        0 <= i < f.len() && 0 <= j < f.len() && i != j ==> !le_spec(
            (#[trigger] f[i]).0@,
            (#[trigger] f[j]).0@,
        ) && f[i].0@ != f[j].0@
    &&& forall|i: int| 0 <= i < f.len() ==> (#[trigger] f[i]).1@.len() >= 1
    &&& forall|i: int, j: int|
        0 <= i < f.len() && 0 <= j < (#[trigger] f[i]).1@.len() ==> (#[trigger] f[i].1@[j]).costs@
            == f[i].0@
}

/// In a returned frontier no cost vector dominates another: for any two
/// distinct entries, neither cost vector is componentwise at most the other
/// while differing from it.
pub proof fn lemma_pareto_non_domination(f: Seq<(Costs, Vec<ArbSolution>)>, i: int, j: int)
    requires
        frontier_wf(f),
        0 <= i < f.len(),
        0 <= j < f.len(),
        i != j,
    ensures
        !le_spec(f[i].0@, f[j].0@),
        !le_spec(f[j].0@, f[i].0@),
        f[i].0@ != f[j].0@,
{
}

/// Some entry's cost vector is componentwise at most `c`: the frontier
/// accounts for `c`, by holding it or something no worse.
pub open spec fn covered(f: Seq<(Costs, Vec<ArbSolution>)>, c: Seq<usize>) -> bool {
    exists|j: int| 0 <= j < f.len() && leq_spec((#[trigger] f[j]).0@, c)
}

/// A concrete entry witnesses `covered`.
pub proof fn lemma_covered_intro(f: Seq<(Costs, Vec<ArbSolution>)>, c: Seq<usize>, j: int)
    requires
        0 <= j < f.len(),
        leq_spec(f[j].0@, c),
    ensures
        covered(f, c),
{
    assert(leq_spec((#[trigger] f[j]).0@, c));
}

/// The componentwise order on cost vectors is transitive.
pub proof fn lemma_leq_trans(a: Seq<usize>, b: Seq<usize>, c: Seq<usize>)
    requires
        leq_spec(a, b),
        leq_spec(b, c),
    ensures
        leq_spec(a, c),
{
}

/// Coverage survives any rebuilding of the frontier that covers each old
/// entry's cost vector.
pub proof fn lemma_covered_still(
    f1: Seq<(Costs, Vec<ArbSolution>)>,
    f2: Seq<(Costs, Vec<ArbSolution>)>,
    c: Seq<usize>,
)
    requires
        covered(f1, c),
        forall|i: int| 0 <= i < f1.len() ==> covered(f2, (#[trigger] f1[i]).0@),
    ensures
        covered(f2, c),
{
    let j = choose|j: int| 0 <= j < f1.len() && leq_spec((#[trigger] f1[j]).0@, c);
    assert(covered(f2, f1[j].0@));
    let j2 = choose|j2: int| 0 <= j2 < f2.len() && leq_spec((#[trigger] f2[j2]).0@, f1[j].0@);
    lemma_leq_trans(f2[j2].0@, f1[j].0@, c);
    lemma_covered_intro(f2, c, j2);
}

/// Insert one solution into the frontier: appended to the entry with the
/// same cost vector if one exists, dropped if an existing cost vector
/// dominates it, and otherwise inserted as a new entry while every entry it
/// dominates is removed.
#[verifier::loop_isolation(false)]
fn pareto_insert(frontier: &mut Vec<(Costs, Vec<ArbSolution>)>, sol: ArbSolution)
    requires
        frontier_wf(old(frontier)@),
        forall|i: int|
            0 <= i < old(frontier)@.len() ==> (#[trigger] old(frontier)@[i]).0@.len()
                == sol.costs@.len(),
    ensures
        frontier_wf(final(frontier)@),
        forall|i: int|
            0 <= i < final(frontier)@.len() ==> (#[trigger] final(frontier)@[i]).0@.len()
                == sol.costs@.len(),
        forall|i: int, j: int|
            0 <= i < final(frontier)@.len() && 0 <= j < final(frontier)@[i].1@.len()
                ==> (exists|i2: int, j2: int|
                0 <= i2 < old(frontier)@.len() && 0 <= j2 < old(frontier)@[i2].1@.len()
                    && final(frontier)@[i].1@[j] == old(frontier)@[i2].1@[j2])
                || (#[trigger] final(frontier)@[i].1@[j]) == sol,
        covered(final(frontier)@, sol.costs@),
        forall|i: int|
            0 <= i < old(frontier)@.len() ==> covered(
                final(frontier)@,
                (#[trigger] old(frontier)@[i]).0@,
            ),
{
    let ghost f0 = frontier@;
    let mut i: usize = 0;
    while i < frontier.len()
        invariant
            i <= frontier@.len(),
            frontier@ == f0,
            forall|k: int| 0 <= k < i ==> (#[trigger] frontier@[k]).0@ != sol.costs@,
            forall|k: int| 0 <= k < i ==> !le_spec((#[trigger] frontier@[k]).0@, sol.costs@),
        decreases frontier@.len() - i,
    {
        if vec_eq(&frontier[i].0, &sol.costs) {
            let mut entry = frontier.remove(i);
            let ghost entry0 = entry.1@;
            entry.1.push(sol);
            frontier.insert(i, entry);
            proof {
                assert(frontier@ =~= f0.update(
                    i as int,
                    (f0[i as int].0, frontier@[i as int].1),
                ));
                assert(frontier@[i as int].1@ == entry0.push(sol));
                assert forall|a: int, b: int|
                    0 <= a < frontier@.len() && 0 <= b < (#[trigger] frontier@[a]).1@.len() implies (
                #[trigger] frontier@[a].1@[b]).costs@ == frontier@[a].0@ by {
                    if a == i && b == entry0.len() {
                        assert(frontier@[a].1@[b] == sol);
                    } else {
                        assert(frontier@[a].1@[b] == f0[a].1@[b]);
                    }
                }
                assert(leq_spec(frontier@[i as int].0@, sol.costs@));
                lemma_covered_intro(frontier@, sol.costs@, i as int);
                assert forall|i2: int| 0 <= i2 < f0.len() implies covered(
                    frontier@,
                    (#[trigger] f0[i2]).0@,
                ) by {
                    assert(frontier@[i2].0@ == f0[i2].0@);
                    assert(leq_spec(frontier@[i2].0@, f0[i2].0@));
                    lemma_covered_intro(frontier@, f0[i2].0@, i2);
                }
            }
            return;
        }
        if le(&frontier[i].0, &sol.costs) {
            proof {
                lemma_covered_intro(frontier@, sol.costs@, i as int);
                assert forall|i2: int| 0 <= i2 < f0.len() implies covered(
                    frontier@,
                    (#[trigger] f0[i2]).0@,
                ) by {
                    assert(leq_spec(frontier@[i2].0@, f0[i2].0@));
                    lemma_covered_intro(frontier@, f0[i2].0@, i2);
                }
            }
            return;
        }
        i = i + 1;
    }
    let ghost mut src = Seq::<int>::empty();
    let ghost mut placed = Seq::<int>::empty();
    let mut consumed: usize = 0;
    let mut keep: Vec<(Costs, Vec<ArbSolution>)> = Vec::new();
    proof {
        assert(frontier@ =~= f0.skip(0));
    }
    while frontier.len() > 0
        invariant
            consumed == f0.len() - frontier@.len(),
            frontier@ == f0.skip(consumed as int),
            src.len() == keep@.len(),
            placed.len() == consumed,
            forall|a: int| 0 <= a < src.len() ==> 0 <= #[trigger] src[a] < consumed,
            forall|a: int, b: int| 0 <= a < b < src.len() ==> src[a] < src[b],
            forall|a: int| 0 <= a < keep@.len() ==> #[trigger] keep@[a] == f0[src[a]],
            forall|a: int|
                0 <= a < keep@.len() ==> !le_spec(sol.costs@, (#[trigger] keep@[a]).0@),
            forall|i2: int|
                0 <= i2 < consumed ==> (0 <= #[trigger] placed[i2] < keep@.len() && keep@[placed[i2]]
                    == f0[i2]) || (placed[i2] == -1 && le_spec(sol.costs@, f0[i2].0@)),
        decreases frontier@.len(),
    {
        let entry = frontier.remove(0);
        proof {
            assert(entry == f0.skip(consumed as int)[0]);
            assert(entry == f0[consumed as int]);
            assert(frontier@ =~= f0.skip(consumed + 1));
        }
        let dominated = le(&sol.costs, &entry.0);
        if !dominated {
            keep.push(entry);
            proof {
                src = src.push(consumed as int);
                placed = placed.push(keep@.len() - 1);
            }
        } else {
            proof {
                placed = placed.push(-1);
            }
        }
        consumed = consumed + 1;
    }
    let key = clone_costs(&sol.costs);
    let mut sols: Vec<ArbSolution> = Vec::new();
    sols.push(sol);
    let ghost keep_done = keep@;
    keep.push((key, sols));
    proof {
        let fin = keep@;
        let m = fin.len() - 1;
        assert(fin[m].1@.len() == 1);
        assert(fin[m].1@[0] == sol);
        assert(fin[m].0@ == sol.costs@);
        assert forall|a: int, b: int|
            0 <= a < fin.len() && 0 <= b < fin.len() && a != b implies !le_spec(
            (#[trigger] fin[a]).0@,
            (#[trigger] fin[b]).0@,
        ) && fin[a].0@ != fin[b].0@ by {
            if a < m && b < m {
                assert(fin[a] == f0[src[a]]);
                assert(fin[b] == f0[src[b]]);
                assert(src[a] != src[b]);
            } else if a == m && b < m {
                assert(fin[b] == f0[src[b]]);
            } else {
                assert(a < m && b == m);
                assert(fin[a] == f0[src[a]]);
            }
        }
        assert forall|a: int| 0 <= a < fin.len() implies (#[trigger] fin[a]).1@.len() >= 1 by {
            if a < m {
                assert(fin[a] == f0[src[a]]);
            }
        }
        assert forall|a: int, b: int|
            0 <= a < fin.len() && 0 <= b < (#[trigger] fin[a]).1@.len() implies (
        #[trigger] fin[a].1@[b]).costs@ == fin[a].0@ by {
            if a < m {
                assert(fin[a] == f0[src[a]]);
            } else {
                assert(fin[a].1@[b] == sol);
            }
        }
        assert forall|a: int| 0 <= a < fin.len() implies (#[trigger] fin[a]).0@.len()
            == sol.costs@.len() by {
            if a < m {
                assert(fin[a] == f0[src[a]]);
            }
        }
        assert forall|a: int, b: int|
            0 <= a < fin.len() && 0 <= b < fin[a].1@.len() implies (exists|i2: int, j2: int|
            0 <= i2 < f0.len() && 0 <= j2 < f0[i2].1@.len() && fin[a].1@[b] == f0[i2].1@[j2]) || (
        #[trigger] fin[a].1@[b]) == sol by {
            if a < m {
                assert(fin[a] == f0[src[a]]);
                assert(fin[a].1@[b] == f0[src[a]].1@[b]);
            } else {
                assert(fin[a].1@[b] == sol);
            }
        }
        assert(leq_spec(fin[m].0@, sol.costs@));
        lemma_covered_intro(fin, sol.costs@, m);
        assert forall|i2: int| 0 <= i2 < f0.len() implies covered(
            fin,
            (#[trigger] f0[i2]).0@,
        ) by {
            if 0 <= placed[i2] < m {
                assert(fin[placed[i2]] == keep_done[placed[i2]]);
                assert(fin[placed[i2]] == f0[i2]);
                assert(leq_spec(fin[placed[i2]].0@, f0[i2].0@));
                lemma_covered_intro(fin, f0[i2].0@, placed[i2]);
            } else {
                assert(placed[i2] == -1);
                assert(le_spec(sol.costs@, f0[i2].0@));
                lemma_covered_intro(fin, f0[i2].0@, m);
            }
        }
    }
    *frontier = keep;
}

/// Two solutions with the same content, component for component.
#[verifier::opaque]
pub open spec fn sol_like(a: ArbSolution, b: ArbSolution) -> bool {
    &&& a.perm@ == b.perm@
    &&& a.costs@ == b.costs@
    &&& a.robots@.len() == b.robots@.len()
    &&& forall|i: int|
        0 <= i < a.robots@.len() ==> (#[trigger] a.robots@[i]).plan@ == b.robots@[i].plan@
            && a.robots@[i].cost == b.robots@[i].cost
}

/// An independent copy of a committed solution.
fn duplicate_solution(sol: &ArbSolution) -> (r: ArbSolution)
    ensures
        sol_like(r, *sol),
{
    proof {
        reveal(sol_like);
    }
    let perm = clone_costs(&sol.perm);
    let costs = clone_costs(&sol.costs);
    let mut robots: Vec<RobotResult> = Vec::new();
    let mut i: usize = 0;
    while i < sol.robots.len()
        invariant
            i <= sol.robots@.len(),
            robots@.len() == i,
            forall|j: int|
                0 <= j < i ==> (#[trigger] robots@[j]).plan@ == sol.robots@[j].plan@
                    && robots@[j].cost == sol.robots@[j].cost,
        decreases sol.robots@.len() - i,
    {
        let plan = clone_actions(&sol.robots[i].plan);
        robots.push(RobotResult { plan, cost: sol.robots[i].cost });
        i = i + 1;
    }
    ArbSolution { perm, costs, robots }
}

/// A concrete index witnesses membership in an index sequence.
proof fn lemma_order_contains(s: Seq<usize>, v: usize, i: int)
    requires
        0 <= i < s.len(),
        s[i] == v,
    ensures
        s.contains(v),
{
    assert(0 <= i < s.len() && s[i] == v);
}

/// Every visiting order the bounded search tries is a permutation of the
/// agents, in the capped case a permuted prefix completed by the identity.
pub proof fn lemma_order_tried_is_perm(n: nat, max: nat, p: Seq<usize>)
    requires
        order_tried(n, max, p),
    ensures
        is_perm_of(p, n),
{
    if !(max == 0 || n <= cap_of(max)) {
        let n0 = cap_of(max);
        let q = p.take(n0 as int);
        assert forall|t: int| 0 <= t < p.len() implies p[t] < n by {
            if t < n0 {
                assert(q[t] == p[t]);
                assert(q[t] < n0);
            }
        }
        assert forall|v: usize| v < n implies p.contains(v) by {
            if v < n0 {
                assert(q.contains(v));
                let w = choose|w: int| 0 <= w < q.len() && q[w] == v;
                assert(p[w] == q[w]);
                lemma_order_contains(p, v, w);
            } else {
                assert(p[v as int] == v);
                lemma_order_contains(p, v, v as int);
            }
        }
        assert forall|a: int, b: int| 0 <= a < b < p.len() implies p[a] != p[b] by {
            if b < n0 {
                assert(q[a] == p[a]);
                assert(q[b] == p[b]);
            } else if a < n0 {
                assert(q[a] == p[a]);
                assert(q[a] < n0);
                assert(p[b] == b);
            } else {
                assert(p[a] == a);
                assert(p[b] == b);
            }
        }
    }
}

/// The identity visiting order is tried at every search size and cap.
pub proof fn lemma_identity_tried(n: nat, max: nat)
    requires
        n <= usize::MAX,
    ensures
        order_tried(n, max, Seq::new(n, |i: int| i as usize)),
{
    let p = Seq::new(n, |i: int| i as usize);
    assert forall|v: usize| v < n implies p.contains(v) by {
        assert(p[v as int] == v);
        lemma_order_contains(p, v, v as int);
    }
    assert(is_perm_of(p, n));
    if !(max == 0 || n <= cap_of(max)) {
        let n0 = cap_of(max);
        let q = p.take(n0 as int);
        assert forall|v: usize| v < n0 implies q.contains(v) by {
            assert(q[v as int] == v);
            lemma_order_contains(q, v, v as int);
        }
        assert(is_perm_of(q, n0));
    }
}

/// The per-agent wait-cost vector of one visiting order's arbitration, in
/// agent-index order: each agent pays one unit per inserted wait.
pub open spec fn order_costs(s: ArbSetup, order: Seq<usize>) -> Seq<usize> {
    Seq::new(
        s.agents@.len(),
        |i: int| (arb_of_order(s, order)->Some_0.1[i].len() - s.agents@[i].plan@.len()) as usize,
    )
}

/// The solution is the arbitration of its own visiting order: the order was
/// tried by the bounded search, its arbitration succeeds, and the solution's
/// plans and costs are exactly that arbitration's.
pub open spec fn sol_from_order(s: ArbSetup, max: nat, sol: ArbSolution) -> bool {
    &&& order_tried(s.agents@.len(), max, sol.perm@)
    &&& arb_of_order(s, sol.perm@) is Some
    &&& plans_of(sol.robots@) == arb_of_order(s, sol.perm@)->Some_0.1
    &&& sol.costs@ == order_costs(s, sol.perm@)
}

/// Search visiting orders for conflict-free schedules and keep the
/// non-dominated frontier of per-agent wait-cost vectors: every order that
/// `get_permutations` yields is arbitrated, infeasible orders are discarded,
/// and each feasible solution enters the frontier unless an existing cost
/// vector dominates its own, evicting every vector it dominates. An empty
/// frontier means no tried order was feasible, not an error.
#[verifier::loop_isolation(false)]
pub fn find_feasible_plans(s: &ArbSetup, max: usize) -> (r: ArbResult)
    requires
        setup_wf(*s),
        max == 0 ==> s.agents@.len() <= 20,
    ensures
        frontier_wf(r.solutions@),
        forall|i: int, j: int|
            0 <= i < r.solutions@.len() && 0 <= j < r.solutions@[i].1@.len() ==> solution_ok(
                *s,
                #[trigger] r.solutions@[i].1@[j],
            ),
        forall|i: int, j: int|
            0 <= i < r.solutions@.len() && 0 <= j < r.solutions@[i].1@.len() ==> sol_from_order(
                *s,
                max as nat,
                #[trigger] r.solutions@[i].1@[j],
            ),
        forall|p: Seq<usize>|
            #[trigger] order_tried(s.agents@.len(), max as nat, p) && arb_of_order(*s, p)
                is Some ==> covered(r.solutions@, order_costs(*s, p)),
{
    let n = s.agents.len();
    let perms = get_permutations(n, max);
    let mut solutions: Vec<(Costs, Vec<ArbSolution>)> = Vec::new();
    let mut pi: usize = 0;
    while pi < perms.len()
        invariant
            pi <= perms@.len(),
            frontier_wf(solutions@),
            forall|i: int|
                0 <= i < solutions@.len() ==> (#[trigger] solutions@[i]).0@.len() == n,
            forall|i: int, j: int|
                0 <= i < solutions@.len() && 0 <= j < solutions@[i].1@.len() ==> solution_ok(
                    *s,
                    #[trigger] solutions@[i].1@[j],
                ),
            forall|i: int, j: int|
                0 <= i < solutions@.len() && 0 <= j < solutions@[i].1@.len() ==> sol_from_order(
                    *s,
                    max as nat,
                    #[trigger] solutions@[i].1@[j],
                ),
            forall|k: int|
                0 <= k < pi && arb_of_order(*s, (#[trigger] perms@[k])@) is Some ==> covered(
                    solutions@,
                    order_costs(*s, perms@[k]@),
                ),
        decreases perms@.len() - pi,
    {
        let perm = &perms[pi];
        proof {
            assert(is_perm_of(perm@, n as nat));
        }
        match assign(s, perm) {
            None => {
                proof {
                    assert(arb_of_order(*s, perm@) is None);
                }
            },
            Some(pair) => {
                let sol = pair.1;
                proof {
                    assert forall|i: int|
                        0 <= i < s.agents@.len() implies robot_result_ok(
                        s.agents@[i],
                        #[trigger] sol.robots@[i],
                    ) by {
                        assert(perm@.contains(i as usize));
                    }
                    assert(solution_ok(*s, sol));
                    assert(sol.costs@.len() == n);
                    assert(order_tried(n as nat, max as nat, perm@));
                    let folded = arb_of_order(*s, sol.perm@)->Some_0;
                    assert forall|i2: int| 0 <= i2 < n implies sol.costs@[i2] == order_costs(
                        *s,
                        sol.perm@,
                    )[i2] by {
                        assert(folded.1[i2] == plans_of(sol.robots@)[i2]);
                        assert(plans_of(sol.robots@)[i2] == sol.robots@[i2].plan@);
                        assert(robot_result_ok(s.agents@[i2], sol.robots@[i2]));
                    }
                    assert(sol.costs@ =~= order_costs(*s, sol.perm@));
                    assert(sol_from_order(*s, max as nat, sol));
                }
                let ghost before = solutions@;
                pareto_insert(&mut solutions, sol);
                proof {
                    assert forall|i: int, j: int|
                        0 <= i < solutions@.len() && 0 <= j < solutions@[i].1@.len()
                        implies solution_ok(*s, #[trigger] solutions@[i].1@[j]) && sol_from_order(
                        *s,
                        max as nat,
                        solutions@[i].1@[j],
                    ) by {
                        if solutions@[i].1@[j] != sol {
                            let (i2, j2) = choose|i2: int, j2: int|
                                0 <= i2 < before.len() && 0 <= j2 < before[i2].1@.len()
                                    && solutions@[i].1@[j] == before[i2].1@[j2];
                            assert(solution_ok(*s, before[i2].1@[j2]));
                            assert(sol_from_order(*s, max as nat, before[i2].1@[j2]));
                        }
                    }
                    assert forall|k: int|
                        0 <= k < pi + 1 && arb_of_order(*s, (#[trigger] perms@[k])@)
                            is Some implies covered(solutions@, order_costs(*s, perms@[k]@)) by {
                        if k < pi {
                            lemma_covered_still(before, solutions@, order_costs(*s, perms@[k]@));
                        } else {
                            assert(covered(solutions@, sol.costs@));
                        }
                    }
                }
            },
        }
        pi = pi + 1;
    }
    proof {
        assert forall|p: Seq<usize>|
            #[trigger] order_tried(s.agents@.len(), max as nat, p) && arb_of_order(*s, p)
                is Some implies covered(solutions@, order_costs(*s, p)) by {
            let k = choose|k: int| 0 <= k < perms@.len() && (#[trigger] perms@[k])@ == p;
            assert(arb_of_order(*s, perms@[k]@) is Some);
        }
    }
    ArbResult { solutions }
}

/// The kept solution has the same content as one of the given solutions.
pub open spec fn keeps_one_of(kept: ArbSolution, sols: Seq<ArbSolution>) -> bool {
    exists|j: int| 0 <= j < sols.len() && sol_like(kept, #[trigger] sols[j])
}

/// A concrete index witnesses `keeps_one_of`.
pub proof fn lemma_keeps_one_intro(kept: ArbSolution, sols: Seq<ArbSolution>, j: int)
    requires
        0 <= j < sols.len(),
        sol_like(kept, sols[j]),
    ensures
        keeps_one_of(kept, sols),
{
    assert(sol_like(kept, sols[j]));
}

/// The returned solution has the same content as a solution of the frontier.
pub open spec fn drawn_from(f: Seq<(Costs, Vec<ArbSolution>)>, r: ArbSolution) -> bool {
    exists|i: int| 0 <= i < f.len() && keeps_one_of(r, (#[trigger] f[i]).1@)
}

/// A concrete entry witnesses `drawn_from`.
pub proof fn lemma_drawn_from_intro(f: Seq<(Costs, Vec<ArbSolution>)>, r: ArbSolution, i: int)
    requires
        0 <= i < f.len(),
        keeps_one_of(r, f[i].1@),
    ensures
        drawn_from(f, r),
{
    assert(keeps_one_of(r, f[i].1@));
}

impl ArbResult {
    /// One solution drawn from the frontier: first a cost vector is chosen
    /// uniformly among the frontier's entries, then a solution uniformly
    /// within that entry's tie-set.
    pub fn pick_one(&self, rng: &mut ThreadRng) -> (r: ArbSolution)
        requires
            self.solutions@.len() > 0,
            forall|i: int|
                0 <= i < self.solutions@.len() ==> (#[trigger] self.solutions@[i]).1@.len() > 0,
        ensures
            drawn_from(self.solutions@, r),
    {
        let ci = rand_below(rng, self.solutions.len());
        let entry = &self.solutions[ci];
        let si = rand_below(rng, entry.1.len());
        let r = duplicate_solution(&entry.1[si]);
        proof {
            lemma_keeps_one_intro(r, self.solutions@[ci as int].1@, si as int);
            lemma_drawn_from_intro(self.solutions@, r, ci as int);
        }
        r
    }

    /// Collapse each tie-set of the frontier to a single representative: an
    /// entry with several equally-costed solutions keeps one of them, chosen
    /// uniformly at random; the cost vectors themselves are kept unchanged.
    pub fn remove_redundant(&self, rng: &mut ThreadRng) -> (r: Self)
        requires
            frontier_wf(self.solutions@),
        ensures
            frontier_wf(r.solutions@),
            r.solutions@.len() == self.solutions@.len(),
            forall|i: int|
                0 <= i < r.solutions@.len() ==> (#[trigger] r.solutions@[i]).0@
                    == self.solutions@[i].0@,
            forall|i: int|
                0 <= i < r.solutions@.len() ==> (#[trigger] r.solutions@[i]).1@.len() == 1,
            forall|i: int|
                0 <= i < r.solutions@.len() ==> keeps_one_of(
                    (#[trigger] r.solutions@[i]).1@[0],
                    self.solutions@[i].1@,
                ),
    {
        let mut solutions: Vec<(Costs, Vec<ArbSolution>)> = Vec::new();
        let ghost mut picks = Seq::<int>::empty();
        let mut i: usize = 0;
        while i < self.solutions.len()
            invariant
                i <= self.solutions@.len(),
                frontier_wf(self.solutions@),
                solutions@.len() == i,
                picks.len() == i,
                forall|k: int|
                    0 <= k < i ==> (#[trigger] solutions@[k]).0@ == self.solutions@[k].0@,
                forall|k: int| 0 <= k < i ==> (#[trigger] solutions@[k]).1@.len() == 1,
                forall|k: int| 0 <= k < i ==> 0 <= #[trigger] picks[k] < self.solutions@[k].1@.len(),
                forall|k: int|
                    0 <= k < i ==> sol_like(
                        (#[trigger] solutions@[k]).1@[0],
                        self.solutions@[k].1@[picks[k]],
                    ),
            decreases self.solutions@.len() - i,
        {
            let entry = &self.solutions[i];
            let pick: usize = if entry.1.len() > 1 {
                rand_below(rng, entry.1.len())
            } else {
                0
            };
            let key = clone_costs(&entry.0);
            let one = duplicate_solution(&entry.1[pick]);
            let mut sols: Vec<ArbSolution> = Vec::new();
            sols.push(one);
            solutions.push((key, sols));
            proof {
                picks = picks.push(pick as int);
                assert(sol_like(
                    solutions@[i as int].1@[0],
                    self.solutions@[i as int].1@[pick as int],
                ));
            }
            i = i + 1;
        }
        let ghost solsv = solutions@;
        let res = ArbResult { solutions };
        proof {
            assert(res.solutions@ == solsv);
            assert forall|i: int| 0 <= i < res.solutions@.len() implies keeps_one_of(
                (#[trigger] res.solutions@[i]).1@[0],
                self.solutions@[i].1@,
            ) by {
                lemma_keeps_one_intro(
                    res.solutions@[i].1@[0],
                    self.solutions@[i].1@,
                    picks[i],
                );
            }
        }
        proof {
            let fin = res.solutions@;
            let orig = self.solutions@;
            assert forall|a: int, b: int|
                0 <= a < fin.len() && 0 <= b < fin.len() && a != b implies !le_spec(
                (#[trigger] fin[a]).0@,
                (#[trigger] fin[b]).0@,
            ) && fin[a].0@ != fin[b].0@ by {
                assert(!le_spec(orig[a].0@, orig[b].0@));
                assert(orig[a].0@ != orig[b].0@);
            }
            assert forall|a: int, b: int|
                0 <= a < fin.len() && 0 <= b < (#[trigger] fin[a]).1@.len() implies (
            #[trigger] fin[a].1@[b]).costs@ == fin[a].0@ by {
                reveal(sol_like);
                assert(keeps_one_of(fin[a].1@[0], orig[a].1@));
                let j = choose|j: int| 0 <= j < orig[a].1@.len() && sol_like(fin[a].1@[0], #[trigger] orig[a].1@[j]);
                assert(orig[a].1@[j].costs@ == orig[a].0@);
            }
        }
        res
    }
}

} // verus!
