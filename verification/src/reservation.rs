//! The time-indexed resource reservation table.
//!
//! A resource is a `(relative time step, cell)` pair that at most one agent
//! may own. The table is a ledger: re-reserving a resource for the same agent
//! is a no-op, and assigning it to a second, different agent is a caller bug,
//! excluded by precondition. The table's mathematical view is a `Map` from
//! resource keys to the owning agent.

use vstd::prelude::*;

use crate::coords::{coords_step_safe, next_coords, next_coords_spec, Actions, Coords, RobotName, XYCell};

verus! {

/// A resource key: a cell claimed at a relative time step.
pub type ResourceKey = (usize, XYCell);

/// The reservation ledger: a mapping from resource keys to the single agent
/// that owns each key.
pub struct ResourceTable {
    pub entries: Vec<(ResourceKey, RobotName)>,
}

/// The mapping that a sequence of key-owner pairs denotes; later pairs win,
/// though a well-formed table never repeats a key.
pub open spec fn map_of(s: Seq<(ResourceKey, RobotName)>) -> Map<ResourceKey, RobotName>
    decreases s.len(),
{
    if s.len() == 0 {
        Map::empty()
    } else {
        map_of(s.drop_last()).insert(s.last().0, s.last().1)
    }
}

/// A key is in the mapping exactly when some pair of the sequence carries it.
pub proof fn lemma_map_of_domain(s: Seq<(ResourceKey, RobotName)>)
    ensures
        forall|k: ResourceKey|
            #[trigger] map_of(s).contains_key(k) <==> exists|i: int|
                0 <= i < s.len() && (#[trigger] s[i]).0 == k,
    decreases s.len(),
{
    if s.len() > 0 {
        lemma_map_of_domain(s.drop_last());
        assert forall|k: ResourceKey| #[trigger] map_of(s).contains_key(k) implies exists|i: int|
            0 <= i < s.len() && (#[trigger] s[i]).0 == k by {
            if k == s.last().0 {
                assert((s[s.len() - 1]).0 == k);
            } else {
                assert(map_of(s.drop_last()).contains_key(k));
                let i = choose|i: int| 0 <= i < s.drop_last().len() && (#[trigger] s.drop_last()[i]).0 == k;
                assert(s.drop_last()[i] == s[i]);
                assert((s[i]).0 == k);
            }
        }
        assert forall|k: ResourceKey| (exists|i: int|
            0 <= i < s.len() && (#[trigger] s[i]).0 == k) implies #[trigger] map_of(s).contains_key(k) by {
            let i = choose|i: int| 0 <= i < s.len() && (#[trigger] s[i]).0 == k;
            if i < s.len() - 1 {
                assert((s.drop_last()[i]).0 == k);
                assert(map_of(s.drop_last()).contains_key(k));
            } else {
                assert(s[i] == s.last());
            }
        }
    }
}

/// The owner a key is mapped to is the one of the last pair carrying the key.
pub proof fn lemma_map_of_value(s: Seq<(ResourceKey, RobotName)>, i: int)
    requires
        0 <= i < s.len(),
        forall|j: int| i < j < s.len() ==> (#[trigger] s[j]).0 != s[i].0,
    ensures
        map_of(s).contains_key(s[i].0),
        map_of(s)[s[i].0] == s[i].1,
    decreases s.len(),
{
    if i == s.len() - 1 {
    } else {
        assert(s.drop_last()[i] == s[i]);
        lemma_map_of_value(s.drop_last(), i);
    }
}

/// The resource is owned by an agent other than `robot_name`.
pub open spec fn occupied_by_other_spec(
    m: Map<ResourceKey, RobotName>,
    t0: usize,
    xy: XYCell,
    robot_name: RobotName,
) -> bool {
    m.contains_key((t0, xy)) && m[(t0, xy)] != robot_name
}

impl ResourceTable {
    /// The mapping this table denotes.
    pub open spec fn view(self) -> Map<ResourceKey, RobotName> {
        map_of(self.entries@)
    }

    /// No resource key occurs twice: each resource has at most one owner.
    pub open spec fn wf(self) -> bool {
        forall|i: int, j: int|
            0 <= i < j < self.entries@.len() ==> (#[trigger] self.entries@[i]).0 != (
            #[trigger] self.entries@[j]).0
    }

    /// An empty ledger.
    pub fn new() -> (r: Self)
        ensures
            r.wf(),
            r@ == Map::<ResourceKey, RobotName>::empty(),
    {
        ResourceTable { entries: Vec::new() }
    }

    /// An identical, independently owned ledger.
    pub fn duplicate(&self) -> (r: Self)
        ensures
            r@ == self@,
            r.entries@ == self.entries@,
            r.wf() == self.wf(),
    {
        let mut entries: Vec<(ResourceKey, RobotName)> = Vec::new();
        let mut i: usize = 0;
        while i < self.entries.len()
            invariant
                i <= self.entries@.len(),
                entries@ == self.entries@.take(i as int),
            decreases self.entries@.len() - i,
        {
            entries.push(self.entries[i]);
            assert(entries@ =~= self.entries@.take(i + 1));
            i = i + 1;
        }
        assert(entries@ =~= self.entries@);
        ResourceTable { entries }
    }

    /// The owner of `(t0, xy)`, if the key is reserved.
    pub fn lookup(&self, t0: usize, xy: &XYCell) -> (r: Option<RobotName>)
        requires
            self.wf(),
        ensures
            r == if self@.contains_key((t0, *xy)) {
                Some(self@[(t0, *xy)])
            } else {
                None::<RobotName>
            },
    {
        proof {
            lemma_map_of_domain(self.entries@);
        }
        let key = (t0, *xy);
        let mut i: usize = 0;
        while i < self.entries.len()
            invariant
                i <= self.entries@.len(),
                self.wf(),
                key == (t0, *xy),
                forall|j: int| 0 <= j < i ==> (#[trigger] self.entries@[j]).0 != key,
                forall|k: ResourceKey|
                    #[trigger] self@.contains_key(k) <==> exists|j: int|
                        0 <= j < self.entries@.len() && (#[trigger] self.entries@[j]).0 == k,
            decreases self.entries@.len() - i,
        {
            let e = self.entries[i];
            if e.0.0 == t0 && e.0.1 == *xy {
                assert(e.0 == key);
                proof {
                    lemma_map_of_value(self.entries@, i as int);
                }
                return Some(e.1);
            }
            i = i + 1;
        }
        None
    }

    /// The number of reserved resources.
    pub fn len(&self) -> (r: usize)
        ensures
            r == self.entries@.len(),
    {
        self.entries.len()
    }
}

/// Read-only feasibility probe: whether `(t0, xy)` is already owned by an
/// agent other than `robot_name`.
pub fn occupied_by_someone_else(
    resources: &ResourceTable,
    t0: usize,
    xy: &XYCell,
    robot_name: RobotName,
) -> (r: bool)
    requires
        resources.wf(),
    ensures
        r == occupied_by_other_spec(resources@, t0, *xy, robot_name),
{
    match resources.lookup(t0, xy) {
        Some(other) => other != robot_name,
        None => false,
    }
}

/// Reserve `(t0, xy)` for `robot_name`: set the key if unset, leave the
/// ledger unchanged if the agent already owns it. Claiming a key owned by a
/// different agent is a caller bug and excluded by precondition.
pub fn mark_occupied(resources: &mut ResourceTable, t0: usize, xy: &XYCell, robot_name: RobotName)
    requires
        old(resources).wf(),
        !occupied_by_other_spec(old(resources)@, t0, *xy, robot_name),
    ensures
        final(resources).wf(),
        final(resources)@ == old(resources)@.insert((t0, *xy), robot_name),
{
    let key = (t0, *xy);
    match resources.lookup(t0, xy) {
        Some(_) => {
            proof {
                assert(resources@.insert(key, robot_name) =~= resources@);
            }
        },
        None => {
            proof {
                lemma_map_of_domain(resources.entries@);
            }
            let ghost prev = resources.entries@;
            resources.entries.push((key, robot_name));
            proof {
                assert(resources.entries@.drop_last() =~= prev);
            }
        },
    }
}

/// Re-reserving the same resource for the same agent is a no-op: a second
/// identical reservation leaves the ledger exactly as the first left it.
pub proof fn lemma_mark_occupied_idempotent(
    m: Map<ResourceKey, RobotName>,
    t0: usize,
    xy: XYCell,
    robot_name: RobotName,
)
    ensures
        m.insert((t0, xy), robot_name).insert((t0, xy), robot_name) == m.insert(
            (t0, xy),
            robot_name,
        ),
{
    assert(m.insert((t0, xy), robot_name).insert((t0, xy), robot_name) =~= m.insert(
        (t0, xy),
        robot_name,
    ));
}

/// In a well-formed table each resource key maps to exactly one agent: any
/// two entries that name the same resource name the same owner.
pub proof fn lemma_reservation_exclusivity(rt: ResourceTable)
    requires
        rt.wf(),
    ensures
        forall|i: int, j: int|
            0 <= i < rt.entries@.len() && 0 <= j < rt.entries@.len() && (
            #[trigger] rt.entries@[i]).0 == (#[trigger] rt.entries@[j]).0 ==> rt.entries@[i].1
                == rt.entries@[j].1,
{
}

/// The three resource keys one action claims: the source cell while leaving
/// it, the destination cell while entering it, and the destination cell one
/// tick later, which blocks an immediate swap by a third party.
pub open spec fn needed_keys_spec(t0: usize, coord: Coords, action: Actions) -> Seq<ResourceKey> {
    let coord2 = next_coords_spec(coord, action);
    seq![(t0, coord.xy), (t0, coord2.xy), (((t0 + 1) as usize), coord2.xy)]
}

/// The ledger holding exactly one action's resource footprint, all assigned
/// to `robot_name`.
pub fn get_resources_needed(
    t0: usize,
    coord: &Coords,
    action: Actions,
    robot_name: RobotName,
) -> (r: ResourceTable)
    requires
        coords_step_safe(*coord),
        t0 < usize::MAX,
    ensures
        r.wf(),
        r@ == Map::<ResourceKey, RobotName>::empty().insert(
            needed_keys_spec(t0, *coord, action)[0],
            robot_name,
        ).insert(needed_keys_spec(t0, *coord, action)[1], robot_name).insert(
            needed_keys_spec(t0, *coord, action)[2],
            robot_name,
        ),
        forall|k: ResourceKey| #[trigger]
            r@.contains_key(k) <==> needed_keys_spec(t0, *coord, action).contains(k),
        forall|k: ResourceKey| #[trigger] r@.contains_key(k) ==> r@[k] == robot_name,
{
    let coord2 = next_coords(coord, action);
    let mut r = ResourceTable::new();
    mark_occupied(&mut r, t0, &coord.xy, robot_name);
    mark_occupied(&mut r, t0, &coord2.xy, robot_name);
    mark_occupied(&mut r, t0 + 1, &coord2.xy, robot_name);
    proof {
        let keys = needed_keys_spec(t0, *coord, action);
        assert forall|k: ResourceKey| #[trigger] r@.contains_key(k) implies keys.contains(k) by {
            if k == keys[0] {
                assert(keys.contains(k));
            } else if k == keys[1] {
                assert(keys.contains(k));
            } else {
                assert(k == keys[2]);
                assert(keys.contains(k));
            }
        }
        assert forall|k: ResourceKey| keys.contains(k) implies #[trigger] r@.contains_key(k) by {}
    }
    r
}

/// Every key of `resources` is compatible with the committed ledger: unset,
/// or already owned by the same agent that claims it now.
pub open spec fn resources_available_spec(
    committed: Map<ResourceKey, RobotName>,
    wanted: Map<ResourceKey, RobotName>,
) -> bool {
    forall|k: ResourceKey|
        #[trigger] wanted.contains_key(k) ==> (committed.contains_key(k) ==> committed[k]
            == wanted[k])
}

/// Whether every resource of `resources` is either unset in the committed
/// ledger or already owned by the agent that would claim it.
pub fn are_resources_available(
    resources_committed: &ResourceTable,
    resources: &ResourceTable,
) -> (r: bool)
    requires
        resources_committed.wf(),
        resources.wf(),
    ensures
        r == resources_available_spec(resources_committed@, resources@),
{
    proof {
        lemma_map_of_domain(resources.entries@);
    }
    let mut i: usize = 0;
    while i < resources.entries.len()
        invariant
            i <= resources.entries@.len(),
            resources_committed.wf(),
            resources.wf(),
            forall|j: int|
                0 <= j < i ==> (resources_committed@.contains_key(
                    (#[trigger] resources.entries@[j]).0,
                ) ==> resources_committed@[resources.entries@[j].0] == resources.entries@[j].1),
        decreases resources.entries@.len() - i,
    {
        let e = resources.entries[i];
        match resources_committed.lookup(e.0.0, &e.0.1) {
            Some(owner) => {
                if owner != e.1 {
                    proof {
                        lemma_map_of_value(resources.entries@, i as int);
                    }
                    return false;
                }
            },
            None => {},
        }
        i = i + 1;
    }
    proof {
        assert forall|k: ResourceKey|
            #[trigger] resources@.contains_key(k) && resources_committed@.contains_key(
            k,
        ) implies resources_committed@[k] == resources@[k] by {
            let j = choose|j: int|
                0 <= j < resources.entries@.len() && (#[trigger] resources.entries@[j]).0 == k;
            lemma_map_of_value(resources.entries@, j);
        }
    }
    true
}

/// The largest time step any entry reserves, and `-1` for an empty table.
pub open spec fn max_key_time(s: Seq<(ResourceKey, RobotName)>) -> int
    decreases s.len(),
{
    if s.len() == 0 {
        -1
    } else {
        let rest = max_key_time(s.drop_last());
        if s.last().0.0 > rest {
            s.last().0.0 as int
        } else {
            rest
        }
    }
}

/// No entry reserves a time step beyond `max_key_time`.
pub proof fn lemma_max_key_time(s: Seq<(ResourceKey, RobotName)>)
    ensures
        forall|i: int| 0 <= i < s.len() ==> (#[trigger] s[i]).0.0 <= max_key_time(s),
    decreases s.len(),
{
    if s.len() > 0 {
        lemma_max_key_time(s.drop_last());
        assert forall|i: int| 0 <= i < s.len() implies (#[trigger] s[i]).0.0 <= max_key_time(
            s,
        ) by {
            if i < s.len() - 1 {
                assert(s.drop_last()[i] == s[i]);
            }
        }
    }
}

/// A bound on every entry's time is a bound on the largest.
pub proof fn lemma_max_key_time_le(s: Seq<(ResourceKey, RobotName)>, tb: int)
    requires
        forall|i: int| 0 <= i < s.len() ==> (#[trigger] s[i]).0.0 <= tb,
        tb >= -1,
    ensures
        max_key_time(s) <= tb,
    decreases s.len(),
{
    if s.len() > 0 {
        assert forall|i: int| 0 <= i < s.drop_last().len() implies (
        #[trigger] s.drop_last()[i]).0.0 <= tb by {
            assert(s.drop_last()[i] == s[i]);
        }
        lemma_max_key_time_le(s.drop_last(), tb);
        let l = s.len() - 1;
        assert((#[trigger] s[l]).0.0 <= tb);
        assert(s.last() == s[l]);
    }
}

/// Every entry's key is in the mapping.
pub proof fn lemma_entries_in_map(s: Seq<(ResourceKey, RobotName)>)
    ensures
        forall|i: int| 0 <= i < s.len() ==> map_of(s).contains_key((#[trigger] s[i]).0),
    decreases s.len(),
{
    if s.len() > 0 {
        lemma_entries_in_map(s.drop_last());
        assert forall|i: int| 0 <= i < s.len() implies map_of(s).contains_key(
            (#[trigger] s[i]).0,
        ) by {
            if i < s.len() - 1 {
                assert(s.drop_last()[i] == s[i]);
                assert(map_of(s.drop_last()).contains_key(s[i].0));
            } else {
                assert(s[i] == s.last());
            }
        }
    }
}

/// Feasibility test and conditional commit for one action: when the action's
/// three-key footprint is available, the successor pose and a ledger extended
/// by the footprint are returned; when it is not, nothing changes.
pub fn is_action_feasible(
    resources_committed: &ResourceTable,
    robot_name: RobotName,
    coord: &Coords,
    t0: usize,
    action: Actions,
) -> (r: Option<(Coords, ResourceTable)>)
    requires
        resources_committed.wf(),
        coords_step_safe(*coord),
        t0 < usize::MAX,
    ensures
        match r {
            Some(v) => {
                &&& v.0 == next_coords_spec(*coord, action)
                &&& v.1.wf()
                &&& v.1@ == resources_committed@.insert(
                    needed_keys_spec(t0, *coord, action)[0],
                    robot_name,
                ).insert(needed_keys_spec(t0, *coord, action)[1], robot_name).insert(
                    needed_keys_spec(t0, *coord, action)[2],
                    robot_name,
                )
                &&& forall|k: ResourceKey|
                    #[trigger] needed_keys_spec(t0, *coord, action).contains(k) ==> (
                    resources_committed@.contains_key(k) ==> resources_committed@[k] == robot_name)
            },
            None => !(forall|k: ResourceKey|
                #[trigger] needed_keys_spec(t0, *coord, action).contains(k) ==> (
                resources_committed@.contains_key(k) ==> resources_committed@[k] == robot_name)),
        },
{
    let coord2 = next_coords(coord, action);
    let new_resources = get_resources_needed(t0, coord, action, robot_name);
    if !are_resources_available(resources_committed, &new_resources) {
        proof {
            let keys = needed_keys_spec(t0, *coord, action);
            assert(!resources_available_spec(resources_committed@, new_resources@));
            let k = choose|k: ResourceKey|
                #[trigger] new_resources@.contains_key(k) && resources_committed@.contains_key(k)
                    && resources_committed@[k] != new_resources@[k];
            assert(keys.contains(k));
        }
        None
    } else {
        proof {
            let keys = needed_keys_spec(t0, *coord, action);
            assert(keys.contains(keys[0]));
            assert(keys.contains(keys[1]));
            assert(keys.contains(keys[2]));
            assert(new_resources@.contains_key(keys[0]));
            assert(new_resources@.contains_key(keys[1]));
            assert(new_resources@.contains_key(keys[2]));
            assert(new_resources@[keys[0]] == robot_name);
            assert(new_resources@[keys[1]] == robot_name);
            assert(new_resources@[keys[2]] == robot_name);
        }
        let mut committed = resources_committed.duplicate();
        mark_occupied(&mut committed, t0, &coord.xy, robot_name);
        mark_occupied(&mut committed, t0, &coord2.xy, robot_name);
        mark_occupied(&mut committed, t0 + 1, &coord2.xy, robot_name);
        Some((coord2, committed))
    }
}

} // verus!
