//! Single steps: where a unit on a hex goes next.

use crate::flow::{CostField, FlowField};
use crate::hex::{dist, lemma_measurable, nb, Hex, FIELD};
use crate::index::SpatialIndex;
use crate::pick::{first_least, law_first_least};
use crate::terrain::{cell, ground, lemma_cell_injective, spec_cell, Terrain, TerrainMap};
use crate::unit::{Entity, Team};
use std::collections::HashSet;
use vstd::prelude::*;

verus! {

broadcast use vstd::std_specs::hash::group_hash_axioms;

/// Hexes that are spoken for.
#[derive(Debug)]
pub struct Reserved {
    pub cells: HashSet<u64>,
}

impl View for Reserved {
    type V = Set<Hex>;

    #[verifier::opaque]
    open spec fn view(&self) -> Set<Hex> {
        Set::new(|h: Hex| self.cells@.contains(spec_cell(h)))
    }
}

impl Reserved {
    pub fn new() -> (r: Reserved)
        ensures
            r@ == Set::<Hex>::empty(),
    {
        let r = Reserved { cells: HashSet::new() };
        assert(r@ == Set::<Hex>::empty()) by {
            reveal(<Reserved as View>::view);
            assert(r@ =~= Set::<Hex>::empty());
        }
        r
    }

    pub fn contains(&self, h: Hex) -> (b: bool)
        ensures
            b == self@.contains(h),
    {
        reveal(<Reserved as View>::view);
        self.cells.contains(&cell(h))
    }

    pub fn insert(&mut self, h: Hex)
        ensures
            final(self)@ == old(self)@.insert(h),
    {
        let ghost before = *self;
        self.cells.insert(cell(h));
        proof {
            broadcast use lemma_cell_injective;

            reveal(<Reserved as View>::view);
            assert(self@ =~= before@.insert(h));
        }
    }
}

/// What a unit that picks a step goes by: the ground, who stood where when the
/// tick began, and the hexes that earlier movers took.
pub struct Surroundings {
    pub tiles: Map<Hex, Terrain>,
    pub occupied: Map<Hex, (Entity, Team)>,
    pub reserved: Set<Hex>,
}

impl Surroundings {
    /// A unit can step onto `h`.
    pub open spec fn vacant(self, h: Hex) -> bool {
        &&& ground(self.tiles, h).spec_passable()
        &&& !self.occupied.contains_key(h)
        &&& !self.reserved.contains(h)
    }

    /// The closest vacant neighbour, where it brings the goal closer.
    pub open spec fn greedy(self, from: Hex, goal: Hex) -> Option<Hex> {
        match first_least(
            6,
            |i: int| self.vacant(nb(from, i)),
            |i: int| dist(nb(from, i), goal),
        ) {
            Some(i) => if dist(nb(from, i), goal) < dist(from, goal) {
                Some(nb(from, i))
            } else {
                None
            },
            None => None,
        }
    }

    /// The closest vacant neighbour that is no further from the goal.
    pub open spec fn aside(self, from: Hex, goal: Hex) -> Option<Hex> {
        match first_least(
            6,
            |i: int| self.vacant(nb(from, i)) && dist(nb(from, i), goal) <= dist(from, goal),
            |i: int| dist(nb(from, i), goal),
        ) {
            Some(i) => Some(nb(from, i)),
            None => None,
        }
    }

    /// The vacant neighbour furthest from the enemy, where it is further away.
    pub open spec fn away(self, from: Hex, enemy: Hex) -> Option<Hex> {
        match first_least(
            6,
            |i: int| self.vacant(nb(from, i)),
            |i: int| -dist(nb(from, i), enemy),
        ) {
            Some(i) => if dist(nb(from, i), enemy) > dist(from, enemy) {
                Some(nb(from, i))
            } else {
                None
            },
            None => None,
        }
    }

    /// The vacant neighbour that is cheapest on the field, where it is cheaper than
    /// `from`, or `from` is not on the field.
    pub open spec fn downhill(self, field: Option<Map<Hex, u32>>, from: Hex) -> Option<Hex> {
        match field {
            None => None,
            Some(cost) => match first_least(
                6,
                |i: int|
                    self.vacant(nb(from, i)) && cost.contains_key(nb(from, i)) && cost[nb(
                        from,
                        i,
                    )] < u32::MAX,
                |i: int| cost[nb(from, i)] as int,
            ) {
                None => None,
                Some(i) => if !cost.contains_key(from) || cost[nb(from, i)] < cost[from] {
                    Some(nb(from, i))
                } else {
                    None
                },
            },
        }
    }
}

/// The surroundings that the executable state stands for.
pub open spec fn seen(
    terrain: &TerrainMap,
    idx: &SpatialIndex,
    reserved: &Reserved,
) -> Surroundings {
    Surroundings { tiles: terrain@, occupied: idx@, reserved: reserved@ }
}

/// A goal that distances can be measured to from anywhere on the field.
pub open spec fn in_sight(goal: Hex) -> bool {
    &&& -2 * FIELD <= goal.q <= 2 * FIELD
    &&& -2 * FIELD <= goal.r <= 2 * FIELD
}

fn vacant(h: Hex, terrain: &TerrainMap, idx: &SpatialIndex, reserved: &Reserved) -> (b: bool)
    requires
        idx.wf(),
        idx.reaches(h),
    ensures
        b == seen(terrain, idx, reserved).vacant(h),
{
    terrain.get(h).passable() && !idx.occupied(h) && !reserved.contains(h)
}

/// Closest free, passable neighbour that reduces the distance to the goal.
pub fn greedy_step(
    from: Hex,
    goal: Hex,
    terrain: &TerrainMap,
    idx: &SpatialIndex,
    reserved: &Reserved,
) -> (step: Option<Hex>)
    requires
        idx.wf(),
        idx.covers_field(),
        from.in_field(),
        in_sight(goal),
    ensures
        step == seen(terrain, idx, reserved).greedy(from, goal),
{
    let ghost s = seen(terrain, idx, reserved);
    let ghost ok = |i: int| s.vacant(nb(from, i));
    let ghost key = |i: int| dist(nb(from, i), goal);
    let around: [Hex; 6] = from.neighbors();
    let mut best: Option<Hex> = None;
    let mut best_d: i32 = i32::MAX;
    let mut i: usize = 0;
    while i < 6
        invariant
            i <= 6,
            idx.wf(),
            idx.covers_field(),
            from.in_field(),
            in_sight(goal),
            s == seen(terrain, idx, reserved),
            ok == |i: int| s.vacant(nb(from, i)),
            key == |i: int| dist(nb(from, i), goal),
            forall|j: int| 0 <= j < 6 ==> #[trigger] around[j] == nb(from, j),
            match first_least(i as nat, ok, key) {
                Some(b) => best == Some(nb(from, b)) && best_d == key(b) && 0 <= b < 6,
                None => best is None && best_d == i32::MAX,
            },
        decreases 6 - i,
    {
        let n: Hex = around[i];
        assert(n == nb(from, i as int));
        assert(ok(i as int) == s.vacant(n));
        assert(key(i as int) == dist(n, goal));
        if vacant(n, terrain, idx, reserved) {
            proof {
                lemma_measurable(n, goal);
            }
            let d: i32 = n.distance(goal);
            if d < best_d {
                best_d = d;
                best = Some(n);
            }
        }
        i = i + 1;
    }
    proof {
        lemma_measurable(from, goal);
    }
    match best {
        Some(n) => {
            if best_d < from.distance(goal) {
                Some(n)
            } else {
                None
            }
        },
        None => None,
    }
}

/// When nothing brings the goal closer: the closest free neighbour that at least
/// holds the distance.
pub fn sidestep(
    from: Hex,
    goal: Hex,
    terrain: &TerrainMap,
    idx: &SpatialIndex,
    reserved: &Reserved,
) -> (step: Option<Hex>)
    requires
        idx.wf(),
        idx.covers_field(),
        from.in_field(),
        in_sight(goal),
    ensures
        step == seen(terrain, idx, reserved).aside(from, goal),
{
    let ghost s = seen(terrain, idx, reserved);
    let ghost ok = |i: int|
        s.vacant(nb(from, i)) && dist(nb(from, i), goal) <= dist(from, goal);
    let ghost key = |i: int| dist(nb(from, i), goal);
    proof {
        lemma_measurable(from, goal);
    }
    let cur: i32 = from.distance(goal);
    let around: [Hex; 6] = from.neighbors();
    let mut best: Option<Hex> = None;
    let mut best_d: i32 = i32::MAX;
    let mut i: usize = 0;
    while i < 6
        invariant
            i <= 6,
            idx.wf(),
            idx.covers_field(),
            from.in_field(),
            in_sight(goal),
            cur == dist(from, goal),
            s == seen(terrain, idx, reserved),
            ok == |i: int| s.vacant(nb(from, i)) && dist(nb(from, i), goal) <= dist(from, goal),
            key == |i: int| dist(nb(from, i), goal),
            forall|j: int| 0 <= j < 6 ==> #[trigger] around[j] == nb(from, j),
            match first_least(i as nat, ok, key) {
                Some(b) => best == Some(nb(from, b)) && best_d == key(b) && 0 <= b < 6,
                None => best is None && best_d == i32::MAX,
            },
        decreases 6 - i,
    {
        let n: Hex = around[i];
        assert(n == nb(from, i as int));
        assert(ok(i as int) == (s.vacant(n) && dist(n, goal) <= cur));
        assert(key(i as int) == dist(n, goal));
        if vacant(n, terrain, idx, reserved) {
            proof {
                lemma_measurable(n, goal);
            }
            let d: i32 = n.distance(goal);
            if d <= cur && d < best_d {
                best_d = d;
                best = Some(n);
            }
        }
        i = i + 1;
    }
    best
}

/// Free, passable neighbour that moves away from the enemy.
pub fn kite_step(
    from: Hex,
    enemy: Hex,
    terrain: &TerrainMap,
    idx: &SpatialIndex,
    reserved: &Reserved,
) -> (step: Option<Hex>)
    requires
        idx.wf(),
        idx.covers_field(),
        from.in_field(),
        in_sight(enemy),
    ensures
        step == seen(terrain, idx, reserved).away(from, enemy),
{
    let ghost s = seen(terrain, idx, reserved);
    let ghost ok = |i: int| s.vacant(nb(from, i));
    let ghost key = |i: int| -dist(nb(from, i), enemy);
    let around: [Hex; 6] = from.neighbors();
    let mut best: Option<Hex> = None;
    let mut best_d: i32 = -1;
    let mut i: usize = 0;
    while i < 6
        invariant
            i <= 6,
            idx.wf(),
            idx.covers_field(),
            from.in_field(),
            in_sight(enemy),
            s == seen(terrain, idx, reserved),
            ok == |i: int| s.vacant(nb(from, i)),
            key == |i: int| -dist(nb(from, i), enemy),
            forall|j: int| 0 <= j < 6 ==> #[trigger] around[j] == nb(from, j),
            match first_least(i as nat, ok, key) {
                Some(b) => best == Some(nb(from, b)) && -best_d == key(b) && 0 <= b < 6,
                None => best is None && best_d == -1,
            },
        decreases 6 - i,
    {
        let n: Hex = around[i];
        assert(n == nb(from, i as int));
        assert(ok(i as int) == s.vacant(n));
        assert(key(i as int) == -dist(n, enemy));
        if vacant(n, terrain, idx, reserved) {
            proof {
                lemma_measurable(n, enemy);
            }
            let d: i32 = n.distance(enemy);
            if d > best_d {
                best_d = d;
                best = Some(n);
            }
        }
        i = i + 1;
    }
    proof {
        lemma_measurable(from, enemy);
    }
    match best {
        Some(n) => {
            if best_d > from.distance(enemy) {
                Some(n)
            } else {
                None
            }
        },
        None => None,
    }
}

/// Next hex down the field: the free, passable neighbour of lowest cost. A unit
/// on the field only steps to a strictly cheaper cell; a unit off the field steps
/// onto it.
pub fn flow_step(
    field: &FlowField,
    team: Team,
    from: Hex,
    terrain: &TerrainMap,
    idx: &SpatialIndex,
    reserved: &Reserved,
) -> (step: Option<Hex>)
    requires
        idx.wf(),
        idx.covers_field(),
        from.in_field(),
    ensures
        step == seen(terrain, idx, reserved).downhill(field@.toward(team), from),
{
    let toward: &Option<CostField> = match team {
        Team::Red => &field.red,
        Team::Blue => &field.blue,
    };
    let dist: &CostField = match toward {
        Some(f) => f,
        None => {
            return None;
        },
    };
    let ghost s = seen(terrain, idx, reserved);
    let ghost cost = dist@;
    let ghost ok = |i: int|
        s.vacant(nb(from, i)) && cost.contains_key(nb(from, i)) && cost[nb(from, i)] < u32::MAX;
    let ghost key = |i: int| cost[nb(from, i)] as int;
    let around: [Hex; 6] = from.neighbors();
    let mut best: Option<Hex> = None;
    let mut best_nd: u32 = u32::MAX;
    let mut i: usize = 0;
    while i < 6
        invariant
            i <= 6,
            idx.wf(),
            idx.covers_field(),
            from.in_field(),
            s == seen(terrain, idx, reserved),
            cost == dist@,
            ok == |i: int|
                s.vacant(nb(from, i)) && cost.contains_key(nb(from, i)) && cost[nb(from, i)]
                    < u32::MAX,
            key == |i: int| cost[nb(from, i)] as int,
            forall|j: int| 0 <= j < 6 ==> #[trigger] around[j] == nb(from, j),
            match first_least(i as nat, ok, key) {
                Some(b) => best == Some(nb(from, b)) && best_nd == key(b) && 0 <= b < 6,
                None => best is None && best_nd == u32::MAX,
            },
        decreases 6 - i,
    {
        let n: Hex = around[i];
        assert(n == nb(from, i as int));
        assert(ok(i as int) == (s.vacant(n) && cost.contains_key(n) && cost[n] < u32::MAX));
        assert(key(i as int) == cost[n]);
        proof {
            law_first_least(i as nat, ok, key);
        }
        if vacant(n, terrain, idx, reserved) {
            if let Some(nd) = dist.get(n) {
                if nd < best_nd {
                    best_nd = nd;
                    best = Some(n);
                }
            }
        }
        i = i + 1;
    }
    match best {
        Some(n) => match dist.get(from) {
            Some(here) => {
                if best_nd < here {
                    Some(n)
                } else {
                    None
                }
            },
            None => Some(n),
        },
        None => None,
    }
}

/// Neighbours are one step apart.
pub proof fn law_neighbours_are_one_step_apart(h: Hex, i: int)
    requires
        h.inner(),
        0 <= i < 6,
    ensures
        dist(h, nb(h, i)) == 1,
        nb(h, i) != h,
{
}

/// Every step is onto a vacant neighbour: a greedy one strictly closer to the
/// goal, a sidestep no further from it, a kiting one strictly further from the
/// enemy, and one down the field strictly cheaper for a unit on the field.
pub proof fn law_steps_make_progress(
    s: Surroundings,
    field: Option<Map<Hex, u32>>,
    from: Hex,
    goal: Hex,
)
    requires
        from.in_field(),
    ensures
        s.greedy(from, goal) matches Some(n) ==> s.vacant(n) && dist(from, n) == 1 && dist(n, goal)
            < dist(from, goal),
        s.aside(from, goal) matches Some(n) ==> s.vacant(n) && dist(from, n) == 1 && dist(n, goal)
            <= dist(from, goal),
        s.away(from, goal) matches Some(n) ==> s.vacant(n) && dist(from, n) == 1 && dist(n, goal)
            > dist(from, goal),
        s.downhill(field, from) matches Some(n) ==> s.vacant(n) && dist(from, n) == 1 && (
        field->0.contains_key(from) ==> field->0[n] < field->0[from]),
{
    law_first_least(6, |i: int| s.vacant(nb(from, i)), |i: int| dist(nb(from, i), goal));
    law_first_least(
        6,
        |i: int| s.vacant(nb(from, i)) && dist(nb(from, i), goal) <= dist(from, goal),
        |i: int| dist(nb(from, i), goal),
    );
    law_first_least(6, |i: int| s.vacant(nb(from, i)), |i: int| -dist(nb(from, i), goal));
    if let Some(cost) = field {
        law_first_least(
            6,
            |i: int|
                s.vacant(nb(from, i)) && cost.contains_key(nb(from, i)) && cost[nb(from, i)]
                    < u32::MAX,
            |i: int| cost[nb(from, i)] as int,
        );
    }
    assert forall|i: int| 0 <= i < 6 implies dist(from, #[trigger] nb(from, i)) == 1 by {
        law_neighbours_are_one_step_apart(from, i);
    }
}

/// Steps are the best there are: no vacant neighbour is closer to the goal than a
/// greedy step or a sidestep, or further from the enemy than a kiting step. Without
/// a greedy step no vacant neighbour is closer than `from`, without a sidestep all
/// are further, and without a kiting step none is further.
pub proof fn law_steps_are_best(s: Surroundings, from: Hex, goal: Hex, i: int)
    requires
        0 <= i < 6,
        s.vacant(nb(from, i)),
    ensures
        match s.greedy(from, goal) {
            Some(n) => dist(n, goal) <= dist(nb(from, i), goal),
            None => dist(from, goal) <= dist(nb(from, i), goal),
        },
        match s.aside(from, goal) {
            Some(n) => dist(n, goal) <= dist(nb(from, i), goal),
            None => dist(from, goal) < dist(nb(from, i), goal),
        },
        match s.away(from, goal) {
            Some(n) => dist(n, goal) >= dist(nb(from, i), goal),
            None => dist(from, goal) >= dist(nb(from, i), goal),
        },
{
    let free = |i: int| s.vacant(nb(from, i));
    let near = |i: int| dist(nb(from, i), goal);
    let far = |i: int| -dist(nb(from, i), goal);
    let level = |i: int| s.vacant(nb(from, i)) && dist(nb(from, i), goal) <= dist(from, goal);
    law_first_least(6, free, near);
    law_first_least(6, level, near);
    law_first_least(6, free, far);
    assert(free(i));
    assert(level(i) == (dist(nb(from, i), goal) <= dist(from, goal)));
    if let Some(b) = first_least(6, level, near) {
        assert(level(b));
    }
}

} // verus!
