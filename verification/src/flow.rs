//! Shared navigation: for each team the cost of every cell of the map to the line
//! that the team marches on.

use crate::hex::{nb, Hex};
use crate::terrain::{
    by_hex, cell, ground, hex_of, in_rectangle, lemma_by_hex_empty, lemma_by_hex_get,
    lemma_by_hex_insert, lemma_by_hex_size, lemma_cell_injective, lemma_rectangle, rectangle,
    spec_cell, Terrain, TerrainMap,
};
use crate::unit::Team;
use std::collections::HashMap;
use vstd::prelude::*;

verus! {

broadcast use vstd::std_specs::hash::group_hash_axioms;

/// A cell of the map that units can enter.
pub open spec fn enterable(tiles: Map<Hex, Terrain>, h: Hex) -> bool {
    tiles.contains_key(h) && tiles[h].spec_passable()
}

/// `b` is one of the six hexes around `a`.
pub open spec fn adjacent(a: Hex, b: Hex) -> bool {
    exists|i: int| 0 <= i < 6 && #[trigger] nb(a, i) == b
}

/// A route that leads out from `goal`, each further hex next to the one before
/// and an enterable cell of the map.
pub open spec fn leads(tiles: Map<Hex, Terrain>, goal: Hex, route: Seq<Hex>, h: Hex) -> bool
    decreases route.len(),
{
    if route.len() <= 1 {
        route.len() == 1 && route.last() == h && h == goal
    } else {
        let before = route.drop_last();
        &&& route.last() == h
        &&& enterable(tiles, h)
        &&& adjacent(before.last(), h)
        &&& leads(tiles, goal, before, before.last())
    }
}

/// What entering the hexes of a route costs, the first one being free.
pub open spec fn toll(tiles: Map<Hex, Terrain>, route: Seq<Hex>) -> nat
    decreases route.len(),
{
    if route.len() <= 1 {
        0
    } else {
        toll(tiles, route.drop_last()) + ground(tiles, route.last()).spec_move_cost() as nat
    }
}

/// What it costs to come back along a route to its first hex: every hex but the
/// last one is entered.
pub open spec fn fare(tiles: Map<Hex, Terrain>, route: Seq<Hex>) -> nat
    decreases route.len(),
{
    if route.len() <= 1 {
        0
    } else {
        let before = route.drop_last();
        fare(tiles, before) + ground(tiles, before.last()).spec_move_cost() as nat
    }
}

/// Some route from `h` to the goal costs `n`.
pub open spec fn payable(tiles: Map<Hex, Terrain>, goal: Hex, h: Hex, n: int) -> bool {
    exists|route: Seq<Hex>| #[trigger] leads(tiles, goal, route, h) && fare(tiles, route) == n
}

/// Every route from `h` to the goal costs `n` or more.
pub open spec fn at_least(tiles: Map<Hex, Terrain>, goal: Hex, h: Hex, n: int) -> bool {
    forall|route: Seq<Hex>| #[trigger] leads(tiles, goal, route, h) ==> n <= fare(tiles, route)
}

/// A route to `h` exists.
pub open spec fn reachable(tiles: Map<Hex, Terrain>, goal: Hex, h: Hex) -> bool {
    exists|route: Seq<Hex>| leads(tiles, goal, route, h)
}

/// The cheapest cost from `h` to the goal.
pub open spec fn cost_of(tiles: Map<Hex, Terrain>, goal: Hex, h: Hex) -> u32 {
    choose|n: u32| payable(tiles, goal, h, n as int) && #[trigger] at_least(tiles, goal, h, n as int)
}

/// The field of a goal: the cells that it can be reached from, each with the
/// cheapest cost to it. A goal that nobody can enter has an empty field.
pub open spec fn cost_field(tiles: Map<Hex, Terrain>, goal: Hex) -> Map<Hex, u32> {
    Map::new(
        |h: Hex| ground(tiles, goal).spec_passable() && reachable(tiles, goal, h),
        |h: Hex| cost_of(tiles, goal, h),
    )
}

/// Costs by cell.
#[derive(Debug)]
pub struct CostField {
    pub cells: HashMap<u64, u32>,
}

impl View for CostField {
    type V = Map<Hex, u32>;

    open spec fn view(&self) -> Map<Hex, u32> {
        by_hex(self.cells@)
    }
}

impl CostField {
    pub fn new() -> (f: CostField)
        ensures
            f@ == Map::<Hex, u32>::empty(),
    {
        proof {
            lemma_by_hex_empty::<u32>();
        }
        CostField { cells: HashMap::new() }
    }

    pub fn get(&self, h: Hex) -> (c: Option<u32>)
        ensures
            c is Some <==> self@.contains_key(h),
            c matches Some(n) ==> self@[h] == n,
    {
        proof {
            lemma_by_hex_get(self.cells@, h);
        }
        match self.cells.get(&cell(h)) {
            Some(c) => Some(*c),
            None => None,
        }
    }

    pub fn set(&mut self, h: Hex, c: u32)
        ensures
            final(self)@ == old(self)@.insert(h, c),
    {
        proof {
            lemma_by_hex_insert(self.cells@, h, c);
        }
        self.cells.insert(cell(h), c);
    }
}

// The search keeps these of its costs `d`, its queue `q` and the cells it is
// `done` with.
spec fn paid(tiles: Map<Hex, Terrain>, goal: Hex, d: Map<Hex, u32>) -> bool {
    forall|h: Hex| #[trigger] d.contains_key(h) ==> payable(tiles, goal, h, d[h] as int)
}

spec fn settled(tiles: Map<Hex, Terrain>, goal: Hex, d: Map<Hex, u32>, done: Set<Hex>) -> bool {
    forall|h: Hex| #[trigger]
        done.contains(h) ==> d.contains_key(h) && at_least(tiles, goal, h, d[h] as int)
}

spec fn relaxed(tiles: Map<Hex, Terrain>, d: Map<Hex, u32>, a: Hex, i: int) -> bool {
    enterable(tiles, nb(a, i)) ==> d.contains_key(nb(a, i)) && d[nb(a, i)] <= d[a] + ground(
        tiles,
        a,
    ).spec_move_cost()
}

/// All the cells that are done have been relaxed, `last` only in the directions
/// below `upto`.
spec fn spread(
    tiles: Map<Hex, Terrain>,
    d: Map<Hex, u32>,
    done: Set<Hex>,
    last: Hex,
    upto: int,
) -> bool {
    forall|a: Hex, i: int|
        done.contains(a) && 0 <= i < 6 && (a != last || i < upto) ==> #[trigger] relaxed(
            tiles,
            d,
            a,
            i,
        )
}

spec fn queued(d: Map<Hex, u32>, q: Seq<(u32, Hex)>, done: Set<Hex>) -> bool {
    forall|h: Hex| #[trigger]
        d.contains_key(h) && !done.contains(h) ==> q.contains((d[h], h))
}

spec fn overstated(d: Map<Hex, u32>, q: Seq<(u32, Hex)>) -> bool {
    forall|k: int|
        0 <= k < q.len() ==> d.contains_key((#[trigger] q[k]).1) && d[q[k].1] <= q[k].0
}

spec fn confined(
    tiles: Map<Hex, Terrain>,
    goal: Hex,
    d: Map<Hex, u32>,
    done: Set<Hex>,
) -> bool {
    forall|h: Hex| #[trigger]
        d.contains_key(h) ==> (tiles.contains_key(h) || h == goal) && d[h] <= 2 * done.len()
}

spec fn searching(
    tiles: Map<Hex, Terrain>,
    goal: Hex,
    d: Map<Hex, u32>,
    q: Seq<(u32, Hex)>,
    done: Set<Hex>,
) -> bool {
    &&& tiles.dom().finite()
    &&& done.finite()
    &&& done.subset_of(tiles.dom().insert(goal))
    &&& d.contains_key(goal)
    &&& d[goal] == 0
    &&& paid(tiles, goal, d)
    &&& settled(tiles, goal, d, done)
    &&& queued(d, q, done)
    &&& overstated(d, q)
    &&& confined(tiles, goal, d, done)
}

/// With every done cell relaxed, a route to a cell that is not done passes a
/// queued cell, so it costs no less than the least of those.
proof fn lemma_frontier(
    tiles: Map<Hex, Terrain>,
    goal: Hex,
    d: Map<Hex, u32>,
    done: Set<Hex>,
    least: u32,
    route: Seq<Hex>,
    h: Hex,
)
    requires
        d.contains_key(goal),
        d[goal] == 0,
        settled(tiles, goal, d, done),
        forall|a: Hex, i: int|
            done.contains(a) && 0 <= i < 6 ==> #[trigger] relaxed(tiles, d, a, i),
        forall|x: Hex| #[trigger] d.contains_key(x) && !done.contains(x) ==> least <= d[x],
        leads(tiles, goal, route, h),
    ensures
        d.contains_key(h) || least <= fare(tiles, route),
        !done.contains(h) ==> least <= fare(tiles, route),
    decreases route.len(),
{
    if route.len() > 1 {
        let before = route.drop_last();
        let y = before.last();
        lemma_frontier(tiles, goal, d, done, least, before, y);
        if done.contains(y) {
            let i = choose|i: int| 0 <= i < 6 && #[trigger] nb(y, i) == h;
            assert(relaxed(tiles, d, y, i));
            assert(at_least(tiles, goal, y, d[y] as int));
            assert(leads(tiles, goal, before, y));
            assert(d[y] <= fare(tiles, before));
            assert(d.contains_key(h) && d[h] <= fare(tiles, route));
        }
    }
}

/// From one hex further on, the hex before has to be entered too.
proof fn lemma_extend(tiles: Map<Hex, Terrain>, goal: Hex, h: Hex, c: int, i: int)
    requires
        payable(tiles, goal, h, c),
        0 <= i < 6,
        enterable(tiles, nb(h, i)),
    ensures
        payable(tiles, goal, nb(h, i), c + ground(tiles, h).spec_move_cost()),
{
    let route = choose|route: Seq<Hex>| #[trigger]
        leads(tiles, goal, route, h) && fare(tiles, route) == c;
    let n = nb(h, i);
    let longer = route.push(n);
    assert(longer.drop_last() =~= route);
    assert(route.last() == h);
    assert(leads(tiles, goal, longer, n));
}

/// Removes an entry of least cost from the queue.
fn take_least(queue: &mut Vec<(u32, Hex)>) -> (least: (u32, Hex))
    requires
        old(queue)@.len() > 0,
    ensures
        old(queue)@.contains(least),
        forall|k: int| 0 <= k < old(queue)@.len() ==> least.0 <= (#[trigger] old(queue)@[k]).0,
        final(queue)@.len() == old(queue)@.len() - 1,
        forall|e: (u32, Hex)| #[trigger]
            old(queue)@.contains(e) && e != least ==> final(queue)@.contains(e),
        forall|k: int|
            0 <= k < final(queue)@.len() ==> old(queue)@.contains(#[trigger] final(queue)@[k]),
{
    let mut best: usize = 0;
    let mut k: usize = 1;
    while k < queue.len()
        invariant
            1 <= k <= queue@.len(),
            best < queue@.len(),
            forall|j: int| 0 <= j < k ==> queue@[best as int].0 <= (#[trigger] queue@[j]).0,
        decreases queue@.len() - k,
    {
        if queue[k].0 < queue[best].0 {
            best = k;
        }
        k = k + 1;
    }
    let ghost all = queue@;
    let least: (u32, Hex) = queue.swap_remove(best);
    proof {
        assert(all[best as int] == least);
        assert forall|e: (u32, Hex)| #[trigger] all.contains(e) && e != least implies queue@.contains(
            e,
        ) by {
            let j = choose|j: int| 0 <= j < all.len() && all[j] == e;
            if j == all.len() - 1 {
                assert(queue@[best as int] == e);
            } else {
                assert(queue@[j] == e);
            }
        }
        assert forall|j: int| 0 <= j < queue@.len() implies all.contains(#[trigger] queue@[j]) by {
            if j == best {
                assert(all[all.len() - 1] == queue@[j]);
            } else {
                assert(all[j] == queue@[j]);
            }
        }
    }
    least
}

/// Every tile has neighbours with coordinates.
pub open spec fn charted(tiles: Map<Hex, Terrain>) -> bool {
    &&& tiles.dom().len() <= 0x7fff_fffd
    &&& forall|h: Hex| #[trigger] tiles.contains_key(h) ==> h.inner()
}

proof fn lemma_done_count(tiles: Map<Hex, Terrain>, goal: Hex, done: Set<Hex>)
    requires
        tiles.dom().finite(),
        done.subset_of(tiles.dom().insert(goal)),
    ensures
        done.len() <= tiles.dom().len() + 1,
{
    vstd::set_lib::lemma_len_subset(done, tiles.dom().insert(goal));
}

/// Notes what the goal costs from the cells around `h`, which is done: what it
/// costs from `h`, and entering `h`.
fn relax_around(
    terrain: &TerrainMap,
    Ghost(goal): Ghost<Hex>,
    h: Hex,
    d: u32,
    dist: &mut CostField,
    queue: &mut Vec<(u32, Hex)>,
    Ghost(done): Ghost<Set<Hex>>,
    Ghost(again): Ghost<bool>,
)
    requires
        charted(terrain@),
        h.inner(),
        searching(terrain@, goal, old(dist)@, old(queue)@, done),
        done.contains(h),
        old(dist)@[h] == d,
        again || d + 2 <= 2 * done.len(),
        spread(terrain@, old(dist)@, done, h, 0),
        again ==> spread(terrain@, old(dist)@, done, h, 6),
    ensures
        searching(terrain@, goal, final(dist)@, final(queue)@, done),
        spread(terrain@, final(dist)@, done, h, 6),
        again ==> final(queue)@ == old(queue)@,
{
    let ghost tiles = terrain@;
    let around: [Hex; 6] = h.neighbors();
    proof {
        lemma_by_hex_size(terrain.tiles@);
        lemma_done_count(tiles, goal, done);
    }
    let cost: u32 = terrain.get(h).move_cost() as u32;
    let mut i: usize = 0;
    while i < 6
        invariant
            i <= 6,
            tiles == terrain@,
            cost == ground(tiles, h).spec_move_cost(),
            charted(tiles),
            done.len() <= tiles.dom().len() + 1,
            forall|j: int| 0 <= j < 6 ==> #[trigger] around[j] == nb(h, j),
            searching(tiles, goal, dist@, queue@, done),
            done.contains(h),
            dist@[h] == d,
            again || d + 2 <= 2 * done.len(),
            spread(tiles, dist@, done, h, i as int),
            again ==> spread(tiles, dist@, done, h, 6),
            again ==> queue@ == old(queue)@,
        decreases 6 - i,
    {
        let n: Hex = around[i];
        assert(n == nb(h, i as int));
        let ghost d0 = dist@;
        let ghost q0 = queue@;
        if terrain.covers(n) {
            if terrain.get(n).passable() {
                let nd: u32 = d + cost;
                let closer: bool = match dist.get(n) {
                    Some(c) => nd < c,
                    None => true,
                };
                proof {
                    assert(again ==> relaxed(tiles, d0, h, i as int));
                    assert(paid(tiles, goal, d0));
                    assert(d0.contains_key(h));
                    lemma_extend(tiles, goal, h, d as int, i as int);
                }
                if closer {
                    proof {
                        if done.contains(n) {
                            let route = choose|route: Seq<Hex>| #[trigger]
                                leads(tiles, goal, route, n) && fare(tiles, route) == nd;
                            assert(at_least(tiles, goal, n, d0[n] as int));
                        }
                        if n == goal {
                            assert(d0.contains_key(n));
                        }
                    }
                    dist.set(n, nd);
                    queue.push((nd, n));
                    proof {
                        lemma_relax(tiles, goal, d0, q0, done, h, i as int, nd);
                    }
                }
            }
        }
        proof {
            assert forall|a: Hex, j: int|
                done.contains(a) && 0 <= j < 6 && (a != h || j < i + 1) implies #[trigger] relaxed(
                tiles,
                dist@,
                a,
                j,
            ) by {
                if a == h && j == i {
                } else {
                    assert(relaxed(tiles, d0, a, j));
                    assert(d0.contains_key(a));
                }
            }
        }
        i = i + 1;
    }
}

/// Lowering the cost of a cell that is not done keeps the search sound.
proof fn lemma_relax(
    tiles: Map<Hex, Terrain>,
    goal: Hex,
    d: Map<Hex, u32>,
    q: Seq<(u32, Hex)>,
    done: Set<Hex>,
    h: Hex,
    i: int,
    nd: u32,
)
    requires
        searching(tiles, goal, d, q, done),
        enterable(tiles, nb(h, i)),
        !done.contains(nb(h, i)),
        nb(h, i) != goal,
        payable(tiles, goal, nb(h, i), nd as int),
        d.contains_key(nb(h, i)) ==> nd < d[nb(h, i)],
        nd <= 2 * done.len(),
    ensures
        searching(tiles, goal, d.insert(nb(h, i), nd), q.push((nd, nb(h, i))), done),
{
    let n = nb(h, i);
    let d1 = d.insert(n, nd);
    let q1 = q.push((nd, n));
    assert(q1[q.len() as int] == (nd, n));
    assert forall|x: Hex| #[trigger] d1.contains_key(x) && !done.contains(x) implies q1.contains(
        (d1[x], x),
    ) by {
        if x != n {
            assert(d.contains_key(x));
            let k = choose|k: int| 0 <= k < q.len() && q[k] == (d[x], x);
            assert(q1[k] == (d1[x], x));
        }
    }
    assert forall|k: int| 0 <= k < q1.len() implies d1.contains_key((#[trigger] q1[k]).1)
        && d1[q1[k].1] <= q1[k].0 by {
        if k < q.len() {
            assert(q1[k] == q[k]);
        }
    }
    assert forall|x: Hex| #[trigger] d1.contains_key(x) implies payable(
        tiles,
        goal,
        x,
        d1[x] as int,
    ) by {
        if x != n {
            assert(d.contains_key(x));
        }
    }
    assert forall|x: Hex| #[trigger] done.contains(x) implies d1.contains_key(x) && at_least(
        tiles,
        goal,
        x,
        d1[x] as int,
    ) by {}
    assert forall|x: Hex| #[trigger] d1.contains_key(x) implies (tiles.contains_key(x) || x == goal)
        && d1[x] <= 2 * done.len() by {
        if x != n {
            assert(d.contains_key(x));
        }
    }
}

/// A cell of least cost in the queue is settled.
proof fn lemma_settle(
    tiles: Map<Hex, Terrain>,
    goal: Hex,
    d: Map<Hex, u32>,
    q: Seq<(u32, Hex)>,
    rest: Seq<(u32, Hex)>,
    done: Set<Hex>,
    h: Hex,
    other: Hex,
)
    requires
        searching(tiles, goal, d, q, done),
        spread(tiles, d, done, other, 6),
        d.contains_key(h),
        forall|k: int| 0 <= k < q.len() ==> d[h] <= (#[trigger] q[k]).0,
        forall|e: (u32, Hex)| #[trigger] q.contains(e) && e != (d[h], h) ==> rest.contains(e),
        forall|k: int| 0 <= k < rest.len() ==> q.contains(#[trigger] rest[k]),
    ensures
        searching(tiles, goal, d, rest, done.insert(h)),
        spread(tiles, d, done.insert(h), h, 0),
        done.contains(h) ==> spread(tiles, d, done.insert(h), h, 6),
        !done.contains(h) ==> d[h] + 2 <= 2 * done.insert(h).len(),
        !done.contains(h) ==> done.insert(h).len() == done.len() + 1,
{
    let done1 = done.insert(h);
    assert forall|x: Hex| #[trigger] d.contains_key(x) && !done.contains(x) implies d[h] <= d[x] by {
        let k = choose|k: int| 0 <= k < q.len() && q[k] == (d[x], x);
        assert(d[h] <= q[k].0);
    }
    assert forall|a: Hex, i: int| done.contains(a) && 0 <= i < 6 implies #[trigger] relaxed(
        tiles,
        d,
        a,
        i,
    ) by {}
    if !done.contains(h) {
        assert forall|route: Seq<Hex>| #[trigger] leads(tiles, goal, route, h) implies d[h] <= fare(
            tiles,
            route,
        ) by {
            lemma_frontier(tiles, goal, d, done, d[h], route, h);
        }
    }
    assert forall|x: Hex| #[trigger] d.contains_key(x) && !done1.contains(x) implies rest.contains(
        (d[x], x),
    ) by {
        assert(q.contains((d[x], x)));
    }
    assert forall|k: int| 0 <= k < rest.len() implies d.contains_key((#[trigger] rest[k]).1)
        && d[rest[k].1] <= rest[k].0 by {
        let j = choose|j: int| 0 <= j < q.len() && q[j] == rest[k];
        assert(d[q[j].1] <= q[j].0);
    }
    assert forall|a: Hex, i: int|
        done1.contains(a) && 0 <= i < 6 && (a != h || (done.contains(h) && i < 6)) implies #[trigger] relaxed(
        tiles,
        d,
        a,
        i,
    ) by {
        assert(done.contains(a));
    }
}

/// When nothing is queued, every reachable cell has its cheapest cost.
proof fn lemma_complete(tiles: Map<Hex, Terrain>, goal: Hex, d: Map<Hex, u32>, done: Set<Hex>, last: Hex)
    requires
        ground(tiles, goal).spec_passable(),
        searching(tiles, goal, d, Seq::empty(), done),
        spread(tiles, d, done, last, 6),
    ensures
        d == cost_field(tiles, goal),
{
    let field = cost_field(tiles, goal);
    assert forall|h: Hex| #[trigger] d.contains_key(h) implies done.contains(h) by {
        if !done.contains(h) {
            assert(Seq::<(u32, Hex)>::empty().contains((d[h], h)));
        }
    }
    assert forall|a: Hex, i: int| done.contains(a) && 0 <= i < 6 implies #[trigger] relaxed(
        tiles,
        d,
        a,
        i,
    ) by {}
    assert forall|h: Hex| #[trigger] field.contains_key(h) implies d.contains_key(h) by {
        let route = choose|route: Seq<Hex>| leads(tiles, goal, route, h);
        lemma_frontier(tiles, goal, d, done, u32::MAX, route, h);
        lemma_covered(tiles, goal, d, done, route, h);
    }
    assert forall|h: Hex| #[trigger] d.contains_key(h) implies field.contains_key(h) && field[h]
        == d[h] by {
        assert(payable(tiles, goal, h, d[h] as int));
        assert(at_least(tiles, goal, h, d[h] as int));
        lemma_cost_unique(tiles, goal, h, d[h]);
    }
    assert(d =~= field);
}

proof fn lemma_covered(
    tiles: Map<Hex, Terrain>,
    goal: Hex,
    d: Map<Hex, u32>,
    done: Set<Hex>,
    route: Seq<Hex>,
    h: Hex,
)
    requires
        d.contains_key(goal),
        forall|x: Hex| #[trigger] d.contains_key(x) ==> done.contains(x),
        forall|a: Hex, i: int|
            done.contains(a) && 0 <= i < 6 ==> #[trigger] relaxed(tiles, d, a, i),
        leads(tiles, goal, route, h),
    ensures
        d.contains_key(h),
    decreases route.len(),
{
    if route.len() > 1 {
        let before = route.drop_last();
        let y = before.last();
        lemma_covered(tiles, goal, d, done, before, y);
        let i = choose|i: int| 0 <= i < 6 && #[trigger] nb(y, i) == h;
        assert(relaxed(tiles, d, y, i));
    }
}

/// The cheapest cost is the only cost that is both payable and least.
pub proof fn lemma_cost_unique(tiles: Map<Hex, Terrain>, goal: Hex, h: Hex, n: u32)
    requires
        payable(tiles, goal, h, n as int),
        at_least(tiles, goal, h, n as int),
    ensures
        cost_of(tiles, goal, h) == n,
{
    let m = cost_of(tiles, goal, h);
    assert(payable(tiles, goal, h, m as int) && at_least(tiles, goal, h, m as int));
    let a = choose|route: Seq<Hex>| #[trigger]
        leads(tiles, goal, route, h) && fare(tiles, route) == n;
    let b = choose|route: Seq<Hex>| #[trigger]
        leads(tiles, goal, route, h) && fare(tiles, route) == m;
    assert(m <= fare(tiles, a));
    assert(n <= fare(tiles, b));
}

/// The cheapest cost to `goal` from every cell of the map that it can be reached
/// from, found from `goal` outward. Entering a cell costs that cell's move cost.
pub fn integrate(terrain: &TerrainMap, goal: Hex) -> (field: CostField)
    requires
        goal.inner(),
        charted(terrain@),
    ensures
        field@ == cost_field(terrain@, goal),
{
    let ghost tiles = terrain@;
    let mut dist: CostField = CostField::new();
    if !terrain.get(goal).passable() {
        assert(dist@ =~= cost_field(tiles, goal));
        return dist;
    }
    dist.set(goal, 0);
    let mut queue: Vec<(u32, Hex)> = Vec::new();
    queue.push((0, goal));
    let ghost mut done: Set<Hex> = Set::empty();
    let ghost mut last: Hex = goal;
    proof {
        lemma_by_hex_size(terrain.tiles@);
        let start = seq![goal];
        assert(start.last() == goal);
        assert(leads(tiles, goal, start, goal));
        assert(fare(tiles, start) == 0);
        assert(queue@[0] == (0u32, goal));
        assert(queue@.contains((0u32, goal)));
    }
    while queue.len() > 0
        invariant
            tiles == terrain@,
            charted(tiles),
            goal.inner(),
            ground(tiles, goal).spec_passable(),
            searching(tiles, goal, dist@, queue@, done),
            spread(tiles, dist@, done, last, 6),
        decreases tiles.dom().len() + 1 - done.len(), queue@.len(),
    {
        let ghost q0 = queue@;
        let ghost done0 = done;
        let (d, h): (u32, Hex) = take_least(&mut queue);
        proof {
            let k = choose|k: int| 0 <= k < q0.len() && q0[k] == (d, h);
            assert(dist@.contains_key(q0[k].1) && dist@[q0[k].1] <= q0[k].0);
        }
        let stale: bool = match dist.get(h) {
            Some(c) => d > c,
            None => false,
        };
        if stale {
            proof {
                lemma_drop_stale(tiles, goal, dist@, q0, queue@, done, (d, h));
            }
            continue ;
        }
        proof {
            lemma_settle(tiles, goal, dist@, q0, queue@, done, h, last);
            done = done.insert(h);
            last = h;
            lemma_done_count(tiles, goal, done);
            assert(dist@.contains_key(h) && (tiles.contains_key(h) || h == goal));
            if done0.contains(h) {
                assert(done =~= done0);
                assert(done.contains(h));
            }
        }
        relax_around(
            terrain,
            Ghost(goal),
            h,
            d,
            &mut dist,
            &mut queue,
            Ghost(done),
            Ghost(done0.contains(h)),
        );
    }
    proof {
        assert(queue@ =~= Seq::empty());
        lemma_complete(tiles, goal, dist@, done, last);
    }
    dist
}

/// Dropping an entry that overstates its cell leaves the search as it was.
proof fn lemma_drop_stale(
    tiles: Map<Hex, Terrain>,
    goal: Hex,
    d: Map<Hex, u32>,
    q: Seq<(u32, Hex)>,
    rest: Seq<(u32, Hex)>,
    done: Set<Hex>,
    e: (u32, Hex),
)
    requires
        searching(tiles, goal, d, q, done),
        d.contains_key(e.1),
        e.0 > d[e.1],
        forall|x: (u32, Hex)| #[trigger] q.contains(x) && x != e ==> rest.contains(x),
        forall|k: int| 0 <= k < rest.len() ==> q.contains(#[trigger] rest[k]),
    ensures
        searching(tiles, goal, d, rest, done),
{
    assert forall|x: Hex| #[trigger] d.contains_key(x) && !done.contains(x) implies rest.contains(
        (d[x], x),
    ) by {
        assert(q.contains((d[x], x)));
    }
    assert forall|k: int| 0 <= k < rest.len() implies d.contains_key((#[trigger] rest[k]).1)
        && d[rest[k].1] <= rest[k].0 by {
        let j = choose|j: int| 0 <= j < q.len() && q[j] == rest[k];
        assert(d[q[j].1] <= q[j].0);
    }
}

/// The content of an optional field.
pub open spec fn content(field: Option<CostField>) -> Option<Map<Hex, u32>> {
    match field {
        Some(f) => Some(f@),
        None => None,
    }
}

/// Each team's field toward the line that it marches on. The fields depend on the
/// terrain alone: they are built once and kept for the rest of the battle.
#[derive(Debug)]
pub struct FlowField {
    pub red: Option<CostField>,
    pub blue: Option<CostField>,
    pub built: bool,
}

/// The content of a [`FlowField`].
pub struct FlowView {
    pub red: Option<Map<Hex, u32>>,
    pub blue: Option<Map<Hex, u32>>,
    pub built: bool,
}

impl FlowView {
    /// The field that a team follows.
    pub open spec fn toward(self, team: Team) -> Option<Map<Hex, u32>> {
        match team {
            Team::Red => self.red,
            Team::Blue => self.blue,
        }
    }

    /// The fields after a look at the terrain.
    pub open spec fn surveyed(self, tiles: Map<Hex, Terrain>) -> FlowView {
        if self.built || tiles.is_empty() {
            self
        } else {
            FlowView {
                red: Some(cost_field(tiles, spec_enemy_line(Team::Red))),
                blue: Some(cost_field(tiles, spec_enemy_line(Team::Blue))),
                built: true,
            }
        }
    }
}

impl View for FlowField {
    type V = FlowView;

    open spec fn view(&self) -> FlowView {
        FlowView { red: content(self.red), blue: content(self.blue), built: self.built }
    }
}

impl Default for FlowField {
    fn default() -> (f: FlowField)
        ensures
            f@ == (FlowView { red: None, blue: None, built: false }),
    {
        FlowField { red: None, blue: None, built: false }
    }
}

pub open spec fn spec_enemy_line(team: Team) -> Hex {
    match team {
        Team::Red => Hex { q: 30, r: 0 },
        Team::Blue => Hex { q: -30i32, r: 0 },
    }
}

/// March target without an enemy in sight: the far side that the enemy came from.
pub fn enemy_line(team: Team) -> (h: Hex)
    ensures
        h == spec_enemy_line(team),
{
    match team {
        Team::Red => Hex::new(30, 0),
        Team::Blue => Hex::new(-30, 0),
    }
}

pub open spec fn spec_own_line(team: Team) -> Hex {
    match team {
        Team::Red => Hex { q: -30i32, r: 0 },
        Team::Blue => Hex { q: 30, r: 0 },
    }
}

/// Retreat target without an enemy in sight: the own back line.
pub fn own_line(team: Team) -> (h: Hex)
    ensures
        h == spec_own_line(team),
{
    match team {
        Team::Red => Hex::new(-30, 0),
        Team::Blue => Hex::new(30, 0),
    }
}

/// Builds each team's field once there is terrain, and leaves them alone after.
pub fn build_flow_fields(terrain: &TerrainMap, field: &mut FlowField)
    requires
        charted(terrain@),
    ensures
        final(field)@ == old(field)@.surveyed(terrain@),
{
    if field.built || terrain.is_empty() {
        return;
    }
    field.built = true;
    field.red = Some(integrate(terrain, enemy_line(Team::Red)));
    field.blue = Some(integrate(terrain, enemy_line(Team::Blue)));
}

/// Every cell of a field but the goal has a neighbour on the field that is
/// strictly cheaper, so going down the field ends at the goal. The goal costs
/// nothing, and every cell of the field can be entered.
pub proof fn law_field_leads_down_to_the_goal(tiles: Map<Hex, Terrain>, goal: Hex, h: Hex)
    requires
        tiles.dom().finite(),
        charted(tiles),
        cost_field(tiles, goal).contains_key(h),
    ensures
        h == goal <==> cost_field(tiles, goal)[h] == 0,
        h == goal || enterable(tiles, h),
        h != goal ==> exists|y: Hex| #[trigger]
            cost_field(tiles, goal).contains_key(y) && adjacent(y, h) && cost_field(tiles, goal)[y]
                < cost_field(tiles, goal)[h],
{
    lemma_cost_exists(tiles, goal, h);
    let n = cost_of(tiles, goal, h);
    let route = choose|route: Seq<Hex>| #[trigger]
        leads(tiles, goal, route, h) && fare(tiles, route) == n;
    let start = seq![goal];
    assert(start.last() == goal);
    assert(leads(tiles, goal, start, goal));
    if route.len() > 1 {
        let before = route.drop_last();
        let y = before.last();
        assert(leads(tiles, goal, before, y));
        lemma_cost_exists(tiles, goal, y);
        assert(cost_of(tiles, goal, y) <= fare(tiles, before));
        assert(cost_field(tiles, goal).contains_key(y));
    }
    if h == goal {
        assert(n <= fare(tiles, start));
    }
}

/// A hex with a route has a cheapest one, whose cost is in range.
pub proof fn lemma_cost_exists(tiles: Map<Hex, Terrain>, goal: Hex, h: Hex)
    requires
        tiles.dom().finite(),
        charted(tiles),
        reachable(tiles, goal, h),
    ensures
        payable(tiles, goal, h, cost_of(tiles, goal, h) as int),
        at_least(tiles, goal, h, cost_of(tiles, goal, h) as int),
{
    let route = choose|route: Seq<Hex>| leads(tiles, goal, route, h);
    lemma_least_payable(tiles, goal, h, fare(tiles, route));
    let n = choose|n: int| payable(tiles, goal, h, n) && #[trigger] at_least(tiles, goal, h, n);
    let best = choose|route: Seq<Hex>| #[trigger]
        leads(tiles, goal, route, h) && fare(tiles, route) == n;
    assert forall|k: int| 0 <= k < best.len() implies tiles.dom().insert(goal).contains(
        #[trigger] best[k],
    ) by {
        lemma_prefix(tiles, goal, best, h, k);
    }
    let short = lemma_short_route(tiles, goal, best, h, tiles.dom().insert(goal));
    assert(n <= fare(tiles, short));
    lemma_cost_unique(tiles, goal, h, n as u32);
}

proof fn lemma_least_payable(tiles: Map<Hex, Terrain>, goal: Hex, h: Hex, n: nat)
    requires
        payable(tiles, goal, h, n as int),
    ensures
        exists|m: int| payable(tiles, goal, h, m) && #[trigger] at_least(tiles, goal, h, m),
    decreases n,
{
    if !at_least(tiles, goal, h, n as int) {
        let route = choose|route: Seq<Hex>| #[trigger]
            leads(tiles, goal, route, h) && n > fare(tiles, route);
        lemma_least_payable(tiles, goal, h, fare(tiles, route));
    }
}

/// A route within a finite set of hexes can be cut short until it visits none of
/// them twice; its cost is then bounded by their number.
proof fn lemma_short_route(
    tiles: Map<Hex, Terrain>,
    goal: Hex,
    route: Seq<Hex>,
    h: Hex,
    within: Set<Hex>,
) -> (short: Seq<Hex>)
    requires
        within.finite(),
        leads(tiles, goal, route, h),
        forall|k: int| 0 <= k < route.len() ==> within.contains(#[trigger] route[k]),
    ensures
        leads(tiles, goal, short, h),
        fare(tiles, short) <= 2 * (within.len() - 1),
    decreases route.len(),
{
    assert(route.last() == h);
    assert(within.contains(route[route.len() - 1]));
    lemma_first_visit(tiles, goal, route, h);
    let k = choose|k: int|
        0 <= k < route.len() && #[trigger] route[k] == h && leads(tiles, goal, route.take(k + 1), h)
            && forall|j: int| 0 <= j < k ==> #[trigger] route[j] != h;
    let cut = route.take(k + 1);
    if k == 0 {
        assert(cut.len() == 1);
        assert(within.remove(h).len() == within.len() - 1);
        cut
    } else {
        let before = cut.drop_last();
        let y = before.last();
        assert(leads(tiles, goal, before, y));
        assert forall|j: int| 0 <= j < before.len() implies within.remove(h).contains(
            #[trigger] before[j],
        ) by {
            assert(before[j] == route[j]);
        }
        let shorter = lemma_short_route(tiles, goal, before, y, within.remove(h));
        let short = shorter.push(h);
        assert(short.drop_last() =~= shorter);
        assert(cut.last() == h);
        lemma_last(tiles, goal, shorter, y);
        assert(leads(tiles, goal, short, h));
        short
    }
}

proof fn lemma_last(tiles: Map<Hex, Terrain>, goal: Hex, route: Seq<Hex>, h: Hex)
    requires
        leads(tiles, goal, route, h),
    ensures
        route.len() > 0,
        route.last() == h,
{
}

/// A route to `h`, cut at the first visit of `h`, still leads there.
proof fn lemma_first_visit(tiles: Map<Hex, Terrain>, goal: Hex, route: Seq<Hex>, h: Hex)
    requires
        leads(tiles, goal, route, h),
    ensures
        exists|k: int|
            0 <= k < route.len() && #[trigger] route[k] == h && leads(
                tiles,
                goal,
                route.take(k + 1),
                h,
            ) && forall|j: int| 0 <= j < k ==> #[trigger] route[j] != h,
{
    let k = lemma_first_index(route, h, 0);
    lemma_prefix(tiles, goal, route, h, k);
}

proof fn lemma_first_index(route: Seq<Hex>, h: Hex, from: int) -> (k: int)
    requires
        0 <= from < route.len(),
        route.last() == h,
        forall|j: int| 0 <= j < from ==> #[trigger] route[j] != h,
    ensures
        0 <= k < route.len(),
        route[k] == h,
        forall|j: int| 0 <= j < k ==> #[trigger] route[j] != h,
    decreases route.len() - from,
{
    if route[from] == h {
        from
    } else {
        lemma_first_index(route, h, from + 1)
    }
}

proof fn lemma_prefix(tiles: Map<Hex, Terrain>, goal: Hex, route: Seq<Hex>, h: Hex, k: int)
    requires
        leads(tiles, goal, route, h),
        0 <= k < route.len(),
    ensures
        leads(tiles, goal, route.take(k + 1), route[k]),
    decreases route.len(),
{
    if k == route.len() - 1 {
        assert(route.take(k + 1) =~= route);
    } else {
        let before = route.drop_last();
        lemma_prefix(tiles, goal, before, before.last(), k);
        assert(before.take(k + 1) =~= route.take(k + 1));
    }
}

/// The cost of a route is what entering the hexes on the way back to the goal
/// costs, as with the routes that units plan.
pub proof fn law_fare_is_the_toll_of_the_way_back(tiles: Map<Hex, Terrain>, route: Seq<Hex>)
    ensures
        fare(tiles, route) == toll(tiles, route.reverse()),
    decreases route.len(),
{
    if route.len() > 1 {
        lemma_toll_tail(tiles, route.reverse());
        assert(route.reverse().skip(1) =~= route.drop_last().reverse());
        law_fare_is_the_toll_of_the_way_back(tiles, route.drop_last());
    }
}

/// The first step of a route, and the rest.
proof fn lemma_toll_tail(tiles: Map<Hex, Terrain>, route: Seq<Hex>)
    requires
        route.len() > 1,
    ensures
        toll(tiles, route) == ground(tiles, route[1]).spec_move_cost() + toll(tiles, route.skip(1)),
    decreases route.len(),
{
    if route.len() > 2 {
        lemma_toll_tail(tiles, route.drop_last());
        assert(route.drop_last().skip(1) =~= route.skip(1).drop_last());
        assert(route.skip(1).last() == route.last());
        assert(route.drop_last()[1] == route[1]);
    } else {
        assert(toll(tiles, route.drop_last()) == 0);
        assert(toll(tiles, route.skip(1)) == 0);
    }
}

/// Terrain over a rectangle, of up to `0x3fff` hexes to each side, is charted.
pub proof fn law_rectangles_are_charted(tiles: Map<Hex, Terrain>, q_range: int, r_range: int)
    requires
        0 <= q_range <= 0x3fff,
        0 <= r_range <= 0x3fff,
        forall|h: Hex| #[trigger] tiles.contains_key(h) <==> in_rectangle(h, q_range, r_range),
    ensures
        charted(tiles),
        tiles.dom().finite(),
{
    lemma_rectangle(q_range, r_range);
    assert(tiles.dom() =~= rectangle(q_range, r_range));
    assert((2 * q_range + 1) * (2 * r_range + 1) <= 0x7fff * 0x7fff) by (nonlinear_arith)
        requires
            0 <= q_range <= 0x3fff,
            0 <= r_range <= 0x3fff,
    ;
    assert forall|h: Hex| #[trigger] tiles.contains_key(h) implies h.inner() by {}
}

/// The hex with key `k` has neighbours with coordinates.
spec fn inner_key(k: u64) -> bool {
    forall|h: Hex| #[trigger] spec_cell(h) == k ==> h.inner()
}

/// Whether every tile has neighbours with coordinates, and the tiles are not too
/// many.
pub fn is_charted(terrain: &TerrainMap) -> (b: bool)
    ensures
        b == charted(terrain@),
{
    let ghost tiles = terrain@;
    proof {
        lemma_by_hex_size(terrain.tiles@);
    }
    if terrain.tiles.len() > 0x7fff_fffd {
        return false;
    }
    let keys = terrain.tiles.keys();
    let ghost row = vstd::std_specs::hash::into_iter_keys(keys);
    for k in it: keys
        invariant
            tiles == terrain@,
            it.seq().unref() == row,
            row.to_set() == terrain.tiles@.dom(),
            forall|j: int| 0 <= j < it.index() ==> inner_key(#[trigger] row[j]),
    {
        let h: Hex = hex_of(*k);
        if h.q == i32::MIN || h.q == i32::MAX || h.r == i32::MIN || h.r == i32::MAX {
            proof {
                lemma_by_hex_get(terrain.tiles@, h);
                assert(row.to_set().contains(row[it.index()]));
                assert(tiles.contains_key(h));
            }
            return false;
        }
        assert(inner_key(*k)) by {
            broadcast use lemma_cell_injective;

        }
    }
    proof {
        assert forall|h: Hex| #[trigger] tiles.contains_key(h) implies h.inner() by {
            lemma_by_hex_get(terrain.tiles@, h);
            assert(row.to_set().contains(spec_cell(h)));
            let j = choose|j: int| 0 <= j < row.len() && row[j] == spec_cell(h);
            assert(inner_key(row[j]));
        }
    }
    true
}

} // verus!
