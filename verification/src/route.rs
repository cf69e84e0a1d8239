//! Routes: planned with A* around impassable ground, and kept for a while.

use crate::flow::toll;
use crate::hex::{dist, lemma_measurable, Hex, FIELD};
use crate::reach::{
    connected, hop, lemma_path_spread, reaches, searchable, walk, within_reach, LONGEST_WALK,
};
use crate::steps::in_sight;
use crate::terrain::{ground, Terrain, TerrainMap};
use crate::unit::{PathCache, Route, PATH_GOAL_DRIFT, PATH_RECOMPUTE_PERIOD};
use vstd::prelude::*;

verus! {

/// What A* costs for a hex: the move cost of ground that can be entered.
fn entry_cost(terrain: &TerrainMap, q: i32, r: i32) -> (c: Option<u32>)
    ensures
        c == (if ground(terrain@, Hex { q, r }).spec_passable() {
            Some(ground(terrain@, Hex { q, r }).spec_move_cost() as u32)
        } else {
            None
        }),
{
    let t: Terrain = terrain.get(Hex::new(q, r));
    if t.passable() {
        Some(t.move_cost() as u32)
    } else {
        None
    }
}

/// The path that A* finds.
pub uninterp spec fn a_star_route(
    from: Hex,
    to: Hex,
    tiles: Map<Hex, Terrain>,
) -> Option<Seq<Hex>>;

/// The content of an optional path.
pub open spec fn path_content(path: Option<Vec<Hex>>) -> Option<Seq<Hex>> {
    match path {
        Some(p) => Some(p@),
        None => None,
    }
}

/// `hexx::algorithms::a_star`, with the move cost of each hex as the cost of
/// entering it and impassable hexes left out. Where there is a path that is not too
/// long, it finds one, from the first hex to the last, without visiting a hex twice,
/// and no path is cheaper. Which one of the cheapest it is, is not said; the same
/// question always gets the same answer. It is never asked for a goal that cannot
/// be reached: the plane has no edge, and its search would not end.
#[verifier::external_body]
fn a_star(from: Hex, to: Hex, terrain: &TerrainMap) -> (path: Option<Vec<Hex>>)
    requires
        from.in_field(),
        in_sight(to),
        within_reach(terrain@, from, to),
    ensures
        path_content(path) == a_star_route(from, to, terrain@),
        path is Some,
        path matches Some(p) ==> walk(terrain@, p@, from, to) && p@.no_duplicates() && forall|
            other: Seq<Hex>,
        | #[trigger]
            walk(terrain@, other, from, to) ==> toll(terrain@, p@) <= toll(terrain@, other),
{
    let start = hexx::Hex::new(from.q, from.r);
    let end = hexx::Hex::new(to.q, to.r);
    let path = hexx::algorithms::a_star(start, end, |_, b| entry_cost(terrain, b.x, b.y))?;
    Some(path.into_iter().map(|h| Hex::new(h.x, h.y)).collect())
}

/// A path walked backwards, without the hexes that equal `from`.
pub open spec fn retraced(path: Seq<Hex>, from: Hex) -> Seq<Hex>
    decreases path.len(),
{
    if path.len() == 0 {
        Seq::empty()
    } else if path.last() == from {
        retraced(path.drop_last(), from)
    } else {
        seq![path.last()] + retraced(path.drop_last(), from)
    }
}

/// The steps to come of a path that starts at `from`, the next one last.
pub fn route_steps(path: Option<Vec<Hex>>, from: Hex) -> (steps: Vec<Hex>)
    ensures
        steps@ == (match path {
            Some(p) => retraced(p@, from),
            None => Seq::empty(),
        }),
{
    let mut steps: Vec<Hex> = Vec::new();
    if let Some(p) = path {
        let mut k: usize = p.len();
        assert(p@.take(k as int) =~= p@);
        assert(steps@ + retraced(p@, from) =~= retraced(p@, from));
        while k > 0
            invariant
                k <= p@.len(),
                steps@ + retraced(p@.take(k as int), from) == retraced(p@, from),
            decreases k,
        {
            let ghost before = steps@;
            let ghost now = p@.take(k as int);
            let h: Hex = p[k - 1];
            assert(now.last() == h);
            assert(now.drop_last() =~= p@.take(k - 1));
            if h != from {
                steps.push(h);
                assert(steps@ + retraced(now.drop_last(), from) =~= before + (seq![h] + retraced(
                    now.drop_last(),
                    from,
                )));
            }
            k = k - 1;
        }
        assert(p@.take(0) =~= Seq::empty());
        assert(steps@ + Seq::<Hex>::empty() =~= steps@);
    }
    steps
}

/// The steps to come from `from` to `to`, the next one last; none where there is
/// no path.
pub open spec fn plan(from: Hex, to: Hex, tiles: Map<Hex, Terrain>) -> Seq<Hex> {
    if connected(tiles, from, to) {
        match a_star_route(from, to, tiles) {
            Some(p) => retraced(p, from),
            None => Seq::empty(),
        }
    } else {
        Seq::empty()
    }
}

/// The way that steps in reverse lead from `from`.
pub open spec fn way(from: Hex, steps: Seq<Hex>) -> Seq<Hex> {
    seq![from] + steps.reverse()
}

/// Step `k` of steps in reverse leads to the one that it is followed by.
pub open spec fn onward(steps: Seq<Hex>, k: int) -> bool {
    dist(steps[k], steps[k - 1]) == 1
}

/// Steps that a unit on `from` can follow: over passable ground, each next to the
/// one before.
pub open spec fn followable(tiles: Map<Hex, Terrain>, from: Hex, steps: Seq<Hex>) -> bool {
    &&& steps.len() > 0 ==> dist(from, steps.last()) == 1
    &&& forall|k: int| 0 <= k < steps.len() ==> ground(tiles, #[trigger] steps[k]).spec_passable()
    &&& forall|k: int| 0 < k < steps.len() ==> #[trigger] onward(steps, k)
    &&& forall|k: int| 0 <= k < steps.len() ==> in_sight(#[trigger] steps[k])
}

/// The cheapest way from `from` to `to` around impassable terrain, without `from`
/// and in reverse. Empty if `to` cannot be reached.
pub fn a_star_path(from: Hex, to: Hex, terrain: &TerrainMap) -> (steps: Vec<Hex>)
    requires
        from.in_field(),
        in_sight(to),
        searchable(terrain@, from, to),
    ensures
        steps@ == plan(from, to, terrain@),
        followable(terrain@, from, steps@),
        steps@.len() == 0 <==> from == to || !connected(terrain@, from, to),
        steps@.len() > 0 ==> {
            &&& steps@[0] == to
            &&& walk(terrain@, way(from, steps@), from, to)
            &&& way(from, steps@).no_duplicates()
            &&& forall|other: Seq<Hex>| #[trigger]
                walk(terrain@, other, from, to) ==> toll(terrain@, way(from, steps@)) <= toll(
                    terrain@,
                    other,
                )
        },
{
    if !reaches(from, to, terrain) {
        return Vec::new();
    }
    let path: Option<Vec<Hex>> = a_star(from, to, terrain);
    proof {
        let p = path->0@;
        lemma_path_is_short(terrain@, p, from, to);
        lemma_path_followable(terrain@, p, from, to);
        lemma_retraced(p, from);
        assert(way(from, retraced(p, from)) =~= p);
    }
    route_steps(path, from)
}

/// Without repeated hexes, only the first hex of a path is left out.
proof fn lemma_retraced(path: Seq<Hex>, from: Hex)
    requires
        path.len() > 0,
        path[0] == from,
        path.no_duplicates(),
    ensures
        retraced(path, from).len() == path.len() - 1,
        forall|k: int|
            0 <= k < path.len() - 1 ==> #[trigger] retraced(path, from)[k] == path[path.len() - 1
                - k],
    decreases path.len(),
{
    let before = path.drop_last();
    if path.len() == 1 {
        assert(retraced(before, from) =~= Seq::empty());
    } else {
        lemma_retraced(before, from);
        assert(path.last() != path[0]);
        assert forall|k: int| 0 <= k < path.len() - 1 implies #[trigger] retraced(path, from)[k]
            == path[path.len() - 1 - k] by {
            if k > 0 {
                assert(retraced(path, from)[k] == retraced(before, from)[k - 1]);
            }
        }
    }
}

proof fn lemma_toll_length(tiles: Map<Hex, Terrain>, path: Seq<Hex>)
    ensures
        path.len() <= toll(tiles, path) + 1,
        path.len() > 0 ==> toll(tiles, path) <= 2 * (path.len() - 1),
    decreases path.len(),
{
    if path.len() > 1 {
        lemma_toll_length(tiles, path.drop_last());
    }
}

/// A cheapest path within reach is not long.
proof fn lemma_path_is_short(tiles: Map<Hex, Terrain>, p: Seq<Hex>, from: Hex, to: Hex)
    requires
        within_reach(tiles, from, to),
        walk(tiles, p, from, to),
        forall|other: Seq<Hex>| #[trigger]
            walk(tiles, other, from, to) ==> toll(tiles, p) <= toll(tiles, other),
    ensures
        p.len() <= FIELD,
{
    let other = choose|path: Seq<Hex>| #[trigger]
        walk(tiles, path, from, to) && path.len() <= LONGEST_WALK;
    lemma_toll_length(tiles, p);
    lemma_toll_length(tiles, other);
}

proof fn lemma_path_followable(tiles: Map<Hex, Terrain>, p: Seq<Hex>, from: Hex, to: Hex)
    requires
        walk(tiles, p, from, to),
        p.no_duplicates(),
        from.in_field(),
        p.len() <= FIELD,
    ensures
        followable(tiles, from, retraced(p, from)),
        retraced(p, from).len() == 0 <==> from == to,
        retraced(p, from).len() > 0 ==> retraced(p, from)[0] == to,
{
    lemma_retraced(p, from);
    let steps = retraced(p, from);
    let n = p.len() as int;
    if steps.len() > 0 {
        assert(steps.last() == p[1]);
        assert(hop(p, 1));
        assert(p[0] != p[n - 1]);
    } else {
        assert(p[0] == p.last());
    }
    assert forall|k: int| 0 <= k < steps.len() implies ground(
        tiles,
        #[trigger] steps[k],
    ).spec_passable() && in_sight(steps[k]) by {
        assert(steps[k] == p[n - 1 - k]);
        lemma_path_spread(tiles, p, from, to, n - 1 - k);
    }
    assert forall|k: int| 0 < k < steps.len() implies #[trigger] onward(steps, k) by {
        assert(steps[k] == p[n - 1 - k]);
        assert(steps[k - 1] == p[n - k]);
        assert(hop(p, n - k));
    }
}

/// The next step of a route.
pub open spec fn upcoming(route: Route) -> Option<Hex> {
    if route.steps.len() > 0 {
        Some(route.steps.last())
    } else {
        None
    }
}

/// A route has to be planned anew: it has run its time or run out, the unit is not
/// on it, or the goal has drifted from the planned one.
pub open spec fn outdated(route: Route, from: Hex, to: Hex, now: u64) -> bool {
    ||| now >= route.stale_at
    ||| from.strays(upcoming(route))
    ||| dist(route.goal, to) > PATH_GOAL_DRIFT
}

/// The route that a unit goes by: the one it has, or a new one.
pub open spec fn guided(
    route: Route,
    from: Hex,
    to: Hex,
    tiles: Map<Hex, Terrain>,
    now: u64,
) -> Route {
    if outdated(route, from, to, now) {
        Route {
            steps: plan(from, to, tiles),
            goal: to,
            stale_at: (now + PATH_RECOMPUTE_PERIOD) as u64,
        }
    } else {
        route
    }
}

/// The goal and the steps of a route can be measured from the field.
pub open spec fn drawn(route: Route) -> bool {
    &&& -FIELD - 64 <= route.goal.q <= FIELD + 64
    &&& -FIELD - 64 <= route.goal.r <= FIELD + 64
    &&& forall|k: int| 0 <= k < route.steps.len() ==> in_sight(#[trigger] route.steps[k])
}

/// Whether the goal and the steps of a route can be measured from the field.
pub fn is_drawn(path: &PathCache) -> (b: bool)
    ensures
        b == drawn(path@),
{
    if path.goal.q < -FIELD - 64 || path.goal.q > FIELD + 64 || path.goal.r < -FIELD - 64
        || path.goal.r > FIELD + 64 {
        return false;
    }
    let mut k: usize = 0;
    while k < path.steps.len()
        invariant
            k <= path.steps@.len(),
            forall|j: int| 0 <= j < k ==> in_sight(#[trigger] path@.steps[j]),
        decreases path.steps@.len() - k,
    {
        let h: Hex = path.steps[k];
        if h.q < -2 * FIELD || h.q > 2 * FIELD || h.r < -2 * FIELD || h.r > 2 * FIELD {
            assert(!in_sight(path@.steps[k as int]));
            return false;
        }
        k = k + 1;
    }
    true
}

/// All the steps of a route are over passable ground.
pub open spec fn passable_route(tiles: Map<Hex, Terrain>, route: Route) -> bool {
    forall|k: int|
        0 <= k < route.steps.len() ==> ground(tiles, #[trigger] route.steps[k]).spec_passable()
}

/// Next hex toward `to` along the kept route, which is planned anew only when it
/// is outdated.
pub fn cached_step(
    from: Hex,
    to: Hex,
    terrain: &TerrainMap,
    now: u64,
    cache: &mut PathCache,
) -> (next: Option<Hex>)
    requires
        from.in_field(),
        -FIELD - 64 <= to.q <= FIELD + 64,
        -FIELD - 64 <= to.r <= FIELD + 64,
        now + PATH_RECOMPUTE_PERIOD <= u64::MAX,
        drawn(old(cache)@),
        outdated(old(cache)@, from, to, now) ==> searchable(terrain@, from, to),
    ensures
        final(cache)@ == guided(old(cache)@, from, to, terrain@, now),
        next == upcoming(final(cache)@),
        drawn(final(cache)@),
        passable_route(terrain@, old(cache)@) ==> passable_route(terrain@, final(cache)@),
        next matches Some(n) ==> dist(from, n) == 1,
{
    proof {
        lemma_measurable(cache.goal, to);
    }
    let last: Option<Hex> = if cache.steps.len() > 0 {
        proof {
            assert(in_sight(cache@.steps[cache@.steps.len() - 1]));
            lemma_measurable(from, cache.steps@.last());
        }
        Some(cache.steps[cache.steps.len() - 1])
    } else {
        None
    };
    let must_replan: bool = now >= cache.stale_at || cache.steps.len() == 0 || from.off_route(last)
        || cache.goal.distance(to) > PATH_GOAL_DRIFT;
    if must_replan {
        cache.steps = a_star_path(from, to, terrain);
        cache.goal = to;
        cache.stale_at = now + PATH_RECOMPUTE_PERIOD;
        if cache.steps.len() > 0 {
            Some(cache.steps[cache.steps.len() - 1])
        } else {
            None
        }
    } else {
        last
    }
}

} // verus!
