//! What the rules of the battle come to, said of hexes, units and tables themselves.

use crate::flow::toll;
use crate::formations::ahead;
use crate::hex::{dist, nb, Hex};
use crate::index::{engages, foe_on};
use crate::movement::{or_else, Campaign, Stance};
use crate::orders::order_of;
use crate::pick::{first_least, law_first_least};
use crate::reach::{hop, walk};
use crate::route::plan;
use crate::scan::law_sighted_enemy_is_nearest;
use crate::steps::{law_steps_are_best, law_steps_make_progress, Surroundings};
use crate::terrain::{ground, Terrain};
use crate::unit::{spec_move_period, Entity, Kind, Order, Team, UnitView};
use vstd::prelude::*;

verus! {

/// The order that a unit is under: what was set for its group, or else to march.
pub open spec fn told(orders: Map<(Team, u8), Order>, u: UnitView) -> Order {
    if orders.contains_key((u.team, u.group)) {
        orders[(u.team, u.group)]
    } else {
        Order::March
    }
}

/// `b` is one of the six hexes around `a`.
pub open spec fn beside(a: Hex, b: Hex) -> bool {
    let (x, z) = (b.q - a.q, b.r - a.r);
    ||| (x == 1 && z == 0)
    ||| (x == 1 && z == -1)
    ||| (x == 0 && z == -1)
    ||| (x == -1 && z == 0)
    ||| (x == -1 && z == 1)
    ||| (x == 0 && z == 1)
}

/// Somebody who is not of `team` stands on `h`.
pub open spec fn hostile(occupied: Map<Hex, (Entity, Team)>, team: Team, h: Hex) -> bool {
    occupied.contains_key(h) && occupied[h].1 != team
}

/// Nobody is barred from `h` by mountains or water.
pub open spec fn walkable(tiles: Map<Hex, Terrain>, h: Hex) -> bool {
    tiles.contains_key(h) ==> tiles[h] != Terrain::Mountain && tiles[h] != Terrain::Water
}

/// A hex that can be walked onto, that nobody stood on and nobody took.
pub open spec fn free(s: Surroundings, h: Hex) -> bool {
    walkable(s.tiles, h) && !s.occupied.contains_key(h) && !s.reserved.contains(h)
}

/// A free hex next to `from`.
pub open spec fn open_step(s: Surroundings, from: Hex, h: Hex) -> bool {
    beside(from, h) && free(s, h)
}

/// The hexes around a hex are its neighbours in the six directions, and those one
/// step away.
pub proof fn law_beside(a: Hex, b: Hex)
    requires
        a.inner(),
    ensures
        beside(a, b) <==> dist(a, b) == 1,
        beside(a, b) <==> exists|i: int| 0 <= i < 6 && #[trigger] nb(a, i) == b,
        nb(a, 0).q == a.q + 1 && nb(a, 0).r == a.r,
        nb(a, 1).q == a.q + 1 && nb(a, 1).r == a.r - 1,
        nb(a, 2).q == a.q && nb(a, 2).r == a.r - 1,
        nb(a, 3).q == a.q - 1 && nb(a, 3).r == a.r,
        nb(a, 4).q == a.q - 1 && nb(a, 4).r == a.r + 1,
        nb(a, 5).q == a.q && nb(a, 5).r == a.r + 1,
{
    let (x, z) = (b.q - a.q, b.r - a.r);
    if beside(a, b) {
        let i: int = if x == 1 && z == 0 {
            0
        } else if x == 1 {
            1
        } else if x == 0 && z == -1 {
            2
        } else if x == -1 && z == 0 {
            3
        } else if x == -1 {
            4
        } else {
            5
        };
        assert(nb(a, i) == b);
    }
}

/// Distance is the largest difference of a cube coordinate; it is the same both
/// ways, nothing only for a hex and itself, and never shorter by a detour.
pub proof fn law_distance(a: Hex, b: Hex, c: Hex)
    ensures
        ({
            let (x, z) = (b.q - a.q, b.r - a.r);
            let d = dist(a, b);
            &&& -d <= x <= d && -d <= z <= d && -d <= x + z <= d
            &&& d == x || d == -x || d == z || d == -z || d == x + z || d == -x - z
        }),
        dist(b, a) == dist(a, b),
        dist(a, b) == 0 <==> a == b,
        dist(a, c) <= dist(a, b) + dist(b, c),
{
}

/// A step can be made onto a hex exactly if it is free.
pub proof fn law_vacant_hexes(s: Surroundings, h: Hex)
    ensures
        s.vacant(h) <==> free(s, h),
        ground(s.tiles, h).spec_passable() <==> walkable(s.tiles, h),
{
}

/// An enemy of `team` on `h` is within `range` of `from`.
pub open spec fn spotted(
    occupied: Map<Hex, (Entity, Team)>,
    team: Team,
    from: Hex,
    h: Hex,
    range: int,
) -> bool {
    hostile(occupied, team, h) && h != from && dist(from, h) <= range
}

/// No enemy of `team` is within `range` of `from`.
pub open spec fn nobody_within(
    occupied: Map<Hex, (Entity, Team)>,
    team: Team,
    from: Hex,
    range: int,
) -> bool {
    forall|h: Hex| !#[trigger] spotted(occupied, team, from, h, range)
}

/// The enemy on `h` is the one that a unit on `from` goes by: in sight, and none is
/// closer.
pub open spec fn closest(
    occupied: Map<Hex, (Entity, Team)>,
    team: Team,
    from: Hex,
    h: Hex,
) -> bool {
    &&& spotted(occupied, team, from, h, 8)
    &&& forall|g: Hex| #[trigger] hostile(occupied, team, g) && g != from ==> dist(from, h)
        <= dist(from, g)
}

/// An enemy stands next to a unit.
pub open spec fn in_contact(c: Campaign, u: UnitView) -> bool {
    exists|h: Hex| #[trigger] hostile(c.occupied, u.team, h) && beside(u.hex, h)
}

/// A skirmisher that is not unleashed backs off from an enemy within two hexes.
pub open spec fn shies(c: Campaign, u: UnitView) -> bool {
    &&& u.kind == Kind::Skirmisher
    &&& told(c.orders, u) != Order::Unleash
    &&& !nobody_within(c.occupied, u.team, u.hex, 2)
}

/// A unit on a plain march, with no enemy in sight, that has outrun its group.
pub open spec fn waits(c: Campaign, u: UnitView) -> bool {
    &&& told(c.orders, u) == Order::March
    &&& nobody_within(c.occupied, u.team, u.hex, 8)
    &&& c.fronts.contains_key((u.team, u.group))
    &&& ahead(u.hex, u.team, c.fronts[(u.team, u.group)])
}

proof fn lemma_sight(c: Campaign, u: UnitView)
    requires
        u.hex.in_field(),
    ensures
        match c.enemy(u) {
            Some(h) => closest(c.occupied, u.team, u.hex, h) && dist(u.hex, h) >= 1 && (nobody_within(
                c.occupied,
                u.team,
                u.hex,
                2,
            ) <==> dist(u.hex, h) > 2) && !nobody_within(c.occupied, u.team, u.hex, 8),
            None => nobody_within(c.occupied, u.team, u.hex, 8) && nobody_within(
                c.occupied,
                u.team,
                u.hex,
                2,
            ),
        },
{
    law_sighted_enemy_is_nearest(c.occupied, u.hex, u.team, 8);
    assert forall|g: Hex| #[trigger] hostile(c.occupied, u.team, g) implies foe_on(
        c.occupied,
        g,
        u.team,
    ) by {}
    if let Some(h) = c.enemy(u) {
        assert(hostile(c.occupied, u.team, h));
        assert(spotted(c.occupied, u.team, u.hex, h, 8));
        if dist(u.hex, h) <= 2 {
            assert(spotted(c.occupied, u.team, u.hex, h, 2));
        }
        assert forall|g: Hex| dist(u.hex, h) > 2 implies !#[trigger] spotted(
            c.occupied,
            u.team,
            u.hex,
            g,
            2,
        ) by {
            if hostile(c.occupied, u.team, g) && g != u.hex {
                assert(dist(u.hex, h) <= dist(u.hex, g));
            }
        }
    } else {
        assert forall|g: Hex| !#[trigger] spotted(c.occupied, u.team, u.hex, g, 8) by {
            if hostile(c.occupied, u.team, g) {
                assert(foe_on(c.occupied, g, u.team));
            }
        }
        assert forall|g: Hex| !#[trigger] spotted(c.occupied, u.team, u.hex, g, 2) by {
            assert(!spotted(c.occupied, u.team, u.hex, g, 8));
        }
    }
}

proof fn lemma_contact(c: Campaign, u: UnitView)
    requires
        u.hex.in_field(),
    ensures
        engages(c.occupied, u.hex, u.team) <==> in_contact(c, u),
{
    if engages(c.occupied, u.hex, u.team) {
        let i = choose|i: int| 0 <= i < 6 && foe_on(c.occupied, #[trigger] nb(u.hex, i), u.team);
        law_beside(u.hex, nb(u.hex, i));
        assert(hostile(c.occupied, u.team, nb(u.hex, i)));
    }
    if in_contact(c, u) {
        let h = choose|h: Hex| #[trigger] hostile(c.occupied, u.team, h) && beside(u.hex, h);
        law_beside(u.hex, h);
        let i = choose|i: int| 0 <= i < 6 && #[trigger] nb(u.hex, i) == h;
        assert(foe_on(c.occupied, nb(u.hex, i), u.team));
    }
}

/// Who stays where it is: units that hold or idle, units on cooldown, and of the
/// others those that neither retreat nor back off and touch an enemy or wait for
/// their group. Nobody else does, whatever its team, kind or group.
pub proof fn law_nobody_else_stays(c: Campaign, u: UnitView)
    requires
        u.hex.in_field(),
    ensures
        c.stance(u) is Stay <==> {
            ||| told(c.orders, u) == Order::Hold
            ||| told(c.orders, u) == Order::Idle
            ||| c.now < u.next_move
            ||| {
                &&& told(c.orders, u) != Order::Retreat
                &&& !shies(c, u)
                &&& in_contact(c, u) || waits(c, u)
            }
        },
{
    lemma_sight(c, u);
    lemma_contact(c, u);
}

/// What the others do: a unit told to retreat falls back, from the closest enemy if
/// it sees one; a skirmisher that shies backs off from it; a unit that sees an enemy
/// approaches the closest one; and a unit that sees none advances.
pub proof fn law_what_the_others_do(c: Campaign, u: UnitView)
    requires
        u.hex.in_field(),
        !(c.stance(u) is Stay),
    ensures
        c.now >= u.next_move,
        c.stance(u) is FallBack <==> told(c.orders, u) == Order::Retreat,
        c.stance(u) is Kite <==> told(c.orders, u) != Order::Retreat && shies(c, u),
        c.stance(u) is Approach <==> told(c.orders, u) != Order::Retreat && !shies(c, u)
            && !nobody_within(c.occupied, u.team, u.hex, 8),
        c.stance(u) is Advance <==> told(c.orders, u) != Order::Retreat && nobody_within(
            c.occupied,
            u.team,
            u.hex,
            8,
        ),
        c.stance(u) matches Stance::FallBack(None) ==> nobody_within(
            c.occupied,
            u.team,
            u.hex,
            8,
        ),
        c.stance(u) matches Stance::FallBack(Some(h)) ==> closest(c.occupied, u.team, u.hex, h),
        c.stance(u) matches Stance::Kite(h) ==> closest(c.occupied, u.team, u.hex, h),
        c.stance(u) matches Stance::Approach(h) ==> closest(c.occupied, u.team, u.hex, h),
{
    lemma_sight(c, u);
    lemma_contact(c, u);
}

/// `n` is a free hex next to `from`, no further from `goal` than `from` is, and no
/// free hex next to `from` is closer to it. Without such a hex there is none.
pub open spec fn pressing(s: Surroundings, from: Hex, goal: Hex, n: Option<Hex>) -> bool {
    match n {
        Some(n) => {
            &&& open_step(s, from, n)
            &&& dist(n, goal) <= dist(from, goal)
            &&& forall|h: Hex| #[trigger] open_step(s, from, h) ==> dist(n, goal) <= dist(h, goal)
        },
        None => forall|h: Hex| #[trigger] open_step(s, from, h) ==> dist(h, goal) > dist(from, goal),
    }
}

/// The same, but strictly closer.
pub open spec fn nearing(s: Surroundings, from: Hex, goal: Hex, n: Option<Hex>) -> bool {
    match n {
        Some(n) => {
            &&& open_step(s, from, n)
            &&& dist(n, goal) < dist(from, goal)
            &&& forall|h: Hex| #[trigger] open_step(s, from, h) ==> dist(n, goal) <= dist(h, goal)
        },
        None => forall|h: Hex| #[trigger] open_step(s, from, h) ==> dist(h, goal) >= dist(
            from,
            goal,
        ),
    }
}

/// `n` is a free hex next to `from`, further from `enemy` than `from` is, and no free
/// hex next to `from` is further. Without such a hex there is none.
pub open spec fn fleeing(s: Surroundings, from: Hex, enemy: Hex, n: Option<Hex>) -> bool {
    match n {
        Some(n) => {
            &&& open_step(s, from, n)
            &&& dist(n, enemy) > dist(from, enemy)
            &&& forall|h: Hex| #[trigger] open_step(s, from, h) ==> dist(n, enemy) >= dist(h, enemy)
        },
        None => forall|h: Hex| #[trigger] open_step(s, from, h) ==> dist(h, enemy) <= dist(
            from,
            enemy,
        ),
    }
}

/// A free hex next to `from` that leads down the field: it is on the field, and
/// cheaper than `from` or `from` is not on the field.
pub open spec fn descent(s: Surroundings, field: Map<Hex, u32>, from: Hex, h: Hex) -> bool {
    &&& open_step(s, from, h)
    &&& field.contains_key(h)
    &&& field[h] < u32::MAX
    &&& field.contains_key(from) ==> field[h] < field[from]
}

/// `n` leads down the field, and nothing that does is cheaper. Without such a hex
/// there is none.
pub open spec fn descending(s: Surroundings, field: Map<Hex, u32>, from: Hex, n: Option<Hex>) -> bool {
    match n {
        Some(n) => {
            &&& descent(s, field, from, n)
            &&& forall|h: Hex| #[trigger] descent(s, field, from, h) ==> field[n] <= field[h]
        },
        None => forall|h: Hex| !#[trigger] descent(s, field, from, h),
    }
}

proof fn lemma_open_step(s: Surroundings, from: Hex, h: Hex)
    requires
        from.in_field(),
    ensures
        open_step(s, from, h) <==> exists|i: int|
            0 <= i < 6 && #[trigger] nb(from, i) == h && s.vacant(h),
{
    law_beside(from, h);
    law_vacant_hexes(s, h);
}

/// The steps that units make on their own: a greedy one comes as close to the goal
/// as a free neighbour can, a sidestep as close without going back, and a kiting one
/// as far from the enemy. Each is made exactly where there is such a neighbour.
pub proof fn law_single_steps(s: Surroundings, from: Hex, goal: Hex)
    requires
        from.in_field(),
    ensures
        nearing(s, from, goal, s.greedy(from, goal)),
        pressing(s, from, goal, s.aside(from, goal)),
        pressing(s, from, goal, or_else(s.greedy(from, goal), s.aside(from, goal))),
        fleeing(s, from, goal, s.away(from, goal)),
{
    law_steps_make_progress(s, None, from, goal);
    if let Some(n) = s.greedy(from, goal) {
        law_beside(from, n);
        law_vacant_hexes(s, n);
    }
    if let Some(n) = s.aside(from, goal) {
        law_beside(from, n);
        law_vacant_hexes(s, n);
    }
    if let Some(n) = s.away(from, goal) {
        law_beside(from, n);
        law_vacant_hexes(s, n);
    }
    assert forall|h: Hex| #[trigger] open_step(s, from, h) implies {
        &&& match s.greedy(from, goal) {
            Some(n) => dist(n, goal) <= dist(h, goal),
            None => dist(from, goal) <= dist(h, goal),
        }
        &&& match s.aside(from, goal) {
            Some(n) => dist(n, goal) <= dist(h, goal),
            None => dist(from, goal) < dist(h, goal),
        }
        &&& match s.away(from, goal) {
            Some(n) => dist(n, goal) >= dist(h, goal),
            None => dist(from, goal) >= dist(h, goal),
        }
    } by {
        lemma_open_step(s, from, h);
        let i = choose|i: int| 0 <= i < 6 && #[trigger] nb(from, i) == h && s.vacant(h);
        law_steps_are_best(s, from, goal, i);
    }
}

/// A step down a field goes to the cheapest free neighbour that leads down it, and is
/// made exactly where there is one.
pub proof fn law_steps_down_the_field(s: Surroundings, field: Map<Hex, u32>, from: Hex)
    requires
        from.in_field(),
    ensures
        descending(s, field, from, s.downhill(Some(field), from)),
        s.downhill(None, from) is None,
{
    let ok = |i: int|
        s.vacant(nb(from, i)) && field.contains_key(nb(from, i)) && field[nb(from, i)] < u32::MAX;
    let key = |i: int| field[nb(from, i)] as int;
    law_first_least(6, ok, key);
    if let Some(b) = first_least(6, ok, key) {
        assert(ok(b));
        lemma_open_step(s, from, nb(from, b));
        assert(nb(from, b) == nb(from, b) && s.vacant(nb(from, b)));
    }
    assert forall|h: Hex| #[trigger] descent(s, field, from, h) implies exists|i: int|
        0 <= i < 6 && #[trigger] ok(i) && nb(from, i) == h by {
        lemma_open_step(s, from, h);
        let i = choose|i: int| 0 <= i < 6 && #[trigger] nb(from, i) == h && s.vacant(h);
        assert(ok(i));
    }
}

/// The line that a team marches on, and the one that it falls back to.
pub open spec fn front_line(team: Team) -> Hex {
    if team == Team::Red {
        Hex { q: 30, r: 0 }
    } else {
        Hex { q: -30i32, r: 0 }
    }
}

pub open spec fn back_line(team: Team) -> Hex {
    if team == Team::Red {
        Hex { q: -30i32, r: 0 }
    } else {
        Hex { q: 30, r: 0 }
    }
}

/// The field of a team.
pub open spec fn field_of(c: Campaign, team: Team) -> Option<Map<Hex, u32>> {
    if team == Team::Red {
        c.field.red
    } else {
        c.field.blue
    }
}

/// Where a unit goes. Falling back, it flees from the enemy, or nears its own line.
/// Backing off, it flees. Approaching, it takes the next step of its route if that is
/// neither occupied nor taken, and presses on to the enemy if it is. Advancing, it
/// descends its team's field where it can, and presses on to the enemy line where it
/// cannot.
pub proof fn law_where_units_go(c: Campaign, u: UnitView, reserved: Set<Hex>)
    requires
        u.hex.in_field(),
    ensures
        ({
            let s = Surroundings { tiles: c.tiles, occupied: c.occupied, reserved };
            let n = c.next_hex(u, reserved);
            match c.stance(u) {
                Stance::Stay => n is None,
                Stance::FallBack(Some(e)) => fleeing(s, u.hex, e, n),
                Stance::FallBack(None) => nearing(s, u.hex, back_line(u.team), n),
                Stance::Kite(e) => fleeing(s, u.hex, e, n),
                Stance::Approach(e) => {
                    let steps = c.oriented(u).steps;
                    if steps.len() > 0 && !c.occupied.contains_key(steps.last())
                        && !reserved.contains(steps.last()) {
                        n == Some(steps.last())
                    } else {
                        pressing(s, u.hex, e, n)
                    }
                },
                Stance::Advance => {
                    if field_of(c, u.team) is Some && exists|h: Hex| #[trigger]
                        descent(s, field_of(c, u.team)->0, u.hex, h) {
                        descending(s, field_of(c, u.team)->0, u.hex, n)
                    } else {
                        pressing(s, u.hex, front_line(u.team), n)
                    }
                },
            }
        }),
{
    let s = c.around(reserved);
    match c.stance(u) {
        Stance::Stay => {},
        Stance::FallBack(Some(e)) => {
            law_single_steps(s, u.hex, e);
        },
        Stance::FallBack(None) => {
            law_single_steps(s, u.hex, back_line(u.team));
        },
        Stance::Kite(e) => {
            law_single_steps(s, u.hex, e);
        },
        Stance::Approach(e) => {
            law_single_steps(s, u.hex, e);
        },
        Stance::Advance => {
            law_single_steps(s, u.hex, front_line(u.team));
            lemma_advance(s, c.field.toward(u.team), u.hex, front_line(u.team));
        },
    }
}

proof fn lemma_advance(s: Surroundings, field: Option<Map<Hex, u32>>, from: Hex, line: Hex)
    requires
        from.in_field(),
    ensures
        ({
            let n = or_else(
                s.downhill(field, from),
                or_else(s.greedy(from, line), s.aside(from, line)),
            );
            if field is Some && exists|h: Hex| #[trigger] descent(s, field->0, from, h) {
                descending(s, field->0, from, n)
            } else {
                pressing(s, from, line, n)
            }
        }),
{
    law_single_steps(s, from, line);
    if let Some(f) = field {
        law_steps_down_the_field(s, f, from);
    } else {
        law_steps_down_the_field(s, Map::empty(), from);
    }
}

/// A unit that does not stay moves wherever it can: a unit that approaches or
/// advances, whenever a free hex next to it is no further from the enemy, or from the
/// enemy line; one that falls back from an enemy or backs off, whenever one is further
/// from it.
pub proof fn law_units_move_where_they_can(c: Campaign, u: UnitView, reserved: Set<Hex>, h: Hex)
    requires
        u.hex.in_field(),
        open_step(Surroundings { tiles: c.tiles, occupied: c.occupied, reserved }, u.hex, h),
    ensures
        c.stance(u) matches Stance::Approach(e) && dist(h, e) <= dist(u.hex, e) ==> c.next_hex(
            u,
            reserved,
        ) is Some,
        c.stance(u) is Advance && dist(h, front_line(u.team)) <= dist(u.hex, front_line(u.team))
            ==> c.next_hex(u, reserved) is Some,
        c.stance(u) matches Stance::FallBack(Some(e)) && dist(h, e) > dist(u.hex, e) ==> c.next_hex(
            u,
            reserved,
        ) is Some,
        c.stance(u) matches Stance::Kite(e) && dist(h, e) > dist(u.hex, e) ==> c.next_hex(
            u,
            reserved,
        ) is Some,
{
    law_where_units_go(c, u, reserved);
}

/// A route is kept while it has time and steps left, its next step is next to the
/// unit, and its goal is within two hexes of the enemy; otherwise a new one is made
/// for this enemy, good for five ticks. Only a unit that approaches does so.
pub proof fn law_routes_are_kept_or_planned(c: Campaign, u: UnitView)
    requires
        c.now + 5 <= u64::MAX,
    ensures
        ({
            let r = c.oriented(u);
            match c.stance(u) {
                Stance::Approach(e) => if c.now < u.path.stale_at && u.path.steps.len() > 0
                    && beside(u.hex, u.path.steps.last()) && dist(u.path.goal, e) <= 2 {
                    r == u.path
                } else {
                    &&& r.goal == e
                    &&& r.stale_at == c.now + 5
                    &&& r.steps == plan(u.hex, e, c.tiles)
                },
                _ => r == u.path,
            }
        }),
{
    if u.path.steps.len() > 0 {
        let n = u.path.steps.last();
        assert(beside(u.hex, n) <==> dist(u.hex, n) == 1);
    }
}

/// A unit after its move is the same unit, with the same health, stamina and looks.
/// One that goes nowhere stays where it is and may move as early as before. One that
/// goes somewhere is there, and rests: infantry two ticks, one if it charges or is
/// unleashed, and the others one; twice that in a forest or on a hill. A step of the
/// route is crossed off when it was taken.
pub proof fn law_a_move(c: Campaign, u: UnitView, reserved: Set<Hex>)
    requires
        c.now + 5 <= u64::MAX,
    ensures
        ({
            let v = c.stride(u, reserved);
            let r = c.oriented(u);
            let slow = u.kind == Kind::Infantry && told(c.orders, u) != Order::Charge && told(
                c.orders,
                u,
            ) != Order::Unleash;
            &&& v.entity == u.entity && v.health == u.health && v.team == u.team && v.kind == u.kind
            &&& v.group == u.group && v.stamina == u.stamina && v.anim == u.anim
            &&& match c.next_hex(u, reserved) {
                None => v.hex == u.hex && v.next_move == u.next_move && v.path == r,
                Some(n) => {
                    let rough = c.tiles.contains_key(n) && (c.tiles[n] == Terrain::Forest
                        || c.tiles[n] == Terrain::Hill);
                    &&& v.hex == n
                    &&& v.next_move == c.now + (if slow && rough {
                        4int
                    } else if slow || rough {
                        2
                    } else {
                        1
                    })
                    &&& v.path.goal == r.goal && v.path.stale_at == r.stale_at
                    &&& v.path.steps == (if (c.stance(u) is Approach || c.stance(u) is Advance)
                        && r.steps.len() > 0 && r.steps.last() == n {
                        r.steps.drop_last()
                    } else {
                        r.steps
                    })
                },
            }
        }),
{
    if let Some(n) = c.next_hex(u, reserved) {
        let period = spec_move_period(u.kind, order_of(c.orders, u.team, u.group));
        let cost = ground(c.tiles, n).spec_move_cost();
        assert(period * cost == (if period == 2 && cost == 2 {
            4int
        } else if period == 2 || cost == 2 {
            2
        } else {
            1
        })) by (nonlinear_arith)
            requires
                period == 1 || period == 2,
                cost == 1 || cost == 2,
        ;
    }
}

/// Units move in turn, all of them, each with regard to what the ones before it took:
/// the first finds nothing taken, and whoever goes somewhere takes that hex and is
/// noted.
pub proof fn law_units_move_in_turn(c: Campaign, units: Seq<UnitView>, start: Set<Entity>, i: int)
    requires
        0 <= i < units.len(),
    ensures
        ({
            let taken = c.march(units.take(i), start).reserved;
            let noted = c.march(units.take(i), start).moved;
            let n = c.next_hex(units[i], taken);
            &&& c.march(units, start).units.len() == units.len()
            &&& c.march(units, start).units[i] == c.stride(units[i], taken)
            &&& i == 0 ==> taken == Set::<Hex>::empty() && noted == start
            &&& c.march(units.take(i + 1), start).reserved == (match n {
                Some(h) => taken.insert(h),
                None => taken,
            })
            &&& c.march(units.take(i + 1), start).moved == (match n {
                Some(h) => noted.insert(units[i].entity),
                None => noted,
            })
            &&& c.march(units.take(units.len() as int), start) == c.march(units, start)
        }),
    decreases units.len(),
{
    assert(units.take(units.len() as int) =~= units);
    assert(units.take(i + 1).drop_last() =~= units.take(i));
    assert(units.take(i + 1).last() == units[i]);
    if i == 0 {
        assert(units.take(0).len() == 0);
    }
    lemma_march_length(c, units.drop_last(), start);
    lemma_march_length(c, units, start);
    if i < units.len() - 1 {
        let before = units.drop_last();
        law_units_move_in_turn(c, before, start, i);
        assert(before.take(i) =~= units.take(i));
    } else {
        assert(units.drop_last() =~= units.take(i));
    }
}

proof fn lemma_march_length(c: Campaign, units: Seq<UnitView>, start: Set<Entity>)
    ensures
        c.march(units, start).units.len() == units.len(),
    decreases units.len(),
{
    if units.len() > 0 {
        lemma_march_length(c, units.drop_last(), start);
    }
}

/// A walk is made of steps between hexes next to each other, over ground that can be
/// walked on, from one end to the other.
pub proof fn law_walks(tiles: Map<Hex, Terrain>, path: Seq<Hex>, from: Hex, to: Hex)
    ensures
        walk(tiles, path, from, to) <==> {
            &&& path.len() > 0
            &&& path[0] == from
            &&& path[path.len() - 1] == to
            &&& forall|i: int| 0 <= i < path.len() ==> walkable(tiles, #[trigger] path[i])
            &&& forall|i: int| 1 <= i < path.len() ==> beside(path[i - 1], #[trigger] path[i])
        },
{
    assert forall|i: int| 0 <= i < path.len() implies (walkable(tiles, #[trigger] path[i]) <==> ground(
        tiles,
        path[i],
    ).spec_passable()) by {}
    assert forall|i: int| 1 <= i < path.len() implies (beside(path[i - 1], #[trigger] path[i]) <==> hop(
        path,
        i,
    )) by {}
    if walk(tiles, path, from, to) {
        assert forall|i: int| 1 <= i < path.len() implies beside(path[i - 1], #[trigger] path[i]) by {
            assert(hop(path, i));
        }
    }
}

/// One more hex on a path costs one more, or two in a forest or on a hill; the first
/// costs nothing.
pub proof fn law_what_paths_cost(tiles: Map<Hex, Terrain>, path: Seq<Hex>, h: Hex)
    ensures
        toll(tiles, seq![h]) == 0,
        path.len() > 0 ==> toll(tiles, path.push(h)) == toll(tiles, path) + (if tiles.contains_key(h)
            && (tiles[h] == Terrain::Forest || tiles[h] == Terrain::Hill) {
            2nat
        } else {
            1
        }),
{
    assert(path.push(h).drop_last() =~= path);
}

} // verus!
