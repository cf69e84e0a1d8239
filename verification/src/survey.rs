//! What the ground, the lines of sight, the fields, the fronts and the command come
//! to, said of the tables themselves.

use crate::combat::DeathEvent;
use crate::damage::{survivors, without};
use crate::doctrine::{beside, law_beside, walkable};
use crate::flow::{
    charted, cost_field, cost_of, fare, law_field_leads_down_to_the_goal, leads, lemma_cost_exists,
    reachable, FlowView,
};
use crate::formations::{ahead, fronts, headcount, shortfall};
use crate::hex::{dist, line_point, Hex};
use crate::index::occupancy;
use crate::line::{blur, lemma_line_point};
use crate::orders::{balance, order_of};
use crate::reach::walk;
use crate::reckoning::{lemma_those, those};
use crate::route::{a_star_route, plan, retraced};
use crate::single::{
    lemma_finite, lemma_of_int_within, lemma_small_int, lemma_sum_within, Single,
};
use crate::terrain::{biome, clear_between, generated, ground, in_rectangle, noise, Terrain};
use crate::unit::{
    bonus_points, damage_points, fresh, hp_points, spec_attack_range, spec_move_period, AnimState,
    Entity, Kind, Order, Team, UnitView,
};
use vstd::arithmetic::power2::{lemma2_to64, lemma_pow2_pos, pow2};
use vstd::prelude::*;

verus! {

/// The ground of a hex that was set is what it was set to, and of any other plains.
/// Only mountains and water cannot be entered; only forests and hills cost two to
/// enter, and only they protect; only mountains hide.
pub proof fn law_grounds(tiles: Map<Hex, Terrain>, h: Hex, t: Terrain)
    ensures
        tiles.contains_key(h) ==> ground(tiles, h) == tiles[h],
        !tiles.contains_key(h) ==> ground(tiles, h) == Terrain::Plains,
        t.spec_passable() <==> t != Terrain::Mountain && t != Terrain::Water,
        t.spec_move_cost() == 2 <==> t == Terrain::Forest || t == Terrain::Hill,
        t.spec_move_cost() == 1 || t.spec_move_cost() == 2,
        t.spec_blocks_sight() <==> t == Terrain::Mountain,
        t == Terrain::Forest ==> t.spec_defense_mult() == Single::fraction(7, 10),
        t == Terrain::Hill ==> t.spec_defense_mult() == Single::fraction(6, 10),
        t != Terrain::Forest && t != Terrain::Hill ==> t.spec_defense_mult() == (Single {
            bits: 0x3f80_0000,
        }),
{
}

/// Mountains hide, and nothing else does. Without mountains everything is in sight; a
/// mountain strictly between two hexes hides one from the other; and what is not on
/// the line between them makes no difference.
pub proof fn law_mountains_hide(
    from: Hex,
    to: Hex,
    tiles: Map<Hex, Terrain>,
    other: Map<Hex, Terrain>,
    i: int,
)
    ensures
        (forall|h: Hex| #[trigger] tiles.contains_key(h) ==> tiles[h] != Terrain::Mountain)
            ==> clear_between(from, to, tiles),
        0 < i < dist(from, to) ==> !clear_between(
            from,
            to,
            tiles.insert(line_point(from, to, i), Terrain::Mountain),
        ),
        (forall|k: int|
            0 < k < dist(from, to) ==> {
                let h = #[trigger] line_point(from, to, k);
                (tiles.contains_key(h) && tiles[h] == Terrain::Mountain) == (other.contains_key(h)
                    && other[h] == Terrain::Mountain)
            }) ==> clear_between(from, to, tiles) == clear_between(from, to, other),
        dist(from, to) <= 1 ==> clear_between(from, to, tiles),
{
    if 0 < i < dist(from, to) {
        let m = tiles.insert(line_point(from, to, i), Terrain::Mountain);
        assert(ground(m, line_point(from, to, i)).spec_blocks_sight());
    }
    if forall|k: int|
        0 < k < dist(from, to) ==> {
            let h = #[trigger] line_point(from, to, k);
            (tiles.contains_key(h) && tiles[h] == Terrain::Mountain) == (other.contains_key(h)
                && other[h] == Terrain::Mountain)
        } {
        assert forall|k: int| 0 < k < dist(from, to) implies (#[trigger] ground(
            tiles,
            line_point(from, to, k),
        )).spec_blocks_sight() == ground(other, line_point(from, to, k)).spec_blocks_sight() by {}
        if clear_between(from, to, tiles) {
            assert forall|k: int| 0 < k < dist(from, to) implies !(#[trigger] ground(
                other,
                line_point(from, to, k),
            )).spec_blocks_sight() by {
                assert(!ground(tiles, line_point(from, to, k)).spec_blocks_sight());
            }
        }
        if clear_between(from, to, other) {
            assert forall|k: int| 0 < k < dist(from, to) implies !(#[trigger] ground(
                tiles,
                line_point(from, to, k),
            )).spec_blocks_sight() by {
                assert(!ground(other, line_point(from, to, k)).spec_blocks_sight());
            }
        }
    }
}

/// The army-level orders of the opponent: it marches while there is nobody to fight,
/// falls back under half the enemy's strength, and otherwise holds under four fifths;
/// from there it marches out of contact, and in contact it goes all out from five to
/// four, charges from even strength, and holds below.
pub proof fn law_orders_of_the_opponent(own: int, foe: int, engaged: int)
    requires
        own >= 0,
        foe >= 0,
        engaged >= 0,
    ensures
        balance(own, foe, engaged) == Order::Retreat <==> 2 * own < foe,
        balance(own, foe, engaged) == Order::Unleash <==> foe > 0 && engaged > 0 && 4 * own >= 5
            * foe,
        balance(own, foe, engaged) == Order::Charge <==> foe > 0 && engaged > 0 && own >= foe && 4
            * own < 5 * foe,
        balance(own, foe, engaged) == Order::March <==> foe == 0 || (engaged == 0 && 5 * own >= 4
            * foe),
        balance(own, foe, engaged) == Order::Hold <==> 2 * own >= foe && (5 * own < 4 * foe || (
        engaged > 0 && own < foe)),
{
}

/// A group that was never given an order marches, and another does what it was told.
pub proof fn law_orders_in_force(m: Map<(Team, u8), Order>, team: Team, group: u8)
    ensures
        m.contains_key((team, group)) ==> order_of(m, team, group) == m[(team, group)],
        !m.contains_key((team, group)) ==> order_of(m, team, group) == Order::March,
{
}

/// What tells the kinds apart: skirmishers reach three hexes and the others one;
/// infantry is the hardest to kill and the slowest on a march; cavalry gains the most
/// from a charge, and skirmishers gain nothing from one.
pub proof fn law_kinds(kind: Kind, order: Order)
    ensures
        spec_attack_range(Kind::Skirmisher) == 3,
        kind != Kind::Skirmisher ==> spec_attack_range(kind) == 1,
        damage_points(Kind::Infantry) == 14 && damage_points(Kind::Cavalry) == 11 && damage_points(
            Kind::Skirmisher,
        ) == 8,
        hp_points(Kind::Infantry) == 100 && hp_points(Kind::Cavalry) == 80 && hp_points(
            Kind::Skirmisher,
        ) == 60,
        order != Order::Charge && order != Order::Unleash ==> bonus_points(kind, order) == 0,
        bonus_points(Kind::Cavalry, Order::Charge) == 16 && bonus_points(
            Kind::Infantry,
            Order::Charge,
        ) == 8 && bonus_points(Kind::Skirmisher, Order::Charge) == 0,
        bonus_points(kind, Order::Unleash) == bonus_points(kind, Order::Charge) + 4,
        spec_move_period(kind, order) == 2 <==> kind == Kind::Infantry && order != Order::Charge
            && order != Order::Unleash,
        spec_move_period(kind, order) == 1 || spec_move_period(kind, order) == 2,
        order.spec_is_advancing() <==> order != Order::Idle && order != Order::Hold && order
            != Order::Retreat,
{
}

/// A fresh unit is what it was made as, has the full health of its kind and full
/// stamina, may move at once, idles and has no route.
pub proof fn law_fresh_units(team: Team, kind: Kind, hex: Hex, group: u8, e: Entity)
    ensures
        ({
            let u = fresh(team, kind, hex, group, e);
            &&& u.entity == e && u.team == team && u.kind == kind && u.hex == hex && u.group == group
            &&& u.health == Single::spec_of_int(hp_points(kind))
            &&& u.stamina == 100 && u.next_move == 0 && u.anim == AnimState::Idle
            &&& u.path.steps.len() == 0 && u.path.stale_at == 0
        }),
{
}

/// Whoever joins last on a hex is the one found there; other hexes are unaffected.
pub proof fn law_the_last_to_join_is_found(units: Seq<UnitView>, u: UnitView, h: Hex)
    ensures
        occupancy(Seq::empty()) == Map::<Hex, (Entity, Team)>::empty(),
        occupancy(units.push(u)).contains_key(u.hex),
        occupancy(units.push(u))[u.hex] == (u.entity, u.team),
        h != u.hex ==> occupancy(units.push(u)).contains_key(h) == occupancy(units).contains_key(h),
        h != u.hex && occupancy(units).contains_key(h) ==> occupancy(units.push(u))[h] == occupancy(
            units,
        )[h],
{
    assert(units.push(u).drop_last() =~= units);
}

/// The size of a group is the number of its units, and one more unit adds its distance
/// to its enemy line to the total of its own group, and to no other.
pub proof fn law_groups_add_up(units: Seq<UnitView>, u: UnitView, team: Team, group: u8)
    ensures
        headcount(units, team, group) == those(
            units.len() as int,
            |i: int| units[i].team == team && units[i].group == group,
        ).len(),
        shortfall(Seq::empty(), team, group) == 0,
        shortfall(units.push(u), team, group) == shortfall(units, team, group) + (if u.team == team
            && u.group == group {
            dist(
                u.hex,
                if team == Team::Red {
                    Hex { q: 30, r: 0 }
                } else {
                    Hex { q: -30i32, r: 0 }
                },
            )
        } else {
            0
        }),
    decreases units.len(),
{
    assert(units.push(u).drop_last() =~= units);
    let p = |i: int| units[i].team == team && units[i].group == group;
    if units.len() > 0 {
        let before = units.drop_last();
        let n = before.len() as int;
        let q = |i: int| before[i].team == team && before[i].group == group;
        law_groups_add_up(before, u, team, group);
        assert(those(n, q) =~= those(n, p)) by {
            assert forall|i: int| those(n, q).contains(i) == those(n, p).contains(i) by {}
        }
        lemma_those(n, p);
    } else {
        lemma_those(0, p);
    }
}

/// Every group with a unit has a front, and no other: the total of its distances
/// divided by its size, in single precision.
pub proof fn law_fronts_are_averages(units: Seq<UnitView>, team: Team, group: u8)
    ensures
        fronts(units).contains_key((team, group)) <==> exists|i: int|
            0 <= i < units.len() && (#[trigger] units[i]).team == team && units[i].group == group,
        fronts(units).contains_key((team, group)) ==> fronts(units)[(team, group)]
            == Single::spec_of_int(shortfall(units, team, group)).spec_div(
            Single::spec_of_int(headcount(units, team, group) as int),
        ),
    decreases units.len(),
{
    if units.len() > 0 {
        let before = units.drop_last();
        let n = before.len() as int;
        law_fronts_are_averages(before, team, group);
        if exists|i: int|
            0 <= i < before.len() && (#[trigger] before[i]).team == team && before[i].group == group {
            let i = choose|i: int|
                0 <= i < before.len() && (#[trigger] before[i]).team == team && before[i].group
                    == group;
            assert(units[i].team == team);
        }
        if exists|i: int|
            0 <= i < units.len() && (#[trigger] units[i]).team == team && units[i].group == group {
            let i = choose|i: int|
                0 <= i < units.len() && (#[trigger] units[i]).team == team && units[i].group
                    == group;
            if i < n {
                assert(before[i].team == team);
            }
        }
        if units[n].team == team && units[n].group == group {
            assert(units[n].team == team);
        }
    }
}

/// A unit is ahead of a front if it is more than four hexes closer to its enemy line,
/// whatever its team; what is not a number is no front.
pub proof fn law_ahead_by_more_than_four(from: Hex, team: Team, front: Single)
    ensures
        ({
            let d = dist(
                from,
                if team == Team::Red {
                    Hex { q: 30, r: 0 }
                } else {
                    Hex { q: -30i32, r: 0 }
                },
            );
            d <= 0x80_0000 ==> (ahead(from, team, front) <==> !front.spec_is_nan() && (d + 4) * pow2(
                149,
            ) < front.val())
        }),
{
    let line = if team == Team::Red {
        Hex { q: 30, r: 0 }
    } else {
        Hex { q: -30i32, r: 0 }
    };
    let d = dist(from, line);
    if d <= 0x80_0000 {
        let sum = Single::spec_of_int(d).spec_add(Single::spec_of_int(4));
        let p = pow2(149) as int;
        lemma2_to64();
        lemma_pow2_pos(149);
        lemma_of_int_within(d, 32);
        lemma_of_int_within(4, 32);
        lemma_small_int(d);
        lemma_small_int(4);
        lemma_small_int(d + 4);
        assert(d * p + 4 * p == (d + 4) * p) by (nonlinear_arith);
        lemma_sum_within(Single::spec_of_int(d).val(), Single::spec_of_int(4).val(), 32);
        assert(sum.val() == (d + 4) * p);
        vstd::arithmetic::power2::lemma_pow2_strictly_increases(149 + 33, 277);
        lemma_finite(sum);
    }
}

/// Each team's field leads to the line that it marches on. Fields are made once there
/// is terrain, for both teams, and kept from then on.
pub proof fn law_fields_are_made_once(f: FlowView, tiles: Map<Hex, Terrain>)
    ensures
        f.built || tiles.is_empty() ==> f.surveyed(tiles) == f,
        !f.built && !tiles.is_empty() ==> {
            &&& f.surveyed(tiles).built
            &&& f.surveyed(tiles).red == Some(cost_field(tiles, Hex { q: 30, r: 0 }))
            &&& f.surveyed(tiles).blue == Some(cost_field(tiles, Hex { q: -30i32, r: 0 }))
        },
{
}

/// What entering a hex costs.
pub open spec fn effort(tiles: Map<Hex, Terrain>, h: Hex) -> int {
    if tiles.contains_key(h) && (tiles[h] == Terrain::Forest || tiles[h] == Terrain::Hill) {
        2
    } else {
        1
    }
}

/// The hexes of the map next to a hex of the field are on it where they can be walked
/// on, and cost no more than it does and entering it. The goal is on it, at no cost,
/// if it can be walked on, and else nothing is.
pub proof fn law_fields_spread(tiles: Map<Hex, Terrain>, goal: Hex, y: Hex, h: Hex)
    requires
        tiles.dom().finite(),
        charted(tiles),
        goal.inner(),
    ensures
        cost_field(tiles, goal).contains_key(goal) <==> walkable(tiles, goal),
        walkable(tiles, goal) ==> cost_field(tiles, goal)[goal] == 0,
        !walkable(tiles, goal) ==> cost_field(tiles, goal).dom() == Set::<Hex>::empty(),
        cost_field(tiles, goal).contains_key(y) && beside(y, h) && tiles.contains_key(h) && walkable(
            tiles,
            h,
        ) ==> cost_field(tiles, goal).contains_key(h) && cost_field(tiles, goal)[h] <= cost_field(
            tiles,
            goal,
        )[y] + effort(tiles, y),
{
    let field = cost_field(tiles, goal);
    if ground(tiles, goal).spec_passable() {
        let start = seq![goal];
        assert(start.last() == goal);
        assert(leads(tiles, goal, start, goal));
        assert(reachable(tiles, goal, goal));
        law_field_leads_down_to_the_goal(tiles, goal, goal);
    } else {
        assert(field.dom() =~= Set::<Hex>::empty());
    }
    if field.contains_key(y) && beside(y, h) && tiles.contains_key(h) && walkable(tiles, h) {
        lemma_cost_exists(tiles, goal, y);
        let n = cost_of(tiles, goal, y);
        let route = choose|route: Seq<Hex>| #[trigger]
            leads(tiles, goal, route, y) && fare(tiles, route) == n;
        law_field_leads_down_to_the_goal(tiles, goal, y);
        assert(y.inner());
        law_beside(y, h);
        let longer = route.push(h);
        assert(longer.drop_last() =~= route);
        assert(route.last() == y);
        assert(leads(tiles, goal, longer, h));
        assert(reachable(tiles, goal, h));
        lemma_cost_exists(tiles, goal, h);
        assert(cost_of(tiles, goal, h) <= fare(tiles, longer));
    }
}

/// Every hex of the field but the goal is a hex of the map that can be walked on, and
/// costs exactly what some hex next to it on the field costs and entering that.
pub proof fn law_fields_are_exact(tiles: Map<Hex, Terrain>, goal: Hex, h: Hex)
    requires
        tiles.dom().finite(),
        charted(tiles),
        goal.inner(),
        cost_field(tiles, goal).contains_key(h),
        h != goal,
    ensures
        tiles.contains_key(h) && walkable(tiles, h),
        exists|y: Hex| #[trigger]
            cost_field(tiles, goal).contains_key(y) && beside(y, h) && cost_field(tiles, goal)[h]
                == cost_field(tiles, goal)[y] + effort(tiles, y),
{
    law_field_leads_down_to_the_goal(tiles, goal, h);
    lemma_cost_exists(tiles, goal, h);
    let n = cost_of(tiles, goal, h);
    let route = choose|route: Seq<Hex>| #[trigger]
        leads(tiles, goal, route, h) && fare(tiles, route) == n;
    let before = route.drop_last();
    let y = before.last();
    assert(leads(tiles, goal, before, y));
    lemma_cost_exists(tiles, goal, y);
    assert(cost_field(tiles, goal).contains_key(y));
    law_field_leads_down_to_the_goal(tiles, goal, y);
    assert(y.inner());
    law_beside(y, h);
    let best = choose|r: Seq<Hex>| #[trigger]
        leads(tiles, goal, r, y) && fare(tiles, r) == cost_of(tiles, goal, y);
    let longer = best.push(h);
    assert(longer.drop_last() =~= best);
    assert(best.last() == y);
    assert(leads(tiles, goal, longer, h));
    assert(n <= fare(tiles, longer));
    assert(cost_of(tiles, goal, y) <= fare(tiles, before));
}

/// The hexes of a line are where a straight way leads, give or take half a hex and what
/// single precision blurs.
pub proof fn law_lines_go_straight(a: Hex, b: Hex, i: int)
    requires
        blur(a, b) <= 0x50_0000,
        dist(a, b) >= 1,
        0 <= i <= dist(a, b),
    ensures
        ({
            let n = dist(a, b);
            let h = line_point(a, b, i);
            let slack = n * (0x100_0000 + blur(a, b));
            let x = n * h.q - (a.q * n + (b.q - a.q) * i);
            let z = n * h.r - (a.r * n + (b.r - a.r) * i);
            &&& -slack <= 0x200_0000 * x <= slack
            &&& -slack <= 0x200_0000 * z <= slack
        }),
{
    lemma_line_point(a, b, i);
}

/// The bands of noise, from the wettest: a tenth of water, a tenth of mountains, then
/// forests up to 0.38, hills up to 0.52, and plains.
pub proof fn law_biomes(v: Single)
    ensures
        ({
            let (a, b) = (Single::fraction(10, 100).val(), Single::fraction(20, 100).val());
            let (c, d) = (Single::fraction(38, 100).val(), Single::fraction(52, 100).val());
            let x = v.val();
            &&& x < a ==> biome(v) == Terrain::Water
            &&& a <= x && x < b ==> biome(v) == Terrain::Mountain
            &&& a <= x && b <= x && x < c ==> biome(v) == Terrain::Forest
            &&& a <= x && b <= x && c <= x && x < d ==> biome(v) == Terrain::Hill
            &&& a <= x && b <= x && c <= x && d <= x ==> biome(v) == Terrain::Plains
        }),
{
}

/// The terrain of a seed comes in blobs of four by four hexes, each by its own noise.
pub proof fn law_terrain_comes_in_blobs(seed: i32, h: Hex, p: i32, q: i32)
    requires
        4 * p <= h.q < 4 * p + 4,
        4 * q <= h.r < 4 * q + 4,
    ensures
        generated(seed, h) == biome(noise(p, q, seed)),
{
    reveal(generated);
    assert(h.q as int / 4 == p);
    assert(h.r as int / 4 == q);
}

/// The noise of a cell: three products folded together and stirred twice, as a fraction
/// of the largest word.
pub proof fn law_noise(a: i32, b: i32, seed: i32)
    ensures
        ({
            let x = (a.wrapping_mul(73856093) ^ b.wrapping_mul(19349663) ^ seed.wrapping_mul(
                83492791,
            )) as u32;
            let y = (x ^ (x >> 13)).wrapping_mul(0x85eb_ca6b);
            noise(a, b, seed) == Single::spec_of_int((y ^ (y >> 16)) as int).spec_div(
                Single::spec_of_int(0xffff_ffff),
            )
        }),
{
}

/// A rectangle is what lies within both its ranges.
pub proof fn law_rectangles(h: Hex, q_range: int, r_range: int)
    ensures
        in_rectangle(h, q_range, r_range) <==> -q_range <= h.q && h.q <= q_range && -r_range <= h.r
            && h.r <= r_range,
{
}

/// Whoever has no next step, or one that is not next to it, is off its route.
pub proof fn law_off_route(h: Hex, next: Option<Hex>)
    ensures
        h.strays(next) <==> (next matches Some(n) ==> !beside(h, n)),
{
}

/// A path is walked back without where it started: every further hex of it comes before
/// the steps so far, unless it is the start.
pub proof fn law_steps_are_in_reverse(path: Seq<Hex>, from: Hex, h: Hex)
    ensures
        retraced(Seq::empty(), from) == Seq::<Hex>::empty(),
        h == from ==> retraced(path.push(h), from) == retraced(path, from),
        h != from ==> retraced(path.push(h), from) == seq![h] + retraced(path, from),
{
    assert(path.push(h).drop_last() =~= path);
}

/// A plan is the path that A* finds, without where it starts and in reverse, and none
/// where no walk leads to the goal.
pub proof fn law_plans(from: Hex, to: Hex, tiles: Map<Hex, Terrain>)
    ensures
        (forall|p: Seq<Hex>| !#[trigger] walk(tiles, p, from, to)) ==> plan(from, to, tiles).len()
            == 0,
        forall|p: Seq<Hex>| #[trigger]
            walk(tiles, p, from, to) ==> (a_star_route(from, to, tiles) matches Some(r) ==> plan(
                from,
                to,
                tiles,
            ) == retraced(r, from)),
{
}

/// Numbers are compared by value; what is not a number is neither below nor above
/// anything.
pub proof fn law_comparisons(a: Single, b: Single)
    ensures
        a.spec_below(b) <==> a.mag() <= pow2(277) && b.mag() <= pow2(277) && a.val() < b.val(),
{
    lemma_finite(a);
    lemma_finite(b);
}

/// The dead are removed one after the other.
pub proof fn law_the_dead_leave_in_turn(
    units: Seq<UnitView>,
    deaths: Seq<DeathEvent>,
    d: DeathEvent,
)
    ensures
        survivors(units, Seq::empty()) == units,
        survivors(units, deaths.push(d)) == without(survivors(units, deaths), d.entity),
{
    assert(deaths.push(d).drop_last() =~= deaths);
}

} // verus!
