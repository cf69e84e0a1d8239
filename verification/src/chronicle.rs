//! What a tick comes to, and how ties are broken.

use crate::anim::animated;
use crate::combat::{health_of, prey, vitals, weakest, AttackEvent, Clash, DeathEvent, Setting};
use crate::damage::{fallen, lemma_place, place, survivors, without, Shelter};
use crate::doctrine::{free, hostile, law_vacant_hexes};
use crate::formations::fronts;
use crate::hex::{dist, nb, Hex};
use crate::index::{foe_on, occupancy};
use crate::movement::Campaign;
use crate::orders::{balance, contacts, strength};
use crate::pick::{first_least, law_first_least};
use crate::scan::{in_shot, ring_cell, ring_hit, shot, square_cell};
use crate::single::Single;
use crate::stamina::all_exerted;
use crate::steps::Surroundings;
use crate::terrain::{clear_between, Terrain};
use crate::unit::{Entity, Order, Team, UnitView};
use crate::world::WorldView;
use vstd::arithmetic::div_mod::{lemma_fundamental_div_mod, lemma_fundamental_div_mod_converse};
use vstd::prelude::*;

verus! {

/// A tick of a battle under the orders `orders`: everybody strikes by where all stood,
/// how healthy they were and what they were told; each takes the damage on it and the
/// dead are gone; the living move by where all stood, with the fronts as they were and
/// the fields of the map; and each is tired, rested and labelled by its own doings.
pub open spec fn outcome(w: WorldView, orders: Map<(Team, u8), Order>, after: WorldView) -> bool {
    let s = Setting {
        orders,
        occupied: occupancy(w.units),
        tiles: w.tiles,
        vitals: vitals(w.units),
    };
    let clash = s.fray(
        w.units,
        w.units,
        Clash { damage: Map::empty(), attacks: Seq::<AttackEvent>::empty() },
    );
    let hurt = Shelter { orders, tiles: w.tiles }.wounded(w.units, clash.damage);
    let c = Campaign {
        now: (w.tick + 1) as u64,
        orders,
        occupied: occupancy(w.units),
        tiles: w.tiles,
        field: w.field.surveyed(w.tiles),
        fronts: fronts(w.units),
    };
    let m = c.march(survivors(hurt, fallen(hurt)), Set::<Entity>::empty());
    &&& after.units == animated(all_exerted(orders, m.units), clash.attacks, clash.damage, m.moved)
    &&& after.tick == w.tick + 1
    &&& after.orders == orders
    &&& after.tiles == w.tiles
    &&& after.next_entity == w.next_entity
    &&& after.occupied == occupancy(w.units)
    &&& after.damage == clash.damage
    &&& after.events.attacks == clash.attacks
    &&& after.events.deaths == fallen(hurt)
    &&& after.moved == m.moved
    &&& after.field == w.field.surveyed(w.tiles)
    &&& after.fronts == fronts(w.units)
}

/// A tick goes by the orders that were given, and a tick of a game by those with what
/// the opponent tells Blue's first group, from the strength of both teams and Blue's
/// contacts; no other order changes.
pub proof fn law_a_tick(w: WorldView)
    requires
        w.tick < u64::MAX,
    ensures
        outcome(w, w.orders, w.stepped()),
        outcome(
            w,
            w.orders.insert(
                (Team::Blue, 1u8),
                balance(
                    strength(w.units, Team::Blue) as int,
                    strength(w.units, Team::Red) as int,
                    contacts(w.units, occupancy(w.units), Team::Blue) as int,
                ),
            ),
            w.played(),
        ),
{
    let hurt = w.prepared().battered();
    assert(Seq::<DeathEvent>::empty() + fallen(hurt) =~= fallen(hurt));
    let hurt2 = w.prepared().advised().battered();
    assert(Seq::<DeathEvent>::empty() + fallen(hurt2) =~= fallen(hurt2));
}

/// Ticks follow one another.
pub proof fn law_ticks_follow(w: WorldView, ticks: nat)
    ensures
        w.later(0) == w,
        w.later(ticks + 1) == w.later(ticks).stepped(),
{
}

/// A unit is removed by its handle: the last one of the row takes its place, the others
/// keep theirs, and a handle that nobody has removes nobody.
pub proof fn law_removal(units: Seq<UnitView>, e: Entity, k: int)
    requires
        0 <= k < units.len(),
        units[k].entity == e,
        forall|j: int| 0 <= j < k ==> (#[trigger] units[j]).entity != e,
    ensures
        without(units, e).len() == units.len() - 1,
        k < units.len() - 1 ==> without(units, e)[k] == units[units.len() - 1],
        forall|j: int|
            0 <= j < units.len() - 1 && j != k ==> #[trigger] without(units, e)[j] == units[j],
{
    lemma_place(units, e);
    let p = place(units, e);
    if p < k {
        assert(units[p].entity != e);
    }
}

/// Nobody is removed by a handle that nobody has.
pub proof fn law_no_removal(units: Seq<UnitView>, e: Entity)
    requires
        forall|j: int| 0 <= j < units.len() ==> (#[trigger] units[j]).entity != e,
    ensures
        without(units, e) == units,
{
    lemma_place(units, e);
}

/// The six neighbours are different.
proof fn lemma_neighbours_differ(from: Hex, a: int, b: int)
    requires
        from.in_field(),
        0 <= a < 6,
        0 <= b < 6,
        nb(from, a) == nb(from, b),
    ensures
        a == b,
{
}

/// What is picked is not one that an equal comes before.
proof fn lemma_tie(ok: spec_fn(int) -> bool, key: spec_fn(int) -> int, from: Hex, i: int, j: int)
    requires
        from.in_field(),
        0 <= i < j < 6,
        ok(i),
        key(i) == key(j),
    ensures
        first_least(6, ok, key) matches Some(b) ==> nb(from, b) != nb(from, j),
{
    law_first_least(6, ok, key);
    if let Some(b) = first_least(6, ok, key) {
        if nb(from, b) == nb(from, j) {
            lemma_neighbours_differ(from, b, j);
        }
    }
}

/// Of free neighbours that are equally close to a goal, or equally far from an enemy, a
/// step goes to the first in the order of the directions.
pub proof fn law_ties_between_steps(s: Surroundings, from: Hex, goal: Hex, i: int, j: int)
    requires
        from.in_field(),
        0 <= i < j < 6,
        free(s, nb(from, i)),
        dist(nb(from, i), goal) == dist(nb(from, j), goal),
    ensures
        s.greedy(from, goal) != Some(nb(from, j)),
        s.aside(from, goal) != Some(nb(from, j)),
        s.away(from, goal) != Some(nb(from, j)),
{
    law_vacant_hexes(s, nb(from, i));
    lemma_tie(|k: int| s.vacant(nb(from, k)), |k: int| dist(nb(from, k), goal), from, i, j);
    lemma_tie(|k: int| s.vacant(nb(from, k)), |k: int| -dist(nb(from, k), goal), from, i, j);
    let level = |k: int| s.vacant(nb(from, k)) && dist(nb(from, k), goal) <= dist(from, goal);
    let near = |k: int| dist(nb(from, k), goal);
    law_first_least(6, level, near);
    if level(i) {
        lemma_tie(level, near, from, i, j);
    } else if let Some(b) = first_least(6, level, near) {
        assert(level(b));
        assert(nb(from, b) != nb(from, j));
    }
}

/// Of free neighbours that cost the same on the field, a step goes to the first in the
/// order of the directions.
pub proof fn law_ties_on_the_field(
    s: Surroundings,
    field: Map<Hex, u32>,
    from: Hex,
    i: int,
    j: int,
)
    requires
        from.in_field(),
        0 <= i < j < 6,
        free(s, nb(from, i)),
        field.contains_key(nb(from, i)),
        field.contains_key(nb(from, j)),
        field[nb(from, i)] == field[nb(from, j)],
    ensures
        s.downhill(Some(field), from) != Some(nb(from, j)),
{
    let on = |k: int|
        s.vacant(nb(from, k)) && field.contains_key(nb(from, k)) && field[nb(from, k)] < u32::MAX;
    let cost = |k: int| field[nb(from, k)] as int;
    law_vacant_hexes(s, nb(from, i));
    law_first_least(6, on, cost);
    if on(i) {
        lemma_tie(on, cost, from, i, j);
    } else if let Some(b) = first_least(6, on, cost) {
        assert(on(b));
        assert(nb(from, b) != nb(from, j));
    }
}

/// Of adjacent enemies of equal health, the first in the order of the directions is
/// struck.
pub proof fn law_ties_between_the_weak(
    occupied: Map<Hex, (Entity, Team)>,
    vitals: Map<Entity, Single>,
    h: Hex,
    team: Team,
    i: int,
    j: int,
)
    requires
        0 <= i < j < 6,
        prey(occupied, vitals, h, team, i),
        health_of(vitals, occupied[nb(h, i)].0).val() == health_of(vitals, occupied[nb(h, j)].0).val(),
    ensures
        weakest(occupied, vitals, h, team) != Some(j),
{
    let ok = |k: int| prey(occupied, vitals, h, team, k);
    let key = |k: int| health_of(vitals, occupied[nb(h, k)].0).val();
    law_first_least(6, ok, key);
    assert(ok(i));
}

/// A ring is walked from its corner in direction 4, side by side along the directions.
pub proof fn law_ring_cells(from: Hex, n: int, j: int)
    requires
        from.in_field(),
        1 <= n <= 0x0800_0000,
        0 <= j <= n,
    ensures
        ({
            let at = |side: int, q: int, r: int|
                ring_cell(from, n, side, j).q == from.q + q && ring_cell(from, n, side, j).r
                    == from.r + r;
            &&& at(0, -n + j, n)
            &&& at(1, j, n - j)
            &&& at(2, n, -j)
            &&& at(3, n - j, -n)
            &&& at(4, -j, -n + j)
            &&& at(5, -n, j)
        }),
{
    reveal(ring_cell);
}

/// Of the enemies on a ring, the first one met on the walk is taken.
pub proof fn law_ties_on_a_ring(
    occupied: Map<Hex, (Entity, Team)>,
    from: Hex,
    team: Team,
    n: int,
    side: int,
    j: int,
)
    requires
        0 <= side < 6,
        0 <= j < n,
        hostile(occupied, team, ring_cell(from, n, side, j)),
        forall|a: int, b: int|
            0 <= a <= side && 0 <= b < n && (a < side || b < j) ==> !hostile(
                occupied,
                team,
                #[trigger] ring_cell(from, n, a, b),
            ),
    ensures
        ring_hit(occupied, from, team, n, 0, 0) == Some(ring_cell(from, n, side, j)),
{
    lemma_walk_on(occupied, from, team, n, 0, 0, side, j);
}

proof fn lemma_walk_on(
    occupied: Map<Hex, (Entity, Team)>,
    from: Hex,
    team: Team,
    n: int,
    a: int,
    b: int,
    side: int,
    j: int,
)
    requires
        0 <= a <= side < 6,
        0 <= b <= n,
        0 <= j < n,
        a < side || b <= j,
        hostile(occupied, team, ring_cell(from, n, side, j)),
        forall|x: int, y: int|
            0 <= x <= side && 0 <= y < n && (x < side || y < j) ==> !hostile(
                occupied,
                team,
                #[trigger] ring_cell(from, n, x, y),
            ),
    ensures
        ring_hit(occupied, from, team, n, a, b) == Some(ring_cell(from, n, side, j)),
    decreases 6 - a, n - b,
{
    if b >= n {
        lemma_walk_on(occupied, from, team, n, a + 1, 0, side, j);
    } else if a == side && b == j {
    } else {
        assert(!hostile(occupied, team, ring_cell(from, n, a, b)));
        lemma_walk_on(occupied, from, team, n, a, b + 1, side, j);
    }
}

/// Of enemies in sight that are equally close, a shot goes to the one of the least `q`,
/// and then of the least `r`.
pub proof fn law_ties_between_shots(
    occupied: Map<Hex, (Entity, Team)>,
    tiles: Map<Hex, Terrain>,
    from: Hex,
    team: Team,
    range: int,
    g: Hex,
)
    requires
        from.in_field(),
        0 <= range <= 0x0800_0000,
        hostile(occupied, team, g),
        g != from,
        dist(from, g) <= range,
        clear_between(from, g, tiles),
    ensures
        shot(occupied, tiles, from, team, range) matches Some(h) && (dist(from, h) < dist(from, g)
            || (dist(from, h) == dist(from, g) && (h.q < g.q || (h.q == g.q && h.r <= g.r)))),
{
    let width = 2 * range + 1;
    let ok = |k: int| in_shot(occupied, tiles, from, team, range, square_cell(from, range, k));
    let key = |k: int| dist(from, square_cell(from, range, k));
    law_first_least((width * width) as nat, ok, key);
    let k = lemma_numbered(from, range, g);
    assert(foe_on(occupied, g, team));
    assert(ok(k));
    let m = first_least((width * width) as nat, ok, key)->0;
    assert(width * width >= 0) by (nonlinear_arith);
    assert(ok(m));
    if key(m) == key(k) {
        assert(m <= k) by {
            if k < m {
                assert(key(m) < key(k));
            }
        }
        lemma_in_columns(from, range, m, k);
    }
}

/// Every hex of the square has a number.
proof fn lemma_numbered(from: Hex, range: int, g: Hex) -> (k: int)
    requires
        from.in_field(),
        0 <= range <= 0x0800_0000,
        dist(from, g) <= range,
    ensures
        0 <= k < (2 * range + 1) * (2 * range + 1),
        square_cell(from, range, k) == g,
{
    let width = 2 * range + 1;
    let a = g.q - from.q + range;
    let b = g.r - from.r + range;
    let k = a * width + b;
    assert(0 <= a < width && 0 <= b < width);
    lemma_fundamental_div_mod_converse(k, width, a, b);
    assert(0 <= k < width * width) by (nonlinear_arith)
        requires
            k == a * width + b,
            0 <= a < width,
            0 <= b < width,
    ;
    k
}

/// The square is numbered column by column.
proof fn lemma_in_columns(from: Hex, range: int, m: int, k: int)
    requires
        from.in_field(),
        0 <= range <= 0x0800_0000,
        0 <= m <= k < (2 * range + 1) * (2 * range + 1),
    ensures
        ({
            let (h, g) = (square_cell(from, range, m), square_cell(from, range, k));
            h.q < g.q || (h.q == g.q && h.r <= g.r)
        }),
{
    let width = 2 * range + 1;
    lemma_fundamental_div_mod(m, width);
    lemma_fundamental_div_mod(k, width);
    let (a, b) = (k / width, k % width);
    let (c, d) = (m / width, m % width);
    assert(0 <= c <= a && a < width && (c == a ==> d <= b)) by (nonlinear_arith)
        requires
            m == width * c + d,
            k == width * a + b,
            0 <= m <= k,
            k < width * width,
            0 <= d < width,
            0 <= b < width,
    ;
}

} // verus!
