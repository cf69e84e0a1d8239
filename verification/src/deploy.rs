//! The set piece: two armies face each other over a carved field.

use crate::combat::{AttackEvent, DeathEvent};
use crate::course::ready;
use crate::flow::{law_rectangles_are_charted, FlowView};
use crate::hex::{abs, Hex};
use crate::index::one_per_hex;
use crate::orders::{order_of, strength, Orders};
use crate::route::{drawn, passable_route};
use crate::single::Single;
use crate::terrain::{generate_terrain, generated, ground, in_rectangle, Terrain, TerrainMap};
use crate::unit::{fresh, unit, Entity, Kind, Order, Team, UnitView};
use crate::world::{afoot, hale, law_fresh_units_are_sound, sound, World, WorldView};
use vstd::prelude::*;

verus! {

/// Columns of an army.
pub const ARMY_COLS: i32 = 28;

/// Rows of an army.
pub const ARMY_ROWS: i32 = 54;

/// Hexes between the inner edges of the armies.
pub const GAP: i32 = 12;

/// Extent of the map along `q`, to either side.
pub const GRID_Q: i32 = 40;

/// Extent of the map along `r`, to either side.
pub const GRID_R: i32 = 34;

/// Seed of the map.
pub const SEED: i32 = 7;

/// A quotient that drops what is left over, whatever the sign.
pub open spec fn cut_quotient(a: int, b: int) -> int {
    if a < 0 {
        -((-a) / b)
    } else {
        a / b
    }
}

/// The kind of the units in a column: cavalry in the first quarter, skirmishers in
/// the last one, infantry between them.
pub open spec fn spec_kind_for(col: int, cols: int) -> Kind {
    if col < cut_quotient(cols, 4) {
        Kind::Cavalry
    } else if col >= cut_quotient(cols * 3, 4) {
        Kind::Skirmisher
    } else {
        Kind::Infantry
    }
}

/// A quarter of a number, what is left over dropped.
fn quarter(a: i32) -> (q: i32)
    requires
        a > i32::MIN,
    ensures
        q == cut_quotient(a as int, 4),
{
    if a < 0 {
        -((-a) / 4)
    } else {
        a / 4
    }
}

/// The kind of the units in a column, by how deep it sits: column 0 is the front.
pub fn kind_for(col: i32, cols: i32) -> (k: Kind)
    requires
        i32::MIN < cols * 3 <= i32::MAX,
    ensures
        k == spec_kind_for(col as int, cols as int),
{
    if col < quarter(cols) {
        Kind::Cavalry
    } else if col >= quarter(cols * 3) {
        Kind::Skirmisher
    } else {
        Kind::Infantry
    }
}

/// `h` lies where an army deploys.
pub open spec fn in_zone(h: Hex) -> bool {
    &&& 7 <= abs(h.q as int) < 7 + ARMY_COLS
    &&& -27 <= h.r < ARMY_ROWS - 27
}

/// The ground with the deploy zones levelled.
pub open spec fn carved(tiles: Map<Hex, Terrain>) -> Map<Hex, Terrain> {
    Map::new(
        |h: Hex| tiles.contains_key(h) || in_zone(h),
        |h: Hex|
            if in_zone(h) {
                Terrain::Plains
            } else {
                tiles[h]
            },
    )
}

/// `h` lies in the part of the deploy zones before a column and a row.
spec fn levelled(h: Hex, col: int, row: int) -> bool {
    &&& in_zone(h)
    &&& abs(h.q as int) - 7 < col || (abs(h.q as int) - 7 == col && h.r + 27 < row)
}

spec fn carving(
    before: Map<Hex, Terrain>,
    now: Map<Hex, Terrain>,
    col: int,
    row: int,
) -> bool {
    &&& forall|h: Hex| #[trigger]
        now.contains_key(h) <==> before.contains_key(h) || levelled(h, col, row)
    &&& forall|h: Hex| #[trigger]
        now.contains_key(h) ==> now[h] == (if levelled(h, col, row) {
            Terrain::Plains
        } else {
            before[h]
        })
}

/// Levels the deploy zones, so that no unit starts out stuck.
pub fn carve(terrain: &mut TerrainMap)
    ensures
        final(terrain)@ == carved(old(terrain)@),
{
    let ghost before = terrain@;
    let mut col: i32 = 0;
    while col < ARMY_COLS
        invariant
            0 <= col <= ARMY_COLS,
            carving(before, terrain@, col as int, 0),
        decreases ARMY_COLS - col,
    {
        let mut row: i32 = 0;
        while row < ARMY_ROWS
            invariant
                0 <= col < ARMY_COLS,
                0 <= row <= ARMY_ROWS,
                carving(before, terrain@, col as int, row as int),
            decreases ARMY_ROWS - row,
        {
            let r: i32 = row - ARMY_ROWS / 2;
            let left: Hex = Hex::new(-(GAP / 2) - 1 - col, r);
            let right: Hex = Hex::new((GAP / 2) + 1 + col, r);
            let ghost now = terrain@;
            terrain.set(left, Terrain::Plains);
            terrain.set(right, Terrain::Plains);
            assert forall|h: Hex| levelled(h, col as int, row + 1) <==> levelled(
                h,
                col as int,
                row as int,
            ) || h == left || h == right by {}
            assert forall|h: Hex| #[trigger] terrain@.contains_key(h) <==> before.contains_key(h)
                || levelled(h, col as int, row + 1) by {
                assert(now.contains_key(h) <==> before.contains_key(h) || levelled(
                    h,
                    col as int,
                    row as int,
                ));
            }
            assert forall|h: Hex| #[trigger] terrain@.contains_key(h) implies terrain@[h] == (
            if levelled(h, col as int, row + 1) {
                Terrain::Plains
            } else {
                before[h]
            }) by {
                if h != left && h != right {
                    assert(now.contains_key(h));
                }
            }
            row = row + 1;
        }
        assert forall|h: Hex| #[trigger] levelled(h, col as int, ARMY_ROWS as int) <==> levelled(
            h,
            col + 1,
            0,
        ) by {}
        col = col + 1;
    }
    assert forall|h: Hex| #[trigger] levelled(h, ARMY_COLS as int, 0) <==> in_zone(h) by {}
    assert(terrain@ =~= carved(before));
}

/// The unit at place `i` of the deployment: column by column, row by row, Red
/// before Blue, both armies facing each other.
pub open spec fn recruit(i: int, first: int) -> UnitView {
    let col = i / 2 / 54;
    let row = i / 2 % 54;
    let red = i % 2 == 0;
    fresh(
        if red {
            Team::Red
        } else {
            Team::Blue
        },
        spec_kind_for(col, 28),
        Hex {
            q: (if red {
                -7 - col
            } else {
                7 + col
            }) as i32,
            r: (row - 27) as i32,
        },
        1,
        Entity((first + i) as u64),
    )
}

/// The first `n` units of the deployment.
pub open spec fn deployment(n: nat, first: int) -> Seq<UnitView> {
    Seq::new(n, |i: int| recruit(i, first))
}

/// Lets both armies join.
pub fn deploy(world: &mut World)
    requires
        old(world)@.next_entity + 3024 < u64::MAX,
    ensures
        final(world)@ == (WorldView {
            units: old(world)@.units + deployment(3024, old(world)@.next_entity as int),
            next_entity: (old(world)@.next_entity + 3024) as u64,
            ..old(world)@
        }),
        old(world)@.registered() ==> final(world)@.registered(),
{
    let ghost w = world@;
    let ghost first = w.next_entity as int;
    let ghost mut n: nat = 0;
    let mut col: i32 = 0;
    assert(w.units + deployment(0, first) =~= w.units);
    while col < ARMY_COLS
        invariant
            0 <= col <= ARMY_COLS,
            first == w.next_entity,
            first + 3024 < u64::MAX,
            n == col * 108,
            world@ == (WorldView {
                units: w.units + deployment(n, first),
                next_entity: (first + n) as u64,
                ..w
            }),
            w.registered() ==> world@.registered(),
        decreases ARMY_COLS - col,
    {
        let kind: Kind = kind_for(col, ARMY_COLS);
        let mut row: i32 = 0;
        while row < ARMY_ROWS
            invariant
                0 <= col < ARMY_COLS,
                0 <= row <= ARMY_ROWS,
                kind == spec_kind_for(col as int, 28),
                first == w.next_entity,
                first + 3024 < u64::MAX,
                n == col * 108 + row * 2,
                world@ == (WorldView {
                    units: w.units + deployment(n, first),
                    next_entity: (first + n) as u64,
                    ..w
                }),
                w.registered() ==> world@.registered(),
            decreases ARMY_ROWS - row,
        {
            let r: i32 = row - ARMY_ROWS / 2;
            let red: Hex = Hex::new(-(GAP / 2) - 1 - col, r);
            let blue: Hex = Hex::new((GAP / 2) + 1 + col, r);
            let a = unit(Team::Red, kind, red, 1);
            let b = unit(Team::Blue, kind, blue, 1);
            let ghost ua = UnitView { entity: Entity((first + n) as u64), ..a@ };
            let ghost ub = UnitView { entity: Entity((first + n + 1) as u64), ..b@ };
            let _ = world.spawn(a);
            let _ = world.spawn(b);
            proof {
                assert(n as int / 2 == col * 54 + row && (n + 1) / 2 == col * 54 + row);
                assert((n as int / 2) / 54 == col && (n as int / 2) % 54 == row);
                assert(recruit(n as int, first) == ua);
                assert(recruit(n as int + 1, first) == ub);
                assert((w.units + deployment(n, first)).push(ua).push(ub) =~= w.units + deployment(
                    n + 2,
                    first,
                ));
                n = n + 2;
            }
            row = row + 1;
        }
        col = col + 1;
    }
}

/// A battle ready to be played for a long time: the map of the fixed seed with its
/// deploy zones levelled, and both armies in them, everybody in good health and on
/// passable ground of their own.
pub fn new_battle() -> (w: World)
    ensures
        w@.units == deployment(3024, 0),
        w@.registered(),
        w@.next_entity == 3024,
        w@.tick == 0,
        w@.orders == Map::<(Team, u8), Order>::empty(),
        w@.occupied == Map::<Hex, (Entity, Team)>::empty(),
        w@.damage == Map::<Entity, Single>::empty(),
        w@.events.attacks == Seq::<AttackEvent>::empty(),
        w@.events.deaths == Seq::<DeathEvent>::empty(),
        w@.moved == Set::<Entity>::empty(),
        w@.fronts == Map::<(Team, u8), Single>::empty(),
        forall|h: Hex| #[trigger]
            w@.tiles.contains_key(h) <==> in_rectangle(h, GRID_Q as int, GRID_R as int),
        forall|h: Hex| #[trigger]
            w@.tiles.contains_key(h) ==> w@.tiles[h] == (if in_zone(h) {
                Terrain::Plains
            } else {
                generated(SEED, h)
            }),
        w@.field == (FlowView { red: None, blue: None, built: false }),
        ready(w@, 20000),
        one_per_hex(w@.units),
        hale(w@.units),
        afoot(w@.tiles, w@.units),
{
    let mut w: World = World::new();
    w.terrain = generate_terrain(SEED, GRID_Q, GRID_R);
    let ghost map = w.terrain@;
    carve(&mut w.terrain);
    let ghost tiles = w@.tiles;
    assert forall|h: Hex| #[trigger] tiles.contains_key(h) implies tiles[h] == (if in_zone(h) {
        Terrain::Plains
    } else {
        generated(SEED, h)
    }) by {
        if !in_zone(h) {
            assert(map.contains_key(h));
            assert(map[h] == generated(SEED, h));
        }
    }
    assert forall|h: Hex| #[trigger] tiles.contains_key(h) <==> in_rectangle(
        h,
        GRID_Q as int,
        GRID_R as int,
    ) by {
        assert(map.contains_key(h) <==> in_rectangle(h, GRID_Q as int, GRID_R as int));
    }
    deploy(&mut w);
    assert(Seq::<UnitView>::empty() + deployment(3024, 0) =~= deployment(3024, 0));
    proof {
        lemma_set_out(w@);
    }
    w
}

/// The deployed armies on their map are in order.
proof fn lemma_set_out(w: WorldView)
    requires
        w.units == deployment(3024, 0),
        w.tick == 0,
        forall|h: Hex| #[trigger]
            w.tiles.contains_key(h) <==> in_rectangle(h, GRID_Q as int, GRID_R as int),
        forall|h: Hex| #[trigger]
            w.tiles.contains_key(h) ==> w.tiles[h] == (if in_zone(h) {
                Terrain::Plains
            } else {
                generated(SEED, h)
            }),
    ensures
        ready(w, 20000),
        one_per_hex(w.units),
        hale(w.units),
        afoot(w.tiles, w.units),
{
    law_rectangles_are_charted(w.tiles, GRID_Q as int, GRID_R as int);
    assert forall|h: Hex| !(#[trigger] ground(w.tiles, h)).spec_passable() implies abs(h.q as int)
        <= 3900 && abs(h.r as int) <= 3900 by {
        assert(w.tiles.contains_key(h));
    }
    assert forall|i: int| 0 <= i < w.units.len() implies ({
        let u = #[trigger] w.units[i];
        &&& abs(u.hex.q as int) <= 3000
        &&& abs(u.hex.r as int) <= 3000
        &&& drawn(u.path)
        &&& sound(u)
        &&& ground(w.tiles, u.hex).spec_passable()
        &&& passable_route(w.tiles, u.path)
    }) by {
        let u = w.units[i];
        assert(u == recruit(i, 0));
        law_fresh_units_are_sound(u.team, u.kind, u.hex, u.group, u.entity);
        assert(in_zone(u.hex));
        assert(w.tiles.contains_key(u.hex));
    }
    assert forall|i: int, j: int| 0 <= i < j < w.units.len() implies #[trigger] w.units[i].hex
        != #[trigger] w.units[j].hex by {
        law_deployment_is_fair(i, j, 0, w.tiles);
    }
}

/// Units deploy on levelled ground, each on a hex of its own, and the armies are
/// mirror images.
pub proof fn law_deployment_is_fair(i: int, j: int, first: int, tiles: Map<Hex, Terrain>)
    requires
        0 <= i < 3024,
        0 <= j < 3024,
        i != j,
    ensures
        ground(carved(tiles), recruit(i, first).hex) == Terrain::Plains,
        recruit(i, first).hex != recruit(j, first).hex,
        i % 2 == 0 ==> {
            let red = recruit(i, first);
            let blue = recruit(i + 1, first);
            &&& red.team == Team::Red
            &&& blue.team == Team::Blue
            &&& red.kind == blue.kind
            &&& blue.hex.q == -red.hex.q
            &&& blue.hex.r == red.hex.r
        },
{
    assert(in_zone(recruit(i, first).hex));
}

/// The orders that the pressed ones of the first `n` of the keys 1 to 5 stand for.
pub open spec fn ordered(pressed: Seq<bool>, n: int) -> Seq<Order>
    decreases n,
{
    if n <= 0 {
        Seq::empty()
    } else if pressed[n - 1] {
        ordered(pressed, n - 1).push(key_order(n - 1))
    } else {
        ordered(pressed, n - 1)
    }
}

/// What each key stands for.
pub open spec fn key_order(k: int) -> Order {
    if k == 0 {
        Order::March
    } else if k == 1 {
        Order::Charge
    } else if k == 2 {
        Order::Hold
    } else if k == 3 {
        Order::Retreat
    } else {
        Order::Unleash
    }
}

/// The order that the highest of the pressed keys 1 to 5 stands for.
pub open spec fn commanded(pressed: Seq<bool>) -> Option<Order> {
    if pressed[4] {
        Some(Order::Unleash)
    } else if pressed[3] {
        Some(Order::Retreat)
    } else if pressed[2] {
        Some(Order::Hold)
    } else if pressed[1] {
        Some(Order::Charge)
    } else if pressed[0] {
        Some(Order::March)
    } else {
        None
    }
}

/// Keys 1 to 5 give the first group of Red its orders: march, charge, hold,
/// retreat, unleash. Of several the last one stays in force. The orders that were
/// given are returned.
pub fn control(pressed: [bool; 5], orders: &mut Orders) -> (given: Vec<Order>)
    ensures
        final(orders)@ == (match commanded(pressed@) {
            Some(o) => old(orders)@.insert((Team::Red, 1u8), o),
            None => old(orders)@,
        }),
        given@ == ordered(pressed@, 5),
{
    let ghost before = orders@;
    let keys: [Order; 5] = [
        Order::March,
        Order::Charge,
        Order::Hold,
        Order::Retreat,
        Order::Unleash,
    ];
    let mut given: Vec<Order> = Vec::new();
    let mut k: usize = 0;
    while k < 5
        invariant
            k <= 5,
            forall|j: int| 0 <= j < 5 ==> #[trigger] keys[j] == key_order(j),
            given@ == ordered(pressed@, k as int),
            orders@ == (if given@.len() == 0 {
                before
            } else {
                before.insert((Team::Red, 1u8), given@.last())
            }),
        decreases 5 - k,
    {
        if pressed[k] {
            let order: Order = keys[k];
            assert(order == key_order(k as int));
            orders.set(Team::Red, 1, order);
            given.push(order);
            assert(orders@ =~= before.insert((Team::Red, 1u8), order));
        }
        k = k + 1;
    }
    proof {
        reveal_with_fuel(ordered, 6);
    }
    given
}

/// How the battle stands.
#[derive(Debug)]
pub struct Status {
    pub tick: u64,
    pub red: usize,
    pub blue: usize,
    pub red_order: Order,
    pub blue_order: Order,
}

/// How the battle stands, every fourth tick.
pub fn log_status(world: &World) -> (s: Option<Status>)
    ensures
        s is Some <==> world@.tick % 4 == 0,
        s matches Some(s) ==> {
            &&& s.tick == world@.tick
            &&& s.red == strength(world@.units, Team::Red)
            &&& s.blue == strength(world@.units, Team::Blue)
            &&& s.red_order == order_of(world@.orders, Team::Red, 1)
            &&& s.blue_order == order_of(world@.orders, Team::Blue, 1)
        },
{
    if world.tick.0 % 4 != 0 {
        return None;
    }
    Some(
        Status {
            tick: world.tick.0,
            red: world.count(Team::Red),
            blue: world.count(Team::Blue),
            red_order: world.orders.get(Team::Red, 1),
            blue_order: world.orders.get(Team::Blue, 1),
        },
    )
}

/// The armies column by column from the front: each column has 54 rows, and on each row
/// a Red unit stands to the left and a Blue one of the same kind mirrors it. The first
/// seven columns are cavalry, the last seven skirmishers, and those between infantry.
pub proof fn law_the_armies(col: int, row: int, first: int)
    requires
        0 <= col < 28,
        0 <= row < 54,
        0 <= first,
        first + 3024 < u64::MAX,
    ensures
        ({
            let i = 2 * (54 * col + row);
            let (red, blue) = (recruit(i, first), recruit(i + 1, first));
            let kind = if col < 7 {
                Kind::Cavalry
            } else if col < 21 {
                Kind::Infantry
            } else {
                Kind::Skirmisher
            };
            &&& 0 <= i && i + 1 < 3024
            &&& red == fresh(
                Team::Red,
                kind,
                Hex { q: (-7 - col) as i32, r: (row - 27) as i32 },
                1,
                Entity((first + i) as u64),
            )
            &&& blue == fresh(
                Team::Blue,
                kind,
                Hex { q: (7 + col) as i32, r: (row - 27) as i32 },
                1,
                Entity((first + i + 1) as u64),
            )
            &&& deployment(3024, first).len() == 3024
            &&& deployment(3024, first)[i] == red
            &&& deployment(3024, first)[i + 1] == blue
        }),
{
    let i = 2 * (54 * col + row);
    assert(i / 2 == 54 * col + row && (i + 1) / 2 == 54 * col + row);
    assert((54 * col + row) / 54 == col && (54 * col + row) % 54 == row);
}

/// A column is of cavalry in the first quarter of an army, of skirmishers in the last
/// one, and of infantry between.
pub proof fn law_columns(col: int, cols: int)
    requires
        cols >= 0,
    ensures
        spec_kind_for(col, cols) == Kind::Cavalry <==> 4 * (col + 1) <= cols,
        4 * (col + 1) > cols ==> (spec_kind_for(col, cols) == Kind::Skirmisher <==> 4 * (col + 1) > 3
            * cols),
{
}

/// Levelling makes plains of the deploy zones and leaves all else as it was.
pub proof fn law_levelling(tiles: Map<Hex, Terrain>, h: Hex)
    ensures
        ({
            let zone = (7 <= h.q < 35 || -35 < h.q <= -7) && -27 <= h.r < 27;
            &&& zone ==> carved(tiles).contains_key(h) && carved(tiles)[h] == Terrain::Plains
            &&& !zone ==> carved(tiles).contains_key(h) == tiles.contains_key(h)
            &&& !zone && tiles.contains_key(h) ==> carved(tiles)[h] == tiles[h]
        }),
{
}

/// Each key stands for its own order, all that are pressed are given in turn, and the
/// last of them stays in force.
pub proof fn law_keys(pressed: Seq<bool>)
    requires
        pressed.len() == 5,
    ensures
        key_order(0) == Order::March && key_order(1) == Order::Charge && key_order(2) == Order::Hold
            && key_order(3) == Order::Retreat && key_order(4) == Order::Unleash,
        commanded(pressed) is None <==> ordered(pressed, 5).len() == 0,
        commanded(pressed) matches Some(o) ==> ordered(pressed, 5).last() == o,
        forall|k: int|
            0 <= k < 5 ==> ordered(pressed, k + 1) == (if #[trigger] pressed[k] {
                ordered(pressed, k).push(key_order(k))
            } else {
                ordered(pressed, k)
            }),
        ordered(pressed, 0).len() == 0,
{
    reveal_with_fuel(ordered, 6);
}

} // verus!
