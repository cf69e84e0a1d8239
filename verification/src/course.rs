//! The course of a battle: what keeps it going tick after tick, and what every tick
//! keeps.

use crate::flow::{charted, is_charted};
use crate::hex::{abs, Hex, FIELD};
use crate::index::{boxed, compact, is_compact, one_per_hex};
use crate::movement::routed;
use crate::reach::{hemmed, is_hemmed, law_hemmed_maps_are_navigable};
use crate::route::{drawn, is_drawn};
use crate::terrain::{ground, Terrain};
use crate::unit::{distinct, fielded, roster, Unit, UnitView, PATH_RECOMPUTE_PERIOD};
use crate::world::{afoot, hale, heir, inherits, step, upheld, World, WorldView};
use vstd::prelude::*;

verus! {

/// How far from the origin, by each coordinate, units may be led at most for who
/// stands where to fit in a table.
pub const MUSTER: i32 = 23000;

/// All units stand within `m` of the origin, by each coordinate.
pub open spec fn gathered(units: Seq<UnitView>, m: int) -> bool {
    forall|i: int|
        0 <= i < units.len() ==> abs((#[trigger] units[i]).hex.q as int) <= m && abs(
            units[i].hex.r as int,
        ) <= m
}

/// A world that can run for some ticks: the units are and stay close enough to the
/// origin, the impassable ground is, and no number runs out.
pub open spec fn ready(w: WorldView, ticks: int) -> bool {
    &&& gathered(w.units, MUSTER - ticks)
    &&& w.tick + 1 + ticks + PATH_RECOMPUTE_PERIOD <= u64::MAX
    &&& w.units.len() <= u32::MAX
    &&& routed(w.units)
    &&& charted(w.tiles)
    &&& hemmed(w.tiles)
}

/// A world that is ready is within all bounds of a tick.
pub proof fn law_ready_worlds_are_bounded(w: WorldView, ticks: int)
    requires
        ready(w, ticks),
        ticks >= 0,
    ensures
        w.bounded(),
{
    let m = MUSTER as int;
    law_hemmed_maps_are_navigable(w.tiles);
    assert forall|i: int| 0 <= i < w.units.len() implies (#[trigger] w.units[i]).hex.in_field() by {}
    assert((m - (-m) + 1) * (m - (-m) + 1) <= 0x8000_0000) by (nonlinear_arith)
        requires
            m == 23000,
    ;
    assert(boxed(w.units, -m, -m, m, m));
}

/// Whether all units stand within `m` of the origin, by each coordinate.
fn is_gathered(units: &Vec<Unit>, m: i32) -> (b: bool)
    requires
        m > i32::MIN,
    ensures
        b == gathered(roster(units@), m as int),
{
    let ghost all = roster(units@);
    let mut i: usize = 0;
    while i < units.len()
        invariant
            i <= units@.len(),
            all == roster(units@),
            m > i32::MIN,
            forall|j: int|
                0 <= j < i ==> abs((#[trigger] all[j]).hex.q as int) <= m && abs(
                    all[j].hex.r as int,
                ) <= m,
        decreases units@.len() - i,
    {
        let h: Hex = units[i].hex;
        assert(all[i as int].hex == h);
        if h.q < -m || h.q > m || h.r < -m || h.r > m {
            return false;
        }
        i = i + 1;
    }
    true
}

/// Whether the routes of all units can be measured from the field.
fn is_routed(units: &Vec<Unit>) -> (b: bool)
    ensures
        b == routed(roster(units@)),
{
    let ghost all = roster(units@);
    let mut i: usize = 0;
    while i < units.len()
        invariant
            i <= units@.len(),
            all == roster(units@),
            forall|j: int| 0 <= j < i ==> drawn((#[trigger] all[j]).path),
        decreases units@.len() - i,
    {
        assert(all[i as int].path == units@[i as int].path@);
        if !is_drawn(&units[i].path) {
            return false;
        }
        i = i + 1;
    }
    true
}

/// Whether a world can run for some ticks.
pub fn is_ready(world: &World, ticks: u32) -> (b: bool)
    ensures
        b == ready(world@, ticks as int),
        b ==> world@.bounded(),
{
    let left: i64 = MUSTER as i64 - ticks as i64;
    let close: bool = if left < 0 {
        world.units.len() == 0
    } else {
        is_gathered(&world.units, left as i32)
    };
    proof {
        if left < 0 && world.units@.len() > 0 && gathered(world@.units, left as int) {
            assert(abs(world@.units[0].hex.q as int) <= left);
        }
        if ready(world@, ticks as int) {
            law_ready_worlds_are_bounded(world@, ticks as int);
        }
    }
    close && world.tick.0 <= u64::MAX - 1 - ticks as u64 - PATH_RECOMPUTE_PERIOD
        && world.units.len() as u64 <= u32::MAX as u64 && is_routed(&world.units) && is_charted(
        &world.terrain,
    ) && is_hemmed(&world.terrain)
}

/// A world that can be played for a tick, as far as it can be told without a search:
/// what a tick asks of the units and the tiles, on a hemmed map.
pub open spec fn playable(w: WorldView) -> bool {
    &&& w.tick + 1 + PATH_RECOMPUTE_PERIOD <= u64::MAX
    &&& w.units.len() <= u32::MAX
    &&& fielded(w.units)
    &&& compact(w.units)
    &&& routed(w.units)
    &&& charted(w.tiles)
    &&& hemmed(w.tiles)
}

/// Whether a world can be played for a tick.
pub fn is_playable(world: &World) -> (b: bool)
    ensures
        b == playable(world@),
        b ==> world@.bounded(),
{
    proof {
        if hemmed(world@.tiles) {
            law_hemmed_maps_are_navigable(world@.tiles);
        }
        assert(gathered(world@.units, FIELD as int) == fielded(world@.units)) by {
            if gathered(world@.units, FIELD as int) {
                assert forall|i: int| 0 <= i < world@.units.len() implies (
                #[trigger] world@.units[i]).hex.in_field() by {}
            }
            if fielded(world@.units) {
                assert forall|i: int| 0 <= i < world@.units.len() implies abs(
                    (#[trigger] world@.units[i]).hex.q as int,
                ) <= FIELD && abs(world@.units[i].hex.r as int) <= FIELD by {
                    assert(world@.units[i].hex.in_field());
                }
            }
        }
    }
    world.tick.0 <= u64::MAX - 1 - PATH_RECOMPUTE_PERIOD && world.units.len() as u64
        <= u32::MAX as u64 && is_gathered(&world.units, FIELD) && is_compact(&world.units)
        && is_routed(&world.units) && is_charted(&world.terrain) && is_hemmed(&world.terrain)
}

/// The same unit later on, no healthier.
pub open spec fn kin(u: UnitView, v: UnitView) -> bool {
    &&& v.entity == u.entity
    &&& v.team == u.team
    &&& v.kind == u.kind
    &&& v.group == u.group
    &&& v.health.val() <= u.health.val()
}

/// One of the units is the same unit.
pub open spec fn stems(units: Seq<UnitView>, v: UnitView) -> bool {
    exists|j: int| 0 <= j < units.len() && kin(#[trigger] units[j], v)
}

/// What a battle keeps however long it lasts: nobody joins, and whoever is left is
/// one of those who were there, on the same side and no healthier; no two units come
/// to share a handle or a hex; health stays a number above zero and within the
/// measure of the kind; and nobody leaves passable ground.
pub open spec fn endured(before: WorldView, after: WorldView) -> bool {
    &&& after.units.len() <= before.units.len()
    &&& distinct(after.units)
    &&& forall|i: int| 0 <= i < after.units.len() ==> stems(before.units, #[trigger] after.units[i])
    &&& hale(before.units) ==> hale(after.units)
    &&& before.registered() ==> after.registered()
    &&& one_per_hex(before.units) ==> one_per_hex(after.units)
    &&& afoot(before.tiles, before.units) ==> afoot(after.tiles, after.units)
}

/// What every tick keeps, a battle keeps.
pub proof fn law_battle_keeps_what_ticks_keep(a: WorldView, b: WorldView, c: WorldView)
    requires
        endured(a, b),
        upheld(b, c),
    ensures
        endured(a, c),
{
    assert forall|i: int| 0 <= i < c.units.len() implies stems(a.units, #[trigger] c.units[i]) by {
        assert(inherits(c.orders, b.units, c.units[i]));
        let j = choose|j: int|
            0 <= j < b.units.len() && heir(c.orders, #[trigger] b.units[j], c.units[i]);
        assert(stems(a.units, b.units[j]));
        let k = choose|k: int| 0 <= k < a.units.len() && kin(#[trigger] a.units[k], b.units[j]);
        assert(kin(a.units[k], c.units[i]));
    }
}

/// A tick takes the units at most one hex further out.
pub proof fn law_units_spread_by_one(before: WorldView, after: WorldView, m: int)
    requires
        upheld(before, after),
        distinct(before.units),
        fielded(before.units),
        gathered(before.units, m),
    ensures
        gathered(after.units, m + 1),
{
    assert forall|i: int| 0 <= i < after.units.len() implies abs(
        (#[trigger] after.units[i]).hex.q as int,
    ) <= m + 1 && abs(after.units[i].hex.r as int) <= m + 1 by {
        assert(inherits(after.orders, before.units, after.units[i]));
        let j = choose|j: int|
            0 <= j < before.units.len() && heir(
                after.orders,
                #[trigger] before.units[j],
                after.units[i],
            );
        assert(before.units[j].hex.in_field());
    }
}

/// Runs some ticks. What comes out is a function of what went in, and what a tick
/// keeps is kept throughout.
pub fn run(world: &mut World, ticks: u32)
    requires
        ready(old(world)@, ticks as int),
        distinct(old(world)@.units),
    ensures
        final(world)@ == old(world)@.later(ticks as nat),
        final(world)@.tiles == old(world)@.tiles,
        endured(old(world)@, final(world)@),
{
    let ghost start = world@;
    let mut k: u32 = 0;
    proof {
        assert forall|i: int| 0 <= i < start.units.len() implies stems(
            start.units,
            #[trigger] start.units[i],
        ) by {
            assert(kin(start.units[i], start.units[i]));
        }
    }
    while k < ticks
        invariant
            k <= ticks,
            world@ == start.later(k as nat),
            world@.tiles == start.tiles,
            ready(world@, ticks - k),
            endured(start, world@),
        decreases ticks - k,
    {
        let ghost before = world@;
        proof {
            law_ready_worlds_are_bounded(before, ticks - k);
        }
        step(world);
        proof {
            law_battle_keeps_what_ticks_keep(start, before, world@);
            law_units_spread_by_one(before, world@, MUSTER - (ticks - k));
        }
        k = k + 1;
    }
}

/// What it takes to be played for a tick, of the units: nobody stands off the field, all
/// stand in a box that a table can cover, and no route leads off what can be measured.
pub open spec fn manageable(units: Seq<UnitView>) -> bool {
    &&& units.len() <= 0xffff_ffff
    &&& forall|i: int|
        0 <= i < units.len() ==> {
            let h = (#[trigger] units[i]).hex;
            -0x0800_0000 <= h.q <= 0x0800_0000 && -0x0800_0000 <= h.r <= 0x0800_0000
        }
    &&& exists|q0: int, r0: int, q1: int, r1: int| #[trigger] boxed(units, q0, r0, q1, r1)
    &&& forall|i: int| 0 <= i < units.len() ==> drawn((#[trigger] units[i]).path)
}

/// What it takes of the map: its tiles have neighbours with coordinates and are not too
/// many, and no mountain and no water is further than 3900 from the origin.
pub open spec fn manageable_map(tiles: Map<Hex, Terrain>) -> bool {
    &&& tiles.dom().len() <= 0x7fff_fffd
    &&& forall|h: Hex| #[trigger]
        tiles.contains_key(h) ==> -0x8000_0000 < h.q < 0x7fff_ffff && -0x8000_0000 < h.r
            < 0x7fff_ffff && (tiles[h] == Terrain::Mountain || tiles[h] == Terrain::Water ==> -3900
            <= h.q <= 3900 && -3900 <= h.r <= 3900)
}

/// All units are within `m` of the origin, and no route leads off what can be measured.
pub open spec fn huddled(units: Seq<UnitView>, m: int) -> bool {
    forall|i: int|
        0 <= i < units.len() ==> {
            let h = (#[trigger] units[i]).hex;
            -m <= h.q <= m && -m <= h.r <= m && drawn(units[i].path)
        }
}

/// A world can be played exactly if its units and its map are manageable and there are
/// ticks left. It can run for some ticks exactly if there are that many left, the map is
/// manageable, and the units stay close enough to the origin.
pub proof fn law_who_can_be_played(w: WorldView)
    ensures
        playable(w) <==> w.tick + 6 <= u64::MAX && manageable(w.units) && manageable_map(w.tiles),
        forall|ticks: int| #[trigger]
            ready(w, ticks) <==> w.tick + 6 + ticks <= u64::MAX && manageable_map(w.tiles)
                && w.units.len() <= 0xffff_ffff && huddled(w.units, 23000 - ticks),
{
    assert(charted(w.tiles) && hemmed(w.tiles) <==> manageable_map(w.tiles)) by {
        if manageable_map(w.tiles) {
            assert forall|h: Hex| !(#[trigger] ground(w.tiles, h)).spec_passable() implies abs(
                h.q as int,
            ) <= 3900 && abs(h.r as int) <= 3900 by {
                assert(w.tiles.contains_key(h));
            }
        }
        if charted(w.tiles) && hemmed(w.tiles) {
            assert forall|h: Hex| #[trigger] w.tiles.contains_key(h) implies -0x8000_0000 < h.q
                < 0x7fff_ffff && -0x8000_0000 < h.r < 0x7fff_ffff && (w.tiles[h]
                == Terrain::Mountain || w.tiles[h] == Terrain::Water ==> -3900 <= h.q <= 3900
                && -3900 <= h.r <= 3900) by {
                assert(h.inner());
                assert(ground(w.tiles, h) == w.tiles[h]);
            }
        }
    }
    assert forall|ticks: int| #[trigger] ready(w, ticks) <==> w.tick + 6 + ticks <= u64::MAX
        && manageable_map(w.tiles) && w.units.len() <= 0xffff_ffff && huddled(
        w.units,
        23000 - ticks,
    ) by {
        let m = 23000 - ticks;
        if gathered(w.units, m) && routed(w.units) {
            assert forall|i: int| 0 <= i < w.units.len() implies ({
                let h = (#[trigger] w.units[i]).hex;
                -m <= h.q <= m && -m <= h.r <= m && drawn(w.units[i].path)
            }) by {
                assert(abs(w.units[i].hex.q as int) <= m);
            }
        }
        if huddled(w.units, m) {
            assert forall|i: int| 0 <= i < w.units.len() implies abs(
                (#[trigger] w.units[i]).hex.q as int,
            ) <= m && abs(w.units[i].hex.r as int) <= m && drawn(w.units[i].path) by {}
        }
    }
    assert(fielded(w.units) <==> forall|i: int|
        0 <= i < w.units.len() ==> {
            let h = (#[trigger] w.units[i]).hex;
            -0x0800_0000 <= h.q <= 0x0800_0000 && -0x0800_0000 <= h.r <= 0x0800_0000
        }) by {
        if fielded(w.units) {
            assert forall|i: int| 0 <= i < w.units.len() implies ({
                let h = (#[trigger] w.units[i]).hex;
                -0x0800_0000 <= h.q <= 0x0800_0000 && -0x0800_0000 <= h.r <= 0x0800_0000
            }) by {
                assert(w.units[i].hex.in_field());
            }
        }
    }
}

} // verus!
