//! What the fighting comes to, said of the units themselves.

use crate::anim::animated;
use crate::combat::{
    health_of, lemma_flanked, prey, vitals, weakest, AttackEvent, Clash, DeathEvent, Setting,
};
use crate::damage::{
    fallen, law_only_the_living_remain, mourned, obituary, survivors, Shelter,
};
use crate::doctrine::{beside, hostile, law_beside, told};
use crate::hex::{dist, nb, Hex};
use crate::index::{
    engages, foe_on, law_index_locates_every_unit, occupancy, one_per_hex, stood_on,
};
use crate::orders::{contacts, strength};
use crate::pick::law_first_least;
use crate::scan::{in_shot, law_shot_is_nearest_in_sight, shot};
use crate::single::{
    lemma_nearest_multiple, lemma_round_ratio, lemma_val_representable, Single, INFINITE,
};
use crate::stamina::all_exerted;
use crate::terrain::{clear_between, Terrain};
use crate::unit::{distinct, AnimState, Entity, Kind, Order, Team, UnitView};
use vstd::arithmetic::power2::{lemma2_to64, lemma_pow2_adds, lemma_pow2_pos, pow2};
use vstd::prelude::*;

verus! {

/// The numbers below `n` of which `p` holds.
pub open spec fn those(n: int, p: spec_fn(int) -> bool) -> Set<int> {
    Set::new(|i: int| 0 <= i < n && p(i))
}

pub proof fn lemma_those(n: int, p: spec_fn(int) -> bool)
    requires
        n >= 0,
    ensures
        those(n, p).finite(),
        those(0, p).len() == 0,
        those(n + 1, p).finite(),
        those(n + 1, p).len() == those(n, p).len() + (if p(n) {
            1nat
        } else {
            0
        }),
    decreases n,
{
    assert(those(0, p) =~= Set::empty());
    if n > 0 {
        lemma_those(n - 1, p);
    }
    if p(n) {
        assert(those(n + 1, p) =~= those(n, p).insert(n));
    } else {
        assert(those(n + 1, p) =~= those(n, p));
    }
}

/// Numbers below `n` are picked alike where two conditions agree.
proof fn lemma_those_agree(n: int, p: spec_fn(int) -> bool, q: spec_fn(int) -> bool)
    requires
        forall|i: int| 0 <= i < n ==> #[trigger] p(i) == q(i),
    ensures
        those(n, p) == those(n, q),
{
    assert(those(n, p) =~= those(n, q)) by {
        assert forall|i: int| those(n, p).contains(i) == those(n, q).contains(i) by {
            if 0 <= i < n {
                assert(p(i) == q(i));
            }
        }
    }
}

/// An enemy stands next to a unit on `h` of `team`.
pub open spec fn touched(occupied: Map<Hex, (Entity, Team)>, h: Hex, team: Team) -> bool {
    exists|g: Hex| #[trigger] hostile(occupied, team, g) && beside(h, g)
}

pub proof fn lemma_touched(occupied: Map<Hex, (Entity, Team)>, h: Hex, team: Team)
    requires
        h.inner(),
    ensures
        engages(occupied, h, team) <==> touched(occupied, h, team),
{
    if engages(occupied, h, team) {
        let i = choose|i: int| 0 <= i < 6 && foe_on(occupied, #[trigger] nb(h, i), team);
        law_beside(h, nb(h, i));
        assert(hostile(occupied, team, nb(h, i)));
    }
    if touched(occupied, h, team) {
        let g = choose|g: Hex| #[trigger] hostile(occupied, team, g) && beside(h, g);
        law_beside(h, g);
        let i = choose|i: int| 0 <= i < 6 && #[trigger] nb(h, i) == g;
        assert(foe_on(occupied, nb(h, i), team));
    }
}

/// The strength of a team is the number of its units, whatever their kind or group.
pub proof fn law_strength_counts_units(units: Seq<UnitView>, team: Team)
    ensures
        strength(units, team) == those(units.len() as int, |i: int| units[i].team == team).len(),
    decreases units.len(),
{
    let p = |i: int| units[i].team == team;
    if units.len() > 0 {
        let before = units.drop_last();
        let n = before.len() as int;
        let q = |i: int| before[i].team == team;
        law_strength_counts_units(before, team);
        assert forall|i: int| 0 <= i < n implies #[trigger] q(i) == p(i) by {}
        lemma_those_agree(n, q, p);
        lemma_those(n, p);
    } else {
        lemma_those(0, p);
    }
}

/// The contacts of a team are its units, of any kind and group, that an enemy stands
/// next to; so there are any exactly if some unit of the team touches an enemy.
pub proof fn law_contacts_count_units(
    units: Seq<UnitView>,
    occupied: Map<Hex, (Entity, Team)>,
    team: Team,
)
    requires
        forall|i: int| 0 <= i < units.len() ==> (#[trigger] units[i]).hex.inner(),
    ensures
        contacts(units, occupied, team) == those(
            units.len() as int,
            |i: int| units[i].team == team && touched(occupied, units[i].hex, team),
        ).len(),
        contacts(units, occupied, team) > 0 <==> exists|i: int|
            0 <= i < units.len() && (#[trigger] units[i]).team == team && touched(
                occupied,
                units[i].hex,
                team,
            ),
    decreases units.len(),
{
    let p = |i: int| units[i].team == team && touched(occupied, units[i].hex, team);
    if units.len() > 0 {
        let before = units.drop_last();
        let n = before.len() as int;
        let q = |i: int| before[i].team == team && touched(occupied, before[i].hex, team);
        assert forall|i: int| 0 <= i < n implies (#[trigger] before[i]).hex.inner() by {
            assert(units[i].hex.inner());
        }
        law_contacts_count_units(before, occupied, team);
        assert forall|i: int| 0 <= i < n implies #[trigger] q(i) == p(i) by {}
        lemma_those_agree(n, q, p);
        lemma_those(n, p);
        assert(units[n].hex.inner());
        lemma_touched(occupied, units[n].hex, team);
        assert forall|i: int| 0 <= i < n implies #[trigger] before[i] == units[i] by {}
        if contacts(before, occupied, team) > 0 {
            let i = choose|i: int|
                0 <= i < before.len() && (#[trigger] before[i]).team == team && touched(
                    occupied,
                    before[i].hex,
                    team,
                );
            assert(units[i].team == team);
        }
        if exists|i: int|
            0 <= i < units.len() && (#[trigger] units[i]).team == team && touched(
                occupied,
                units[i].hex,
                team,
            ) {
            let i = choose|i: int|
                0 <= i < units.len() && (#[trigger] units[i]).team == team && touched(
                    occupied,
                    units[i].hex,
                    team,
                );
            if i < n {
                assert(before[i].team == team);
            }
        }
    } else {
        lemma_those(0, p);
    }
}

/// The healths that the fighting goes by are those of the units: each handle that a
/// unit has is there, no other is, and where handles are not shared each has the
/// health of its unit.
pub proof fn law_vitals_are_the_healths(units: Seq<UnitView>)
    ensures
        forall|e: Entity| #[trigger]
            vitals(units).contains_key(e) <==> exists|i: int|
                0 <= i < units.len() && (#[trigger] units[i]).entity == e,
        distinct(units) ==> forall|i: int|
            0 <= i < units.len() ==> vitals(units)[(#[trigger] units[i]).entity] == units[i].health,
    decreases units.len(),
{
    if units.len() > 0 {
        let before = units.drop_last();
        let n = before.len() as int;
        law_vitals_are_the_healths(before);
        assert forall|e: Entity| #[trigger] vitals(units).contains_key(e) <==> exists|i: int|
            0 <= i < units.len() && (#[trigger] units[i]).entity == e by {
            assert(vitals(before).contains_key(e) <==> exists|i: int|
                0 <= i < before.len() && (#[trigger] before[i]).entity == e);
            if vitals(before).contains_key(e) {
                let i = choose|i: int| 0 <= i < before.len() && (#[trigger] before[i]).entity == e;
                assert(units[i].entity == e);
            }
            if units[n].entity == e {
                assert(units[n].entity == e);
            }
            if exists|i: int| 0 <= i < units.len() && (#[trigger] units[i]).entity == e {
                let i = choose|i: int| 0 <= i < units.len() && (#[trigger] units[i]).entity == e;
                if i < n {
                    assert(before[i].entity == e);
                }
            }
        }
        if distinct(units) {
            assert forall|i: int, j: int| 0 <= i < j < n implies #[trigger] before[i].entity
                != #[trigger] before[j].entity by {
                assert(units[i].entity != units[j].entity);
            }
            assert forall|i: int| 0 <= i < units.len() implies vitals(
                units,
            )[(#[trigger] units[i]).entity] == units[i].health by {
                if i < n {
                    assert(before[i] == units[i]);
                    assert(units[i].entity != units[n].entity);
                }
            }
        }
    }
}

/// An enemy of `u` next to it whose health is a number and not infinite.
pub open spec fn rival(u: UnitView, v: UnitView) -> bool {
    &&& v.team != u.team
    &&& beside(u.hex, v.hex)
    &&& !v.health.spec_is_nan()
    &&& v.health.val() < (Single { bits: INFINITE }).val()
}

/// What the fighting goes by is what the units are: who stands where, and how healthy
/// each is.
pub open spec fn faithful(s: Setting, units: Seq<UnitView>) -> bool {
    &&& distinct(units)
    &&& one_per_hex(units)
    &&& s.occupied == occupancy(units)
    &&& s.vitals == vitals(units)
}

proof fn lemma_at(s: Setting, units: Seq<UnitView>, h: Hex)
    requires
        faithful(s, units),
    ensures
        s.occupied.contains_key(h) <==> exists|i: int|
            0 <= i < units.len() && (#[trigger] units[i]).hex == h,
        forall|i: int|
            0 <= i < units.len() && (#[trigger] units[i]).hex == h ==> s.occupied[h] == (
                units[i].entity,
                units[i].team,
            ) && s.vitals.contains_key(units[i].entity) && s.vitals[units[i].entity]
                == units[i].health,
{
    law_index_locates_every_unit(units);
    law_vitals_are_the_healths(units);
    assert(occupancy(units).contains_key(h) <==> stood_on(units, h));
    assert forall|i: int| 0 <= i < units.len() && (#[trigger] units[i]).hex == h implies s.occupied[h]
        == (units[i].entity, units[i].team) && s.vitals.contains_key(units[i].entity)
        && s.vitals[units[i].entity] == units[i].health by {
        assert(vitals(units).contains_key(units[i].entity));
    }
}

/// In melee a unit strikes exactly if an enemy is next to it, of whatever kind, and it
/// strikes one whose own health is the least of theirs.
pub proof fn law_melee_strikes_the_weakest(s: Setting, units: Seq<UnitView>, u: UnitView)
    requires
        faithful(s, units),
        u.kind != Kind::Skirmisher,
        u.hex.in_field(),
    ensures
        s.target(u) is Some <==> exists|i: int|
            0 <= i < units.len() && rival(u, #[trigger] units[i]),
        s.target(u) matches Some(e) ==> exists|i: int|
            0 <= i < units.len() && (#[trigger] units[i]).entity == e && rival(u, units[i])
                && forall|j: int|
                0 <= j < units.len() && rival(u, #[trigger] units[j]) ==> units[i].health.val()
                    <= units[j].health.val(),
{
    let ok = |i: int| prey(s.occupied, s.vitals, u.hex, u.team, i);
    let key = |i: int| health_of(s.vitals, s.occupied[nb(u.hex, i)].0).val();
    law_first_least(6, ok, key);
    assert forall|j: int| 0 <= j < units.len() && rival(u, #[trigger] units[j]) implies exists|
        i: int,
    |
        0 <= i < 6 && #[trigger] ok(i) && nb(u.hex, i) == units[j].hex && key(i)
            == units[j].health.val() by {
        law_beside(u.hex, units[j].hex);
        let i = choose|i: int| 0 <= i < 6 && #[trigger] nb(u.hex, i) == units[j].hex;
        lemma_at(s, units, units[j].hex);
        assert(foe_on(s.occupied, nb(u.hex, i), u.team));
        assert(ok(i));
    }
    if let Some(b) = weakest(s.occupied, s.vitals, u.hex, u.team) {
        let h = nb(u.hex, b);
        assert(ok(b));
        lemma_at(s, units, h);
        law_beside(u.hex, h);
        let k = choose|k: int| 0 <= k < units.len() && (#[trigger] units[k]).hex == h;
        assert(rival(u, units[k]));
        assert(key(b) == units[k].health.val());
    }
}

/// An enemy of `u` within three hexes that no mountain between hides.
pub open spec fn mark(s: Setting, u: UnitView, v: UnitView) -> bool {
    &&& v.team != u.team
    &&& v.hex != u.hex
    &&& dist(u.hex, v.hex) <= 3
    &&& clear_between(u.hex, v.hex, s.tiles)
}

/// A skirmisher shoots exactly if an enemy is within three hexes and in sight, and it
/// shoots at one that none of them is closer than.
pub proof fn law_shots_go_to_the_nearest(s: Setting, units: Seq<UnitView>, u: UnitView)
    requires
        faithful(s, units),
        u.kind == Kind::Skirmisher,
        u.hex.in_field(),
    ensures
        s.target(u) is Some <==> exists|i: int|
            0 <= i < units.len() && mark(s, u, #[trigger] units[i]),
        s.target(u) matches Some(e) ==> exists|i: int|
            0 <= i < units.len() && (#[trigger] units[i]).entity == e && mark(s, u, units[i])
                && forall|j: int|
                0 <= j < units.len() && mark(s, u, #[trigger] units[j]) ==> dist(
                    u.hex,
                    units[i].hex,
                ) <= dist(u.hex, units[j].hex),
{
    law_shot_is_nearest_in_sight(s.occupied, s.tiles, u.hex, u.team, 3);
    assert forall|j: int| 0 <= j < units.len() && mark(s, u, #[trigger] units[j]) implies in_shot(
        s.occupied,
        s.tiles,
        u.hex,
        u.team,
        3,
        units[j].hex,
    ) by {
        lemma_at(s, units, units[j].hex);
        assert(foe_on(s.occupied, units[j].hex, u.team));
    }
    if let Some(h) = shot(s.occupied, s.tiles, u.hex, u.team, 3) {
        lemma_at(s, units, h);
        let k = choose|k: int| 0 <= k < units.len() && (#[trigger] units[k]).hex == h;
        assert(mark(s, u, units[k]));
    }
}

/// The melee attackers of `e` are counted whatever their team, kind or group.
pub proof fn law_flankers_count_attackers(s: Setting, units: Seq<UnitView>, e: Entity)
    ensures
        s.flankers(units, e) == those(
            units.len() as int,
            |i: int| units[i].kind != Kind::Skirmisher && s.target(units[i]) == Some(e),
        ).len(),
    decreases units.len(),
{
    let p = |i: int| units[i].kind != Kind::Skirmisher && s.target(units[i]) == Some(e);
    if units.len() > 0 {
        let before = units.drop_last();
        let n = before.len() as int;
        let q = |i: int| before[i].kind != Kind::Skirmisher && s.target(before[i]) == Some(e);
        law_flankers_count_attackers(s, before, e);
        assert forall|i: int| 0 <= i < n implies #[trigger] q(i) == p(i) by {}
        lemma_those_agree(n, q, p);
        lemma_those(n, p);
    } else {
        lemma_those(0, p);
    }
}

/// What a strike is worth in points: 14 for infantry, 11 for cavalry and 8 for
/// skirmishers, and for a unit with at least 25 stamina 8, 16 and nothing more in a
/// charge, and 12, 20 and 4 in an all-out attack.
pub open spec fn worth(u: UnitView, order: Order) -> int {
    let base: int = match u.kind {
        Kind::Infantry => 14,
        Kind::Cavalry => 11,
        Kind::Skirmisher => 8,
    };
    let charge: int = match u.kind {
        Kind::Infantry => 8,
        Kind::Cavalry => 16,
        Kind::Skirmisher => 0,
    };
    if u.stamina < 25 {
        base
    } else if order == Order::Charge {
        base + charge
    } else if order == Order::Unleash {
        base + charge + 4
    } else {
        base
    }
}

/// The damage of a strike, exactly: its worth, and for a melee blow a thirty-second
/// more for each further melee attacker of the target, of five at most.
pub proof fn law_damage_of_a_strike(s: Setting, all: Seq<UnitView>, u: UnitView, e: Entity)
    ensures
        ({
            let n = those(
                all.len() as int,
                |i: int| all[i].kind != Kind::Skirmisher && s.target(all[i]) == Some(e),
            ).len();
            let more: int = if u.kind == Kind::Skirmisher || n == 0 {
                0
            } else if n <= 6 {
                n - 1
            } else {
                5
            };
            s.impact(all, u, e).val() == worth(u, told(s.orders, u)) * (32 + more) * pow2(144)
        }),
{
    law_flankers_count_attackers(s, all, e);
    lemma_flanked(u.kind, told(s.orders, u), u.stamina, s.flankers(all, e));
}

/// When one more unit strikes, the attack is logged after the others and its damage
/// added to what its target has; nobody else's changes. A unit without a target
/// changes nothing.
pub proof fn law_one_more_strike(
    s: Setting,
    all: Seq<UnitView>,
    units: Seq<UnitView>,
    u: UnitView,
    start: Clash,
)
    ensures
        s.fray(all, Seq::empty(), start) == start,
        ({
            let c = s.fray(all, units, start);
            let d = s.fray(all, units.push(u), start);
            match s.target(u) {
                None => d == c,
                Some(e) => {
                    let pile = if c.damage.contains_key(e) {
                        c.damage[e]
                    } else {
                        Single { bits: 0 }
                    };
                    &&& d.damage == c.damage.insert(e, pile.spec_add(s.impact(all, u, e)))
                    &&& d.attacks == c.attacks.push(
                        AttackEvent { attacker: u.entity, target: e, kind: u.kind, at: u.hex },
                    )
                },
            }
        }),
{
    assert(units.push(u).drop_last() =~= units);
}

/// The ground that a unit stands on.
pub open spec fn footing(tiles: Map<Hex, Terrain>, u: UnitView) -> Terrain {
    if tiles.contains_key(u.hex) {
        tiles[u.hex]
    } else {
        Terrain::Plains
    }
}

/// What a unit loses of the damage on it: all of it on plains, and seven tenths in a
/// forest and six tenths on a hill, rounded; half of that, rounded, under a Hold order.
/// No other order makes a difference, nor does any other ground.
pub proof fn law_what_damage_costs(s: Shelter, u: UnitView, d: Single)
    requires
        d.finite(),
        d.val() >= 0,
    ensures
        ({
            let bare = Shelter { orders: Map::empty(), tiles: s.tiles };
            let g = footing(s.tiles, u);
            &&& told(s.orders, u) != Order::Hold ==> s.loss(u, d) == bare.loss(u, d)
            &&& told(s.orders, u) == Order::Hold ==> s.loss(u, d) == bare.loss(u, d).spec_mul(
                Single::fraction(1, 2),
            )
            &&& g != Terrain::Forest && g != Terrain::Hill ==> bare.loss(u, d).val() == d.val()
            &&& g == Terrain::Forest ==> bare.loss(u, d) == d.spec_mul(Single::fraction(7, 10))
            &&& g == Terrain::Hill ==> bare.loss(u, d) == d.spec_mul(Single::fraction(6, 10))
        }),
{
    let one = Single { bits: 0x3f80_0000 };
    lemma2_to64();
    lemma_pow2_adds(23, 126);
    lemma_pow2_pos(149);
    assert(one.mag() == (0 + 0x80_0000) * pow2(126));
    assert(one.val() == pow2(149));
    lemma_val_representable(d);
    lemma_nearest_multiple(d.mag(), pow2(149));
    assert(d.val() * one.val() == d.mag() * pow2(149));
    assert(d.mag() * pow2(149) >= 0) by (nonlinear_arith)
        requires
            d.mag() >= 0,
            pow2(149) > 0,
    ;
    lemma_round_ratio(d.val() * one.val(), pow2(149));
}

/// Damage changes a unit's health and nothing else, and only that of units that have
/// damage on them: it takes the loss away. Every unit gets its due, in its place.
pub proof fn law_damage_is_taken(
    s: Shelter,
    units: Seq<UnitView>,
    damage: Map<Entity, Single>,
    i: int,
)
    requires
        0 <= i < units.len(),
    ensures
        ({
            let u = units[i];
            let v = s.wounded(units, damage)[i];
            &&& s.wounded(units, damage).len() == units.len()
            &&& v == (UnitView { health: v.health, ..u })
            &&& !damage.contains_key(u.entity) ==> v.health == u.health
            &&& damage.contains_key(u.entity) ==> v.health == u.health.spec_minus(
                s.loss(u, damage[u.entity]),
            )
        }),
{
}

/// A unit dies exactly if its health is a number that is not above zero. The dead are
/// gone and the others left as they were, whatever their team, kind or group.
pub proof fn law_the_dead_are_gone(units: Seq<UnitView>, u: UnitView)
    requires
        distinct(units),
        units.contains(u),
    ensures
        survivors(units, fallen(units)).contains(u) <==> u.health.spec_is_nan() || u.health.val()
            > 0,
        fallen(units).contains(
            DeathEvent { entity: u.entity, team: u.team, kind: u.kind, at: u.hex },
        ) <==> !u.health.spec_is_nan() && u.health.val() <= 0,
{
    law_only_the_living_remain(units);
    let a = choose|a: int| 0 <= a < units.len() && units[a] == u;
    if !u.health.spec_is_nan() && u.health.val() <= 0 {
        lemma_logged(units, a);
    }
    let d = DeathEvent { entity: u.entity, team: u.team, kind: u.kind, at: u.hex };
    if fallen(units).contains(d) {
        let k = choose|k: int| 0 <= k < fallen(units).len() && fallen(units)[k] == d;
        assert(fallen(units)[k].entity == u.entity);
        assert(mourned(fallen(units), u.entity));
    }
}

proof fn lemma_logged(units: Seq<UnitView>, a: int)
    requires
        0 <= a < units.len(),
        !units[a].health.spec_is_nan() && units[a].health.val() <= 0,
    ensures
        fallen(units).contains(obituary(units[a])),
    decreases units.len(),
{
    let before = units.drop_last();
    let rest = fallen(before);
    if a < before.len() {
        assert(before[a] == units[a]);
        lemma_logged(before, a);
        let k = choose|k: int| 0 <= k < rest.len() && rest[k] == obituary(units[a]);
        assert(fallen(units)[k] == obituary(units[a]));
    } else {
        assert(fallen(units)[rest.len() as int] == obituary(units[a]));
    }
}

/// Deaths are logged in the order of the units, each with its team, kind and place.
pub proof fn law_one_more_death(units: Seq<UnitView>, u: UnitView)
    ensures
        fallen(Seq::empty()) == Seq::<DeathEvent>::empty(),
        !u.health.spec_is_nan() && u.health.val() <= 0 ==> fallen(units.push(u)) == fallen(
            units,
        ).push(DeathEvent { entity: u.entity, team: u.team, kind: u.kind, at: u.hex }),
        u.health.spec_is_nan() || u.health.val() > 0 ==> fallen(units.push(u)) == fallen(units),
{
    assert(units.push(u).drop_last() =~= units);
}

/// A unit shows what it did: an attack it made, else damage it took, else a step it
/// made, else nothing. Nothing but its looks changes, and every unit is looked at.
pub proof fn law_units_show_what_they_did(
    units: Seq<UnitView>,
    attacks: Seq<AttackEvent>,
    damage: Map<Entity, Single>,
    moved: Set<Entity>,
    i: int,
)
    requires
        0 <= i < units.len(),
    ensures
        ({
            let u = units[i];
            let v = animated(units, attacks, damage, moved)[i];
            let struck = exists|k: int|
                0 <= k < attacks.len() && (#[trigger] attacks[k]).attacker == u.entity;
            let hit = damage.contains_key(u.entity) && !damage[u.entity].spec_is_nan()
                && damage[u.entity].val() > 0;
            &&& animated(units, attacks, damage, moved).len() == units.len()
            &&& v == (UnitView { anim: v.anim, ..u })
            &&& v.anim == AnimState::Attack <==> struck
            &&& v.anim == AnimState::Hit <==> !struck && hit
            &&& v.anim == AnimState::Move <==> !struck && !hit && moved.contains(u.entity)
            &&& v.anim == AnimState::Idle <==> !struck && !hit && !moved.contains(u.entity)
        }),
{
    assert((Single { bits: 0 }).val() == 0);
}

/// Exertion changes the stamina and nothing else, of every unit as its own order has
/// it: a charge or an all-out attack costs 5 while there is that much, holding or
/// standing idle gives 5 back up to 100, and other orders change nothing.
pub proof fn law_exertion(orders: Map<(Team, u8), Order>, units: Seq<UnitView>, i: int)
    requires
        0 <= i < units.len(),
    ensures
        ({
            let u = units[i];
            let v = all_exerted(orders, units)[i];
            let order = told(orders, u);
            &&& all_exerted(orders, units).len() == units.len()
            &&& v == (UnitView { stamina: v.stamina, ..u })
            &&& order == Order::Charge || order == Order::Unleash ==> v.stamina == (if u.stamina
                >= 5 {
                u.stamina - 5
            } else {
                0
            })
            &&& order == Order::Hold || order == Order::Idle ==> v.stamina == (if u.stamina <= 95 {
                u.stamina + 5
            } else if u.stamina <= 100 {
                100
            } else {
                u.stamina as int
            })
            &&& order == Order::March || order == Order::Retreat ==> v.stamina == u.stamina
        }),
{
}

} // verus!
