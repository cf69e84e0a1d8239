//! Damage: what the strikes of a tick do to those who took them.

use crate::combat::{tame, BattleEvents, DamageBuffer, DeathEvent};
use crate::hex::Hex;
use crate::orders::{order_of, Orders};
use crate::single::{
    lemma_finite, lemma_minus, lemma_nearest_exact, lemma_nearest_multiple, lemma_product_within,
    lemma_ratio_le, lemma_ratio_within, lemma_representable, lemma_scaled_down, lemma_sum_within,
    rounded, Single,
};
use crate::terrain::{ground, Terrain, TerrainMap};
use crate::unit::{
    distinct, hold_reduction, roster, Entity, Health, Order, Team, Unit, UnitView,
};
use vstd::arithmetic::power2::{
    lemma2_to64, lemma_pow2_adds, lemma_pow2_pos, lemma_pow2_strictly_increases, lemma_pow2_unfold,
    pow2,
};
use vstd::prelude::*;

verus! {

/// What mitigates damage.
pub struct Shelter {
    pub orders: Map<(Team, u8), Order>,
    pub tiles: Map<Hex, Terrain>,
}

impl Shelter {
    /// The part of damage `d` that a unit really takes: protective terrain and
    /// holding position lessen it.
    pub open spec fn loss(self, u: UnitView, d: Single) -> Single {
        let incoming = d.spec_mul(ground(self.tiles, u.hex).spec_defense_mult());
        if order_of(self.orders, u.team, u.group) == Order::Hold {
            incoming.spec_mul(Single::fraction(1, 2))
        } else {
            incoming
        }
    }

    /// A unit after its damage.
    pub open spec fn hurt(self, u: UnitView, damage: Map<Entity, Single>) -> UnitView {
        if damage.contains_key(u.entity) {
            UnitView { health: u.health.spec_minus(self.loss(u, damage[u.entity])), ..u }
        } else {
            u
        }
    }

    /// The units after their damage.
    pub open spec fn wounded(
        self,
        units: Seq<UnitView>,
        damage: Map<Entity, Single>,
    ) -> Seq<UnitView> {
        Seq::new(units.len(), |i: int| self.hurt(units[i], damage))
    }
}

/// What is logged of a unit that dies.
pub open spec fn obituary(u: UnitView) -> DeathEvent {
    DeathEvent { entity: u.entity, team: u.team, kind: u.kind, at: u.hex }
}

/// No health is left. What is not a number is not compared, so it counts as left.
pub open spec fn spent(health: Single) -> bool {
    !health.spec_is_nan() && health.val() <= 0
}

/// The deaths among units, in order: those without any health left.
pub open spec fn fallen(units: Seq<UnitView>) -> Seq<DeathEvent>
    decreases units.len(),
{
    if units.len() == 0 {
        Seq::empty()
    } else {
        let rest = fallen(units.drop_last());
        if spent(units.last().health) {
            rest.push(obituary(units.last()))
        } else {
            rest
        }
    }
}

/// The place of a unit in a row, or the length of the row.
pub open spec fn place(units: Seq<UnitView>, e: Entity) -> int
    decreases units.len(),
{
    if units.len() == 0 {
        0
    } else if place(units.drop_last(), e) < units.len() - 1 {
        place(units.drop_last(), e)
    } else if units.last().entity == e {
        units.len() - 1
    } else {
        units.len() as int
    }
}

/// The row without a unit: the last one takes its place.
pub open spec fn without(units: Seq<UnitView>, e: Entity) -> Seq<UnitView> {
    if place(units, e) < units.len() {
        units.update(place(units, e), units.last()).drop_last()
    } else {
        units
    }
}

/// The row without the dead, removed one by one.
pub open spec fn survivors(units: Seq<UnitView>, deaths: Seq<DeathEvent>) -> Seq<UnitView>
    decreases deaths.len(),
{
    if deaths.len() == 0 {
        units
    } else {
        without(survivors(units, deaths.drop_last()), deaths.last().entity)
    }
}

pub proof fn lemma_place(units: Seq<UnitView>, e: Entity)
    ensures
        0 <= place(units, e) <= units.len(),
        place(units, e) < units.len() ==> units[place(units, e)].entity == e,
        forall|j: int| 0 <= j < place(units, e) ==> (#[trigger] units[j]).entity != e,
    decreases units.len(),
{
    if units.len() > 0 {
        let before = units.drop_last();
        lemma_place(before, e);
        assert forall|j: int| 0 <= j < place(units, e) implies (#[trigger] units[j]).entity != e by {
            if j < before.len() {
                assert(before[j] == units[j]);
            }
        }
    }
}

proof fn lemma_place_at(units: Seq<UnitView>, e: Entity, k: int)
    requires
        0 <= k <= units.len(),
        k < units.len() ==> units[k].entity == e,
        forall|j: int| 0 <= j < k ==> (#[trigger] units[j]).entity != e,
    ensures
        place(units, e) == k,
{
    lemma_place(units, e);
    let p = place(units, e);
    if p < k {
        assert(units[p].entity != e);
    }
}

/// The place of a unit in a row, or the length of the row.
pub fn find(units: &Vec<Unit>, e: Entity) -> (k: usize)
    ensures
        k == place(roster(units@), e),
        k <= units@.len(),
{
    let ghost all = roster(units@);
    let mut k: usize = 0;
    while k < units.len() && units[k].entity != e
        invariant
            k <= units@.len(),
            all == roster(units@),
            forall|j: int| 0 <= j < k ==> (#[trigger] all[j]).entity != e,
        decreases units@.len() - k,
    {
        assert(all[k as int].entity == units@[k as int].entity);
        k = k + 1;
    }
    proof {
        if k < units@.len() {
            assert(all[k as int].entity == units@[k as int].entity);
        }
        lemma_place_at(all, e, k as int);
    }
    k
}

/// Removes a unit from a row; the last one takes its place.
pub fn despawn(units: &mut Vec<Unit>, e: Entity)
    ensures
        roster(final(units)@) == without(roster(old(units)@), e),
{
    let ghost all = roster(units@);
    let k: usize = find(units, e);
    if k < units.len() {
        let _ = units.swap_remove(k);
    }
    assert(roster(units@) =~= without(all, e));
}

/// The part of damage `d` that a unit really takes.
fn mitigate(d: Single, ground: Terrain, order: Order) -> (incoming: Single)
    requires
        d.finite(),
        0 <= d.val(),
    ensures
        ({
            let taken = d.spec_mul(ground.spec_defense_mult());
            incoming == (if order == Order::Hold {
                taken.spec_mul(Single::fraction(1, 2))
            } else {
                taken
            })
        }),
        incoming.finite(),
        0 <= incoming.val(),
{
    proof {
        lemma_mitigation(d, ground);
        lemma_other_half();
    }
    let mut incoming: Single = d.mul(ground.defense_mult());
    if order == Order::Hold {
        incoming = incoming.mul(Single { bits: 0x3f80_0000 }.sub(hold_reduction()));
    }
    incoming
}

/// Applies the damage that piled up. Units without health left are logged and
/// removed.
pub fn resolve_damage(
    units: &mut Vec<Unit>,
    orders: &Orders,
    terrain: &TerrainMap,
    dmg: &DamageBuffer,
    events: &mut BattleEvents,
)
    requires
        tame(dmg@),
    ensures
        ({
            let shelter = Shelter { orders: orders@, tiles: terrain@ };
            let after = shelter.wounded(roster(old(units)@), dmg@);
            &&& roster(final(units)@) == survivors(after, fallen(after))
            &&& final(events)@.deaths == old(events)@.deaths + fallen(after)
        }),
        final(events)@.attacks == old(events)@.attacks,
{
    let ghost all = roster(units@);
    let ghost shelter = Shelter { orders: orders@, tiles: terrain@ };
    let ghost after = shelter.wounded(all, dmg@);
    let mut dead: Vec<Entity> = Vec::new();
    let mut i: usize = 0;
    assert(after.take(0) =~= Seq::empty());
    assert(events@.deaths =~= events@.deaths + fallen(after.take(0)));
    while i < units.len()
        invariant
            i <= units@.len(),
            units@.len() == all.len(),
            tame(dmg@),
            shelter == (Shelter { orders: orders@, tiles: terrain@ }),
            after == shelter.wounded(all, dmg@),
            forall|j: int| 0 <= j < i ==> #[trigger] roster(units@)[j] == after[j],
            forall|j: int| i <= j < all.len() ==> #[trigger] roster(units@)[j] == all[j],
            events@.attacks == old(events)@.attacks,
            events@.deaths == old(events)@.deaths + fallen(after.take(i as int)),
            dead@.len() == fallen(after.take(i as int)).len(),
            forall|j: int|
                0 <= j < dead@.len() ==> #[trigger] dead@[j] == fallen(
                    after.take(i as int),
                )[j].entity,
        decreases units@.len() - i,
    {
        let ghost row = roster(units@);
        let ghost now = after.take(i as int);
        let ghost next = after.take(i + 1);
        assert(next.drop_last() =~= now);
        assert(next.last() == after[i as int]);
        assert(row[i as int] == all[i as int]);
        let e: Entity = units[i].entity;
        let team: Team = units[i].team;
        let hex: Hex = units[i].hex;
        if let Some(d) = dmg.get(e) {
            let order: Order = orders.get(team, units[i].group.0);
            let incoming: Single = mitigate(d, terrain.get(hex), order);
            let hp: Single = units[i].health.0.minus(incoming);
            units[i].health = Health(hp);
        }
        assert(roster(units@)[i as int] == after[i as int]);
        assert forall|j: int| 0 <= j < all.len() && j != i implies #[trigger] roster(units@)[j]
            == row[j] by {}
        assert((Single { bits: 0 }).val() == 0);
        let hp: Single = units[i].health.0;
        if !hp.is_nan() && !(Single { bits: 0 }).lt(hp) {
            let kind = units[i].kind;
            events.deaths.push(DeathEvent { entity: e, team, kind, at: hex });
            dead.push(e);
        }
        assert(events@.deaths =~= old(events)@.deaths + fallen(next));
        i = i + 1;
    }
    assert(after.take(i as int) =~= after);
    assert(roster(units@) =~= after);
    let ghost deaths = fallen(after);
    let mut k: usize = 0;
    assert(deaths.take(0) =~= Seq::empty());
    while k < dead.len()
        invariant
            k <= dead@.len(),
            dead@.len() == deaths.len(),
            forall|j: int| 0 <= j < dead@.len() ==> #[trigger] dead@[j] == deaths[j].entity,
            roster(units@) == survivors(after, deaths.take(k as int)),
        decreases dead@.len() - k,
    {
        assert(deaths.take(k + 1).drop_last() =~= deaths.take(k as int));
        assert(dead@[k as int] == deaths[k as int].entity);
        despawn(units, dead[k]);
        k = k + 1;
    }
    assert(deaths.take(k as int) =~= deaths);
}

/// What a half leaves of one is a half.
proof fn lemma_other_half()
    ensures
        (Single { bits: 0x3f80_0000 }).val() == pow2(149),
        Single::in_range(
            (Single { bits: 0x3f80_0000 }).val() - Single::fraction(1, 2).val(),
            1,
        ),
        (Single { bits: 0x3f80_0000 }).spec_sub(Single::fraction(1, 2)) == Single::fraction(1, 2),
        Single::fraction(1, 2).val() == pow2(148),
{
    let one = Single { bits: 0x3f80_0000 };
    lemma2_to64();
    lemma_pow2_adds(23, 126);
    lemma_pow2_unfold(149);
    lemma_representable(1, 148);
    assert(1 * pow2(148) == pow2(148));
    assert(one.mag() == (0 + 0x80_0000) * pow2(126));
    lemma_nearest_multiple(pow2(148), 2);
    assert(1 * pow2(149) == pow2(148) * 2);
    lemma_nearest_exact(pow2(148));
    assert(rounded(1int * pow2(149), 2) == pow2(148));
    lemma_ratio_within(1int * pow2(149), 2, 0);
    lemma_sum_within(one.val(), Single::fraction(1, 2).val(), 0);
}

/// The multipliers are between zero and one, so they keep damage in bounds.
proof fn lemma_mitigation(d: Single, ground: Terrain)
    requires
        d.finite(),
        0 <= d.val(),
    ensures
        ({
            let mult = ground.spec_defense_mult();
            let taken = d.spec_mul(mult);
            let half = Single::fraction(1, 2);
            &&& Single::in_range(d.val() * mult.val(), pow2(149))
            &&& Single::in_range(taken.val() * half.val(), pow2(149))
            &&& taken.finite() && 0 <= taken.val() <= d.val()
            &&& taken.spec_mul(half).finite() && 0 <= taken.spec_mul(half).val() <= taken.val()
        }),
{
    let mult = ground.spec_defense_mult();
    let taken = d.spec_mul(mult);
    let half = Single::fraction(1, 2);
    lemma_other_half();
    lemma_pow2_pos(149);
    lemma_ratio_within(7int * pow2(149), 10, 0);
    lemma_ratio_within(6int * pow2(149), 10, 0);
    lemma_ratio_within(1int * pow2(149), 2, 0);
    assert(0 <= mult.val() <= pow2(149));
    lemma_finite(d);
    lemma_product_within(d, mult, 128, 0);
    lemma_scaled_down(d, mult);
    lemma_finite(taken);
    lemma_pow2_unfold(149);
    lemma_product_within(taken, half, 128, 0);
    lemma_scaled_down(taken, half);
    lemma_finite(taken.spec_mul(half));
}

/// Protective ground and holding position never make damage worse. Of damage of a
/// point or more, a unit that holds, or stands in a forest or on a hill, is spared
/// some.
pub proof fn law_shelter_spares(s: Shelter, u: UnitView, d: Single)
    requires
        d.finite(),
        0 <= d.val(),
    ensures
        s.loss(u, d).finite(),
        0 <= s.loss(u, d).val() <= d.val(),
        d.val() >= pow2(149) && (order_of(s.orders, u.team, u.group) == Order::Hold || ground(
            s.tiles,
            u.hex,
        ) == Terrain::Forest || ground(s.tiles, u.hex) == Terrain::Hill) ==> s.loss(u, d).val()
            < d.val(),
{
    let g = ground(s.tiles, u.hex);
    let mult = g.spec_defense_mult();
    let half = Single::fraction(1, 2);
    let taken = d.spec_mul(mult);
    lemma_mitigation(d, g);
    lemma_other_half();
    lemma_finite(d);
    lemma_finite(taken);
    lemma_pow2_strictly_increases(24, 148);
    lemma_pow2_strictly_increases(24, 149);
    lemma_pow2_pos(149);
    lemma_pow2_unfold(149);
    assert(0 <= mult.val() <= pow2(149) && ((g == Terrain::Forest || g == Terrain::Hill) ==> 4
        * mult.val() <= 3 * pow2(149))) by {
        lemma2_to64();
        lemma_ratio_within(7int * pow2(149), 10, 0);
        lemma_ratio_within(6int * pow2(149), 10, 0);
        lemma_pow2_adds(2, 147);
        lemma_representable(3, 147);
        lemma_ratio_le((7 * pow2(149)) as nat, 10, 3 * pow2(147));
        lemma_ratio_le((6 * pow2(149)) as nat, 10, 3 * pow2(147));
    }
    lemma_scaled_down(d, mult);
    lemma_scaled_down(taken, half);
    if order_of(s.orders, u.team, u.group) == Order::Hold && d.val() >= pow2(149) && taken.val()
        == d.val() {
        assert(s.loss(u, d).val() < d.val());
    }
}

/// Damage never heals: a unit has no more health after it than before, and health
/// that is a number stays one.
pub proof fn law_damage_never_heals(s: Shelter, u: UnitView, damage: Map<Entity, Single>)
    requires
        tame(damage),
    ensures
        s.hurt(u, damage).health.val() <= u.health.val(),
        s.hurt(u, damage).health.spec_is_nan() <==> u.health.spec_is_nan(),
        !damage.contains_key(u.entity) ==> s.hurt(u, damage) == u,
{
    if damage.contains_key(u.entity) {
        let d = damage[u.entity];
        law_shelter_spares(s, u, d);
        lemma_minus(u.health, s.loss(u, d));
    }
}

/// Removing a unit takes that one out and keeps the others.
proof fn lemma_without(units: Seq<UnitView>, e: Entity)
    requires
        distinct(units),
    ensures
        distinct(without(units, e)),
        forall|u: UnitView| #[trigger]
            without(units, e).contains(u) <==> units.contains(u) && u.entity != e,
        without(units, e).len() <= units.len(),
{
    lemma_place(units, e);
    let k = place(units, e);
    let rest = without(units, e);
    let n = units.len() as int;
    if k < n {
        assert(rest.len() == n - 1);
        assert forall|i: int| 0 <= i < n - 1 implies #[trigger] rest[i] == (if i == k {
            units[n - 1]
        } else {
            units[i]
        }) by {}
        assert forall|i: int, j: int| 0 <= i < j < rest.len() implies #[trigger] rest[i].entity
            != #[trigger] rest[j].entity by {
            let a = if i == k {
                n - 1
            } else {
                i
            };
            let b = if j == k {
                n - 1
            } else {
                j
            };
            assert(rest[i] == units[a] && rest[j] == units[b]);
            assert(units[a].entity != units[b].entity);
        }
        assert forall|u: UnitView| #[trigger] rest.contains(u) <==> units.contains(u) && u.entity
            != e by {
            if rest.contains(u) {
                let i = choose|i: int| 0 <= i < rest.len() && rest[i] == u;
                let a = if i == k {
                    n - 1
                } else {
                    i
                };
                assert(units[a] == u);
                assert(a != k);
                assert(units[k].entity != units[a].entity);
            }
            if units.contains(u) && u.entity != e {
                let a = choose|a: int| 0 <= a < n && units[a] == u;
                assert(a != k);
                if a == n - 1 {
                    assert(rest[k] == u);
                } else {
                    assert(rest[a] == u);
                }
            }
        }
    } else {
        assert forall|u: UnitView| units.contains(u) implies #[trigger] u.entity != e by {
            let a = choose|a: int| 0 <= a < n && units[a] == u;
            assert(units[a].entity != e);
        }
    }
}

/// A death is logged of a unit.
pub open spec fn mourned(deaths: Seq<DeathEvent>, e: Entity) -> bool {
    exists|k: int| 0 <= k < deaths.len() && (#[trigger] deaths[k]).entity == e
}

proof fn lemma_survivors(units: Seq<UnitView>, deaths: Seq<DeathEvent>)
    requires
        distinct(units),
    ensures
        distinct(survivors(units, deaths)),
        forall|u: UnitView| #[trigger]
            survivors(units, deaths).contains(u) <==> units.contains(u) && !mourned(
                deaths,
                u.entity,
            ),
        survivors(units, deaths).len() <= units.len(),
    decreases deaths.len(),
{
    if deaths.len() > 0 {
        let before = deaths.drop_last();
        lemma_survivors(units, before);
        let left = survivors(units, before);
        lemma_without(left, deaths.last().entity);
        assert forall|e: Entity| #[trigger] mourned(deaths, e) <==> mourned(before, e) || e
            == deaths.last().entity by {
            if mourned(before, e) {
                let k = choose|k: int| 0 <= k < before.len() && (#[trigger] before[k]).entity == e;
                assert(deaths[k].entity == e);
            }
            if e == deaths.last().entity {
                assert(deaths[deaths.len() - 1].entity == e);
            }
            if mourned(deaths, e) {
                let k = choose|k: int| 0 <= k < deaths.len() && (#[trigger] deaths[k]).entity == e;
                if k < before.len() {
                    assert(before[k].entity == e);
                }
            }
        }
        assert forall|u: UnitView| #[trigger] survivors(units, deaths).contains(u)
            <==> units.contains(u) && !mourned(deaths, u.entity) by {
            assert(left.contains(u) <==> units.contains(u) && !mourned(before, u.entity));
        }
    }
}

proof fn lemma_fallen(units: Seq<UnitView>)
    ensures
        forall|e: Entity| #[trigger]
            mourned(fallen(units), e) <==> exists|i: int|
                0 <= i < units.len() && (#[trigger] units[i]).entity == e && spent(units[i].health),
        forall|k: int|
            0 <= k < fallen(units).len() ==> exists|i: int|
                0 <= i < units.len() && #[trigger] fallen(units)[k] == obituary(#[trigger] units[i]),
    decreases units.len(),
{
    if units.len() > 0 {
        let before = units.drop_last();
        let rest = fallen(before);
        let all = fallen(units);
        let last = units.last();
        lemma_fallen(before);
        assert forall|e: Entity| #[trigger] mourned(all, e) <==> exists|i: int|
            0 <= i < units.len() && (#[trigger] units[i]).entity == e && spent(units[i].health) by {
            if mourned(all, e) {
                let k = choose|k: int| 0 <= k < all.len() && (#[trigger] all[k]).entity == e;
                if k < rest.len() {
                    assert(rest[k].entity == e);
                    assert(mourned(rest, e));
                    let i = choose|i: int|
                        0 <= i < before.len() && (#[trigger] before[i]).entity == e
                            && spent(before[i].health);
                    assert(units[i].entity == e);
                } else {
                    assert(units[units.len() - 1].entity == e);
                }
            }
            if exists|i: int|
                0 <= i < units.len() && (#[trigger] units[i]).entity == e && spent(units[i].health) {
                let i = choose|i: int|
                    0 <= i < units.len() && (#[trigger] units[i]).entity == e
                        && spent(units[i].health);
                if i < before.len() {
                    assert(before[i].entity == e);
                    assert(mourned(rest, e));
                    let k = choose|k: int| 0 <= k < rest.len() && (#[trigger] rest[k]).entity == e;
                    assert(all[k].entity == e);
                } else {
                    assert(all[all.len() - 1].entity == e);
                }
            }
        }
        assert forall|k: int| 0 <= k < all.len() implies exists|i: int|
            0 <= i < units.len() && #[trigger] all[k] == obituary(#[trigger] units[i]) by {
            if k < rest.len() {
                assert(all[k] == rest[k]);
                let i = choose|i: int|
                    0 <= i < before.len() && #[trigger] rest[k] == obituary(#[trigger] before[i]);
                assert(all[k] == obituary(units[i]));
            } else {
                assert(all[k] == obituary(units[units.len() - 1]));
            }
        }
    }
}

/// Those who remain are exactly those with health left, each as it was, and the
/// deaths logged are exactly those of the others.
pub proof fn law_only_the_living_remain(units: Seq<UnitView>)
    requires
        distinct(units),
    ensures
        forall|u: UnitView| #[trigger]
            survivors(units, fallen(units)).contains(u) <==> units.contains(u) && !spent(u.health),
        forall|u: UnitView|
            units.contains(u) ==> (spent(u.health) <==> #[trigger] mourned(
                fallen(units),
                u.entity,
            )),
        distinct(survivors(units, fallen(units))),
        survivors(units, fallen(units)).len() <= units.len(),
{
    lemma_fallen(units);
    lemma_survivors(units, fallen(units));
    assert forall|u: UnitView| units.contains(u) implies (spent(u.health)
        <==> #[trigger] mourned(fallen(units), u.entity)) by {
        let a = choose|a: int| 0 <= a < units.len() && units[a] == u;
        assert(units[a].entity == u.entity);
        if mourned(fallen(units), u.entity) {
            let i = choose|i: int|
                0 <= i < units.len() && (#[trigger] units[i]).entity == u.entity
                    && spent(units[i].health);
            if i != a {
                if i < a {
                    assert(units[i].entity != units[a].entity);
                } else {
                    assert(units[a].entity != units[i].entity);
                }
            }
        }
    }
}

/// Whatever is left of a row of units came from it.
pub proof fn lemma_survivors_from(units: Seq<UnitView>, deaths: Seq<DeathEvent>)
    ensures
        survivors(units, deaths).len() <= units.len(),
        forall|i: int|
            0 <= i < survivors(units, deaths).len() ==> units.contains(
                #[trigger] survivors(units, deaths)[i],
            ),
    decreases deaths.len(),
{
    if deaths.len() == 0 {
        assert forall|i: int| 0 <= i < units.len() implies units.contains(#[trigger] units[i]) by {}
    } else {
        let before = survivors(units, deaths.drop_last());
        let e = deaths.last().entity;
        lemma_survivors_from(units, deaths.drop_last());
        lemma_place(before, e);
        let after = without(before, e);
        assert forall|i: int| 0 <= i < after.len() implies units.contains(#[trigger] after[i]) by {
            if place(before, e) < before.len() && i == place(before, e) {
                assert(after[i] == before[before.len() - 1]);
            } else {
                assert(after[i] == before[i]);
            }
        }
    }
}

} // verus!
