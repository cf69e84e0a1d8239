//! Combat: each unit lands one attack per tick.

use crate::hex::{dist, nb, Hex};
use crate::index::{foe_on, SpatialIndex};
use crate::orders::{order_of, Orders};
use crate::pick::{first_least, law_first_least};
use crate::scan::{in_shot, law_shot_is_nearest_in_sight, nearest_enemy_entity, shot};
use crate::single::{
    lemma_finite, lemma_fraction, lemma_nearest_exact, lemma_nearest_multiple, lemma_of_int_within,
    lemma_product_within, lemma_ratio_within, lemma_representable, lemma_round_ratio,
    lemma_small_int, lemma_strikes_saturate, lemma_sum_within, lemma_val_representable, Single,
    INFINITE,
};
use crate::stamina::winded;
use crate::terrain::{clear_between, Terrain, TerrainMap};
use crate::unit::{
    attack_damage, attack_range, bonus_points, charge_bonus, damage_points, distinct, fielded, roster,
    spec_attack_range, Entity, Kind, Order, Stamina, Team, Unit, UnitView,
};
use std::collections::HashMap;
use vstd::arithmetic::power2::{lemma2_to64, lemma_pow2_adds, lemma_pow2_pos, pow2};
use vstd::prelude::*;

verus! {

broadcast use vstd::std_specs::hash::group_hash_axioms;

/// One unit struck another this tick. `at` is where the attacker stood.
#[derive(Clone, Copy, Debug, PartialEq, Eq, Structural)]
pub struct AttackEvent {
    pub attacker: Entity,
    pub target: Entity,
    pub kind: Kind,
    pub at: Hex,
}

/// A unit died this tick. It is gone by the time this is read.
#[derive(Clone, Copy, Debug, PartialEq, Eq, Structural)]
pub struct DeathEvent {
    pub entity: Entity,
    pub team: Team,
    pub kind: Kind,
    pub at: Hex,
}

/// What happened this tick.
#[derive(Debug)]
pub struct BattleEvents {
    pub attacks: Vec<AttackEvent>,
    pub deaths: Vec<DeathEvent>,
}

/// The content of [`BattleEvents`].
#[verifier::ext_equal]
pub struct BattleLog {
    pub attacks: Seq<AttackEvent>,
    pub deaths: Seq<DeathEvent>,
}

impl View for BattleEvents {
    type V = BattleLog;

    open spec fn view(&self) -> BattleLog {
        BattleLog { attacks: self.attacks@, deaths: self.deaths@ }
    }
}

impl Default for BattleEvents {
    fn default() -> (b: BattleEvents)
        ensures
            b@.attacks == Seq::<AttackEvent>::empty(),
            b@.deaths == Seq::<DeathEvent>::empty(),
    {
        BattleEvents { attacks: Vec::new(), deaths: Vec::new() }
    }
}

/// A table keyed by handle number, read as a map from handles.
#[verifier::opaque]
pub open spec fn by_entity<V>(m: Map<u64, V>) -> Map<Entity, V> {
    Map::new(|e: Entity| m.contains_key(e.0), |e: Entity| m[e.0])
}

pub proof fn lemma_by_entity_get<V>(m: Map<u64, V>, e: Entity)
    ensures
        by_entity(m).contains_key(e) == m.contains_key(e.0),
        m.contains_key(e.0) ==> by_entity(m)[e] == m[e.0],
{
    reveal(by_entity);
}

pub proof fn lemma_by_entity_empty<V>()
    ensures
        by_entity(Map::<u64, V>::empty()) == Map::<Entity, V>::empty(),
{
    reveal(by_entity);
    assert(by_entity(Map::<u64, V>::empty()) =~= Map::<Entity, V>::empty());
}

pub proof fn lemma_by_entity_insert<V>(m: Map<u64, V>, e: Entity, v: V)
    ensures
        by_entity(m.insert(e.0, v)) == by_entity(m).insert(e, v),
{
    reveal(by_entity);
    assert(by_entity(m.insert(e.0, v)) =~= by_entity(m).insert(e, v));
}

/// Singles by unit: the damage that piles up on each during a tick, or the health
/// of each.
#[derive(Debug)]
pub struct DamageBuffer(pub HashMap<u64, Single>);

impl View for DamageBuffer {
    type V = Map<Entity, Single>;

    open spec fn view(&self) -> Map<Entity, Single> {
        by_entity(self.0@)
    }
}

impl Default for DamageBuffer {
    fn default() -> (d: DamageBuffer)
        ensures
            d@ == Map::<Entity, Single>::empty(),
    {
        proof {
            lemma_by_entity_empty::<Single>();
        }
        DamageBuffer(HashMap::new())
    }
}

impl DamageBuffer {
    pub fn get(&self, e: Entity) -> (s: Option<Single>)
        ensures
            s is Some <==> self@.contains_key(e),
            s matches Some(v) ==> self@[e] == v,
    {
        proof {
            lemma_by_entity_get(self.0@, e);
        }
        match self.0.get(&e.0) {
            Some(s) => Some(*s),
            None => None,
        }
    }

    pub fn set(&mut self, e: Entity, v: Single)
        ensures
            final(self)@ == old(self)@.insert(e, v),
    {
        proof {
            lemma_by_entity_insert(self.0@, e, v);
        }
        self.0.insert(e.0, v);
    }

    pub fn clear(&mut self)
        ensures
            final(self)@ == Map::<Entity, Single>::empty(),
    {
        proof {
            lemma_by_entity_empty::<Single>();
        }
        self.0.clear();
    }
}

/// The damage of a unit that strikes, in points. A winded unit gets nothing for
/// committing to the attack.
pub open spec fn force(kind: Kind, order: Order, stamina: u32) -> int {
    if winded(stamina) {
        damage_points(kind)
    } else {
        damage_points(kind) + bonus_points(kind, order)
    }
}

/// [`force`] as a single.
pub open spec fn strike(kind: Kind, order: Order, stamina: u32) -> Single {
    Single::spec_of_int(force(kind, order, stamina))
}

/// By how many thirty-seconds `n` melee attackers on one target hit harder: one
/// for each beyond the first, and no more than for the six that fit around it.
pub open spec fn edge(n: nat) -> int {
    if n == 0 {
        0
    } else if n <= 6 {
        n - 1
    } else {
        5
    }
}

/// What flanking multiplies a melee blow by, with `n` melee attackers on the
/// target.
pub open spec fn spec_flanking(n: nat) -> Single {
    Single::fraction(32 + edge(n), 32)
}

/// A unit that has to be next to whom it strikes.
pub open spec fn melee(kind: Kind) -> bool {
    spec_attack_range(kind) == 1
}

/// The damage on `e` so far.
pub open spec fn piled(damage: Map<Entity, Single>, e: Entity) -> Single {
    if damage.contains_key(e) {
        damage[e]
    } else {
        Single { bits: 0 }
    }
}

/// All damage is finite, and none of it is negative.
pub open spec fn tame(damage: Map<Entity, Single>) -> bool {
    forall|e: Entity| #[trigger]
        damage.contains_key(e) ==> damage[e].finite() && 0 <= damage[e].val()
}

/// The health of every unit.
pub open spec fn vitals(units: Seq<UnitView>) -> Map<Entity, Single>
    decreases units.len(),
{
    if units.len() == 0 {
        Map::empty()
    } else {
        vitals(units.drop_last()).insert(units.last().entity, units.last().health)
    }
}

/// The health of a unit; one that is not there has infinite health.
pub open spec fn health_of(vitals: Map<Entity, Single>, e: Entity) -> Single {
    if vitals.contains_key(e) {
        vitals[e]
    } else {
        Single { bits: INFINITE }
    }
}

/// What the fighting goes by.
pub struct Setting {
    pub orders: Map<(Team, u8), Order>,
    pub occupied: Map<Hex, (Entity, Team)>,
    pub tiles: Map<Hex, Terrain>,
    pub vitals: Map<Entity, Single>,
}

/// An enemy of `team` next to `h` that can be worn down.
pub open spec fn prey(
    occupied: Map<Hex, (Entity, Team)>,
    vitals: Map<Entity, Single>,
    h: Hex,
    team: Team,
    i: int,
) -> bool {
    &&& foe_on(occupied, nb(h, i), team)
    &&& health_of(vitals, occupied[nb(h, i)].0).spec_below(Single { bits: INFINITE })
}

/// The direction of the adjacent enemy of least health, the first one where
/// several share it.
pub open spec fn weakest(
    occupied: Map<Hex, (Entity, Team)>,
    vitals: Map<Entity, Single>,
    h: Hex,
    team: Team,
) -> Option<int> {
    first_least(
        6,
        |i: int| prey(occupied, vitals, h, team, i),
        |i: int| health_of(vitals, occupied[nb(h, i)].0).val(),
    )
}

impl Setting {
    /// Whom a unit strikes: in melee the weakest adjacent enemy, at range the
    /// nearest one in sight.
    pub open spec fn target(self, u: UnitView) -> Option<Entity> {
        if melee(u.kind) {
            match weakest(self.occupied, self.vitals, u.hex, u.team) {
                Some(i) => Some(self.occupied[nb(u.hex, i)].0),
                None => None,
            }
        } else {
            match shot(
                self.occupied,
                self.tiles,
                u.hex,
                u.team,
                spec_attack_range(u.kind) as int,
            ) {
                Some(h) => Some(self.occupied[h].0),
                None => None,
            }
        }
    }

    /// How many of the units strike `e` in melee.
    pub open spec fn flankers(self, units: Seq<UnitView>, e: Entity) -> nat
        decreases units.len(),
    {
        if units.len() == 0 {
            0
        } else {
            let rest = self.flankers(units.drop_last(), e);
            if melee(units.last().kind) && self.target(units.last()) == Some(e) {
                rest + 1
            } else {
                rest
            }
        }
    }

    /// The damage that `u`, one of `all` the units that strike, does to `e`: a melee
    /// blow is amplified by flanking, a shot is not.
    pub open spec fn impact(self, all: Seq<UnitView>, u: UnitView, e: Entity) -> Single {
        let plain = strike(u.kind, order_of(self.orders, u.team, u.group), u.stamina);
        if melee(u.kind) {
            plain.spec_mul(spec_flanking(self.flankers(all, e)))
        } else {
            plain
        }
    }

    /// The damage and the attacks after some of `all` the units that strike have
    /// struck.
    pub open spec fn fray(self, all: Seq<UnitView>, units: Seq<UnitView>, start: Clash) -> Clash
        decreases units.len(),
    {
        if units.len() == 0 {
            start
        } else {
            let c = self.fray(all, units.drop_last(), start);
            let u = units.last();
            match self.target(u) {
                Some(e) => Clash {
                    damage: c.damage.insert(
                        e,
                        piled(c.damage, e).spec_add(self.impact(all, u, e)),
                    ),
                    attacks: c.attacks.push(
                        AttackEvent { attacker: u.entity, target: e, kind: u.kind, at: u.hex },
                    ),
                },
                None => c,
            }
        }
    }
}

/// The damage done and the attacks made.
pub struct Clash {
    pub damage: Map<Entity, Single>,
    pub attacks: Seq<AttackEvent>,
}

/// Lowest-health enemy on one of the six neighbours; ties go to the first in the
/// order of the directions.
pub fn weakest_adjacent_enemy(
    hex: Hex,
    team: Team,
    idx: &SpatialIndex,
    healths: &DamageBuffer,
) -> (target: Option<Entity>)
    requires
        idx.wf(),
        idx.covers_field(),
        hex.in_field(),
    ensures
        target == (match weakest(idx@, healths@, hex, team) {
            Some(i) => Some(idx@[nb(hex, i)].0),
            None => None,
        }),
{
    let ghost ok = |i: int| prey(idx@, healths@, hex, team, i);
    let ghost key = |i: int| health_of(healths@, idx@[nb(hex, i)].0).val();
    let around: [Hex; 6] = hex.neighbors();
    let mut target: Option<Entity> = None;
    let mut best_hp: Single = Single { bits: INFINITE };
    let mut i: usize = 0;
    while i < 6
        invariant
            i <= 6,
            idx.wf(),
            idx.covers_field(),
            hex.in_field(),
            ok == |i: int| prey(idx@, healths@, hex, team, i),
            key == |i: int| health_of(healths@, idx@[nb(hex, i)].0).val(),
            forall|j: int| 0 <= j < 6 ==> #[trigger] around[j] == nb(hex, j),
            match first_least(i as nat, ok, key) {
                Some(b) => target == Some(idx@[nb(hex, b)].0) && best_hp.val() == key(b)
                    && !best_hp.spec_is_nan(),
                None => target is None && best_hp == (Single { bits: INFINITE }),
            },
        decreases 6 - i,
    {
        let n: Hex = around[i];
        assert(n == nb(hex, i as int));
        assert(ok(i as int) == prey(idx@, healths@, hex, team, i as int));
        proof {
            law_first_least(i as nat, ok, key);
        }
        if let Some((enemy, eteam)) = idx.at(n) {
            if eteam != team {
                let hp: Single = match healths.get(enemy) {
                    Some(h) => h,
                    None => Single { bits: INFINITE },
                };
                assert(key(i as int) == hp.val());
                if hp.below(best_hp) {
                    best_hp = hp;
                    target = Some(enemy);
                }
            }
        }
        i = i + 1;
    }
    target
}

/// Notes the health of every unit.
fn take_vitals(units: &Vec<Unit>) -> (v: DamageBuffer)
    ensures
        v@ == vitals(roster(units@)),
{
    let ghost all = roster(units@);
    let mut v = DamageBuffer::default();
    let mut i: usize = 0;
    assert(all.take(0) =~= Seq::empty());
    while i < units.len()
        invariant
            i <= units@.len(),
            all == roster(units@),
            v@ == vitals(all.take(i as int)),
        decreases units@.len() - i,
    {
        assert(all.take(i + 1).drop_last() =~= all.take(i as int));
        assert(all.take(i + 1).last() == units@[i as int]@);
        v.set(units[i].entity, units[i].health.0);
        i = i + 1;
    }
    assert(all.take(i as int) =~= all);
    v
}

/// What flanking multiplies a melee blow by, with `n` melee attackers on the
/// target.
pub fn flanking(n: usize) -> (f: Single)
    ensures
        f == spec_flanking(n as nat),
{
    let extra: u32 = if n == 0 {
        0
    } else if n <= 6 {
        (n - 1) as u32
    } else {
        5
    };
    proof {
        lemma2_to64();
        assert(pow2((149 - 126) as nat) == 0x80_0000);
        assert((32 + extra) * 0x80_0000 == 32 * ((32 + extra) * 0x4_0000));
        lemma_fraction((32 + extra) as nat, 32, ((32 + extra) * 0x4_0000) as nat, 126, 0);
    }
    Single { bits: 0x3f80_0000 + extra * 0x4_0000 }
}

/// What a flanking multiplier is worth.
proof fn lemma_flanking(n: nat)
    ensures
        spec_flanking(n).val() == (32 + edge(n)) * pow2(144),
        spec_flanking(n).within(1),
{
    let m = 32 + edge(n);
    let p = pow2(144) as int;
    lemma2_to64();
    lemma_pow2_pos(144);
    lemma_pow2_adds(5, 144);
    lemma_pow2_adds(6, 144);
    lemma_representable(m as nat, 144);
    lemma_nearest_multiple((m * p) as nat, 32);
    assert(m * (32 * p) == (m * p) * 32) by (nonlinear_arith);
    assert(0 <= m * p <= 64 * p) by (nonlinear_arith)
        requires
            0 <= m <= 64,
            p > 0,
    ;
    lemma_ratio_within(m * pow2(149), 32, 1);
}

/// Base damage and bonus add up without rounding.
proof fn lemma_strike(kind: Kind, order: Order, stamina: u32)
    ensures
        Single::in_range(
            Single::spec_of_int(damage_points(kind)).val() + Single::spec_of_int(
                bonus_points(kind, order),
            ).val(),
            1,
        ),
        !winded(stamina) ==> Single::spec_of_int(damage_points(kind)).spec_add(
            Single::spec_of_int(bonus_points(kind, order)),
        ) == strike(kind, order, stamina),
        strike(kind, order, stamina).val() == force(kind, order, stamina) * pow2(149),
        0 < force(kind, order, stamina) <= 31,
        strike(kind, order, stamina).within(6),
{
    let a = damage_points(kind);
    let b = bonus_points(kind, order);
    let c = force(kind, order, stamina);
    lemma2_to64();
    lemma_pow2_pos(149);
    lemma_of_int_within(a, 5);
    lemma_of_int_within(b, 5);
    lemma_of_int_within(c, 6);
    lemma_small_int(a);
    lemma_small_int(b);
    lemma_small_int(a + b);
    lemma_small_int(c);
    lemma_sum_within(Single::spec_of_int(a).val(), Single::spec_of_int(b).val(), 5);
    let p = pow2(149) as int;
    assert(a * p + b * p == (a + b) * p) by (nonlinear_arith);
}

/// A blow under flanking is exact.
pub proof fn lemma_flanked(kind: Kind, order: Order, stamina: u32, n: nat)
    ensures
        ({
            let plain = strike(kind, order, stamina);
            &&& Single::in_range(plain.val() * spec_flanking(n).val(), pow2(149))
            &&& plain.spec_mul(spec_flanking(n)).val() == force(kind, order, stamina) * (32 + edge(
                n,
            )) * pow2(144)
            &&& plain.val() == force(kind, order, stamina) * 32 * pow2(144)
            &&& 0 < plain.val() <= plain.spec_mul(spec_flanking(n)).val() <= pow2(155)
        }),
{
    let plain = strike(kind, order, stamina);
    let a = force(kind, order, stamina);
    let m = 32 + edge(n);
    let p = pow2(144) as int;
    let one = pow2(149) as int;
    lemma2_to64();
    lemma_strike(kind, order, stamina);
    lemma_flanking(n);
    lemma_pow2_pos(144);
    lemma_pow2_pos(149);
    lemma_pow2_adds(5, 144);
    lemma_pow2_adds(11, 144);
    lemma_product_within(plain, spec_flanking(n), 6, 1);
    assert(0 < a * 32 <= a * m <= 2048) by (nonlinear_arith)
        requires
            0 < a <= 31,
            32 <= m <= 37,
    ;
    assert((a * one) * (m * p) == ((a * m) * p) * one) by (nonlinear_arith);
    assert(a * (32 * p) == (a * 32) * p) by (nonlinear_arith);
    assert(0 < (a * 32) * p <= (a * m) * p <= 2048 * p) by (nonlinear_arith)
        requires
            0 < a * 32 <= a * m <= 2048,
            p > 0,
    ;
    lemma_representable((a * m) as nat, 144);
    lemma_nearest_multiple(((a * m) * p) as nat, pow2(149));
}

/// What a unit does to a target is a few points.
proof fn lemma_impact(s: Setting, all: Seq<UnitView>, u: UnitView, e: Entity)
    ensures
        0 < s.impact(all, u, e).val() <= pow2(155),
{
    lemma_flanked(
        u.kind,
        order_of(s.orders, u.team, u.group),
        u.stamina,
        s.flankers(all, e),
    );
}

/// One more strike leaves the damage tame.
proof fn lemma_piled(damage: Map<Entity, Single>, e: Entity, amount: Single)
    requires
        tame(damage),
        0 <= amount.val() <= pow2(155),
    ensures
        Single::in_range(piled(damage, e).val() + amount.val(), 1),
        tame(damage.insert(e, piled(damage, e).spec_add(amount))),
        piled(damage, e).val() <= piled(damage, e).spec_add(amount).val(),
{
    let v = piled(damage, e);
    assert((Single { bits: 0 }).val() == 0);
    assert(v.finite() && 0 <= v.val());
    lemma_finite(v);
    lemma_val_representable(v);
    lemma_strikes_saturate(v.val(), amount.val());
    lemma_round_ratio(v.val() + amount.val(), 1);
    lemma_finite(v.spec_add(amount));
    let d1 = damage.insert(e, v.spec_add(amount));
    assert forall|x: Entity| #[trigger] d1.contains_key(x) implies d1[x].finite() && 0
        <= d1[x].val() by {
        if x != e {
            assert(damage.contains_key(x));
        }
    }
}

/// How often `e` was counted.
spec fn tally(counts: Map<u64, usize>, e: Entity) -> nat {
    if counts.contains_key(e.0) {
        counts[e.0] as nat
    } else {
        0
    }
}

/// Whom each unit strikes, and how many strike each target in melee.
fn aim(
    units: &Vec<Unit>,
    idx: &SpatialIndex,
    terrain: &TerrainMap,
    healths: &DamageBuffer,
    Ghost(setting): Ghost<Setting>,
) -> (aims: (Vec<Option<Entity>>, HashMap<u64, usize>))
    requires
        fielded(roster(units@)),
        idx.wf(),
        idx.covers_field(),
        setting.occupied == idx@,
        setting.tiles == terrain@,
        setting.vitals == healths@,
    ensures
        aims.0@.len() == units@.len(),
        forall|j: int|
            0 <= j < units@.len() ==> #[trigger] aims.0@[j] == setting.target(roster(units@)[j]),
        forall|e: Entity| #[trigger]
            tally(aims.1@, e) == setting.flankers(roster(units@), e),
{
    let ghost all = roster(units@);
    let mut targets: Vec<Option<Entity>> = Vec::new();
    let mut counts: HashMap<u64, usize> = HashMap::new();
    let mut i: usize = 0;
    assert(all.take(0) =~= Seq::empty());
    while i < units.len()
        invariant
            i <= units@.len(),
            all == roster(units@),
            fielded(all),
            idx.wf(),
            idx.covers_field(),
            setting.occupied == idx@,
            setting.tiles == terrain@,
            setting.vitals == healths@,
            targets@.len() == i,
            forall|j: int| 0 <= j < i ==> #[trigger] targets@[j] == setting.target(all[j]),
            forall|e: Entity| #[trigger]
                tally(counts@, e) == setting.flankers(all.take(i as int), e),
            forall|e: Entity| #[trigger] tally(counts@, e) <= i,
        decreases units@.len() - i,
    {
        let ghost before = counts@;
        assert(all.take(i + 1).drop_last() =~= all.take(i as int));
        assert(all.take(i + 1).last() == units@[i as int]@);
        assert(all[i as int].hex.in_field());
        let hex: Hex = units[i].hex;
        let team: Team = units[i].team;
        let kind: Kind = units[i].kind;
        let target: Option<Entity> = if attack_range(kind) == 1 {
            let found: Option<Entity> = weakest_adjacent_enemy(hex, team, idx, healths);
            if let Some(enemy) = found {
                assert(tally(counts@, enemy) <= i);
                let n: usize = match counts.get(&enemy.0) {
                    Some(n) => *n,
                    None => 0,
                };
                counts.insert(enemy.0, n + 1);
            }
            found
        } else {
            nearest_enemy_entity(idx, hex, team, attack_range(kind), terrain)
        };
        targets.push(target);
        assert forall|e: Entity| #[trigger] tally(counts@, e) == setting.flankers(
            all.take(i + 1),
            e,
        ) && tally(counts@, e) <= i + 1 by {
            assert(tally(before, e) == setting.flankers(all.take(i as int), e));
            assert(tally(before, e) <= i);
        }
        i = i + 1;
    }
    assert(all.take(i as int) =~= all);
    (targets, counts)
}

/// The damage that a unit does to a target that it and `n` units in all strike in
/// melee.
fn deal(kind: Kind, order: Order, stamina: Stamina, n: usize) -> (amount: Single)
    ensures
        amount == (if melee(kind) {
            strike(kind, order, stamina.0).spec_mul(spec_flanking(n as nat))
        } else {
            strike(kind, order, stamina.0)
        }),
{
    proof {
        lemma_strike(kind, order, stamina.0);
        lemma_flanked(kind, order, stamina.0, n as nat);
    }
    let plain: Single = if stamina.is_winded() {
        attack_damage(kind)
    } else {
        attack_damage(kind).add(charge_bonus(kind, order))
    };
    if attack_range(kind) == 1 {
        plain.mul(flanking(n))
    } else {
        plain
    }
}

/// Every unit strikes once: melee attackers the weakest adjacent enemy, and
/// skirmishers the nearest enemy in range that they can see. Whoever commits to the
/// attack hits harder until winded, and the more melee attackers share a target,
/// the harder the blow of each.
pub fn combat(
    units: &Vec<Unit>,
    orders: &Orders,
    idx: &SpatialIndex,
    terrain: &TerrainMap,
    dmg: &mut DamageBuffer,
    events: &mut BattleEvents,
)
    requires
        fielded(roster(units@)),
        idx.wf(),
        idx.covers_field(),
        tame(old(dmg)@),
    ensures
        ({
            let all = roster(units@);
            let setting = Setting {
                orders: orders@,
                occupied: idx@,
                tiles: terrain@,
                vitals: vitals(all),
            };
            let start = Clash { damage: old(dmg)@, attacks: old(events)@.attacks };
            &&& final(dmg)@ == setting.fray(all, all, start).damage
            &&& final(events)@.attacks == setting.fray(all, all, start).attacks
        }),
        final(events)@.deaths == old(events)@.deaths,
        tame(final(dmg)@),
{
    let ghost all = roster(units@);
    let healths: DamageBuffer = take_vitals(units);
    let ghost setting = Setting {
        orders: orders@,
        occupied: idx@,
        tiles: terrain@,
        vitals: vitals(all),
    };
    let ghost start = Clash { damage: dmg@, attacks: events@.attacks };
    let (targets, counts): (Vec<Option<Entity>>, HashMap<u64, usize>) = aim(
        units,
        idx,
        terrain,
        &healths,
        Ghost(setting),
    );
    let mut i: usize = 0;
    assert(all.take(0) =~= Seq::empty());
    while i < units.len()
        invariant
            i <= units@.len(),
            all == roster(units@),
            setting.orders == orders@,
            targets@.len() == units@.len(),
            forall|j: int| 0 <= j < all.len() ==> #[trigger] targets@[j] == setting.target(all[j]),
            forall|e: Entity| #[trigger] tally(counts@, e) == setting.flankers(all, e),
            start == (Clash { damage: old(dmg)@, attacks: old(events)@.attacks }),
            tame(dmg@),
            dmg@ == setting.fray(all, all.take(i as int), start).damage,
            events@.attacks == setting.fray(all, all.take(i as int), start).attacks,
            events@.deaths == old(events)@.deaths,
        decreases units@.len() - i,
    {
        assert(all.take(i + 1).drop_last() =~= all.take(i as int));
        assert(all.take(i + 1).last() == units@[i as int]@);
        assert(targets@[i as int] == setting.target(all[i as int]));
        if let Some(enemy) = targets[i] {
            let kind: Kind = units[i].kind;
            let order: Order = orders.get(units[i].team, units[i].group.0);
            assert(tally(counts@, enemy) == setting.flankers(all, enemy));
            let n: usize = match counts.get(&enemy.0) {
                Some(n) => *n,
                None => 0,
            };
            let amount: Single = deal(kind, order, units[i].stamina, n);
            proof {
                assert(amount == setting.impact(all, all[i as int], enemy));
                lemma_impact(setting, all, all[i as int], enemy);
                lemma_piled(dmg@, enemy, amount);
            }
            let before: Single = match dmg.get(enemy) {
                Some(d) => d,
                None => Single { bits: 0 },
            };
            dmg.set(enemy, before.add(amount));
            events.attacks.push(
                AttackEvent { attacker: units[i].entity, target: enemy, kind, at: units[i].hex },
            );
        }
        i = i + 1;
    }
    assert(all.take(i as int) =~= all);
}

/// However many strikes there are, the damage stays tame.
pub proof fn lemma_fray_tame(s: Setting, all: Seq<UnitView>, units: Seq<UnitView>, start: Clash)
    requires
        tame(start.damage),
    ensures
        tame(s.fray(all, units, start).damage),
    decreases units.len(),
{
    if units.len() > 0 {
        lemma_fray_tame(s, all, units.drop_last(), start);
        let u = units.last();
        if let Some(e) = s.target(u) {
            lemma_impact(s, all, u, e);
            lemma_piled(s.fray(all, units.drop_last(), start).damage, e, s.impact(all, u, e));
        }
    }
}

/// A strike goes to an enemy within reach: a melee attacker's to an adjacent one
/// that no adjacent enemy is weaker than, a skirmisher's to one in sight that no
/// enemy in range and in sight is closer than.
pub proof fn law_targets_are_enemies_in_reach(s: Setting, u: UnitView)
    requires
        u.hex.in_field(),
    ensures
        s.target(u) matches Some(e) ==> exists|h: Hex| #[trigger]
            foe_on(s.occupied, h, u.team) && s.occupied[h].0 == e && 1 <= dist(u.hex, h)
                <= spec_attack_range(u.kind) && (u.kind == Kind::Skirmisher ==> clear_between(
                u.hex,
                h,
                s.tiles,
            )),
        u.kind != Kind::Skirmisher ==> forall|i: int|
            0 <= i < 6 && #[trigger] prey(s.occupied, s.vitals, u.hex, u.team, i) ==> s.target(u)
                is Some && health_of(s.vitals, s.target(u)->0).val() <= health_of(
                s.vitals,
                s.occupied[nb(u.hex, i)].0,
            ).val(),
        u.kind == Kind::Skirmisher ==> (s.target(u) is None <==> forall|h: Hex|
            !#[trigger] in_shot(s.occupied, s.tiles, u.hex, u.team, 3, h)),
{
    if u.kind == Kind::Skirmisher {
        law_shot_is_nearest_in_sight(s.occupied, s.tiles, u.hex, u.team, 3);
        if let Some(h) = shot(s.occupied, s.tiles, u.hex, u.team, 3) {
            assert(in_shot(s.occupied, s.tiles, u.hex, u.team, 3, h));
            assert(foe_on(s.occupied, h, u.team));
        }
    } else {
        let ok = |i: int| prey(s.occupied, s.vitals, u.hex, u.team, i);
        let key = |i: int| health_of(s.vitals, s.occupied[nb(u.hex, i)].0).val();
        law_first_least(6, ok, key);
        if let Some(b) = weakest(s.occupied, s.vitals, u.hex, u.team) {
            assert(ok(b));
            assert(foe_on(s.occupied, nb(u.hex, b), u.team));
            assert forall|i: int|
                0 <= i < 6 && #[trigger] prey(s.occupied, s.vitals, u.hex, u.team, i) implies key(b)
                <= key(i) by {
                assert(ok(i));
            }
        } else {
            assert forall|i: int| 0 <= i < 6 implies !#[trigger] prey(
                s.occupied,
                s.vitals,
                u.hex,
                u.team,
                i,
            ) by {
                assert(!ok(i));
            }
        }
    }
}

/// The attack of a unit on a target.
pub open spec fn blow(u: UnitView, e: Entity) -> AttackEvent {
    AttackEvent { attacker: u.entity, target: e, kind: u.kind, at: u.hex }
}

/// Some unit makes the attack.
pub open spec fn made(s: Setting, units: Seq<UnitView>, a: AttackEvent) -> bool {
    exists|i: int|
        0 <= i < units.len() && s.target(#[trigger] units[i]) == Some(a.target) && a == blow(
            units[i],
            a.target,
        )
}

/// Every unit lands one attack, on its target, and only those with a target do.
pub proof fn law_one_attack_per_unit(
    s: Setting,
    all: Seq<UnitView>,
    units: Seq<UnitView>,
    damage: Map<Entity, Single>,
)
    requires
        distinct(units),
    ensures
        ({
            let attacks = s.fray(all, units, Clash { damage, attacks: Seq::empty() }).attacks;
            &&& forall|a: AttackEvent| #[trigger] attacks.contains(a) <==> made(s, units, a)
            &&& forall|k: int, l: int|
                0 <= k < l < attacks.len() ==> (#[trigger] attacks[k]).attacker != (
                #[trigger] attacks[l]).attacker
            &&& attacks.len() <= units.len()
        }),
    decreases units.len(),
{
    let start = Clash { damage, attacks: Seq::empty() };
    let attacks = s.fray(all, units, start).attacks;
    if units.len() > 0 {
        let before = units.drop_last();
        let n = units.len() - 1;
        let u = units.last();
        assert forall|i: int, j: int| 0 <= i < j < before.len() implies #[trigger] before[i].entity
            != #[trigger] before[j].entity by {
            assert(units[i].entity != units[j].entity);
        }
        law_one_attack_per_unit(s, all, before, damage);
        let rest = s.fray(all, before, start).attacks;
        assert forall|a: AttackEvent| #[trigger] attacks.contains(a) <==> made(s, units, a) by {
            if attacks.contains(a) {
                let k = choose|k: int| 0 <= k < attacks.len() && attacks[k] == a;
                if k < rest.len() {
                    assert(rest[k] == a);
                    assert(rest.contains(a));
                    let i = choose|i: int|
                        0 <= i < before.len() && s.target(#[trigger] before[i]) == Some(a.target)
                            && a == blow(before[i], a.target);
                    assert(units[i] == before[i]);
                } else {
                    assert(a == blow(units[n], a.target));
                }
            }
            if made(s, units, a) {
                let i = choose|i: int|
                    0 <= i < units.len() && s.target(#[trigger] units[i]) == Some(a.target) && a
                        == blow(units[i], a.target);
                if i < n {
                    assert(before[i] == units[i]);
                    assert(made(s, before, a));
                    assert(rest.contains(a));
                    let k = choose|k: int| 0 <= k < rest.len() && rest[k] == a;
                    assert(attacks[k] == a);
                } else {
                    assert(attacks[attacks.len() - 1] == a);
                }
            }
        }
        assert forall|k: int, l: int| 0 <= k < l < attacks.len() implies (
        #[trigger] attacks[k]).attacker != (#[trigger] attacks[l]).attacker by {
            assert(rest[k] == attacks[k]);
            if l < rest.len() {
                assert(rest[l] == attacks[l]);
            } else {
                assert(rest.contains(rest[k]));
                let i = choose|i: int|
                    0 <= i < before.len() && s.target(#[trigger] before[i]) == Some(rest[k].target)
                        && rest[k] == blow(before[i], rest[k].target);
                assert(units[i].entity != units[n].entity);
            }
        }
    } else {
        assert forall|a: AttackEvent| !(#[trigger] attacks.contains(a)) by {}
    }
}

/// What the strikes on `e` add up to without flanking, in thirty-seconds of a
/// point.
pub open spec fn plain_on(s: Setting, units: Seq<UnitView>, e: Entity) -> nat
    decreases units.len(),
{
    if units.len() == 0 {
        0
    } else {
        let u = units.last();
        let rest = plain_on(s, units.drop_last(), e);
        if s.target(u) == Some(e) {
            let order = order_of(s.orders, u.team, u.group);
            (rest + 32 * force(u.kind, order, u.stamina)) as nat
        } else {
            rest
        }
    }
}

/// What flanking adds to the strikes on `e` with `n` melee attackers, in
/// thirty-seconds of a point.
pub open spec fn extra_on(s: Setting, units: Seq<UnitView>, e: Entity, n: nat) -> nat
    decreases units.len(),
{
    if units.len() == 0 {
        0
    } else {
        let u = units.last();
        let rest = extra_on(s, units.drop_last(), e, n);
        if s.target(u) == Some(e) && melee(u.kind) {
            let order = order_of(s.orders, u.team, u.group);
            (rest + edge(n) * force(u.kind, order, u.stamina)) as nat
        } else {
            rest
        }
    }
}

/// The damage on a unit is exactly the sum of the strikes on it and of what flanking
/// adds to the melee blows among them, so that every further attacker adds to it;
/// this holds while the sum fits in 24 bits.
pub proof fn law_damage_is_the_sum_of_blows(
    s: Setting,
    all: Seq<UnitView>,
    units: Seq<UnitView>,
    e: Entity,
)
    requires
        plain_on(s, units, e) + extra_on(s, units, e, s.flankers(all, e)) <= 0x100_0000,
    ensures
        ({
            let damage = s.fray(
                all,
                units,
                Clash { damage: Map::empty(), attacks: Seq::empty() },
            ).damage;
            &&& damage.contains_key(e) <==> plain_on(s, units, e) > 0
            &&& piled(damage, e).val() == (plain_on(s, units, e) + extra_on(
                s,
                units,
                e,
                s.flankers(all, e),
            )) * pow2(144)
        }),
    decreases units.len(),
{
    let n = s.flankers(all, e);
    let start = Clash { damage: Map::empty(), attacks: Seq::empty() };
    lemma_pow2_pos(144);
    let p = pow2(144) as int;
    assert((Single { bits: 0 }).val() == 0);
    assert(0 * p == 0);
    if units.len() > 0 {
        let before = units.drop_last();
        let u = units.last();
        let order = order_of(s.orders, u.team, u.group);
        let f = force(u.kind, order, u.stamina);
        lemma_strike(u.kind, order, u.stamina);
        assert(0 <= edge(n) * f) by (nonlinear_arith)
            requires
                0 <= edge(n),
                0 <= f,
        ;
        law_damage_is_the_sum_of_blows(s, all, before, e);
        lemma_fray_tame(s, all, before, start);
        let damage = s.fray(all, before, start).damage;
        if s.target(u) == Some(e) {
            let amount = s.impact(all, u, e);
            lemma_impact(s, all, u, e);
            lemma_flanked(u.kind, order, u.stamina, n);
            lemma_piled(damage, e, amount);
            let a = (plain_on(s, before, e) + extra_on(s, before, e, n)) as int;
            let b = if melee(u.kind) {
                f * (32 + edge(n))
            } else {
                f * 32
            };
            assert(f * (32 + edge(n)) == 32 * f + edge(n) * f) by (nonlinear_arith);
            assert(a * p + b * p == (a + b) * p) by (nonlinear_arith);
            lemma_representable((a + b) as nat, 144);
            lemma_nearest_exact(((a + b) * p) as nat);
            lemma_round_ratio((a + b) * p, 1);
        }
    }
}

/// Flanking: two or more melee attackers on one target do more damage than their
/// strikes add up to, whoever else shoots at it. A lone melee attacker, and shots
/// without any, do just the sum.
pub proof fn law_flanking_amplifies(s: Setting, units: Seq<UnitView>, e: Entity)
    requires
        plain_on(s, units, e) + extra_on(s, units, e, s.flankers(units, e)) <= 0x100_0000,
    ensures
        ({
            let damage = s.fray(
                units,
                units,
                Clash { damage: Map::empty(), attacks: Seq::empty() },
            ).damage;
            &&& s.flankers(units, e) >= 2 ==> piled(damage, e).val() > plain_on(s, units, e)
                * pow2(144)
            &&& s.flankers(units, e) < 2 ==> piled(damage, e).val() == plain_on(s, units, e)
                * pow2(144)
        }),
{
    let n = s.flankers(units, e);
    let p = pow2(144) as int;
    lemma_pow2_pos(144);
    law_damage_is_the_sum_of_blows(s, units, units, e);
    lemma_extra(s, units, e, n);
    let a = plain_on(s, units, e) as int;
    let b = extra_on(s, units, e, n) as int;
    assert((a + b) * p == a * p + b * p) by (nonlinear_arith);
    assert(b > 0 ==> b * p > 0) by (nonlinear_arith)
        requires
            p > 0,
    ;
    assert(b == 0 ==> b * p == 0) by (nonlinear_arith);
}

proof fn lemma_extra(s: Setting, units: Seq<UnitView>, e: Entity, n: nat)
    ensures
        n < 2 ==> extra_on(s, units, e, n) == 0,
        n >= 2 && s.flankers(units, e) > 0 ==> extra_on(s, units, e, n) > 0,
    decreases units.len(),
{
    if units.len() > 0 {
        let u = units.last();
        let order = order_of(s.orders, u.team, u.group);
        let f = force(u.kind, order, u.stamina);
        lemma_extra(s, units.drop_last(), e, n);
        lemma_strike(u.kind, order, u.stamina);
        assert(n >= 2 ==> edge(n) * f > 0) by (nonlinear_arith)
            requires
                n >= 2 ==> edge(n) >= 1,
                f > 0,
        ;
        assert(edge(n) == 0 ==> edge(n) * f == 0) by (nonlinear_arith);
    }
}

/// More melee attackers on one target hit harder, each of them, up to the six that
/// fit around it.
pub proof fn law_every_flanker_counts(kind: Kind, order: Order, stamina: u32, n: nat)
    requires
        1 <= n < 6,
    ensures
        strike(kind, order, stamina).spec_mul(spec_flanking(n)).val() < strike(
            kind,
            order,
            stamina,
        ).spec_mul(spec_flanking(n + 1)).val(),
        strike(kind, order, stamina).spec_mul(spec_flanking(1)).val() == strike(
            kind,
            order,
            stamina,
        ).val(),
{
    let f = force(kind, order, stamina);
    let p = pow2(144) as int;
    lemma_pow2_pos(144);
    lemma_strike(kind, order, stamina);
    lemma_flanked(kind, order, stamina, 1);
    lemma_flanked(kind, order, stamina, n);
    lemma_flanked(kind, order, stamina, n + 1);
    assert(f * (32 + edge(n)) * p < f * (32 + edge(n + 1)) * p) by (nonlinear_arith)
        requires
            edge(n) < edge(n + 1),
            f > 0,
            p > 0,
    ;
}

/// A winded unit loses what it gets for committing to the attack and keeps its base
/// damage; a unit with breath left has both.
pub proof fn law_winded_units_lose_their_bonus(kind: Kind, order: Order, stamina: u32)
    ensures
        winded(stamina) ==> strike(kind, order, stamina) == Single::spec_of_int(
            damage_points(kind),
        ),
        !winded(stamina) ==> strike(kind, order, stamina) == Single::spec_of_int(
            damage_points(kind),
        ).spec_add(Single::spec_of_int(bonus_points(kind, order))),
{
    lemma_strike(kind, order, stamina);
}

} // verus!
