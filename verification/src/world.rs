//! The battle as a whole, and its tick.

use crate::anim::{animate, animated};
use crate::combat::{
    combat, lemma_fray_tame, vitals, AttackEvent, BattleEvents, BattleLog, Clash, DamageBuffer,
    DeathEvent, Setting,
};
use crate::damage::{
    fallen, find, law_damage_never_heals, law_only_the_living_remain, lemma_place,
    lemma_survivors_from, place, resolve_damage, spent, survivors, Shelter,
};
use crate::flow::{build_flow_fields, charted, FlowField, FlowView};
use crate::formations::{build_formations, fronts, Formations};
use crate::hex::{dist, Hex};
use crate::index::{
    build_spatial_index, compact, law_index_locates_every_unit, occupancy, one_per_hex, stood_on,
    SpatialIndex,
};
use crate::movement::{
    law_march_keeps_units, movement, orderly, routed, sound_move, Campaign, March, MovedThisTick,
    Tick,
};
use crate::orders::{balance, contacts, enemy_ai, order_of, strength, Orders};
use crate::reach::navigable;
use crate::route::{drawn, passable_route};
use crate::single::{lemma_finite, lemma_of_int_within, Single};
use crate::stamina::{all_exerted, exerted, stamina_after, update_stamina};
use crate::terrain::{ground, Terrain, TerrainMap};
use crate::unit::{
    distinct, fielded, fresh, hp_points, roster, AnimState, Entity, Health, Kind, Order, Team, Unit,
    UnitView,
    PATH_RECOMPUTE_PERIOD,
};
use vstd::arithmetic::power2::{lemma2_to64, lemma_pow2_pos, lemma_pow2_strictly_increases};
use vstd::multiset::Multiset;
use vstd::prelude::*;

verus! {

/// The units and everything that they go by.
#[derive(Debug)]
pub struct World {
    pub units: Vec<Unit>,
    /// The number of the next handle.
    pub next_entity: u64,
    pub tick: Tick,
    pub orders: Orders,
    pub terrain: TerrainMap,
    pub index: SpatialIndex,
    pub damage: DamageBuffer,
    pub events: BattleEvents,
    pub moved: MovedThisTick,
    pub field: FlowField,
    pub formations: Formations,
}

/// The content of a [`World`].
#[verifier::ext_equal]
pub struct WorldView {
    pub units: Seq<UnitView>,
    pub next_entity: u64,
    pub tick: u64,
    pub orders: Map<(Team, u8), Order>,
    pub tiles: Map<Hex, Terrain>,
    pub occupied: Map<Hex, (Entity, Team)>,
    pub damage: Map<Entity, Single>,
    pub events: BattleLog,
    pub moved: Set<Entity>,
    pub field: FlowView,
    pub fronts: Map<(Team, u8), Single>,
}

impl View for World {
    type V = WorldView;

    open spec fn view(&self) -> WorldView {
        WorldView {
            units: roster(self.units@),
            next_entity: self.next_entity,
            tick: self.tick.0,
            orders: self.orders@,
            tiles: self.terrain@,
            occupied: self.index@,
            damage: self.damage@,
            events: self.events@,
            moved: self.moved@,
            field: self.field@,
            fronts: self.formations@,
        }
    }
}

impl WorldView {
    /// The world at the start of a tick: the tick is counted, what the last one left
    /// is cleared, and who stands where is noted.
    pub open spec fn prepared(self) -> WorldView {
        WorldView {
            tick: (self.tick + 1) as u64,
            occupied: occupancy(self.units),
            damage: Map::empty(),
            events: BattleLog { attacks: Seq::empty(), deaths: Seq::empty() },
            moved: Set::empty(),
            field: self.field.surveyed(self.tiles),
            fronts: fronts(self.units),
            ..self
        }
    }

    /// The world after Blue has given its orders.
    pub open spec fn advised(self) -> WorldView {
        WorldView {
            orders: self.orders.insert(
                (Team::Blue, 1u8),
                balance(
                    strength(self.units, Team::Blue) as int,
                    strength(self.units, Team::Red) as int,
                    contacts(self.units, self.occupied, Team::Blue) as int,
                ),
            ),
            ..self
        }
    }

    /// What the fighting goes by.
    pub open spec fn setting(self) -> Setting {
        Setting {
            orders: self.orders,
            occupied: self.occupied,
            tiles: self.tiles,
            vitals: vitals(self.units),
        }
    }

    /// The strikes.
    pub open spec fn clash(self) -> Clash {
        self.setting().fray(
            self.units,
            self.units,
            Clash { damage: self.damage, attacks: self.events.attacks },
        )
    }

    /// The units after their damage, the dead among them.
    pub open spec fn battered(self) -> Seq<UnitView> {
        Shelter { orders: self.orders, tiles: self.tiles }.wounded(
            self.units,
            self.clash().damage,
        )
    }

    /// The units that live through the fighting.
    pub open spec fn standing(self) -> Seq<UnitView> {
        survivors(self.battered(), fallen(self.battered()))
    }

    /// What movement goes by.
    pub open spec fn campaign(self) -> Campaign {
        Campaign {
            now: self.tick,
            orders: self.orders,
            occupied: self.occupied,
            tiles: self.tiles,
            field: self.field,
            fronts: self.fronts,
        }
    }

    /// The movement.
    pub open spec fn marched(self) -> March {
        self.campaign().march(self.standing(), self.moved)
    }

    /// The units after their exertion.
    pub open spec fn tired(self) -> Seq<UnitView> {
        all_exerted(self.orders, self.marched().units)
    }

    /// The world after the fighting and the movement.
    pub open spec fn fought(self) -> WorldView {
        WorldView {
            units: animated(
                self.tired(),
                self.clash().attacks,
                self.clash().damage,
                self.marched().moved,
            ),
            damage: self.clash().damage,
            events: BattleLog {
                attacks: self.clash().attacks,
                deaths: self.events.deaths + fallen(self.battered()),
            },
            moved: self.marched().moved,
            ..self
        }
    }

    /// The world one tick later.
    pub open spec fn stepped(self) -> WorldView {
        self.prepared().fought()
    }

    /// The world one tick later, when Blue gives orders of its own.
    pub open spec fn played(self) -> WorldView {
        self.prepared().advised().fought()
    }

    /// The world some ticks later.
    pub open spec fn later(self, ticks: nat) -> WorldView
        decreases ticks,
    {
        if ticks == 0 {
            self
        } else {
            self.later((ticks - 1) as nat).stepped()
        }
    }

    /// The numbers that a tick works with fit, and its searches come to an end.
    pub open spec fn bounded(self) -> bool {
        &&& self.tick + 1 + PATH_RECOMPUTE_PERIOD <= u64::MAX
        &&& self.units.len() <= u32::MAX
        &&& fielded(self.units)
        &&& compact(self.units)
        &&& routed(self.units)
        &&& charted(self.tiles)
        &&& navigable(self.tiles)
    }

    /// The world is at the start of a tick.
    pub open spec fn poised(self) -> bool {
        &&& self.occupied == occupancy(self.units)
        &&& self.damage == Map::<Entity, Single>::empty()
    }

    /// No two units share a handle, and no handle to come is taken.
    pub open spec fn registered(self) -> bool {
        &&& distinct(self.units)
        &&& forall|i: int|
            0 <= i < self.units.len() ==> (#[trigger] self.units[i]).entity.0 < self.next_entity
    }
}

/// What is left of a unit a tick later: the same one, alive and no healthier, at
/// most one step away, due to move no earlier, and tired or rested as its order has
/// it. Health is lost, never garbled.
pub open spec fn heir(orders: Map<(Team, u8), Order>, u: UnitView, v: UnitView) -> bool {
    &&& v.entity == u.entity
    &&& v.team == u.team
    &&& v.kind == u.kind
    &&& v.group == u.group
    &&& v.health.val() <= u.health.val()
    &&& !spent(v.health)
    &&& v.health.spec_is_nan() <==> u.health.spec_is_nan()
    &&& v.hex == u.hex || dist(u.hex, v.hex) == 1
    &&& v.next_move >= u.next_move
    &&& v.stamina == stamina_after(u.stamina, order_of(orders, u.team, u.group))
    &&& v.anim != AnimState::Die
}

/// `v` is what is left of one of the units.
pub open spec fn inherits(
    orders: Map<(Team, u8), Order>,
    units: Seq<UnitView>,
    v: UnitView,
) -> bool {
    exists|j: int| 0 <= j < units.len() && heir(orders, #[trigger] units[j], v)
}

/// All units stand on passable ground, and so do the steps of their routes.
pub open spec fn afoot(tiles: Map<Hex, Terrain>, units: Seq<UnitView>) -> bool {
    forall|i: int|
        0 <= i < units.len() ==> ground(tiles, (#[trigger] units[i]).hex).spec_passable()
            && passable_route(tiles, units[i].path)
}

/// Every unit has some health, and no more than a fresh one of its kind.
pub open spec fn hale(units: Seq<UnitView>) -> bool {
    forall|i: int| 0 <= i < units.len() ==> sound(#[trigger] units[i])
}

/// The health of a unit is a number above zero and at most that of a fresh one.
pub open spec fn sound(u: UnitView) -> bool {
    &&& !u.health.spec_is_nan()
    &&& 0 < u.health.val() <= Single::spec_of_int(hp_points(u.kind)).val()
}

/// A fresh unit has some health, and the full measure of it.
pub proof fn law_fresh_units_are_sound(team: Team, kind: Kind, hex: Hex, group: u8, e: Entity)
    ensures
        sound(fresh(team, kind, hex, group, e)),
{
    let h = Single::spec_of_int(hp_points(kind));
    lemma2_to64();
    lemma_of_int_within(hp_points(kind), 7);
    lemma_pow2_pos(149);
    lemma_pow2_strictly_increases(156, 277);
    lemma_finite(h);
}

/// What every tick keeps: nobody joins, whoever is left was there before, alive
/// and no healthier, and has gone one step at most; no two units come to share a
/// handle or a hex; and nobody leaves passable ground.
pub open spec fn upheld(before: WorldView, after: WorldView) -> bool {
    &&& after.units.len() <= before.units.len()
    &&& routed(after.units)
    &&& distinct(before.units) ==> {
        &&& distinct(after.units)
        &&& forall|i: int|
            0 <= i < after.units.len() ==> inherits(
                after.orders,
                before.units,
                #[trigger] after.units[i],
            )
        &&& hale(before.units) ==> hale(after.units)
    }
    &&& before.registered() ==> after.registered()
    &&& distinct(before.units) && one_per_hex(before.units) ==> one_per_hex(after.units)
    &&& afoot(before.tiles, before.units) ==> afoot(after.tiles, after.units)
}

/// Counts the tick and clears what the last one left behind.
pub fn tick_and_clear(
    tick: &mut Tick,
    dmg: &mut DamageBuffer,
    events: &mut BattleEvents,
    moved: &mut MovedThisTick,
)
    requires
        old(tick).0 < u64::MAX,
    ensures
        final(tick).0 == old(tick).0 + 1,
        final(dmg)@ == Map::<Entity, Single>::empty(),
        final(events)@.attacks == Seq::<AttackEvent>::empty(),
        final(events)@.deaths == Seq::<DeathEvent>::empty(),
        final(moved)@ == Set::<Entity>::empty(),
{
    tick.0 = tick.0 + 1;
    dmg.clear();
    events.attacks.clear();
    events.deaths.clear();
    moved.clear();
}

/// Starts a tick.
fn prepare(world: &mut World)
    requires
        old(world)@.bounded(),
    ensures
        final(world)@ == old(world)@.prepared(),
        final(world).index.wf(),
        final(world).index.covers_field(),
{
    let ghost w = world@;
    tick_and_clear(&mut world.tick, &mut world.damage, &mut world.events, &mut world.moved);
    build_spatial_index(&world.units, &mut world.index);
    build_flow_fields(&world.terrain, &mut world.field);
    build_formations(&world.units, &mut world.formations);
    assert(world@ =~= w.prepared());
}

/// Fights, moves, and labels the units with what they did.
fn fight(world: &mut World)
    requires
        old(world).index.wf(),
        old(world).index.covers_field(),
        old(world)@.tick + PATH_RECOMPUTE_PERIOD <= u64::MAX,
        fielded(old(world)@.units),
        routed(old(world)@.units),
        old(world)@.poised(),
        navigable(old(world)@.tiles),
    ensures
        final(world)@ == old(world)@.fought(),
        upheld(old(world)@, final(world)@),
{
    let ghost w = world@;
    combat(
        &world.units,
        &world.orders,
        &world.index,
        &world.terrain,
        &mut world.damage,
        &mut world.events,
    );
    resolve_damage(
        &mut world.units,
        &world.orders,
        &world.terrain,
        &world.damage,
        &mut world.events,
    );
    proof {
        lemma_standing(w);
    }
    movement(
        &world.tick,
        &world.orders,
        &world.index,
        &world.terrain,
        &mut world.moved,
        &world.field,
        &world.formations,
        &mut world.units,
    );
    update_stamina(&world.orders, &mut world.units);
    animate(&world.events, &world.moved, &world.damage, &mut world.units);
    assert(world@ =~= w.fought());
    proof {
        lemma_upheld(w);
    }
}

/// Runs one tick: clear, index, fields, formations, combat, damage, movement,
/// exertion, animation. What comes out is a function of what went in.
pub fn step(world: &mut World)
    requires
        old(world)@.bounded(),
    ensures
        final(world)@ == old(world)@.stepped(),
        upheld(old(world)@, final(world)@),
{
    prepare(world);
    fight(world);
}

/// Runs one tick of a game against the opponent that commands Blue, which gives
/// its orders before the fighting.
pub fn play(world: &mut World)
    requires
        old(world)@.bounded(),
    ensures
        final(world)@ == old(world)@.played(),
        upheld(old(world)@, final(world)@),
{
    let ghost w = world@;
    prepare(world);
    enemy_ai(&world.units, &world.index, &mut world.orders);
    assert(world@ =~= w.prepared().advised());
    fight(world);
}

/// Damage moves nobody.
proof fn lemma_standing(w: WorldView)
    requires
        fielded(w.units),
        routed(w.units),
    ensures
        fielded(w.standing()),
        routed(w.standing()),
        w.standing().len() <= w.units.len(),
{
    let battered = w.battered();
    lemma_survivors_from(battered, fallen(battered));
    assert forall|i: int| 0 <= i < w.standing().len() implies {
        &&& (#[trigger] w.standing()[i]).hex.in_field()
        &&& drawn(w.standing()[i].path)
    } by {
        assert(battered.contains(w.standing()[i]));
        let j = choose|j: int| 0 <= j < battered.len() && battered[j] == w.standing()[i];
        assert(w.units[j].hex.in_field());
        assert(drawn(w.units[j].path));
    }
}

/// Each unit that is standing after the fighting is one of the units before it, at
/// the place that it had.
proof fn lemma_standing_from(w: WorldView, i: int) -> (j: int)
    requires
        w.poised(),
        0 <= i < w.standing().len(),
    ensures
        0 <= j < w.units.len(),
        w.standing()[i] == w.battered()[j],
        ({
            let u = w.units[j];
            let s = w.standing()[i];
            &&& s.entity == u.entity
            &&& s.team == u.team
            &&& s.kind == u.kind
            &&& s.group == u.group
            &&& s.hex == u.hex
            &&& s.next_move == u.next_move
            &&& s.path == u.path
            &&& s.health.val() <= u.health.val()
            &&& s.health.spec_is_nan() <==> u.health.spec_is_nan()
            &&& s.stamina == u.stamina
        }),
{
    let battered = w.battered();
    lemma_survivors_from(battered, fallen(battered));
    assert(battered.contains(w.standing()[i]));
    let j = choose|j: int| 0 <= j < battered.len() && battered[j] == w.standing()[i];
    lemma_fray_tame(
        w.setting(),
        w.units,
        w.units,
        Clash { damage: w.damage, attacks: w.events.attacks },
    );
    law_damage_never_heals(
        Shelter { orders: w.orders, tiles: w.tiles },
        w.units[j],
        w.clash().damage,
    );
    j
}

proof fn lemma_battered_distinct(w: WorldView)
    requires
        distinct(w.units),
    ensures
        distinct(w.battered()),
{
    assert forall|i: int, j: int| 0 <= i < j < w.battered().len() implies #[trigger] w.battered()[i].entity
        != #[trigger] w.battered()[j].entity by {
        assert(w.units[i].entity != w.units[j].entity);
    }
}

proof fn lemma_upheld(w: WorldView)
    requires
        w.poised(),
        w.tick + PATH_RECOMPUTE_PERIOD <= u64::MAX,
        fielded(w.units),
        routed(w.units),
        orderly(w.campaign(), w.standing(), w.marched().units),
    ensures
        upheld(w, w.fought()),
{
    let c = w.campaign();
    let stand = w.standing();
    let gone = w.marched().units;
    let after = w.fought().units;
    lemma_standing(w);
    law_march_keeps_units(c, stand, w.moved);
    assert(after.len() == stand.len());
    assert forall|i: int| 0 <= i < after.len() implies (#[trigger] after[i]) == (UnitView {
        anim: after[i].anim,
        ..exerted(w.orders, gone[i])
    }) && after[i].anim != AnimState::Die by {
        assert(w.tired()[i] == exerted(w.orders, gone[i]));
    }
    assert forall|i: int| 0 <= i < after.len() implies drawn((#[trigger] after[i]).path) by {
        assert(sound_move(c, stand[i], gone[i], Set::empty()));
    }
    if distinct(w.units) {
        lemma_battered_distinct(w);
        law_only_the_living_remain(w.battered());
        assert forall|i: int| 0 <= i < after.len() implies inherits(
            w.orders,
            w.units,
            #[trigger] after[i],
        ) by {
            assert(w.tired()[i] == exerted(w.orders, gone[i]));
            let j = lemma_standing_from(w, i);
            assert(sound_move(c, stand[i], gone[i], Set::empty()));
            assert(stand.contains(stand[i]));
            assert(heir(w.orders, w.units[j], after[i]));
        }
        if hale(w.units) {
            assert forall|i: int| 0 <= i < after.len() implies sound(#[trigger] after[i]) by {
                assert(inherits(w.orders, w.units, after[i]));
                let j = choose|j: int|
                    0 <= j < w.units.len() && heir(w.orders, #[trigger] w.units[j], after[i]);
                assert(sound(w.units[j]));
            }
        }
        assert forall|i: int, j: int| 0 <= i < j < after.len() implies #[trigger] after[i].entity
            != #[trigger] after[j].entity by {
            assert(gone[i].entity == stand[i].entity && gone[j].entity == stand[j].entity);
            assert(stand[i].entity != stand[j].entity);
        }
        if one_per_hex(w.units) {
            lemma_still_one_per_hex(w);
        }
    }
    if w.registered() {
        assert forall|i: int| 0 <= i < after.len() implies (#[trigger] after[i]).entity.0
            < w.next_entity by {
            let j = lemma_standing_from(w, i);
            assert(gone[i].entity == stand[i].entity);
            assert(w.units[j].entity.0 < w.next_entity);
        }
    }
    if afoot(w.tiles, w.units) {
        assert forall|i: int| 0 <= i < after.len() implies ground(
            w.tiles,
            (#[trigger] after[i]).hex,
        ).spec_passable() && passable_route(w.tiles, after[i].path) by {
            let j = lemma_standing_from(w, i);
            assert(ground(w.tiles, w.units[j].hex).spec_passable());
            assert(sound_move(c, stand[i], gone[i], Set::empty()));
        }
    }
}

/// Movers keep off every hex that was occupied, and off those that others went to.
proof fn lemma_still_one_per_hex(w: WorldView)
    requires
        w.poised(),
        distinct(w.units),
        one_per_hex(w.units),
        distinct(w.standing()),
        orderly(w.campaign(), w.standing(), w.marched().units),
    ensures
        one_per_hex(w.fought().units),
{
    let c = w.campaign();
    let stand = w.standing();
    let gone = w.marched().units;
    let after = w.fought().units;
    law_index_locates_every_unit(w.units);
    assert forall|i: int, j: int| 0 <= i < j < after.len() implies #[trigger] after[i].hex
        != #[trigger] after[j].hex by {
        assert(after[i].hex == gone[i].hex && after[j].hex == gone[j].hex);
        let a = lemma_standing_from(w, i);
        let b = lemma_standing_from(w, j);
        assert(stand[i].entity != stand[j].entity);
        assert(a != b);
        if a < b {
            assert(w.units[a].hex != w.units[b].hex);
        } else {
            assert(w.units[b].hex != w.units[a].hex);
        }
        assert(stood_on(w.units, w.units[a].hex) && stood_on(w.units, w.units[b].hex));
        assert(sound_move(c, stand[i], gone[i], Set::empty()));
        assert(sound_move(c, stand[j], gone[j], Set::empty()));
        assert(c.occupied.contains_key(stand[i].hex) && c.occupied.contains_key(stand[j].hex));
    }
}

impl World {
    /// A world without units or terrain.
    pub fn new() -> (w: World)
        ensures
            w@.units == Seq::<UnitView>::empty(),
            w@.next_entity == 0,
            w@.tick == 0,
            w@.orders == Map::<(Team, u8), Order>::empty(),
            w@.tiles == Map::<Hex, Terrain>::empty(),
            w@.occupied == Map::<Hex, (Entity, Team)>::empty(),
            w@.damage == Map::<Entity, Single>::empty(),
            w@.events.attacks == Seq::<AttackEvent>::empty(),
            w@.events.deaths == Seq::<DeathEvent>::empty(),
            w@.moved == Set::<Entity>::empty(),
            w@.field == (FlowView { red: None, blue: None, built: false }),
            w@.fronts == Map::<(Team, u8), Single>::empty(),
            w@.registered(),
            w.index.wf(),
            w.index.covers_field(),
    {
        let w = World {
            units: Vec::new(),
            next_entity: 0,
            tick: Tick::default(),
            orders: Orders::default(),
            terrain: TerrainMap::default(),
            index: SpatialIndex::default(),
            damage: DamageBuffer::default(),
            events: BattleEvents::default(),
            moved: MovedThisTick::default(),
            field: FlowField::default(),
            formations: Formations::default(),
        };
        assert(w@.units =~= Seq::<UnitView>::empty());
        w
    }

    /// Lets a unit join, under a handle of its own.
    pub fn spawn(&mut self, u: Unit) -> (e: Entity)
        requires
            old(self)@.next_entity < u64::MAX,
        ensures
            e == Entity(old(self)@.next_entity),
            final(self)@ == (WorldView {
                units: old(self)@.units.push(UnitView { entity: e, ..u@ }),
                next_entity: (old(self)@.next_entity + 1) as u64,
                ..old(self)@
            }),
            old(self)@.registered() ==> final(self)@.registered(),
    {
        let ghost before = self@;
        let e: Entity = Entity(self.next_entity);
        let mut u = u;
        u.entity = e;
        self.next_entity = self.next_entity + 1;
        self.units.push(u);
        assert(self@.units =~= before.units.push(u@));
        e
    }

    /// The unit with a handle.
    pub fn get(&self, e: Entity) -> (u: Option<&Unit>)
        ensures
            match u {
                Some(u) => {
                    let k = place(self@.units, e);
                    0 <= k < self@.units.len() && u@ == self@.units[k] && u@.entity == e
                },
                None => forall|i: int|
                    0 <= i < self@.units.len() ==> (#[trigger] self@.units[i]).entity != e,
            },
    {
        let k: usize = find(&self.units, e);
        proof {
            lemma_place(self@.units, e);
        }
        if k < self.units.len() {
            Some(&self.units[k])
        } else {
            None
        }
    }

    /// Sets the health of a unit, if it is there.
    pub fn set_health(&mut self, e: Entity, health: Single)
        ensures
            ({
                let k = place(old(self)@.units, e);
                final(self)@ == (if k < old(self)@.units.len() {
                    WorldView {
                        units: old(self)@.units.update(
                            k,
                            UnitView { health, ..old(self)@.units[k] },
                        ),
                        ..old(self)@
                    }
                } else {
                    old(self)@
                })
            }),
    {
        let ghost before = self@;
        let k: usize = find(&self.units, e);
        proof {
            lemma_place(before.units, e);
        }
        if k < self.units.len() {
            self.units[k].health = Health(health);
            assert(self@.units =~= before.units.update(
                k as int,
                UnitView { health, ..before.units[k as int] },
            ));
        }
    }

    /// How many units of a team are left.
    pub fn count(&self, team: Team) -> (n: usize)
        ensures
            n == strength(self@.units, team),
    {
        let ghost all = self@.units;
        let mut n: usize = 0;
        let mut i: usize = 0;
        assert(all.take(0) =~= Seq::empty());
        while i < self.units.len()
            invariant
                i <= self.units@.len(),
                all == roster(self.units@),
                n == strength(all.take(i as int), team),
                n <= i,
            decreases self.units@.len() - i,
        {
            assert(all.take(i + 1).drop_last() =~= all.take(i as int));
            assert(all.take(i + 1).last() == self.units@[i as int]@);
            if self.units[i].team == team {
                n = n + 1;
            }
            i = i + 1;
        }
        assert(all.take(i as int) =~= all);
        n
    }
}

/// The units of a world as an observer counts them: team, place and the bits of the
/// health of each.
pub open spec fn snapshot(units: Seq<UnitView>) -> Multiset<(Team, i32, i32, u32)> {
    units.map_values(|u: UnitView| (u.team, u.hex.q, u.hex.r, u.health.bits)).to_multiset()
}

/// The same units under the same orders on the same ground take the same course,
/// tick for tick and bit for bit, whatever the last tick before left behind.
pub proof fn law_battle_is_deterministic(a: WorldView, b: WorldView, ticks: nat)
    requires
        a.units == b.units,
        a.next_entity == b.next_entity,
        a.tick == b.tick,
        a.orders == b.orders,
        a.tiles == b.tiles,
        a.field == b.field,
    ensures
        a.later(ticks).units == b.later(ticks).units,
        snapshot(a.later(ticks).units) == snapshot(b.later(ticks).units),
        ticks > 0 ==> a.later(ticks) == b.later(ticks),
    decreases ticks,
{
    if ticks > 0 {
        law_battle_is_deterministic(a, b, (ticks - 1) as nat);
        if ticks == 1 {
            assert(a.prepared() =~= b.prepared());
            assert(a.later(0) == a && b.later(0) == b);
        }
    }
}

} // verus!
