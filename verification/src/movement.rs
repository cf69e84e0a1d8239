//! Movement: who goes where in a tick.

use crate::flow::{enemy_line, own_line, spec_enemy_line, spec_own_line, FlowField, FlowView};
use crate::formations::{ahead, outruns, Formations};
use crate::hex::{abs, dist, lemma_measurable, nb, Hex, FIELD};
use crate::index::{engages, one_per_hex, SpatialIndex};
use crate::orders::{order_of, Orders};
use crate::pick::law_first_least;
use crate::reach::{navigable, searchable};
use crate::route::{cached_step, drawn, guided, passable_route, upcoming};
use crate::scan::{law_sighted_enemy_is_nearest, nearest_enemy, sighted};
use crate::single::Single;
use crate::steps::{
    flow_step, greedy_step, in_sight, kite_step, law_steps_make_progress, sidestep, Reserved,
    Surroundings,
};
use crate::terrain::{ground, Terrain, TerrainMap};
use crate::unit::{
    fielded, move_period, roster, spec_move_period, Entity, Kind, NextMove, Order, Route, Team,
    Unit, UnitView, KITE_THRESHOLD, PATH_RECOMPUTE_PERIOD, VISION,
};
use std::collections::HashSet;
use vstd::prelude::*;

verus! {

broadcast use vstd::std_specs::hash::group_hash_axioms;

/// The number of the tick.
#[derive(Clone, Copy, Debug)]
pub struct Tick(pub u64);

impl Default for Tick {
    fn default() -> (t: Tick)
        ensures
            t.0 == 0,
    {
        Tick(0)
    }
}

/// The units that changed hex this tick.
#[derive(Debug)]
pub struct MovedThisTick(pub HashSet<u64>);

impl View for MovedThisTick {
    type V = Set<Entity>;

    #[verifier::opaque]
    open spec fn view(&self) -> Set<Entity> {
        Set::new(|e: Entity| self.0@.contains(e.0))
    }
}

impl Default for MovedThisTick {
    fn default() -> (m: MovedThisTick)
        ensures
            m@ == Set::<Entity>::empty(),
    {
        let m = MovedThisTick(HashSet::new());
        assert(m@ == Set::<Entity>::empty()) by {
            reveal(<MovedThisTick as View>::view);
            assert(m@ =~= Set::<Entity>::empty());
        }
        m
    }
}

impl MovedThisTick {
    pub fn contains(&self, e: Entity) -> (b: bool)
        ensures
            b == self@.contains(e),
    {
        reveal(<MovedThisTick as View>::view);
        self.0.contains(&e.0)
    }

    pub fn insert(&mut self, e: Entity)
        ensures
            final(self)@ == old(self)@.insert(e),
    {
        let ghost before = *self;
        self.0.insert(e.0);
        proof {
            reveal(<MovedThisTick as View>::view);
            assert(self@ =~= before@.insert(e));
        }
    }

    pub fn clear(&mut self)
        ensures
            final(self)@ == Set::<Entity>::empty(),
    {
        self.0.clear();
        proof {
            reveal(<MovedThisTick as View>::view);
            assert(self@ =~= Set::<Entity>::empty());
        }
    }
}

/// What movement goes by.
pub struct Theatre<'a> {
    pub now: u64,
    pub orders: &'a Orders,
    pub idx: &'a SpatialIndex,
    pub terrain: &'a TerrainMap,
    pub field: &'a FlowField,
    pub formations: &'a Formations,
}

/// The content of a [`Theatre`].
pub struct Campaign {
    pub now: u64,
    pub orders: Map<(Team, u8), Order>,
    pub occupied: Map<Hex, (Entity, Team)>,
    pub tiles: Map<Hex, Terrain>,
    pub field: FlowView,
    pub fronts: Map<(Team, u8), Single>,
}

impl<'a> View for Theatre<'a> {
    type V = Campaign;

    open spec fn view(&self) -> Campaign {
        Campaign {
            now: self.now,
            orders: self.orders@,
            occupied: self.idx@,
            tiles: self.terrain@,
            field: self.field@,
            fronts: self.formations@,
        }
    }
}

/// What a unit does about moving.
pub enum Stance {
    /// Stay where it is.
    Stay,
    /// Fall back from an enemy in sight, or to the own line.
    FallBack(Option<Hex>),
    /// Back off from an enemy that came close.
    Kite(Hex),
    /// Close in on an enemy in sight.
    Approach(Hex),
    /// Advance on the enemy line.
    Advance,
}

impl Campaign {
    /// The enemy that a unit sees.
    pub open spec fn enemy(self, u: UnitView) -> Option<Hex> {
        sighted(self.occupied, u.hex, u.team, 1, VISION as int)
    }

    /// The group of a unit, seen from it, has fallen behind.
    pub open spec fn ahead_of_group(self, u: UnitView) -> bool {
        &&& self.fronts.contains_key((u.team, u.group))
        &&& ahead(u.hex, u.team, self.fronts[(u.team, u.group)])
    }

    /// What a unit does about moving: idle and holding units, and those still on
    /// cooldown, stay. A retreat goes before everything else. Skirmishers back off
    /// from a close enemy unless unleashed. A unit next to an enemy stays and
    /// fights. On a plain march, a unit without an enemy in sight waits for its
    /// group.
    pub open spec fn stance(self, u: UnitView) -> Stance {
        let order = order_of(self.orders, u.team, u.group);
        let enemy = self.enemy(u);
        if order == Order::Hold || order == Order::Idle {
            Stance::Stay
        } else if self.now < u.next_move {
            Stance::Stay
        } else if order == Order::Retreat {
            Stance::FallBack(enemy)
        } else if u.kind == Kind::Skirmisher && order != Order::Unleash && enemy is Some && dist(
            u.hex,
            enemy->0,
        ) <= KITE_THRESHOLD {
            Stance::Kite(enemy->0)
        } else if engages(self.occupied, u.hex, u.team) {
            Stance::Stay
        } else if enemy is None && order == Order::March && self.ahead_of_group(u) {
            Stance::Stay
        } else {
            match enemy {
                Some(e) => Stance::Approach(e),
                None => Stance::Advance,
            }
        }
    }

    pub open spec fn around(self, reserved: Set<Hex>) -> Surroundings {
        Surroundings { tiles: self.tiles, occupied: self.occupied, reserved }
    }

    /// The route of a unit after it has looked for its way.
    pub open spec fn oriented(self, u: UnitView) -> Route {
        match self.stance(u) {
            Stance::Approach(e) => guided(u.path, u.hex, e, self.tiles, self.now),
            _ => u.path,
        }
    }

    /// The hex that a unit steps onto.
    pub open spec fn next_hex(self, u: UnitView, reserved: Set<Hex>) -> Option<Hex> {
        let s = self.around(reserved);
        let from = u.hex;
        match self.stance(u) {
            Stance::Stay => None,
            Stance::FallBack(Some(e)) => s.away(from, e),
            Stance::FallBack(None) => s.greedy(from, spec_own_line(u.team)),
            Stance::Kite(e) => s.away(from, e),
            Stance::Approach(e) => match upcoming(self.oriented(u)) {
                Some(n) => if !self.occupied.contains_key(n) && !reserved.contains(n) {
                    Some(n)
                } else {
                    or_else(s.greedy(from, e), s.aside(from, e))
                },
                None => or_else(s.greedy(from, e), s.aside(from, e)),
            },
            Stance::Advance => {
                let line = spec_enemy_line(u.team);
                or_else(
                    s.downhill(self.field.toward(u.team), from),
                    or_else(s.greedy(from, line), s.aside(from, line)),
                )
            },
        }
    }

    /// The first tick that a unit may move on again after it stepped onto `n`.
    pub open spec fn rested(self, u: UnitView, n: Hex) -> u64 {
        (self.now + spec_move_period(u.kind, order_of(self.orders, u.team, u.group)) * ground(
            self.tiles,
            n,
        ).spec_move_cost()) as u64
    }

    /// A unit after its move. A unit that falls back or backs off forgets nothing
    /// of its route; one that goes its way crosses off the step that it took.
    pub open spec fn stride(self, u: UnitView, reserved: Set<Hex>) -> UnitView {
        let route = self.oriented(u);
        match self.next_hex(u, reserved) {
            None => UnitView { path: route, ..u },
            Some(n) => UnitView {
                hex: n,
                next_move: self.rested(u, n),
                path: if (self.stance(u) is Approach || self.stance(u) is Advance) && upcoming(
                    route,
                ) == Some(n) {
                    Route { steps: route.steps.drop_last(), ..route }
                } else {
                    route
                },
                ..u
            },
        }
    }

    /// The units after some of them, in order, have moved.
    pub open spec fn march(self, units: Seq<UnitView>, start: Set<Entity>) -> March
        decreases units.len(),
    {
        if units.len() == 0 {
            March { units: Seq::empty(), reserved: Set::empty(), moved: start }
        } else {
            let m = self.march(units.drop_last(), start);
            let u = units.last();
            let after = m.units.push(self.stride(u, m.reserved));
            match self.next_hex(u, m.reserved) {
                None => March { units: after, reserved: m.reserved, moved: m.moved },
                Some(n) => March {
                    units: after,
                    reserved: m.reserved.insert(n),
                    moved: m.moved.insert(u.entity),
                },
            }
        }
    }
}

/// The first of two options that is there.
pub open spec fn or_else(a: Option<Hex>, b: Option<Hex>) -> Option<Hex> {
    if a is Some {
        a
    } else {
        b
    }
}

/// Where the units are, which hexes are taken and who moved.
pub struct March {
    pub units: Seq<UnitView>,
    pub reserved: Set<Hex>,
    pub moved: Set<Entity>,
}

/// What may be said of a move whatever the way was found with: a unit that goes
/// anywhere goes one step, onto a hex that nobody stood on when the tick began and
/// nobody took since, and over passable ground if its kept route is.
pub open spec fn sound_move(c: Campaign, u: UnitView, v: UnitView, reserved: Set<Hex>) -> bool {
    &&& v.hex != u.hex ==> {
        &&& dist(u.hex, v.hex) == 1
        &&& !c.occupied.contains_key(v.hex)
        &&& !reserved.contains(v.hex)
    }
    &&& drawn(v.path)
    &&& passable_route(c.tiles, u.path) ==> {
        &&& passable_route(c.tiles, v.path)
        &&& v.hex != u.hex ==> ground(c.tiles, v.hex).spec_passable()
    }
}

impl<'a> Theatre<'a> {
    pub open spec fn wf(self) -> bool {
        &&& self.idx.wf()
        &&& self.idx.covers_field()
        &&& self.now + PATH_RECOMPUTE_PERIOD <= u64::MAX
        &&& navigable(self.terrain@)
    }

    /// What a unit does about moving.
    fn decide(&self, u: &Unit) -> (s: Stance)
        requires
            self.wf(),
            u@.hex.in_field(),
        ensures
            s == self@.stance(u@),
            (s matches Stance::FallBack(Some(e)) ==> near_field(e)),
            (s matches Stance::Kite(e) ==> near_field(e)),
            (s matches Stance::Approach(e) ==> near_field(e) && dist(u@.hex, e) <= VISION),
    {
        let order: Order = self.orders.get(u.team, u.group.0);
        if matches!(order, Order::Hold | Order::Idle) {
            return Stance::Stay;
        }
        if self.now < u.next_move.0 {
            return Stance::Stay;
        }
        let from: Hex = u.hex;
        let enemy: Option<Hex> = nearest_enemy(self.idx, from, u.team);
        proof {
            law_sighted_enemy_is_nearest(self.idx@, from, u.team, VISION as int);
            if enemy is Some {
                lemma_near_field(from, enemy->0);
                lemma_measurable(from, enemy->0);
            }
        }
        if order == Order::Retreat {
            return Stance::FallBack(enemy);
        }
        if u.kind == Kind::Skirmisher && order != Order::Unleash {
            if let Some(e) = enemy {
                if from.distance(e) <= KITE_THRESHOLD {
                    return Stance::Kite(e);
                }
            }
        }
        if self.idx.engaged(from, u.team) {
            return Stance::Stay;
        }
        if enemy.is_none() && order == Order::March {
            if let Some(front) = self.formations.front(u.team, u.group.0) {
                if outruns(from, u.team, front) {
                    return Stance::Stay;
                }
            }
        }
        match enemy {
            Some(e) => Stance::Approach(e),
            None => Stance::Advance,
        }
    }

    /// A greedy step, or else a sidestep.
    fn press(&self, from: Hex, goal: Hex, reserved: &Reserved) -> (step: Option<Hex>)
        requires
            self.wf(),
            from.in_field(),
            in_sight(goal),
        ensures
            ({
                let s = self@.around(reserved@);
                step == or_else(s.greedy(from, goal), s.aside(from, goal))
            }),
    {
        match greedy_step(from, goal, self.terrain, self.idx, reserved) {
            Some(n) => Some(n),
            None => sidestep(from, goal, self.terrain, self.idx, reserved),
        }
    }

    /// Takes a unit onto `n`.
    fn take_step(&self, u: &mut Unit, n: Hex, reserved: &mut Reserved, moved: &mut MovedThisTick)
        requires
            self.wf(),
        ensures
            final(u)@ == (UnitView { hex: n, next_move: self@.rested(old(u)@, n), ..old(u)@ }),
            final(reserved)@ == old(reserved)@.insert(n),
            final(moved)@ == old(moved)@.insert(old(u)@.entity),
    {
        let order: Order = self.orders.get(u.team, u.group.0);
        reserved.insert(n);
        u.hex = n;
        moved.insert(u.entity);
        let period: u64 = move_period(u.kind, order);
        let cost: u64 = self.terrain.get(n).move_cost();
        assert(1 <= period * cost <= 4) by (nonlinear_arith)
            requires
                1 <= period <= 2,
                1 <= cost <= 2,
        ;
        u.next_move = NextMove(self.now + period * cost);
    }

    /// Moves one unit.
    fn move_unit(&self, u: &mut Unit, reserved: &mut Reserved, moved: &mut MovedThisTick)
        requires
            self.wf(),
            old(u)@.hex.in_field(),
            drawn(old(u)@.path),
        ensures
            final(u)@ == self@.stride(old(u)@, old(reserved)@),
            sound_move(self@, old(u)@, final(u)@, old(reserved)@),
            match self@.next_hex(old(u)@, old(reserved)@) {
                None => final(reserved)@ == old(reserved)@ && final(moved)@ == old(moved)@,
                Some(n) => {
                    &&& final(reserved)@ == old(reserved)@.insert(n)
                    &&& final(moved)@ == old(moved)@.insert(old(u)@.entity)
                    &&& n != old(u)@.hex
                },
            },
    {
        let from: Hex = u.hex;
        let team: Team = u.team;
        let ghost s = self@.around(reserved@);
        let ghost before = u@;
        let stance: Stance = self.decide(u);
        proof {
            law_steps_make_progress(s, self@.field.toward(team), from, from);
        }
        match stance {
            Stance::Stay => {},
            Stance::FallBack(enemy) => {
                let step: Option<Hex> = match enemy {
                    Some(e) => {
                        proof {
                            law_steps_make_progress(s, None, from, e);
                        }
                        kite_step(from, e, self.terrain, self.idx, reserved)
                    },
                    None => {
                        proof {
                            law_steps_make_progress(s, None, from, spec_own_line(team));
                        }
                        greedy_step(from, own_line(team), self.terrain, self.idx, reserved)
                    },
                };
                if let Some(n) = step {
                    self.take_step(u, n, reserved, moved);
                }
            },
            Stance::Kite(e) => {
                proof {
                    law_steps_make_progress(s, None, from, e);
                }
                if let Some(n) = kite_step(from, e, self.terrain, self.idx, reserved) {
                    self.take_step(u, n, reserved, moved);
                }
            },
            Stance::Approach(e) => {
                proof {
                    law_steps_make_progress(s, None, from, e);
                }
                assert(searchable(self.terrain@, from, e));
                let planned: Option<Hex> = cached_step(
                    from,
                    e,
                    self.terrain,
                    self.now,
                    &mut u.path,
                );
                let step: Option<Hex> = match planned {
                    Some(n) => {
                        if !self.idx.occupied(n) && !reserved.contains(n) {
                            Some(n)
                        } else {
                            self.press(from, e, reserved)
                        }
                    },
                    None => self.press(from, e, reserved),
                };
                if let Some(n) = step {
                    self.take_step(u, n, reserved, moved);
                    cross_off(u, n);
                }
            },
            Stance::Advance => {
                let line: Hex = enemy_line(team);
                proof {
                    law_steps_make_progress(s, None, from, line);
                }
                let step: Option<Hex> = match flow_step(
                    self.field,
                    team,
                    from,
                    self.terrain,
                    self.idx,
                    reserved,
                ) {
                    Some(n) => Some(n),
                    None => self.press(from, line, reserved),
                };
                if let Some(n) = step {
                    self.take_step(u, n, reserved, moved);
                    cross_off(u, n);
                }
            },
        }
    }
}

/// Crosses off the next step of a unit's route if it is `n`.
fn cross_off(u: &mut Unit, n: Hex)
    ensures
        final(u)@ == (UnitView {
            path: if upcoming(old(u)@.path) == Some(n) {
                Route { steps: old(u)@.path.steps.drop_last(), ..old(u)@.path }
            } else {
                old(u)@.path
            },
            ..old(u)@
        }),
{
    if u.path.steps.len() > 0 && u.path.steps[u.path.steps.len() - 1] == n {
        let _ = u.path.steps.pop();
    }
}

/// On the field, or within sight of it.
pub open spec fn near_field(h: Hex) -> bool {
    &&& -FIELD - 64 <= h.q <= FIELD + 64
    &&& -FIELD - 64 <= h.r <= FIELD + 64
}

proof fn lemma_near_field(from: Hex, h: Hex)
    requires
        from.in_field(),
        dist(from, h) <= VISION,
    ensures
        near_field(h),
{
    assert(abs(from.q - h.q) <= 8 && abs(from.r - h.r) <= 8);
}

/// What holds of the moves of a tick taken together: each is sound, and no two
/// units go to the same hex.
pub open spec fn orderly(c: Campaign, before: Seq<UnitView>, after: Seq<UnitView>) -> bool {
    &&& after.len() == before.len()
    &&& forall|i: int|
        0 <= i < before.len() ==> sound_move(c, before[i], #[trigger] after[i], Set::empty())
    &&& forall|i: int, j: int|
        0 <= i < j < before.len() && (#[trigger] after[i]).hex != before[i].hex && (
        #[trigger] after[j]).hex != before[j].hex ==> after[i].hex != after[j].hex
}

/// The routes of all units can be measured from the field.
pub open spec fn routed(units: Seq<UnitView>) -> bool {
    forall|i: int| 0 <= i < units.len() ==> drawn((#[trigger] units[i]).path)
}

/// Moves every unit that has somewhere to go, in order. A unit goes by who stood
/// where when the tick began, and keeps off the hexes that earlier ones took.
pub fn movement(
    tick: &Tick,
    orders: &Orders,
    idx: &SpatialIndex,
    terrain: &TerrainMap,
    moved: &mut MovedThisTick,
    field: &FlowField,
    formations: &Formations,
    units: &mut Vec<Unit>,
)
    requires
        idx.wf(),
        idx.covers_field(),
        tick.0 + PATH_RECOMPUTE_PERIOD <= u64::MAX,
        fielded(roster(old(units)@)),
        routed(roster(old(units)@)),
        navigable(terrain@),
    ensures
        ({
            let c = Campaign {
                now: tick.0,
                orders: orders@,
                occupied: idx@,
                tiles: terrain@,
                field: field@,
                fronts: formations@,
            };
            let m = c.march(roster(old(units)@), old(moved)@);
            &&& roster(final(units)@) == m.units
            &&& final(moved)@ == m.moved
            &&& orderly(c, roster(old(units)@), roster(final(units)@))
        }),
{
    let theatre = Theatre { now: tick.0, orders, idx, terrain, field, formations };
    let ghost c = theatre@;
    let ghost all = roster(units@);
    let ghost start = moved@;
    let mut reserved: Reserved = Reserved::new();
    let mut i: usize = 0;
    assert(all.take(0) =~= Seq::empty());
    while i < units.len()
        invariant
            theatre.wf(),
            c == theatre@,
            i <= units@.len(),
            units@.len() == all.len(),
            fielded(all),
            routed(all),
            forall|j: int| i <= j < all.len() ==> #[trigger] roster(units@)[j] == all[j],
            c.march(all.take(i as int), start).units == roster(units@).take(i as int),
            c.march(all.take(i as int), start).reserved == reserved@,
            c.march(all.take(i as int), start).moved == moved@,
            forall|j: int|
                0 <= j < i ==> sound_move(c, all[j], #[trigger] roster(units@)[j], Set::empty()),
            forall|j: int|
                0 <= j < i && (#[trigger] roster(units@)[j]).hex != all[j].hex
                    ==> reserved@.contains(roster(units@)[j].hex),
            forall|j: int, k: int|
                0 <= j < k < i && (#[trigger] roster(units@)[j]).hex != all[j].hex && (
                #[trigger] roster(units@)[k]).hex != all[k].hex ==> roster(units@)[j].hex
                    != roster(units@)[k].hex,
        decreases units@.len() - i,
    {
        let ghost row = roster(units@);
        let ghost taken = reserved@;
        assert(all.take(i + 1).drop_last() =~= all.take(i as int));
        assert(all.take(i + 1).last() == all[i as int]);
        assert(row[i as int] == all[i as int]);
        assert(all[i as int].hex.in_field());
        assert(drawn(all[i as int].path));
        theatre.move_unit(&mut units[i], &mut reserved, moved);
        proof {
            let now = roster(units@);
            assert forall|j: int| 0 <= j < all.len() && j != i implies #[trigger] now[j] == row[j] by {}
            assert(now[i as int] == c.stride(all[i as int], taken));
            assert(now.take(i + 1) =~= row.take(i as int).push(now[i as int]));
        }
        i = i + 1;
    }
    assert(all.take(i as int) =~= all);
    assert(roster(units@).take(i as int) =~= roster(units@));
}

/// Units that stood apart still do after they have moved, and each is where it was or
/// went one step, onto passable ground that nobody stood on; whatever the way was
/// found with.
pub proof fn law_moves_keep_units_apart(c: Campaign, before: Seq<UnitView>, after: Seq<UnitView>)
    requires
        orderly(c, before, after),
        one_per_hex(before),
        forall|i: int|
            0 <= i < before.len() ==> c.occupied.contains_key((#[trigger] before[i]).hex),
        forall|i: int|
            0 <= i < before.len() ==> passable_route(c.tiles, (#[trigger] before[i]).path),
    ensures
        one_per_hex(after),
        forall|i: int|
            0 <= i < before.len() ==> (#[trigger] after[i]).hex == before[i].hex || {
                &&& dist(before[i].hex, after[i].hex) == 1
                &&& ground(c.tiles, after[i].hex).spec_passable()
                &&& !c.occupied.contains_key(after[i].hex)
            },
{
    assert forall|i: int| 0 <= i < before.len() implies (#[trigger] after[i]).hex == before[i].hex
        || {
        &&& dist(before[i].hex, after[i].hex) == 1
        &&& ground(c.tiles, after[i].hex).spec_passable()
        &&& !c.occupied.contains_key(after[i].hex)
    } by {
        assert(sound_move(c, before[i], after[i], Set::empty()));
        assert(passable_route(c.tiles, before[i].path));
    }
    assert forall|i: int, j: int| 0 <= i < j < after.len() implies #[trigger] after[i].hex
        != #[trigger] after[j].hex by {
        assert(before[i].hex != before[j].hex);
        assert(c.occupied.contains_key(before[i].hex) && c.occupied.contains_key(before[j].hex));
    }
}

/// Who a unit is does not change as it moves, its health neither, and its rest only
/// ever ends later. A unit that stays is left as it is.
pub proof fn law_march_keeps_units(c: Campaign, units: Seq<UnitView>, start: Set<Entity>)
    requires
        c.now + PATH_RECOMPUTE_PERIOD <= u64::MAX,
    ensures
        c.march(units, start).units.len() == units.len(),
        forall|i: int|
            0 <= i < units.len() ==> {
                let u = units[i];
                let v = #[trigger] c.march(units, start).units[i];
                &&& v.entity == u.entity
                &&& v.team == u.team
                &&& v.kind == u.kind
                &&& v.group == u.group
                &&& v.health == u.health
                &&& v.anim == u.anim
                &&& v.stamina == u.stamina
                &&& v.next_move >= u.next_move
                &&& v.next_move > u.next_move ==> v.next_move > c.now
                &&& c.stance(u) is Stay ==> v == u
            },
    decreases units.len(),
{
    if units.len() > 0 {
        let before = units.drop_last();
        law_march_keeps_units(c, before, start);
        let m = c.march(before, start);
        let u = units.last();
        if let Some(n) = c.next_hex(u, m.reserved) {
            let period = spec_move_period(u.kind, order_of(c.orders, u.team, u.group));
            let cost = ground(c.tiles, n).spec_move_cost();
            assert(1 <= period * cost <= 4) by (nonlinear_arith)
                requires
                    1 <= period <= 2,
                    1 <= cost <= 2,
            ;
        }
        assert forall|i: int| 0 <= i < units.len() implies ({
            let w = units[i];
            let v = #[trigger] c.march(units, start).units[i];
            &&& v.entity == w.entity
            &&& v.team == w.team
            &&& v.kind == w.kind
            &&& v.group == w.group
            &&& v.health == w.health
            &&& v.anim == w.anim
            &&& v.stamina == w.stamina
            &&& v.next_move >= w.next_move
            &&& v.next_move > w.next_move ==> v.next_move > c.now
            &&& c.stance(w) is Stay ==> v == w
        }) by {
            if i < before.len() {
                assert(c.march(units, start).units[i] == m.units[i]);
                assert(before[i] == units[i]);
            }
        }
    }
}

/// Held and idle units stay, and so do units on cooldown. A unit next to an enemy
/// stays, unless it retreats or is a skirmisher that backs off.
pub proof fn law_who_stays(c: Campaign, u: UnitView)
    ensures
        ({
            let order = order_of(c.orders, u.team, u.group);
            &&& (order == Order::Hold || order == Order::Idle) ==> c.stance(u) is Stay
            &&& c.now < u.next_move ==> c.stance(u) is Stay
            &&& engages(c.occupied, u.hex, u.team) && order != Order::Retreat && (u.kind
                != Kind::Skirmisher || order == Order::Unleash) ==> c.stance(u) is Stay
        }),
{
}

/// Contact overrides ranks: a unit that sees an enemy never waits for its group,
/// and neither does one that charges or is unleashed.
pub proof fn law_contact_overrides_cohesion(c: Campaign, fronts: Map<(Team, u8), Single>, u: UnitView)
    requires
        c.enemy(u) is Some || order_of(c.orders, u.team, u.group) != Order::March,
    ensures
        c.stance(u) == (Campaign { fronts, ..c }).stance(u),
{
}

/// Where moves lead. A retreat gets away from the enemy in sight, and without one
/// it comes closer to the own line. A skirmisher that backs off gets away from the
/// enemy. An advance goes down the field, or comes no further
/// from the enemy line.
pub proof fn law_moves_follow_orders(c: Campaign, u: UnitView, reserved: Set<Hex>)
    requires
        u.hex.in_field(),
    ensures
        c.next_hex(u, reserved) matches Some(n) ==> match c.stance(u) {
            Stance::Stay => false,
            Stance::FallBack(Some(e)) => dist(n, e) > dist(u.hex, e),
            Stance::FallBack(None) => dist(n, spec_own_line(u.team)) < dist(
                u.hex,
                spec_own_line(u.team),
            ),
            Stance::Kite(e) => dist(n, e) > dist(u.hex, e),
            Stance::Approach(e) => upcoming(c.oriented(u)) == Some(n) || dist(n, e) <= dist(
                u.hex,
                e,
            ),
            Stance::Advance => {
                let field = c.field.toward(u.team);
                let line = spec_enemy_line(u.team);
                ||| field is Some && field->0.contains_key(n) && (field->0.contains_key(u.hex)
                    ==> field->0[n] < field->0[u.hex])
                ||| dist(n, line) <= dist(u.hex, line)
            },
        },
{
    let s = c.around(reserved);
    let field = c.field.toward(u.team);
    law_steps_make_progress(s, field, u.hex, spec_own_line(u.team));
    law_steps_make_progress(s, field, u.hex, spec_enemy_line(u.team));
    if let Some(e) = c.enemy(u) {
        law_steps_make_progress(s, field, u.hex, e);
    }
    if let Some(cost) = field {
        law_first_least(
            6,
            |i: int|
                s.vacant(nb(u.hex, i)) && cost.contains_key(nb(u.hex, i)) && cost[nb(u.hex, i)]
                    < u32::MAX,
            |i: int| cost[nb(u.hex, i)] as int,
        );
    }
}

} // verus!
