//! Units: who they are, what they can do, and what they remember.

use crate::hex::Hex;
use crate::single::Single;
use vstd::prelude::*;

verus! {

/// The handle of a unit.
#[derive(Clone, Copy, PartialEq, Eq, Structural, Hash, Debug)]
pub struct Entity(pub u64);

#[derive(Clone, Copy, PartialEq, Eq, Structural, Hash, Debug)]
pub enum Team {
    Red,
    Blue,
}

#[derive(Clone, Copy, PartialEq, Eq, Structural, Debug)]
pub enum Kind {
    Infantry,
    Cavalry,
    Skirmisher,
}

#[derive(Clone, Copy, Debug)]
pub struct Health(pub Single);

/// Group this unit belongs to, the unit of command for orders.
#[derive(Clone, Copy, Debug)]
pub struct Group(pub u8);

/// Absolute tick this unit may next move on. Never reset on battle start.
#[derive(Clone, Copy, Debug)]
pub struct NextMove(pub u64);

/// What is left of a unit's breath. Sustained aggression drains it, rest restores
/// it.
#[derive(Clone, Copy, Debug)]
pub struct Stamina(pub u32);

/// What a unit is seen doing, recomputed every tick from what it did. `Die` is
/// for the clip of a death; a live unit is never in it.
#[derive(Clone, Copy, PartialEq, Eq, Structural, Debug)]
pub enum AnimState {
    Idle,
    Move,
    Attack,
    Hit,
    Die,
}

#[derive(Clone, Copy, PartialEq, Eq, Structural, Debug)]
pub enum Order {
    /// Stand still, do nothing offensive beyond defending.
    Idle,
    /// Advance toward the enemy at normal pace.
    March,
    /// Advance fast and hit harder in melee on contact.
    Charge,
    /// Hold position; take reduced damage.
    Hold,
    /// Fall back, away from the nearest enemy and toward friendly lines.
    Retreat,
    /// All-out commitment: charge pace, the biggest damage bonus, and even
    /// skirmishers close into melee.
    Unleash,
}

impl Order {
    pub open spec fn spec_is_advancing(self) -> bool {
        self == Order::March || self == Order::Charge || self == Order::Unleash
    }

    /// Orders whose units push toward the enemy.
    pub fn is_advancing(self) -> (r: bool)
        ensures
            r == self.spec_is_advancing(),
    {
        matches!(self, Order::March | Order::Charge | Order::Unleash)
    }
}

/// The pattern of [`hold_reduction`].
pub const HOLD_REDUCTION: u32 = 0x3f00_0000;

/// The share of incoming damage that a Hold order takes off: one half.
pub fn hold_reduction() -> (r: Single)
    ensures
        r == Single::fraction(1, 2),
        r.bits == HOLD_REDUCTION,
{
    proof {
        vstd::arithmetic::power2::lemma2_to64();
        crate::single::lemma_fraction(1, 2, 0x80_0000, 125, 0);
    }
    Single { bits: HOLD_REDUCTION }
}

/// The stamina of a rested unit.
pub const MAX_STAMINA: u32 = 100;

/// How far a unit sees.
pub const VISION: i32 = 8;

/// A skirmisher within this many hexes of an enemy backs off instead of meleeing.
pub const KITE_THRESHOLD: i32 = 2;

/// Ticks that a planned route stays in use before it is planned anew.
pub const PATH_RECOMPUTE_PERIOD: u64 = 5;

/// A goal that drifts further than this from the planned one forces a new plan.
pub const PATH_GOAL_DRIFT: i32 = 2;

/// A unit's planned route toward its goal. `steps` holds the hexes to come in
/// reverse, the next one last.
#[derive(Debug)]
pub struct PathCache {
    pub steps: Vec<Hex>,
    pub goal: Hex,
    pub stale_at: u64,
}

/// The content of a [`PathCache`].
pub struct Route {
    pub steps: Seq<Hex>,
    pub goal: Hex,
    pub stale_at: u64,
}

impl View for PathCache {
    type V = Route;

    open spec fn view(&self) -> Route {
        Route { steps: self.steps@, goal: self.goal, stale_at: self.stale_at }
    }
}

impl Default for Health {
    fn default() -> (h: Health)
        ensures
            h.0.bits == 0,
    {
        Health(Single { bits: 0 })
    }
}

impl Default for NextMove {
    fn default() -> (n: NextMove)
        ensures
            n.0 == 0,
    {
        NextMove(0)
    }
}

impl Default for Stamina {
    fn default() -> (s: Stamina)
        ensures
            s.0 == MAX_STAMINA,
    {
        Stamina(MAX_STAMINA)
    }
}

impl Default for AnimState {
    fn default() -> (a: AnimState)
        ensures
            a == AnimState::Idle,
    {
        AnimState::Idle
    }
}

impl Default for PathCache {
    fn default() -> (c: PathCache)
        ensures
            c@.steps == Seq::<Hex>::empty(),
            c@.goal == (Hex { q: 0, r: 0 }),
            c@.stale_at == 0,
    {
        PathCache { steps: Vec::new(), goal: Hex::new(0, 0), stale_at: 0 }
    }
}

/// One unit of the battle.
#[derive(Debug)]
pub struct Unit {
    pub entity: Entity,
    pub hex: Hex,
    pub health: Health,
    pub team: Team,
    pub kind: Kind,
    pub group: Group,
    pub next_move: NextMove,
    pub stamina: Stamina,
    pub anim: AnimState,
    pub path: PathCache,
}

/// The content of a [`Unit`].
pub struct UnitView {
    pub entity: Entity,
    pub hex: Hex,
    pub health: Single,
    pub team: Team,
    pub kind: Kind,
    pub group: u8,
    pub next_move: u64,
    pub stamina: u32,
    pub anim: AnimState,
    pub path: Route,
}

impl View for Unit {
    type V = UnitView;

    open spec fn view(&self) -> UnitView {
        UnitView {
            entity: self.entity,
            hex: self.hex,
            health: self.health.0,
            team: self.team,
            kind: self.kind,
            group: self.group.0,
            next_move: self.next_move.0,
            stamina: self.stamina.0,
            anim: self.anim,
            path: self.path@,
        }
    }
}

/// The contents of a row of units.
pub open spec fn roster(units: Seq<Unit>) -> Seq<UnitView> {
    Seq::new(units.len(), |i: int| units[i]@)
}

/// No two units share a handle.
pub open spec fn distinct(units: Seq<UnitView>) -> bool {
    forall|i: int, j: int|
        0 <= i < j < units.len() ==> #[trigger] units[i].entity != #[trigger] units[j].entity
}

/// Every unit stands on the field.
pub open spec fn fielded(units: Seq<UnitView>) -> bool {
    forall|i: int| 0 <= i < units.len() ==> #[trigger] units[i].hex.in_field()
}

pub open spec fn spec_attack_range(kind: Kind) -> i32 {
    if kind == Kind::Skirmisher {
        3
    } else {
        1
    }
}

/// Hexes a unit can strike: melee is 1, skirmishers shoot at range.
pub fn attack_range(kind: Kind) -> (r: i32)
    ensures
        r == spec_attack_range(kind),
{
    match kind {
        Kind::Skirmisher => 3,
        _ => 1,
    }
}

/// Base damage per strike, in points.
pub open spec fn damage_points(kind: Kind) -> int {
    match kind {
        Kind::Infantry => 14,
        Kind::Cavalry => 11,
        Kind::Skirmisher => 8,
    }
}

/// Base damage dealt per tick to a target in range.
pub fn attack_damage(kind: Kind) -> (r: Single)
    ensures
        r == Single::spec_of_int(damage_points(kind)),
{
    match kind {
        Kind::Infantry => Single::of_int(14),
        Kind::Cavalry => Single::of_int(11),
        Kind::Skirmisher => Single::of_int(8),
    }
}

/// Extra damage while committing to the attack, in points.
pub open spec fn bonus_points(kind: Kind, order: Order) -> int {
    match order {
        Order::Charge => match kind {
            Kind::Cavalry => 16,
            Kind::Infantry => 8,
            Kind::Skirmisher => 0,
        },
        Order::Unleash => match kind {
            Kind::Cavalry => 20,
            Kind::Infantry => 12,
            Kind::Skirmisher => 4,
        },
        _ => 0,
    }
}

/// Extra damage while committing to the attack. A charge favours cavalry and
/// gives skirmishers nothing; unleashing commits everyone and hits harder still.
pub fn charge_bonus(kind: Kind, order: Order) -> (r: Single)
    ensures
        r == Single::spec_of_int(bonus_points(kind, order)),
{
    match order {
        Order::Charge => match kind {
            Kind::Cavalry => Single::of_int(16),
            Kind::Infantry => Single::of_int(8),
            Kind::Skirmisher => Single::of_int(0),
        },
        Order::Unleash => match kind {
            Kind::Cavalry => Single::of_int(20),
            Kind::Infantry => Single::of_int(12),
            Kind::Skirmisher => Single::of_int(4),
        },
        _ => Single::of_int(0),
    }
}

/// Full health, in points.
pub open spec fn hp_points(kind: Kind) -> int {
    match kind {
        Kind::Infantry => 100,
        Kind::Cavalry => 80,
        Kind::Skirmisher => 60,
    }
}

/// Full health of a kind.
pub fn max_hp(kind: Kind) -> (r: Single)
    ensures
        r == Single::spec_of_int(hp_points(kind)),
{
    match kind {
        Kind::Infantry => Single::of_int(100),
        Kind::Cavalry => Single::of_int(80),
        Kind::Skirmisher => Single::of_int(60),
    }
}

pub open spec fn spec_move_period(kind: Kind, order: Order) -> u64 {
    if kind == Kind::Infantry && order != Order::Charge && order != Order::Unleash {
        2
    } else {
        1
    }
}

/// Ticks between moves. Cavalry and skirmishers are quicker; charging halves it,
/// though never below one.
pub fn move_period(kind: Kind, order: Order) -> (r: u64)
    ensures
        r == spec_move_period(kind, order),
{
    let base: u64 = match kind {
        Kind::Infantry => 2,
        Kind::Cavalry => 1,
        Kind::Skirmisher => 1,
    };
    if matches!(order, Order::Charge | Order::Unleash) {
        if base / 2 < 1 {
            1
        } else {
            base / 2
        }
    } else {
        base
    }
}

/// A fresh unit. It gets its handle when it joins a world.
pub fn unit(team: Team, kind: Kind, hex: Hex, group: u8) -> (u: Unit)
    ensures
        u@ == fresh(team, kind, hex, group, u.entity),
{
    Unit {
        entity: Entity(u64::MAX),
        hex,
        health: Health(max_hp(kind)),
        team,
        kind,
        group: Group(group),
        next_move: NextMove::default(),
        stamina: Stamina::default(),
        anim: AnimState::default(),
        path: PathCache::default(),
    }
}

/// A unit at full health and rested, that may move at once and has no plans.
pub open spec fn fresh(team: Team, kind: Kind, hex: Hex, group: u8, entity: Entity) -> UnitView {
    UnitView {
        entity,
        hex,
        health: Single::spec_of_int(hp_points(kind)),
        team,
        kind,
        group,
        next_move: 0,
        stamina: MAX_STAMINA,
        anim: AnimState::Idle,
        path: Route { steps: Seq::empty(), goal: Hex { q: 0, r: 0 }, stale_at: 0 },
    }
}

/// An all-out attack hits harder than a charge, whoever makes it, and keeps the
/// pace of a charge, which infantry gains over a march.
pub proof fn law_unleash_outdoes_charge(kind: Kind)
    ensures
        bonus_points(kind, Order::Unleash) > bonus_points(kind, Order::Charge),
        spec_move_period(kind, Order::Unleash) == spec_move_period(kind, Order::Charge),
        spec_move_period(kind, Order::Unleash) <= spec_move_period(kind, Order::March),
        spec_move_period(Kind::Infantry, Order::Unleash) < spec_move_period(
            Kind::Infantry,
            Order::March,
        ),
{
}

} // verus!
