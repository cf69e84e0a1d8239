//! What units are seen doing, and the clips that show it.

use crate::combat::{AttackEvent, BattleEvents, DamageBuffer};
use crate::movement::MovedThisTick;
use crate::single::Single;
use crate::unit::{roster, AnimState, Entity, Kind, Unit, UnitView};
use std::collections::HashSet;
use vstd::prelude::*;

verus! {

broadcast use vstd::std_specs::hash::group_hash_axioms;

/// One animation clip: a contiguous run of frames in a sprite sheet.
#[derive(Clone, Copy, Debug, PartialEq, Eq, Structural)]
pub struct AnimClip {
    /// Index of the first frame in the sheet.
    pub first: u32,
    /// Number of frames in the clip.
    pub len: u32,
    /// Playback rate, frames per second.
    pub fps: Single,
    /// Whether the clip is played over and over, or once.
    pub looping: bool,
}

/// Sprite sheet of one unit kind.
#[derive(Clone, Copy, Debug, PartialEq)]
pub struct SpriteSheet {
    /// Asset path relative to the asset root.
    pub path: &'static str,
    /// Pixel size of a single frame; frames are uniform.
    pub tile: (u32, u32),
    /// Frames per row of the sheet.
    pub columns: u32,
}

/// A unit kind's full visual: its sheet and a clip for every [`AnimState`].
#[derive(Clone, Copy, Debug, PartialEq)]
pub struct UnitVisual {
    pub sheet: SpriteSheet,
    pub idle: AnimClip,
    pub moving: AnimClip,
    pub attack: AnimClip,
    pub hit: AnimClip,
    pub die: AnimClip,
}

impl UnitVisual {
    pub open spec fn spec_clip(self, state: AnimState) -> AnimClip {
        match state {
            AnimState::Idle => self.idle,
            AnimState::Move => self.moving,
            AnimState::Attack => self.attack,
            AnimState::Hit => self.hit,
            AnimState::Die => self.die,
        }
    }

    /// The clip for a state.
    pub fn clip(&self, state: AnimState) -> (c: AnimClip)
        ensures
            c == self.spec_clip(state),
    {
        match state {
            AnimState::Idle => self.idle,
            AnimState::Move => self.moving,
            AnimState::Attack => self.attack,
            AnimState::Hit => self.hit,
            AnimState::Die => self.die,
        }
    }
}

/// The visuals of the kinds.
#[derive(Clone, Debug)]
pub struct AnimCatalog {
    pub infantry: UnitVisual,
    pub cavalry: UnitVisual,
    pub skirmisher: UnitVisual,
}

impl AnimCatalog {
    pub fn get(&self, kind: Kind) -> (v: &UnitVisual)
        ensures
            *v == (match kind {
                Kind::Infantry => self.infantry,
                Kind::Cavalry => self.cavalry,
                Kind::Skirmisher => self.skirmisher,
            }),
    {
        match kind {
            Kind::Infantry => &self.infantry,
            Kind::Cavalry => &self.cavalry,
            Kind::Skirmisher => &self.skirmisher,
        }
    }
}

/// A clip of `len` frames from `first` on.
pub open spec fn clip_of(first: u32, len: u32, fps: int, looping: bool) -> AnimClip {
    AnimClip { first, len, fps: Single::spec_of_int(fps), looping }
}

/// The five states in rows of a sheet of eight columns: idle and move are held,
/// the others are played once.
pub open spec fn laid_out(v: UnitVisual, path: Seq<char>) -> bool {
    &&& v.sheet.path@ == path
    &&& v.sheet.tile == (32u32, 32u32)
    &&& v.sheet.columns == 8
    &&& v.idle == clip_of(0, 8, 6, true)
    &&& v.moving == clip_of(8, 8, 10, true)
    &&& v.attack == clip_of(16, 8, 12, false)
    &&& v.hit == clip_of(24, 4, 12, false)
    &&& v.die == clip_of(32, 6, 8, false)
}

fn clip_at(first: u32, len: u32, fps: i64, looping: bool) -> (c: AnimClip)
    ensures
        c == clip_of(first, len, fps as int, looping),
{
    AnimClip { first, len, fps: Single::of_int(fps), looping }
}

fn visual(path: &'static str) -> (v: UnitVisual)
    ensures
        laid_out(v, path@),
{
    UnitVisual {
        sheet: SpriteSheet { path, tile: (32, 32), columns: 8 },
        idle: clip_at(0, 8, 6, true),
        moving: clip_at(8, 8, 10, true),
        attack: clip_at(16, 8, 12, false),
        hit: clip_at(24, 4, 12, false),
        die: clip_at(32, 6, 8, false),
    }
}

impl Default for AnimCatalog {
    /// A stand-in layout, the same for every kind but for the sheet.
    fn default() -> (c: AnimCatalog)
        ensures
            laid_out(c.infantry, "units/infantry.png"@),
            laid_out(c.cavalry, "units/cavalry.png"@),
            laid_out(c.skirmisher, "units/skirmisher.png"@),
    {
        AnimCatalog {
            infantry: visual("units/infantry.png"),
            cavalry: visual("units/cavalry.png"),
            skirmisher: visual("units/skirmisher.png"),
        }
    }
}

/// A unit made one of the attacks.
pub open spec fn attacked(attacks: Seq<AttackEvent>, e: Entity) -> bool {
    exists|k: int| 0 <= k < attacks.len() && (#[trigger] attacks[k]).attacker == e
}

/// What a unit is seen doing: attacking goes before being hit, and that before
/// moving.
pub open spec fn shown(
    e: Entity,
    attacks: Seq<AttackEvent>,
    damage: Map<Entity, Single>,
    moved: Set<Entity>,
) -> AnimState {
    if attacked(attacks, e) {
        AnimState::Attack
    } else if damage.contains_key(e) && (Single { bits: 0 }).spec_below(damage[e]) {
        AnimState::Hit
    } else if moved.contains(e) {
        AnimState::Move
    } else {
        AnimState::Idle
    }
}

/// The units with what they are seen doing.
pub open spec fn animated(
    units: Seq<UnitView>,
    attacks: Seq<AttackEvent>,
    damage: Map<Entity, Single>,
    moved: Set<Entity>,
) -> Seq<UnitView> {
    Seq::new(
        units.len(),
        |i: int|
            UnitView { anim: shown(units[i].entity, attacks, damage, moved), ..units[i] },
    )
}

/// Labels every unit with what it did this tick.
pub fn animate(
    events: &BattleEvents,
    moved: &MovedThisTick,
    dmg: &DamageBuffer,
    units: &mut Vec<Unit>,
)
    ensures
        roster(final(units)@) == animated(roster(old(units)@), events@.attacks, dmg@, moved@),
{
    let ghost all = roster(units@);
    let ghost attacks = events@.attacks;
    let ghost after = animated(all, attacks, dmg@, moved@);
    let mut attackers: HashSet<u64> = HashSet::new();
    let mut k: usize = 0;
    while k < events.attacks.len()
        invariant
            k <= events.attacks@.len(),
            attacks == events.attacks@,
            forall|n: u64| #[trigger]
                attackers@.contains(n) <==> attacked(attacks.take(k as int), Entity(n)),
        decreases events.attacks@.len() - k,
    {
        let ghost before = attackers@;
        let e: Entity = events.attacks[k].attacker;
        attackers.insert(e.0);
        proof {
            let now = attacks.take(k as int);
            let next = attacks.take(k + 1);
            assert forall|n: u64| #[trigger] attackers@.contains(n) <==> attacked(next, Entity(n)) by {
                if attacked(now, Entity(n)) {
                    let j = choose|j: int| 0 <= j < now.len() && (#[trigger] now[j]).attacker
                        == Entity(n);
                    assert(next[j].attacker == Entity(n));
                }
                if n == e.0 {
                    assert(next[k as int].attacker == Entity(n));
                }
                if attacked(next, Entity(n)) && n != e.0 {
                    let j = choose|j: int| 0 <= j < next.len() && (#[trigger] next[j]).attacker
                        == Entity(n);
                    assert(now[j].attacker == Entity(n));
                }
                assert(before.contains(n) <==> attacked(now, Entity(n)));
            }
        }
        k = k + 1;
    }
    assert(attacks.take(k as int) =~= attacks);
    let mut i: usize = 0;
    while i < units.len()
        invariant
            i <= units@.len(),
            units@.len() == all.len(),
            attacks == events@.attacks,
            after == animated(all, attacks, dmg@, moved@),
            forall|n: u64| #[trigger]
                attackers@.contains(n) <==> attacked(attacks, Entity(n)),
            forall|j: int| 0 <= j < i ==> #[trigger] roster(units@)[j] == after[j],
            forall|j: int| i <= j < all.len() ==> #[trigger] roster(units@)[j] == all[j],
        decreases units@.len() - i,
    {
        let ghost row = roster(units@);
        assert(row[i as int] == all[i as int]);
        let e: Entity = units[i].entity;
        assert(e == Entity(e.0));
        let hit: bool = match dmg.get(e) {
            Some(d) => (Single { bits: 0 }).below(d),
            None => false,
        };
        let next: AnimState = if attackers.contains(&e.0) {
            AnimState::Attack
        } else if hit {
            AnimState::Hit
        } else if moved.contains(e) {
            AnimState::Move
        } else {
            AnimState::Idle
        };
        if units[i].anim != next {
            units[i].anim = next;
        }
        assert(roster(units@)[i as int] == after[i as int]);
        assert forall|j: int| 0 <= j < all.len() && j != i implies #[trigger] roster(units@)[j]
            == row[j] by {}
        i = i + 1;
    }
    assert(roster(units@) =~= after);
}

/// A unit is never seen dying, and it is seen idle exactly when it neither struck,
/// nor was hurt, nor moved.
pub proof fn law_live_units_never_show_death(
    e: Entity,
    attacks: Seq<AttackEvent>,
    damage: Map<Entity, Single>,
    moved: Set<Entity>,
)
    ensures
        shown(e, attacks, damage, moved) != AnimState::Die,
        shown(e, attacks, damage, moved) == AnimState::Idle <==> {
            &&& !attacked(attacks, e)
            &&& !(damage.contains_key(e) && (Single { bits: 0 }).spec_below(damage[e]))
            &&& !moved.contains(e)
        },
        shown(e, attacks, damage, moved) == AnimState::Attack <==> attacked(attacks, e),
{
}

/// In the stand-in layout each state has a clip of its own, on a row of its own of eight
/// frames; what is held loops, and what is done once does not.
pub proof fn law_the_layout_of_clips(v: UnitVisual, path: Seq<char>, state: AnimState)
    requires
        laid_out(v, path),
    ensures
        ({
            let c = v.spec_clip(state);
            &&& c.first == (match state {
                AnimState::Idle => 0u32,
                AnimState::Move => 8,
                AnimState::Attack => 16,
                AnimState::Hit => 24,
                AnimState::Die => 32,
            })
            &&& c.len == (match state {
                AnimState::Hit => 4u32,
                AnimState::Die => 6,
                _ => 8,
            })
            &&& c.fps == Single::spec_of_int(
                match state {
                    AnimState::Idle => 6,
                    AnimState::Move => 10,
                    AnimState::Die => 8,
                    _ => 12,
                },
            )
            &&& c.looping <==> state == AnimState::Idle || state == AnimState::Move
        }),
        v.sheet.path@ == path,
        v.sheet.tile.0 == 32 && v.sheet.tile.1 == 32 && v.sheet.columns == 8,
{
}

/// The clip of each state is the one that the visual has for it.
pub proof fn law_clips_by_state(v: UnitVisual)
    ensures
        v.spec_clip(AnimState::Idle) == v.idle,
        v.spec_clip(AnimState::Move) == v.moving,
        v.spec_clip(AnimState::Attack) == v.attack,
        v.spec_clip(AnimState::Hit) == v.hit,
        v.spec_clip(AnimState::Die) == v.die,
{
}

} // verus!
