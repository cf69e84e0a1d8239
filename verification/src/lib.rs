//! Headless hex battle simulation.
//!
//! Two teams of units fight on an infinite plane of hexes. A [`World`] holds the
//! units and everything that they go by, and [`step`] advances it by one tick:
//! who stands where is noted, everybody strikes once, the dead are removed, the
//! living move, tire or recover, and each is labelled with what it did. The outcome of a tick is a
//! function of the world before it, down to the last bit of every health: all the
//! fractional arithmetic is the integer arithmetic of [`Single`].

pub mod single;
pub mod hex;
pub mod line;
pub mod terrain;
pub mod pick;
pub mod unit;
pub mod index;
pub mod orders;
pub mod stamina;
pub mod scan;
pub mod flow;
pub mod steps;
pub mod formations;
pub mod combat;
pub mod damage;
pub mod reach;
pub mod route;
pub mod movement;
pub mod anim;
pub mod world;
pub mod course;
pub mod doctrine;
pub mod reckoning;
pub mod survey;
pub mod chronicle;
pub mod deploy;
pub mod agent;

pub use agent::{Imperium, SmiteRequest};
pub use anim::{animate, AnimCatalog, AnimClip, SpriteSheet, UnitVisual};
pub use combat::{
    combat, flanking, weakest_adjacent_enemy, AttackEvent, BattleEvents, DamageBuffer, DeathEvent,
};
pub use damage::resolve_damage;
pub use course::{is_playable, is_ready, run};
pub use flow::{build_flow_fields, enemy_line, integrate, own_line, CostField, FlowField};
pub use formations::{build_formations, cohesion_slack, Formations, COHESION_SLACK};
pub use hex::Hex;
pub use index::{build_spatial_index, SpatialIndex};
pub use movement::{movement, MovedThisTick, Tick};
pub use orders::{ai_order, enemy_ai, Orders};
pub use route::{a_star_path, cached_step};
pub use scan::{nearest_enemy, nearest_enemy_entity, nearest_enemy_in_range};
pub use single::Single;
pub use stamina::{update_stamina, STAMINA_DRAIN, STAMINA_RECOVERY, WINDED_BELOW};
pub use steps::{flow_step, greedy_step, kite_step, sidestep, Reserved};
pub use terrain::{cell, generate_terrain, line_of_sight, Terrain, TerrainMap};
pub use unit::{
    attack_damage, attack_range, charge_bonus, hold_reduction, max_hp, move_period, unit,
    AnimState, Entity, Group, Health, Kind, NextMove, Order, PathCache, Stamina, Team, Unit,
    HOLD_REDUCTION, KITE_THRESHOLD, MAX_STAMINA, PATH_RECOMPUTE_PERIOD, VISION,
};
pub use world::{play, step, tick_and_clear, World};
