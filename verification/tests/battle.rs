//! Scenarios of the battle, tick by tick.

use sim_core::{
    ai_order, build_spatial_index, enemy_line, flow_step, greedy_step, integrate, line_of_sight,
    move_period, nearest_enemy, nearest_enemy_entity, step, unit, AnimCatalog, AnimState,
    AttackEvent, DeathEvent, Entity, FlowField, Hex, Kind, Order, Reserved, Single, SpatialIndex,
    Team, Terrain, TerrainMap, World, PATH_RECOMPUTE_PERIOD, VISION,
};
use std::collections::HashSet;

fn float(s: Single) -> f32 {
    f32::from_bits(s.bits)
}

fn single(x: f32) -> Single {
    Single { bits: x.to_bits() }
}

fn max_hp(kind: Kind) -> f32 {
    float(sim_core::max_hp(kind))
}

fn attack_damage(kind: Kind) -> f32 {
    float(sim_core::attack_damage(kind))
}

fn charge_bonus(kind: Kind, order: Order) -> f32 {
    float(sim_core::charge_bonus(kind, order))
}

fn hp(w: &World, e: Entity) -> Option<f32> {
    w.get(e).map(|u| float(u.health.0))
}

fn hex_of(w: &World, e: Entity) -> Option<Hex> {
    w.get(e).map(|u| u.hex)
}

fn anim_of(w: &World, e: Entity) -> Option<AnimState> {
    w.get(e).map(|u| u.anim)
}

fn fresh_world() -> World {
    World::new()
}

#[test]
fn adjacent_enemies_deal_damage() {
    let mut w = fresh_world();
    let red = w.spawn(unit(Team::Red, Kind::Infantry, Hex::new(0, 0), 1));
    w.spawn(unit(Team::Blue, Kind::Infantry, Hex::new(1, 0), 1));

    step(&mut w);

    let hp = hp(&w, red).expect("red alive");
    assert!(hp < max_hp(Kind::Infantry), "red should have taken damage, hp={hp}");
}

#[test]
fn melee_attacks_a_single_enemy_not_all_neighbors() {
    // One infantry flanked by two enemies should deal its damage to exactly
    // one of them — total damage dealt == one attack, not two.
    let mut w = fresh_world();
    w.spawn(unit(Team::Red, Kind::Infantry, Hex::new(0, 0), 1));
    let a = w.spawn(unit(Team::Blue, Kind::Infantry, Hex::new(1, 0), 1));
    let b = w.spawn(unit(Team::Blue, Kind::Infantry, Hex::new(0, -1), 1));

    step(&mut w);

    let max = max_hp(Kind::Infantry);
    let dmg_a = max - hp(&w, a).expect("a alive");
    let dmg_b = max - hp(&w, b).expect("b alive");
    assert_eq!(
        dmg_a + dmg_b,
        attack_damage(Kind::Infantry),
        "red must land exactly one melee attack, not one per neighbor (a={dmg_a}, b={dmg_b})"
    );
    assert!(
        (dmg_a == 0.0) ^ (dmg_b == 0.0),
        "exactly one neighbor should be struck (a={dmg_a}, b={dmg_b})"
    );
}

#[test]
fn melee_focus_fire_targets_the_weakest_enemy() {
    // Among two adjacent enemies, the already-wounded one is finished first.
    let mut w = fresh_world();
    w.spawn(unit(Team::Red, Kind::Infantry, Hex::new(0, 0), 1));
    let weak = w.spawn(unit(Team::Blue, Kind::Infantry, Hex::new(1, 0), 1));
    let strong = w.spawn(unit(Team::Blue, Kind::Infantry, Hex::new(0, -1), 1));
    w.set_health(weak, single(20.0));

    step(&mut w);

    assert!(
        hp(&w, weak).expect("weak alive") < 20.0,
        "the wounded enemy should be focused"
    );
    assert_eq!(
        hp(&w, strong).expect("strong alive"),
        max_hp(Kind::Infantry),
        "the healthy enemy should be left untouched while the weak one is focused"
    );
}

#[test]
fn surrounded_unit_takes_more_than_it_deals() {
    // A lone unit ringed by six enemies is struck by all of them but strikes
    // back at only one — flanking is lethal.
    let mut w = fresh_world();
    let victim = w.spawn(unit(Team::Red, Kind::Infantry, Hex::new(0, 0), 1));
    let ring: Vec<Entity> = Hex::new(0, 0)
        .neighbors()
        .iter()
        .map(|n| w.spawn(unit(Team::Blue, Kind::Infantry, *n, 1)))
        .collect();

    step(&mut w);

    let max = max_hp(Kind::Infantry);
    let dealt: f32 = ring
        .iter()
        .map(|e| max - hp(&w, *e).unwrap_or(0.0))
        .sum();
    let taken = max - hp(&w, victim).expect("victim alive");
    assert_eq!(dealt, attack_damage(Kind::Infantry), "victim strikes back at exactly one foe");
    assert!(taken > dealt, "a surrounded unit takes far more than it deals (took {taken}, dealt {dealt})");
}

#[test]
fn isolated_unit_marches_toward_the_enemy_line() {
    let mut w = fresh_world();
    let blue = w.spawn(unit(Team::Blue, Kind::Cavalry, Hex::new(10, 0), 1));

    step(&mut w);

    let h = hex_of(&w, blue).expect("blue alive");
    assert!(h.q < 10, "blue should have advanced toward the enemy line, at {h:?}");
}

#[test]
fn held_units_do_not_move() {
    let mut w = fresh_world();
    w.orders.set(Team::Blue, 1, Order::Hold);
    let blue = w.spawn(unit(Team::Blue, Kind::Cavalry, Hex::new(10, 0), 1));

    for _ in 0..10 {
        step(&mut w);
    }

    let h = hex_of(&w, blue).expect("blue alive");
    assert_eq!(h, Hex::new(10, 0), "held unit must not move, at {h:?}");
}

#[test]
fn hold_reduces_incoming_damage() {
    let dmg_taken = |order: Order| -> f32 {
        let mut w = fresh_world();
        w.orders.set(Team::Red, 1, order);
        let red = w.spawn(unit(Team::Red, Kind::Infantry, Hex::new(0, 0), 1));
        w.spawn(unit(Team::Blue, Kind::Infantry, Hex::new(1, 0), 1));
        step(&mut w);
        max_hp(Kind::Infantry) - hp(&w, red).expect("red alive")
    };
    assert!(
        dmg_taken(Order::Hold) < dmg_taken(Order::March),
        "Hold should reduce incoming damage"
    );
}

#[test]
fn units_do_not_step_onto_impassable_terrain() {
    let mut w = fresh_world();
    // Blue at (10,0) wants to march toward -q. Wall the two left-ward
    // neighbors with mountains; it must not enter them.
    {
        let t = &mut w.terrain;
        t.set(Hex::new(9, 0), Terrain::Mountain);
        t.set(Hex::new(9, 1), Terrain::Mountain);
    }
    w.spawn(unit(Team::Blue, Kind::Cavalry, Hex::new(10, 0), 1));

    step(&mut w);

    let occupied: Vec<Hex> = w.units.iter().map(|u| u.hex).collect();
    assert!(
        !occupied.contains(&Hex::new(9, 0)) && !occupied.contains(&Hex::new(9, 1)),
        "unit must not step onto a mountain: {occupied:?}"
    );
}

#[test]
fn a_star_routes_around_a_wall() {
    // Blue at (0,0); enemy at (3,0). A mountain wall at (1,0) and (1,1)
    // blocks the straight line, leaving a gap at (1,-1). The unit must step
    // around the wall, never onto a mountain.
    let mut w = fresh_world();
    {
        let t = &mut w.terrain;
        t.set(Hex::new(1, 0), Terrain::Mountain);
        t.set(Hex::new(1, 1), Terrain::Mountain);
    }
    let blue = w.spawn(unit(Team::Blue, Kind::Cavalry, Hex::new(0, 0), 1));
    w.spawn(unit(Team::Red, Kind::Infantry, Hex::new(3, 0), 1));

    step(&mut w);

    let h = hex_of(&w, blue).expect("blue alive");
    assert_ne!(h, Hex::new(0, 0), "unit should have moved");
    assert!(
        h != Hex::new(1, 0) && h != Hex::new(1, 1),
        "unit must route around the wall, not onto it: {h:?}"
    );
}

#[test]
fn defensive_terrain_reduces_damage() {
    let dmg_on = |terrain: Terrain| -> f32 {
        let mut w = fresh_world();
        w.terrain.set(Hex::new(0, 0), terrain);
        let red = w.spawn(unit(Team::Red, Kind::Infantry, Hex::new(0, 0), 1));
        w.spawn(unit(Team::Blue, Kind::Infantry, Hex::new(1, 0), 1));
        step(&mut w);
        max_hp(Kind::Infantry) - hp(&w, red).expect("red alive")
    };
    assert!(
        dmg_on(Terrain::Hill) < dmg_on(Terrain::Plains),
        "defending on a hill should reduce damage taken"
    );
}

#[test]
fn skirmishers_shoot_at_range_melee_does_not() {
    let dmg_to_enemy = |kind: Kind| -> f32 {
        let mut w = fresh_world();
        w.spawn(unit(Team::Red, kind, Hex::new(0, 0), 1));
        let blue = w.spawn(unit(Team::Blue, Kind::Infantry, Hex::new(3, 0), 1));
        step(&mut w);
        max_hp(Kind::Infantry) - hp(&w, blue).unwrap_or(0.0)
    };
    assert!(dmg_to_enemy(Kind::Skirmisher) > 0.0, "skirmisher should hit at range 3");
    assert_eq!(dmg_to_enemy(Kind::Infantry), 0.0, "melee must not hit at range 3");
}

#[test]
fn skirmishers_kite_from_adjacent_enemies() {
    let mut w = fresh_world();
    let sk = w.spawn(unit(Team::Red, Kind::Skirmisher, Hex::new(0, 0), 1));
    w.spawn(unit(Team::Blue, Kind::Infantry, Hex::new(1, 0), 1));

    step(&mut w);

    let h = hex_of(&w, sk).expect("skirmisher alive");
    assert!(h.distance(Hex::new(1, 0)) >= 2, "skirmisher should kite away, at {h:?}");
}

#[test]
fn a_blocked_unit_sidesteps_instead_of_deadlocking() {
    let mut w = fresh_world();
    // Blue marches toward the −q enemy line. A held friendly sits squarely in
    // the only distance-reducing hex (−1,0) directly ahead of the rear unit at
    // (0,0). Rather than freeze, the rear unit must peel laterally
    // to a hex that holds its distance to the goal (not backward, not onto the
    // blocker).
    w.orders.set(Team::Blue, 1, Order::March);
    w.orders.set(Team::Blue, 2, Order::Hold);
    w.spawn(unit(Team::Blue, Kind::Infantry, Hex::new(-1, 0), 2)); // the blocker
    let rear = w.spawn(unit(Team::Blue, Kind::Infantry, Hex::new(0, 0), 1));

    let goal_d = |h: Hex| h.distance(enemy_line(Team::Blue));
    let before = goal_d(Hex::new(0, 0));

    step(&mut w);

    let h = hex_of(&w, rear).expect("rear alive");
    assert_ne!(h, Hex::new(0, 0), "boxed-in unit should peel sideways, not freeze");
    assert_ne!(h, Hex::new(-1, 0), "must not step onto the blocker");
    assert!(
        goal_d(h) <= before,
        "sidestep must hold (not lose) ground toward the goal: {h:?}"
    );
}

#[test]
fn a_unit_does_not_sidestep_backward_when_fully_boxed() {
    let mut w = fresh_world();
    // Box the marcher in toward its goal: the three −q-ward neighbors of (0,0)
    // — (−1,0), (−1,1), (0,−1) — are the only hexes that don't increase the
    // distance to the (−30,0) line; wall them all. The unit must stay put
    // rather than sidestep onto a strictly-farther hex.
    w.orders.set(Team::Blue, 1, Order::March);
    {
        let t = &mut w.terrain;
        t.set(Hex::new(-1, 0), Terrain::Mountain);
        t.set(Hex::new(-1, 1), Terrain::Mountain);
        t.set(Hex::new(0, -1), Terrain::Mountain);
    }
    let blue = w.spawn(unit(Team::Blue, Kind::Infantry, Hex::new(0, 0), 1));

    step(&mut w);

    let h = hex_of(&w, blue).expect("blue alive");
    assert_eq!(h, Hex::new(0, 0), "fully boxed unit must not retreat sideways, at {h:?}");
}

#[test]
fn ai_advances_then_commits_and_defends() {
    assert_eq!(ai_order(10, 0, 0), Order::March, "no enemy → advance");
    assert_eq!(ai_order(10, 10, 0), Order::March, "even, no contact → advance");
    assert_eq!(ai_order(10, 10, 3), Order::Charge, "contact + not behind → launch");
    assert_eq!(ai_order(8, 10, 3), Order::Hold, "contact, slightly behind → hold");
    assert_eq!(ai_order(5, 10, 3), Order::Hold, "outnumbered → defend");
    assert_eq!(ai_order(20, 10, 3), Order::Unleash, "dominant + contact → all-out");
    assert_eq!(ai_order(3, 10, 0), Order::Retreat, "routed → fall back");
}

#[test]
fn unleash_hits_harder_and_moves_faster_than_charge() {
    for kind in [Kind::Infantry, Kind::Cavalry] {
        assert!(
            charge_bonus(kind, Order::Unleash) > charge_bonus(kind, Order::Charge),
            "{kind:?}: unleash should out-hit charge"
        );
    }
    // Skirmishers get no charge bonus but do commit under Unleash.
    assert_eq!(charge_bonus(Kind::Skirmisher, Order::Charge), 0.0);
    assert!(charge_bonus(Kind::Skirmisher, Order::Unleash) > 0.0);
    // Unleash runs at charge pace (faster than a plain march).
    assert!(
        move_period(Kind::Infantry, Order::Unleash) < move_period(Kind::Infantry, Order::March),
        "unleash should move faster than march"
    );
}

#[test]
fn retreating_units_flee_from_the_enemy() {
    let mut w = fresh_world();
    w.orders.set(Team::Blue, 1, Order::Retreat);
    let blue = w.spawn(unit(Team::Blue, Kind::Infantry, Hex::new(0, 0), 1));
    w.spawn(unit(Team::Red, Kind::Infantry, Hex::new(3, 0), 1));

    let before = Hex::new(0, 0).distance(Hex::new(3, 0));
    step(&mut w);

    let h = hex_of(&w, blue).expect("blue alive");
    assert!(
        h.distance(Hex::new(3, 0)) > before,
        "retreating unit should increase distance from the enemy, at {h:?}"
    );
}

#[test]
fn retreat_with_no_enemy_falls_back_to_own_line() {
    // Blue's own line is +q; a lone retreating Blue with no enemy in sight
    // should drift toward it rather than freeze.
    let mut w = fresh_world();
    w.orders.set(Team::Blue, 1, Order::Retreat);
    let blue = w.spawn(unit(Team::Blue, Kind::Cavalry, Hex::new(0, 0), 1));

    step(&mut w);

    let h = hex_of(&w, blue).expect("blue alive");
    assert!(h.q > 0, "retreating unit should fall back toward its own line, at {h:?}");
}

#[test]
fn unleashed_skirmishers_close_instead_of_kiting() {
    // A kiting skirmisher backs away from an adjacent enemy; an Unleashed one
    // does not — it commits to melee and stays in contact.
    let final_distance = |order: Order| -> i32 {
        let mut w = fresh_world();
        w.orders.set(Team::Red, 1, order);
        let sk = w.spawn(unit(Team::Red, Kind::Skirmisher, Hex::new(0, 0), 1));
        w.spawn(unit(Team::Blue, Kind::Infantry, Hex::new(1, 0), 1));
        step(&mut w);
        hex_of(&w, sk).expect("skirmisher alive").distance(Hex::new(1, 0))
    };
    assert!(final_distance(Order::March) >= 2, "kiting skirmisher backs off");
    assert_eq!(
        final_distance(Order::Unleash),
        1,
        "unleashed skirmisher holds contact instead of kiting"
    );
}

#[test]
fn cached_pathing_routes_around_a_wall_across_many_ticks() {
    // A mountain wall blocks the straight line from (0,0) to a stationary
    // enemy 8 hexes away. The mover threads the one-hex gap and closes in
    // over several ticks — spanning multiple path-cache recomputes — and
    // must never stand on a mountain, proving the cached route stays correct
    // as it is consumed and re-planned. We stop the moment it reaches
    // contact (before melee can resolve) so the assertion is about pathing.
    let enemy = Hex::new(8, 0);
    let mut w = fresh_world();
    {
        let t = &mut w.terrain;
        for r in -1..=2 {
            t.set(Hex::new(2, r), Terrain::Mountain); // gap left at (2,-2)
        }
    }
    let blue = w.spawn(unit(Team::Blue, Kind::Cavalry, Hex::new(0, 0), 1));
    // Stationary enemy (Hold) so the goal never drifts.
    w.spawn(unit(Team::Red, Kind::Infantry, enemy, 1));
    w.orders.set(Team::Red, 1, Order::Hold);
    let start_d = Hex::new(0, 0).distance(enemy);

    let mut ticks = 0;
    let mut reached = false;
    for _ in 0..30 {
        step(&mut w);
        ticks += 1;
        let h = hex_of(&w, blue).expect("blue alive");
        assert!(
            w.terrain.get(h).passable(),
            "mover stood on impassable terrain at {h:?}"
        );
        if h.distance(enemy) <= 1 {
            reached = true;
            break;
        }
    }

    let end = hex_of(&w, blue).expect("blue alive");
    assert!(reached, "mover should have reached contact, ended at {end:?}");
    assert!(
        ticks as u64 > PATH_RECOMPUTE_PERIOD,
        "approach should span multiple cache recomputes, took {ticks} ticks"
    );
    assert!(end.distance(enemy) < start_d, "mover should have closed in");
}

#[test]
fn stress_thousands_of_units_resolve_without_panic() {
    // Headless scale smoke test: two large blocks collide and run for a
    // good many ticks. Asserts the tick stays panic-free and the live unit
    // count is monotonically non-increasing (units only ever die).
    let mut w = fresh_world();
    let per_side = 768;
    let cols = 16;
    for i in 0..per_side {
        let (q, r) = (i % cols, i / cols);
        w.spawn(unit(Team::Red, Kind::Infantry, Hex::new(-1 - q, r), 1));
        w.spawn(unit(Team::Blue, Kind::Infantry, Hex::new(1 + q, r), 1));
    }

    let mut prev = count_units(&mut w);
    assert_eq!(prev, per_side as usize * 2, "all units spawned");
    for _ in 0..60 {
        step(&mut w);
        let now = count_units(&mut w);
        assert!(now <= prev, "unit count must never grow: {now} > {prev}");
        prev = now;
    }
    assert!(prev < per_side as usize * 2, "some units should have died");
}

fn count_units(w: &mut World) -> usize {
    w.units.len()
}

/// Build only the spatial index on the current world (no movement/combat),
/// so the dense grid can be inspected directly.
fn build_index(w: &mut World) {
    build_spatial_index(&w.units, &mut w.index);
}

#[test]
fn dense_index_locates_units_and_misses_elsewhere() {
    let mut w = fresh_world();
    let red = w.spawn(unit(Team::Red, Kind::Infantry, Hex::new(2, -3), 1));
    w.spawn(unit(Team::Blue, Kind::Infantry, Hex::new(-1, 4), 1));

    build_index(&mut w);

    let idx = &w.index;
    assert_eq!(idx.at(Hex::new(2, -3)).map(|(e, _)| e), Some(red), "red must be indexed");
    assert_eq!(idx.at(Hex::new(-1, 4)).map(|(_, t)| t), Some(Team::Blue), "blue must be indexed");
    assert!(!idx.occupied(Hex::new(0, 0)), "an empty interior cell must miss");
    assert!(idx.at(Hex::new(100, 100)).is_none(), "an out-of-bounds cell must miss");
}

#[test]
fn dense_index_handles_an_empty_world() {
    let mut w = fresh_world();
    build_index(&mut w);
    let idx = &w.index;
    assert!(!idx.occupied(Hex::new(0, 0)), "empty world: every lookup misses");
    assert!(idx.at(Hex::new(5, 5)).is_none());
}

#[test]
fn dense_index_finds_every_unit_at_scale() {
    // Stress/smoke: a 60×60 block (3600 units) on distinct hexes. Every one
    // must be locatable, exercising the dense grid's bounding-box sizing and
    // O(1) indexing at scale.
    let mut w = fresh_world();
    let mut placed = Vec::new();
    for q in 0..60 {
        for r in 0..60 {
            let h = Hex::new(q, r);
            let e = w.spawn(unit(Team::Red, Kind::Infantry, h, 1));
            placed.push((e, h));
        }
    }

    build_index(&mut w);

    let idx = &w.index;
    for (e, h) in placed {
        assert_eq!(idx.at(h).map(|(x, _)| x), Some(e), "unit at {h:?} must be indexed");
    }
}

/// Fill an axial rectangle with Plains, then wall `q = wall_q` with Mountain
/// for every row except `gap_r` — a one-hex pass through an otherwise solid
/// barrier. The far side is only reachable around the gap. Goal cells for
/// `enemy_line` sit inside the rectangle so the field connects end to end.
fn walled_field(w: &mut World, wall_q: i32, gap_r: i32) {
    let t = &mut w.terrain;
    for q in -31..=3 {
        for r in -3..=3 {
            t.set(Hex::new(q, r), Terrain::Plains);
        }
    }
    for r in -3..=3 {
        if r != gap_r {
            t.set(Hex::new(wall_q, r), Terrain::Mountain);
        }
    }
}

#[test]
fn flow_step_escapes_a_greedy_dead_end() {
    // A unit pressed against the wall at (2,0) has no neighbor that reduces
    // straight-line distance to the enemy line without crossing a mountain,
    // so the greedy step dead-ends. The flow field knows the only route is up
    // toward the gap, so it still yields a (strictly closer) step.
    let mut w = fresh_world();
    walled_field(&mut w, 1, 3);
    let terrain = w.terrain;
    let idx = SpatialIndex::default();
    let reserved = Reserved::new();

    let mut field = FlowField::default();
    field.blue = Some(integrate(&terrain, enemy_line(Team::Blue)));

    let from = Hex::new(2, 0);
    assert!(
        greedy_step(from, enemy_line(Team::Blue), &terrain, &idx, &reserved).is_none(),
        "greedy must dead-end against the wall"
    );

    let dist = field.blue.as_ref().unwrap();
    let step = flow_step(&field, Team::Blue, from, &terrain, &idx, &reserved)
        .expect("flow field must offer an escape step");
    assert!(
        dist.get(step).unwrap() < dist.get(from).unwrap(),
        "flow step must descend the gradient: {step:?}"
    );
    assert!(step.r > from.r, "the only route is up toward the gap: {step:?}");
}

#[test]
fn flow_field_routes_around_a_wall_with_no_enemy_in_sight() {
    // No enemy in vision → the greedy-to-line fallback alone would stall at
    // the wall. With the flow field the unit threads the gap and reaches the
    // far side, never standing on a mountain.
    let mut w = fresh_world();
    walled_field(&mut w, 1, 3);
    let blue = w.spawn(unit(Team::Blue, Kind::Cavalry, Hex::new(3, 0), 1));

    let mut crossed_onto_mountain = false;
    for _ in 0..40 {
        step(&mut w);
        let h = hex_of(&w, blue).expect("blue alive");
        if w.terrain.get(h) == Terrain::Mountain {
            crossed_onto_mountain = true;
        }
    }

    let h = hex_of(&w, blue).expect("blue alive");
    assert!(!crossed_onto_mountain, "unit must never stand on a mountain");
    assert!(
        h.q <= 0,
        "unit should round the wall and reach the far side, at {h:?}"
    );
}

#[test]
fn cohesion_holds_back_a_unit_that_outran_its_group() {
    // A Blue group: most of the block sits deep at q=20, but one runner has
    // pushed far ahead to q=2 (much closer to Red's line at q=-30). No enemy
    // is anywhere in vision, so the runner should pause for cohesion while
    // the trailing block keeps advancing — shrinking the spread.
    let mut w = fresh_world();
    let runner = w.spawn(unit(Team::Blue, Kind::Infantry, Hex::new(2, 0), 1));
    let mut rear = Vec::new();
    for r in 0..6 {
        rear.push(w.spawn(unit(Team::Blue, Kind::Infantry, Hex::new(20, r), 1)));
    }

    let runner_before = hex_of(&w, runner).unwrap().q;
    step(&mut w);

    let runner_after = hex_of(&w, runner).unwrap().q;
    assert_eq!(
        runner_after, runner_before,
        "the runner is far ahead of its group's front and must hold for cohesion"
    );
    // ...while a rear unit (behind the mean) advances to close the gap.
    let rear_after = hex_of(&w, rear[0]).unwrap().q;
    assert!(rear_after < 20, "a trailing unit should keep advancing, at q={rear_after}");
}

#[test]
fn a_lagging_unit_still_advances_toward_the_front() {
    // Mirror image: the unit under test is *behind* its group's front, so it
    // must advance (catch up), never pause.
    let mut w = fresh_world();
    for r in 0..6 {
        w.spawn(unit(Team::Blue, Kind::Infantry, Hex::new(2, r), 1));
    }
    let laggard = w.spawn(unit(Team::Blue, Kind::Infantry, Hex::new(20, 0), 1));

    step(&mut w);

    let q = hex_of(&w, laggard).unwrap().q;
    assert!(q < 20, "a lagging unit must advance to catch its group, at q={q}");
}

#[test]
fn cohesion_never_freezes_a_lone_unit() {
    // A group of one is its
    // own front, so cohesion can never apply and it must still advance.
    let mut w = fresh_world();
    let solo = w.spawn(unit(Team::Blue, Kind::Cavalry, Hex::new(10, 0), 1));

    step(&mut w);

    let q = hex_of(&w, solo).unwrap().q;
    assert!(q < 10, "a lone unit must keep marching, at q={q}");
}

#[test]
fn cohesion_yields_to_a_visible_enemy() {
    // The runner is far ahead of its group's front, but an enemy sits within
    // vision. Contact overrides cohesion: it must engage, not hold for ranks.
    let mut w = fresh_world();
    let runner = w.spawn(unit(Team::Blue, Kind::Infantry, Hex::new(2, 0), 1));
    w.spawn(unit(Team::Red, Kind::Infantry, Hex::new(-4, 0), 1)); // within VISION of the runner
    for r in 0..6 {
        w.spawn(unit(Team::Blue, Kind::Infantry, Hex::new(20, r), 1));
    }

    let before = hex_of(&w, runner).unwrap();
    step(&mut w);

    let after = hex_of(&w, runner).unwrap();
    assert_ne!(after, before, "a unit that can see an enemy must move despite cohesion");
    assert!(after.distance(Hex::new(-4, 0)) < before.distance(Hex::new(-4, 0)),
        "it should close on the visible enemy, at {after:?}");
}

#[test]
fn line_to_is_contiguous_and_hits_both_endpoints() {
    let a = Hex::new(0, 0);
    let b = Hex::new(3, -1);
    let line = a.line_to(b);
    assert_eq!(line.first(), Some(&a));
    assert_eq!(line.last(), Some(&b));
    assert_eq!(line.len() as i32, a.distance(b) + 1, "one hex per step plus the start");
    // Each consecutive pair is adjacent (distance 1).
    for pair in line.windows(2) {
        assert_eq!(pair[0].distance(pair[1]), 1, "line must be contiguous: {pair:?}");
    }
}

#[test]
fn mountains_block_line_of_sight_but_endpoints_do_not() {
    let mut w = fresh_world();
    let from = Hex::new(0, 0);
    let to = Hex::new(3, 0);
    // Clear line first.
    assert!(line_of_sight(from, to, &w.terrain), "plains is clear");
    // A mountain strictly between blocks.
    w.terrain.set(Hex::new(2, 0), Terrain::Mountain);
    assert!(!line_of_sight(from, to, &w.terrain), "intervening mountain blocks");
    // A mountain on the *target* hex does not block (endpoints excluded).
    let mut clear = fresh_world();
    clear.terrain.set(to, Terrain::Mountain);
    assert!(line_of_sight(from, to, &clear.terrain), "target on a mountain is still visible");
}

#[test]
fn skirmishers_cannot_shoot_through_a_mountain() {
    let mut w = fresh_world();
    // Wall the line between shooter (0,0) and target (3,0).
    {
        let t = &mut w.terrain;
        t.set(Hex::new(1, 0), Terrain::Mountain);
        t.set(Hex::new(2, 0), Terrain::Mountain);
    }
    w.spawn(unit(Team::Red, Kind::Skirmisher, Hex::new(0, 0), 1));
    let blue = w.spawn(unit(Team::Blue, Kind::Infantry, Hex::new(3, 0), 1));

    step(&mut w);

    let hp = hp(&w, blue).expect("blue alive");
    assert_eq!(hp, max_hp(Kind::Infantry), "shot must be blocked by the mountain, hp={hp}");
}

#[test]
fn skirmishers_shoot_a_visible_foe_past_an_obstructed_one() {
    let mut w = fresh_world();
    w.terrain.set(Hex::new(1, 0), Terrain::Mountain);
    w.spawn(unit(Team::Red, Kind::Skirmisher, Hex::new(0, 0), 1));
    // Obstructed enemy directly behind the mountain (distance 2).
    let hidden = w.spawn(unit(Team::Blue, Kind::Infantry, Hex::new(2, 0), 1));
    // Equally-close enemy on a clear line (distance 2).
    let visible = w.spawn(unit(Team::Blue, Kind::Infantry, Hex::new(0, 2), 1));

    step(&mut w);

    let hidden_hp = hp(&w, hidden).expect("hidden alive");
    let visible_hp = hp(&w, visible).expect("visible alive");
    assert_eq!(hidden_hp, max_hp(Kind::Infantry), "hidden foe must be safe behind the mountain");
    assert!(visible_hp < max_hp(Kind::Infantry), "the unobstructed foe should be shot, hp={visible_hp}");
}

#[test]
fn battle_resolves_to_a_decided_outcome() {
    let mut w = fresh_world();
    for r in 0..6 {
        w.spawn(unit(Team::Red, Kind::Infantry, Hex::new(0, r), 1));
        w.spawn(unit(Team::Blue, Kind::Infantry, Hex::new(1, r), 1));
    }

    for _ in 0..500 {
        step(&mut w);
    }

    let mut red = 0;
    let mut blue = 0;
    for u in &w.units {
        match u.team {
            Team::Red => red += 1,
            Team::Blue => blue += 1,
        }
    }
    assert!(red == 0 || blue == 0, "one side should be wiped: red={red} blue={blue}");
}

// --- Animation state machine + events -------------------------------

#[test]
fn attacking_units_enter_the_attack_state_and_log_an_event() {
    let mut w = fresh_world();
    let red = w.spawn(unit(Team::Red, Kind::Infantry, Hex::new(0, 0), 1));
    let blue = w.spawn(unit(Team::Blue, Kind::Infantry, Hex::new(1, 0), 1));

    step(&mut w);

    // Both are locked in melee: each deals damage, so each reads as Attack
    // (Attack outranks Hit).
    assert_eq!(anim_of(&w, red).unwrap(), AnimState::Attack);
    assert_eq!(anim_of(&w, blue).unwrap(), AnimState::Attack);

    let ev = &w.events;
    assert!(
        ev.attacks.contains(&AttackEvent {
            attacker: red,
            target: blue,
            kind: Kind::Infantry,
            at: Hex::new(0, 0),
        }),
        "red→blue strike should be logged: {:?}",
        ev.attacks
    );
}

#[test]
fn marching_units_enter_the_move_state() {
    let mut w = fresh_world();
    // Lone cavalry, no enemy: it marches toward the enemy line.
    let blue = w.spawn(unit(Team::Blue, Kind::Cavalry, Hex::new(10, 0), 1));

    step(&mut w);

    assert_eq!(anim_of(&w, blue).unwrap(), AnimState::Move);
}

#[test]
fn a_struck_survivor_shows_hit_not_move() {
    let mut w = fresh_world();
    // Infantry marches at a skirmisher out of its melee reach: it advances
    // (would be Move) *and* gets shot. Hit must win over Move.
    let inf = w.spawn(unit(Team::Red, Kind::Infantry, Hex::new(0, 0), 1));
    let sk = w.spawn(unit(Team::Blue, Kind::Skirmisher, Hex::new(3, 0), 1));

    step(&mut w);

    assert_eq!(anim_of(&w, inf).unwrap(), AnimState::Hit, "shot melee = Hit");
    assert_eq!(anim_of(&w, sk).unwrap(), AnimState::Attack, "shooter = Attack");
}

#[test]
fn idle_units_settle_into_the_idle_state() {
    let mut w = fresh_world();
    let blue = w.spawn(unit(Team::Blue, Kind::Cavalry, Hex::new(10, 0), 1));

    // First tick it marches (Move) — prove the system actively transitions.
    step(&mut w);
    assert_eq!(anim_of(&w, blue).unwrap(), AnimState::Move);

    // Hold it: no movement, no combat → back to Idle.
    w.orders.set(Team::Blue, 1, Order::Hold);
    step(&mut w);
    assert_eq!(anim_of(&w, blue).unwrap(), AnimState::Idle);
}

#[test]
fn death_emits_an_event_with_team_kind_and_position() {
    let mut w = fresh_world();
    let red = w.spawn(unit(Team::Red, Kind::Infantry, Hex::new(0, 0), 1));
    w.spawn(unit(Team::Blue, Kind::Infantry, Hex::new(1, 0), 1));
    // One blue infantry strike is 14 dmg; drop red to a lethal sliver.
    w.set_health(red, single(5.0));

    step(&mut w);

    assert!(hp(&w, red).is_none(), "red should be despawned");
    let deaths = &w.events.deaths;
    assert_eq!(
        deaths,
        &vec![DeathEvent {
            entity: red,
            team: Team::Red,
            kind: Kind::Infantry,
            at: Hex::new(0, 0),
        }],
        "death event must carry team/kind/position"
    );
}

#[test]
fn per_tick_buffers_reset_between_ticks() {
    let mut w = fresh_world();
    w.spawn(unit(Team::Red, Kind::Infantry, Hex::new(0, 0), 1));
    w.spawn(unit(Team::Blue, Kind::Infantry, Hex::new(1, 0), 1));

    step(&mut w);
    assert!(!w.events.attacks.is_empty(), "tick 1 logged attacks");

    // Pull them apart so nothing happens, then tick: the log must clear.
    for u in &mut w.units {
        if u.team == Team::Blue {
            u.hex.q = 40; // far away
        }
    }
    w.orders.set(Team::Red, 1, Order::Hold);
    w.orders.set(Team::Blue, 1, Order::Hold);

    step(&mut w);
    let ev = &w.events;
    assert!(ev.attacks.is_empty() && ev.deaths.is_empty(), "buffers must reset each tick");
    assert!(w.moved.0.is_empty(), "moved set must reset each tick");
}

// --- Animation asset catalog ----------------------------------------

#[test]
fn catalog_maps_each_kind_and_state_to_a_clip() {
    let cat = AnimCatalog::default();
    for kind in [Kind::Infantry, Kind::Cavalry, Kind::Skirmisher] {
        let v = cat.get(kind);
        // Every state resolves and the clip lookup matches the field.
        assert_eq!(v.clip(AnimState::Idle), v.idle);
        assert_eq!(v.clip(AnimState::Move), v.moving);
        assert_eq!(v.clip(AnimState::Attack), v.attack);
        assert_eq!(v.clip(AnimState::Hit), v.hit);
        assert_eq!(v.clip(AnimState::Die), v.die);
    }
}

// --- Robustness: determinism, invariants, and edge-case panic-safety ---

/// Order-independent snapshot of the live battle state. Two runs that agree
/// here agree on everything observable (team, position, exact HP bits).
fn snapshot(w: &mut World) -> Vec<(u8, i32, i32, u32)> {
    let mut v: Vec<(u8, i32, i32, u32)> = w
        .units
        .iter()
        .map(|u| ((u.team == Team::Blue) as u8, u.hex.q, u.hex.r, u.health.0.bits))
        .collect();
    v.sort_unstable();
    v
}

#[test]
fn simulation_is_bit_for_bit_deterministic() {
    // The whole testable-engine premise rests on this: identical inputs must
    // produce an identical trajectory, tick for tick, on every run.
    let build = || {
        let mut w = fresh_world();
        for r in 0..6 {
            w.spawn(unit(Team::Red, Kind::Infantry, Hex::new(0, r), 1));
            w.spawn(unit(Team::Blue, Kind::Cavalry, Hex::new(3, r), 1));
            w.spawn(unit(Team::Blue, Kind::Skirmisher, Hex::new(5, r), 1));
        }
        w
    };
    let mut a = build();
    let mut b = build();
    for t in 0..200 {
        step(&mut a);
        step(&mut b);
        assert_eq!(
            snapshot(&mut a),
            snapshot(&mut b),
            "diverged at tick {t}: identical inputs must stay identical"
        );
    }
}

#[test]
fn battle_preserves_core_invariants_every_tick() {
    let mut w = fresh_world();
    // A mountain ridge at q=0 the armies must route around, never onto.
    {
        let t = &mut w.terrain;
        for r in -3..=3 {
            t.set(Hex::new(0, r), Terrain::Mountain);
        }
    }
    for r in -4..=4 {
        w.spawn(unit(Team::Red, Kind::Cavalry, Hex::new(-3, r), 1));
        w.spawn(unit(Team::Blue, Kind::Infantry, Hex::new(3, r), 1));
    }

    let mut prev = usize::MAX;
    for tick in 0..150 {
        step(&mut w);

        let snap: Vec<(Hex, f32, Kind)> =
            w.units.iter().map(|u| (u.hex, float(u.health.0), u.kind)).collect();
        let terrain = &w.terrain;
        let mut seen: HashSet<(i32, i32)> = HashSet::new();
        for (h, hp, k) in &snap {
            // Health stays finite, positive (the dead are despawned), and is
            // never healed above the unit's cap.
            assert!(
                hp.is_finite() && *hp > 0.0 && *hp <= max_hp(*k),
                "tick {tick}: HP out of range: {hp} for {k:?}"
            );
            // Units never stand on impassable terrain.
            assert!(
                terrain.get(*h).passable(),
                "tick {tick}: unit on impassable terrain at {h:?}"
            );
            // The rigid-block invariant: at most one unit per hex.
            assert!(
                seen.insert((h.q, h.r)),
                "tick {tick}: two units share hex {h:?}"
            );
        }
        // No unit is ever spawned mid-battle; the count only falls.
        assert!(snap.len() <= prev, "tick {tick}: unit count grew to {}", snap.len());
        prev = snap.len();
    }
}

// --- ring-scan nearest-enemy probe -------------------------------------

/// Build a spatial index directly from `(hex, team)` pairs. Entities are
/// placeholders — the scan only reads position/team and returns them.
fn idx_from(cells: &[(Hex, Team)]) -> SpatialIndex {
    let mut idx = SpatialIndex::default();
    if let (Some(q_min), Some(q_max), Some(r_min), Some(r_max)) = (
        cells.iter().map(|(h, _)| h.q).min(),
        cells.iter().map(|(h, _)| h.q).max(),
        cells.iter().map(|(h, _)| h.r).min(),
        cells.iter().map(|(h, _)| h.r).max(),
    ) {
        idx.reset(Some((q_min, r_min, q_max, r_max)));
        for (h, t) in cells {
            idx.set(*h, Entity(0), *t);
        }
    }
    idx
}

#[test]
fn ring_scan_returns_an_enemy_at_the_minimum_distance() {
    let from = Hex::new(0, 0);
    // Three enemies at distances 5, 2 and 3 — the nearest is at distance 2.
    let idx = idx_from(&[
        (Hex::new(5, 0), Team::Blue),
        (Hex::new(2, -1), Team::Blue),
        (Hex::new(0, 3), Team::Blue),
    ]);
    let got = nearest_enemy(&idx, from, Team::Red).expect("an enemy is in range");
    assert_eq!(from.distance(got), 2, "must return a closest enemy, got {got:?}");
}

#[test]
fn ring_scan_visits_every_cell_of_a_ring() {
    // For each cell at distance 2, a lone enemy placed there must be found —
    // proving the ring walk reaches the whole ring (no gaps).
    let from = Hex::new(0, 0);
    for dq in -2..=2 {
        for dr in -2..=2 {
            let h = Hex::new(dq, dr);
            if from.distance(h) != 2 {
                continue;
            }
            let idx = idx_from(&[(h, Team::Blue)]);
            assert_eq!(
                nearest_enemy(&idx, from, Team::Red),
                Some(h),
                "ring scan missed {h:?}"
            );
        }
    }
}

#[test]
fn default_catalog_loops_holds_but_not_one_shots() {
    let v = AnimCatalog::default().get(Kind::Infantry).clone();
    assert!(v.idle.looping && v.moving.looping, "idle/move should loop");
    assert!(
        !v.attack.looping && !v.hit.looping && !v.die.looping,
        "attack/hit/die should play once"
    );
    // Each kind points at a distinct sheet path.
    let cat = AnimCatalog::default();
    let paths = [
        cat.get(Kind::Infantry).sheet.path,
        cat.get(Kind::Cavalry).sheet.path,
        cat.get(Kind::Skirmisher).sheet.path,
    ];
    assert_eq!(
        paths.iter().collect::<std::collections::HashSet<_>>().len(),
        3,
        "kinds should map to distinct sheets: {paths:?}"
    );
}

#[test]
fn ring_scan_matches_a_brute_force_minimum() {
    // A scattered field (incl. equidistant ties and own-team decoys); the
    // returned enemy must sit at the true minimum distance, and the team
    // filter must skip friendlies.
    let from = Hex::new(0, 0);
    let field = [
        (Hex::new(4, 0), Team::Blue),
        (Hex::new(-3, 1), Team::Blue),
        (Hex::new(2, 1), Team::Blue),  // dist 3
        (Hex::new(-2, -1), Team::Blue), // dist 3 (tie)
        (Hex::new(1, 0), Team::Red),   // friendly, must be ignored
    ];
    let idx = idx_from(&field);
    let got = nearest_enemy(&idx, from, Team::Red).expect("enemy in range");
    let min_d = field
        .iter()
        .filter(|(_, t)| *t == Team::Blue)
        .map(|(h, _)| from.distance(*h))
        .min()
        .unwrap();
    assert_eq!(from.distance(got), min_d, "got {got:?}, expected distance {min_d}");
    assert_ne!(got, Hex::new(1, 0), "must not target a friendly");
}

#[test]
fn ring_scan_ignores_enemies_beyond_range() {
    let from = Hex::new(0, 0);
    // Only enemy sits past VISION → out of range, nothing found.
    let idx = idx_from(&[(Hex::new(VISION + 3, 0), Team::Blue)]);
    assert_eq!(nearest_enemy(&idx, from, Team::Red), None);
}

#[test]
fn ring_scan_entity_targets_the_closest_foe() {
    // Distinct entities: the ranged target must be the nearer one.
    let near = Entity(1);
    let far = Entity(2);
    let mut idx = SpatialIndex::default();
    idx.reset(Some((1, 0, 3, 0)));
    idx.set(Hex::new(1, 0), near, Team::Blue);
    idx.set(Hex::new(3, 0), far, Team::Blue);
    assert_eq!(
        nearest_enemy_entity(&idx, Hex::new(0, 0), Team::Red, 3, &TerrainMap::default()),
        Some(near),
        "ranged attack must pick the nearest enemy"
    );
}

#[test]
fn empty_world_steps_without_panic() {
    // A degenerate world (no units, no terrain) must tick cleanly.
    let mut w = fresh_world();
    for _ in 0..10 {
        step(&mut w);
    }
    assert_eq!(w.tick.0, 10);
}

#[test]
fn a_fully_walled_unit_stays_put_without_panic() {
    let mut w = fresh_world();
    {
        let t = &mut w.terrain;
        for n in Hex::new(0, 0).neighbors() {
            t.set(n, Terrain::Mountain);
        }
    }
    let u = w.spawn(unit(Team::Blue, Kind::Cavalry, Hex::new(0, 0), 1));

    for _ in 0..10 {
        step(&mut w);
    }

    let h = hex_of(&w, u).expect("unit alive");
    assert_eq!(h, Hex::new(0, 0), "a boxed-in unit has no legal move, at {h:?}");
}

#[test]
fn ai_order_balance_math_survives_scale() {
    // `own * 5` overflows a u32 past ~858M units — a debug-build panic.
    // The balance thresholds must still hold at hundreds of millions.
    assert_eq!(ai_order(1_000_000_000, 0, 0), Order::March, "no enemy → advance");
    assert_eq!(
        ai_order(1_000_000_000, 1_000_000_000, 5),
        Order::Charge,
        "even and engaged at scale → launch"
    );
    assert_eq!(
        ai_order(500_000_000, 1_000_000_000, 5),
        Order::Hold,
        "outnumbered at scale → defend"
    );
}

#[test]
fn proximity_scan_holds_up_at_scale() {
    // Stress/smoke for the hot scan: two ~600-unit blocks collide for 40
    // ticks. Asserts panic-free and a monotonically non-increasing count —
    // every moving unit runs the ring scan each tick.
    let mut w = fresh_world();
    for q in 0..30 {
        for r in 0..20 {
            w.spawn(unit(Team::Red, Kind::Infantry, Hex::new(q, r), 1));
            w.spawn(unit(Team::Blue, Kind::Infantry, Hex::new(q + 31, r), 1));
        }
    }
    let count = |w: &mut World| w.units.len();
    let mut prev = count(&mut w);
    for _ in 0..40 {
        step(&mut w);
        let now = count(&mut w);
        assert!(now <= prev, "unit count must not grow: {prev} -> {now}");
        prev = now;
    }
}
