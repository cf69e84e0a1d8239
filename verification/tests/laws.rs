//! What holds of the battle in general, tried on concrete values.

use sim_core::reach::reaches;
use sim_core::{
    a_star_path, ai_order, attack_range, build_flow_fields, build_formations, build_spatial_index,
    cached_step, cell, cohesion_slack, combat, enemy_ai, enemy_line, flanking, flow_step,
    generate_terrain, greedy_step, hold_reduction, integrate, is_playable, is_ready, kite_step, line_of_sight,
    max_hp, move_period, nearest_enemy_entity, nearest_enemy_in_range, own_line, play,
    resolve_damage, run, sidestep, step, tick_and_clear, unit, update_stamina,
    weakest_adjacent_enemy, AnimState, BattleEvents, DamageBuffer, Entity, FlowField, Formations,
    Health, Hex, Kind, MovedThisTick, NextMove, Order, Orders, PathCache, Reserved, Single,
    SpatialIndex, Stamina, Team, Terrain, TerrainMap, Tick, World, COHESION_SLACK,
    HOLD_REDUCTION, KITE_THRESHOLD, MAX_STAMINA, STAMINA_DRAIN, STAMINA_RECOVERY, WINDED_BELOW,
};
use std::collections::HashSet;

fn float(s: Single) -> f32 {
    f32::from_bits(s.bits)
}

fn single(x: f32) -> Single {
    Single { bits: x.to_bits() }
}

fn hp(w: &World, e: Entity) -> f32 {
    float(w.get(e).expect("alive").health.0)
}

/// A fight of `n` infantry around one held in the middle; what the one lost.
fn lost_to(n: usize, ground: Terrain, order: Order, attack: Order) -> f32 {
    let mut w = World::new();
    w.terrain.set(Hex::new(0, 0), ground);
    w.orders.set(Team::Red, 1, order);
    w.orders.set(Team::Blue, 1, attack);
    let red = w.spawn(unit(Team::Red, Kind::Infantry, Hex::new(0, 0), 1));
    for h in Hex::new(0, 0).neighbors().iter().take(n) {
        w.spawn(unit(Team::Blue, Kind::Infantry, *h, 1));
    }
    step(&mut w);
    float(max_hp(Kind::Infantry)) - hp(&w, red)
}

#[test]
fn flanking_amplifies_melee_blows() {
    for n in 1..=6 {
        let plain = 14.0 * n as f32;
        let lost = lost_to(n, Terrain::Plains, Order::March, Order::March);
        assert_eq!(lost, plain * (31 + n) as f32 / 32.0);
        assert_eq!(lost > plain, n > 1);
    }
    // Charging infantry adds 8 to its 14, unleashed infantry 12.
    assert_eq!(lost_to(1, Terrain::Plains, Order::March, Order::Charge), 22.0);
    assert_eq!(lost_to(2, Terrain::Plains, Order::March, Order::Charge), 44.0 * 33.0 / 32.0);
    assert_eq!(lost_to(2, Terrain::Plains, Order::March, Order::Unleash), 52.0 * 33.0 / 32.0);
    let factors: Vec<f32> = [0, 1, 2, 6, 7, usize::MAX].map(|n| float(flanking(n))).to_vec();
    assert_eq!(factors, vec![1.0, 1.0, 1.03125, 1.15625, 1.15625, 1.15625]);
}

/// The damage on the first unit after everybody struck once.
fn struck(units: &[(Team, Kind, Hex)]) -> f32 {
    let mut w = World::new();
    for (team, kind, hex) in units {
        w.spawn(unit(*team, *kind, *hex, 1));
    }
    build_spatial_index(&w.units, &mut w.index);
    combat(&w.units, &w.orders, &w.index, &w.terrain, &mut w.damage, &mut w.events);
    float(w.damage.get(Entity(0)).expect("struck"))
}

#[test]
fn shots_are_not_amplified_and_do_not_flank() {
    let target = (Team::Blue, Kind::Infantry, Hex::new(0, 0));
    let archer = |q| (Team::Red, Kind::Skirmisher, Hex::new(q, 0));
    let footman = |q| (Team::Red, Kind::Infantry, Hex::new(q, 0));
    assert_eq!(struck(&[target, archer(2), archer(3), archer(-3)]), 24.0);
    assert_eq!(struck(&[target, footman(1), archer(3), archer(-3)]), 30.0);
    assert_eq!(struck(&[target, footman(1), footman(-1), archer(3)]), 28.0 * 33.0 / 32.0 + 8.0);
}

#[test]
fn charges_wind_and_rest_restores() {
    for (order, bonus) in [(Order::Charge, 8.0), (Order::Unleash, 12.0)] {
        let mut w = World::new();
        w.orders.set(Team::Blue, 1, order);
        w.orders.set(Team::Red, 1, Order::Idle);
        let blue = w.spawn(unit(Team::Blue, Kind::Infantry, Hex::new(0, 0), 1));
        let red = w.spawn(unit(Team::Red, Kind::Infantry, Hex::new(1, 0), 1));
        let mut losses = Vec::new();
        for _ in 0..18 {
            w.set_health(red, single(100.0));
            w.set_health(blue, single(100.0));
            step(&mut w);
            losses.push(100.0 - hp(&w, red));
        }
        // Sixteen ticks take the stamina from 100 to 20, below the 25 of a fresh
        // enough unit; base damage stays.
        let mut expected = vec![14.0 + bonus; 16];
        expected.extend([14.0, 14.0]);
        assert_eq!(losses, expected, "{order:?}");
        assert_eq!(w.get(blue).unwrap().stamina.0, MAX_STAMINA - 18 * STAMINA_DRAIN);
        assert!(w.get(blue).unwrap().stamina.is_winded());
        for rest in [Order::Hold, Order::Idle] {
            let before = w.get(blue).unwrap().stamina.0;
            w.orders.set(Team::Blue, 1, rest);
            w.set_health(blue, single(100.0));
            step(&mut w);
            assert_eq!(w.get(blue).unwrap().stamina.0, before + STAMINA_RECOVERY);
        }
        w.orders.set(Team::Blue, 1, Order::March);
        let before = w.get(blue).unwrap().stamina.0;
        step(&mut w);
        assert_eq!(w.get(blue).unwrap().stamina.0, before);
    }
}

#[test]
fn stamina_stays_in_its_measure() {
    assert_eq!(Stamina::default().0, MAX_STAMINA);
    assert_eq!(Stamina(3).after(Order::Charge).0, 0);
    assert_eq!(Stamina(0).after(Order::Unleash).0, 0);
    assert_eq!(Stamina(98).after(Order::Hold).0, MAX_STAMINA);
    assert_eq!(Stamina(MAX_STAMINA).after(Order::Idle).0, MAX_STAMINA);
    assert_eq!(Stamina(40).after(Order::Retreat).0, 40);
    assert!(Stamina(WINDED_BELOW - 1).is_winded() && !Stamina(WINDED_BELOW).is_winded());
    let mut w = World::new();
    w.orders.set(Team::Red, 2, Order::Charge);
    w.spawn(unit(Team::Red, Kind::Cavalry, Hex::new(0, 0), 1));
    w.spawn(unit(Team::Red, Kind::Cavalry, Hex::new(9, 0), 2));
    update_stamina(&w.orders, &mut w.units);
    assert_eq!((w.units[0].stamina.0, w.units[1].stamina.0), (100, 95));
}

#[test]
fn health_that_is_not_a_number_is_never_picked_and_never_spent() {
    for bits in [0x7fc0_0000u32, 0xffc0_0000] {
        let mut w = World::new();
        let odd = w.spawn(unit(Team::Red, Kind::Infantry, Hex::new(0, 0), 1));
        let blue = w.spawn(unit(Team::Blue, Kind::Infantry, Hex::new(1, 0), 1));
        w.set_health(odd, Single { bits });
        step(&mut w);
        assert!(w.get(odd).unwrap().health.0.is_nan());
        assert!(w.events.attacks.iter().all(|a| a.attacker != blue));
    }
}

#[test]
fn any_finite_damage_is_taken() {
    let mut w = World::new();
    let ids: Vec<Entity> = (0..4)
        .map(|i| w.spawn(unit(Team::Red, Kind::Infantry, Hex::new(5 * i, 0), 1)))
        .collect();
    for e in &ids {
        w.damage.set(*e, single(f32::MAX));
    }
    w.set_health(ids[1], single(f32::MAX));
    w.set_health(ids[2], single(f32::INFINITY));
    w.set_health(ids[3], single(-f32::MAX));
    resolve_damage(&mut w.units, &w.orders, &w.terrain, &w.damage, &mut w.events);
    assert_eq!(w.units.len(), 1);
    assert_eq!(hp(&w, ids[2]), f32::INFINITY);
    for (a, b) in [(3.0, 4.5), (f32::MAX, -f32::MAX), (-f32::MAX, f32::MAX), (1.0, 1e-9)] {
        assert_eq!(float(single(a).minus(single(b))), a - b, "{a} - {b}");
    }
}

#[test]
fn shelter_spares_exactly_its_share() {
    let left = |loss: f32| 100.0f32 - (100.0f32 - loss);
    assert_eq!(lost_to(1, Terrain::Forest, Order::March, Order::March), left(14.0 * 0.7));
    assert_eq!(lost_to(1, Terrain::Hill, Order::March, Order::March), left(14.0 * 0.6));
    assert_eq!(lost_to(1, Terrain::Plains, Order::Hold, Order::March), 7.0);
    let three = 3.0 * 14.0 * 34.0 / 32.0;
    assert_eq!(lost_to(3, Terrain::Hill, Order::Hold, Order::March), left(three * 0.6 * 0.5));
    assert_eq!(float(hold_reduction()), 0.5);
    assert_eq!(HOLD_REDUCTION, 0.5f32.to_bits());
}

#[test]
fn multipliers_and_costs_of_the_ground() {
    let rows = [
        (Terrain::Plains, true, 1, 1.0f32, false),
        (Terrain::Forest, true, 2, 0.7, false),
        (Terrain::Hill, true, 2, 0.6, false),
        (Terrain::Mountain, false, 1, 1.0, true),
        (Terrain::Water, false, 1, 1.0, false),
    ];
    for (t, passable, cost, mult, hides) in rows {
        assert_eq!(t.passable(), passable, "{t:?}");
        assert_eq!(t.move_cost(), cost, "{t:?}");
        assert_eq!(float(t.defense_mult()), mult, "{t:?}");
        assert_eq!(t.blocks_sight(), hides, "{t:?}");
    }
}

#[test]
fn terrain_reads_back() {
    let mut t = TerrainMap::default();
    assert!(t.is_empty());
    t.set(Hex::new(-3, 7), Terrain::Water);
    assert_eq!(t.get(Hex::new(-3, 7)), Terrain::Water);
    assert_eq!(t.get(Hex::new(7, -3)), Terrain::Plains);
    assert!(t.covers(Hex::new(-3, 7)) && !t.covers(Hex::new(7, -3)) && !t.is_empty());
    t.set(Hex::new(-3, 7), Terrain::Hill);
    assert_eq!(t.get(Hex::new(-3, 7)), Terrain::Hill);
}

/// The noise of a cell, in machine arithmetic.
fn noise(a: i32, b: i32, seed: i32) -> f32 {
    let mut h = (a.wrapping_mul(73856093) ^ b.wrapping_mul(19349663) ^ seed.wrapping_mul(83492791))
        as u32;
    h ^= h >> 13;
    h = h.wrapping_mul(0x85eb_ca6b);
    h ^= h >> 16;
    (h as f32) / (u32::MAX as f32)
}

#[test]
fn generated_terrain_follows_the_noise() {
    for seed in [0, 1, 7, 12345, -9, i32::MIN, i32::MAX] {
        let map = generate_terrain(seed, 40, 34);
        assert_eq!(map.tiles.len(), 81 * 69);
        for q in -40i32..=40 {
            for r in -34i32..=34 {
                let v = noise(q.div_euclid(4), r.div_euclid(4), seed);
                let expected = if v < 0.10 {
                    Terrain::Water
                } else if v < 0.20 {
                    Terrain::Mountain
                } else if v < 0.38 {
                    Terrain::Forest
                } else if v < 0.52 {
                    Terrain::Hill
                } else {
                    Terrain::Plains
                };
                assert_eq!(map.tiles.get(&cell(Hex::new(q, r))), Some(&expected), "{q},{r}");
            }
        }
    }
    assert!(generate_terrain(7, -1, 5).is_empty());
    assert!(generate_terrain(7, 5, -1).is_empty());
}

#[test]
fn orders_read_back_and_default_to_march() {
    let mut o = Orders::default();
    assert_eq!(o.get(Team::Red, 3), Order::March);
    o.set(Team::Red, 3, Order::Idle);
    o.set(Team::Blue, 3, Order::Retreat);
    assert_eq!(o.get(Team::Red, 3), Order::Idle);
    assert_eq!(o.get(Team::Blue, 3), Order::Retreat);
    assert_eq!(o.get(Team::Red, 255), Order::March);
    let advancing = [Order::March, Order::Charge, Order::Unleash];
    for x in [Order::Idle, Order::March, Order::Charge, Order::Hold, Order::Retreat, Order::Unleash] {
        assert_eq!(x.is_advancing(), advancing.contains(&x), "{x:?}");
    }
}

#[test]
fn kinds_differ_in_reach_pace_and_health() {
    assert_eq!(attack_range(Kind::Infantry), 1);
    assert_eq!(attack_range(Kind::Cavalry), 1);
    assert_eq!(attack_range(Kind::Skirmisher), 3);
    assert_eq!(float(max_hp(Kind::Infantry)), 100.0);
    assert_eq!(float(max_hp(Kind::Cavalry)), 80.0);
    assert_eq!(float(max_hp(Kind::Skirmisher)), 60.0);
    assert_eq!(move_period(Kind::Infantry, Order::March), 2);
    assert_eq!(move_period(Kind::Infantry, Order::Charge), 1);
    assert_eq!(move_period(Kind::Cavalry, Order::March), 1);
    assert_eq!(move_period(Kind::Skirmisher, Order::Unleash), 1);
}

#[test]
fn distance_is_symmetric_and_neighbours_are_one_apart() {
    let a = Hex::new(-4, 9);
    for n in a.neighbors() {
        assert_eq!(a.distance(n), 1);
        assert_eq!(n.distance(a), 1);
        assert!(n.neighbors().contains(&a));
    }
    assert_eq!(Hex::new(0, 0).distance(Hex::new(3, -1)), 3);
    assert_eq!(Hex::new(-2, -2).distance(Hex::new(2, 2)), 8);
}

#[test]
fn lines_are_contiguous_and_leave_their_ends() {
    let far = [
        Hex::new(512, -512),
        Hex::new(-300, 512),
        Hex::new(17, 450),
        Hex::new(-512, 0),
        Hex::new(1000, -1000),
        Hex::new(-1000, 37),
        Hex::new(-1797, 1023),
        Hex::new(250, 1535),
    ];
    let mut ends: Vec<Hex> = far.to_vec();
    for q in -6..=6 {
        for r in -6..=6 {
            ends.push(Hex::new(q, r));
        }
    }
    for a in [Hex::new(0, 0), Hex::new(-5, 3), Hex::new(250, -512)] {
        for b in &ends {
            let line = a.line_to(*b);
            assert_eq!(line.len() as i32, a.distance(*b) + 1);
            assert_eq!((line[0], line[line.len() - 1]), (a, *b));
            for k in 1..line.len() {
                assert_eq!(line[k - 1].distance(line[k]), 1, "{a:?} to {b:?} at {k}");
            }
        }
    }
}

#[test]
fn far_lines_are_contiguous_as_well() {
    let mut pairs = vec![
        (Hex::new(-1000, 4095), Hex::new(1047, 2049)),
        (Hex::new(-4095, 4095), Hex::new(-2049, 2048)),
        (Hex::new(4095, -2048), Hex::new(2048, -1025)),
    ];
    let edges = [-1000, -999, -617, 0, 8, 500, 998, 1000];
    for q in edges {
        for r in edges {
            pairs.push((Hex::new(-1000, -1000), Hex::new(q, r)));
            pairs.push((Hex::new(1000, 999), Hex::new(q, r)));
        }
    }
    let far = Hex::new(4_194_000, -3_000_001);
    for q in -3..=3 {
        for r in -3..=3 {
            let b = Hex::new(far.q + q, far.r + r);
            if far.distance(b) <= 3 {
                pairs.push((far, b));
            }
        }
    }
    for (a, b) in pairs {
        let line = a.line_to(b);
        assert_eq!((line[0], line[line.len() - 1]), (a, b));
        for k in 1..line.len() {
            assert_eq!(line[k - 1].distance(line[k]), 1, "{a:?} to {b:?} at {k}");
        }
    }
}

#[test]
fn beyond_single_precision_a_line_can_have_a_gap() {
    let (a, b) = (Hex::new(3249, 3623), Hex::new(-1083, 7957));
    let line = a.line_to(b);
    assert_eq!(line.len(), 4335);
    assert_eq!((line[0], line[4334]), (a, b));
    assert_eq!(line[3250].distance(line[3251]), 2);
    // Its ends are still met at its ends only.
    assert!(line[1..4334].iter().all(|h| *h != a && *h != b));
}

#[test]
fn sight_is_blocked_from_inside_only() {
    let (from, to) = (Hex::new(-2, 1), Hex::new(2, 0));
    let mut here = TerrainMap::default();
    assert!(line_of_sight(from, from, &here));
    here.set(from, Terrain::Mountain);
    assert!(line_of_sight(from, from, &here), "a hex is in sight of itself");
    let line = from.line_to(to);
    for k in 0..line.len() {
        let mut t = TerrainMap::default();
        t.set(line[k], Terrain::Mountain);
        let inside = k > 0 && k + 1 < line.len();
        assert_eq!(line_of_sight(from, to, &t), !inside, "mountain at step {k}");
        t.set(line[k], Terrain::Water);
        assert!(line_of_sight(from, to, &t), "water at step {k}");
    }
}

fn index_of(units: &[(Hex, Entity, Team)]) -> SpatialIndex {
    let mut idx = SpatialIndex::default();
    idx.reset(Some((-20, -20, 20, 20)));
    for (h, e, t) in units {
        idx.set(*h, *e, *t);
    }
    idx
}

#[test]
fn the_scan_finds_the_nearest_enemy_within_range() {
    let idx = index_of(&[
        (Hex::new(4, 0), Entity(1), Team::Blue),
        (Hex::new(0, 5), Entity(2), Team::Blue),
        (Hex::new(1, 1), Entity(3), Team::Red),
    ]);
    let from = Hex::new(0, 0);
    assert_eq!(
        nearest_enemy_in_range(&idx, from, Team::Red, 8),
        Some((Entity(1), Hex::new(4, 0)))
    );
    assert_eq!(nearest_enemy_in_range(&idx, from, Team::Red, 3), None);
    assert_eq!(nearest_enemy_in_range(&idx, from, Team::Red, 0), None);
    assert_eq!(nearest_enemy_in_range(&idx, from, Team::Red, -1), None);
    assert_eq!(
        nearest_enemy_in_range(&idx, from, Team::Blue, 8),
        Some((Entity(3), Hex::new(1, 1)))
    );
    // The walk of a ring starts in direction 4.
    let ring: Vec<(Hex, Entity, Team)> = Hex::new(0, 0)
        .neighbors()
        .iter()
        .enumerate()
        .map(|(i, h)| (*h, Entity(i as u64), Team::Blue))
        .collect();
    let idx = index_of(&ring);
    assert_eq!(
        nearest_enemy_in_range(&idx, from, Team::Red, 2),
        Some((Entity(4), Hex::new(-1, 1)))
    );
}

#[test]
fn shots_go_to_the_nearest_enemy_in_sight() {
    let from = Hex::new(0, 0);
    let idx = index_of(&[
        (Hex::new(2, 0), Entity(1), Team::Blue),
        (Hex::new(0, 3), Entity(2), Team::Blue),
        (Hex::new(0, 4), Entity(3), Team::Blue),
    ]);
    let mut t = TerrainMap::default();
    assert_eq!(nearest_enemy_entity(&idx, from, Team::Red, 3, &t), Some(Entity(1)));
    t.set(Hex::new(1, 0), Terrain::Mountain);
    assert_eq!(nearest_enemy_entity(&idx, from, Team::Red, 3, &t), Some(Entity(2)));
    assert_eq!(nearest_enemy_entity(&idx, from, Team::Red, 2, &t), None);
    assert_eq!(nearest_enemy_entity(&idx, from, Team::Red, -1, &t), None);
    assert_eq!(nearest_enemy_entity(&idx, from, Team::Blue, 3, &t), None);
}

#[test]
fn the_weakest_neighbour_is_struck_and_ties_go_to_the_first() {
    let from = Hex::new(0, 0);
    let around = from.neighbors();
    let idx = index_of(&[
        (around[5], Entity(5), Team::Blue),
        (around[2], Entity(2), Team::Blue),
        (around[3], Entity(3), Team::Red),
        (around[0], Entity(9), Team::Blue),
    ]);
    let mut healths = DamageBuffer::default();
    healths.set(Entity(5), single(30.0));
    healths.set(Entity(2), single(30.0));
    healths.set(Entity(3), single(1.0));
    // Entity 9 has no health on record, so nobody strikes it.
    assert_eq!(weakest_adjacent_enemy(from, Team::Red, &idx, &healths), Some(Entity(2)));
    healths.set(Entity(5), single(29.999));
    assert_eq!(weakest_adjacent_enemy(from, Team::Red, &idx, &healths), Some(Entity(5)));
    assert_eq!(weakest_adjacent_enemy(Hex::new(9, 9), Team::Red, &idx, &healths), None);
}

#[test]
fn every_unit_lands_one_attack() {
    let mut w = World::new();
    for h in Hex::new(0, 0).neighbors() {
        w.spawn(unit(Team::Blue, Kind::Infantry, h, 1));
    }
    w.spawn(unit(Team::Red, Kind::Infantry, Hex::new(0, 0), 1));
    w.spawn(unit(Team::Red, Kind::Skirmisher, Hex::new(3, 0), 1));
    w.spawn(unit(Team::Red, Kind::Cavalry, Hex::new(15, 0), 1));
    build_spatial_index(&w.units, &mut w.index);
    combat(&w.units, &w.orders, &w.index, &w.terrain, &mut w.damage, &mut w.events);
    let attackers: HashSet<u64> = w.events.attacks.iter().map(|a| a.attacker.0).collect();
    assert_eq!(w.events.attacks.len(), 8);
    assert_eq!(attackers.len(), 8);
    assert!(!attackers.contains(&8), "the one out of reach strikes nobody");
    for a in &w.events.attacks {
        let (me, foe) = (w.get(a.attacker).unwrap(), w.get(a.target).unwrap());
        assert_ne!(me.team, foe.team);
        assert!(me.hex.distance(foe.hex) <= attack_range(me.kind));
        assert_eq!(a.at, me.hex);
    }
}

#[test]
fn only_the_living_remain() {
    let mut w = World::new();
    let ids: Vec<Entity> = (0..4)
        .map(|i| w.spawn(unit(Team::Red, Kind::Infantry, Hex::new(5 * i, 0), 1)))
        .collect();
    w.set_health(ids[0], single(0.0));
    w.damage.set(ids[2], single(1000.0));
    w.damage.set(ids[1], single(99.5));
    resolve_damage(&mut w.units, &w.orders, &w.terrain, &w.damage, &mut w.events);
    let dead: Vec<Entity> = w.events.deaths.iter().map(|d| d.entity).collect();
    assert_eq!(dead, vec![ids[0], ids[2]]);
    // The last of the row takes the place of a removed one.
    let left: Vec<Entity> = w.units.iter().map(|u| u.entity).collect();
    assert_eq!(left, vec![ids[3], ids[1]]);
    assert_eq!(hp(&w, ids[1]), 0.5);
    assert!(w.get(ids[0]).is_none());
}

fn open_steps(from: Hex, goal: Hex, taken: &[Hex]) -> (Option<Hex>, Option<Hex>, Option<Hex>) {
    let (t, idx) = (TerrainMap::default(), SpatialIndex::default());
    let mut reserved = Reserved::new();
    for h in taken {
        reserved.insert(*h);
    }
    (
        greedy_step(from, goal, &t, &idx, &reserved),
        sidestep(from, goal, &t, &idx, &reserved),
        kite_step(from, goal, &t, &idx, &reserved),
    )
}

#[test]
fn steps_make_progress_and_are_the_best_there_are() {
    let from = Hex::new(0, 0);
    let goal = Hex::new(5, 0);
    let a = from.neighbors();
    assert_eq!(open_steps(from, goal, &[]), (Some(a[0]), Some(a[0]), Some(a[2])));
    // With the way ahead taken, only the two hexes at its sides hold the distance.
    assert_eq!(open_steps(from, goal, &[a[0]]), (None, Some(a[1]), Some(a[2])));
    assert_eq!(open_steps(from, goal, &[a[0], a[1]]), (None, Some(a[5]), Some(a[2])));
    assert_eq!(open_steps(from, goal, &[a[0], a[1], a[5]]), (None, None, Some(a[2])));
    assert_eq!(
        open_steps(from, goal, &[a[1], a[2], a[3], a[4], a[5]]),
        (Some(a[0]), Some(a[0]), None)
    );
    assert_eq!(open_steps(from, goal, &a), (None, None, None));
    // Where no free hex is further from an enemy next door, there is no backing off.
    let mut t = TerrainMap::default();
    for h in [Hex::new(0, -1), Hex::new(-1, 0), Hex::new(-1, 1)] {
        t.set(h, Terrain::Mountain);
    }
    let enemy = Hex::new(1, 0);
    let mut idx = SpatialIndex::default();
    idx.reset(Some((1, 0, 1, 0)));
    idx.set(enemy, Entity(7), Team::Blue);
    assert_eq!(kite_step(from, enemy, &t, &idx, &Reserved::new()), None);
}

#[test]
fn the_field_has_the_cheapest_costs_and_leads_down() {
    let mut t = TerrainMap::default();
    for q in 24..=30 {
        t.set(Hex::new(q, 0), Terrain::Plains);
    }
    t.set(Hex::new(28, 0), Terrain::Forest);
    t.set(Hex::new(25, 0), Terrain::Hill);
    t.set(Hex::new(20, 0), Terrain::Plains);
    let field = integrate(&t, enemy_line(Team::Red));
    let costs: Vec<Option<u32>> = (23..=31).map(|q| field.get(Hex::new(q, 0))).collect();
    assert_eq!(
        costs,
        vec![None, Some(8), Some(6), Some(5), Some(4), Some(2), Some(1), Some(0), None]
    );
    assert_eq!(field.get(Hex::new(20, 0)), None, "cut off");
    let mut f = FlowField::default();
    f.red = Some(field);
    let (idx, reserved) = (SpatialIndex::default(), Reserved::new());
    assert_eq!(
        flow_step(&f, Team::Red, Hex::new(26, 0), &t, &idx, &reserved),
        Some(Hex::new(27, 0))
    );
    // Off the field a unit joins it; at the goal there is nowhere cheaper to go.
    assert_eq!(
        flow_step(&f, Team::Red, Hex::new(23, 0), &t, &idx, &reserved),
        Some(Hex::new(24, 0))
    );
    assert_eq!(flow_step(&f, Team::Red, Hex::new(30, 0), &t, &idx, &reserved), None);
    assert_eq!(flow_step(&f, Team::Blue, Hex::new(26, 0), &t, &idx, &reserved), None);
    t.set(Hex::new(30, 0), Terrain::Mountain);
    assert_eq!(integrate(&t, enemy_line(Team::Red)).get(Hex::new(29, 0)), None);
    // The cell that is left costs nothing, the one that is entered does.
    let mut edge = TerrainMap::default();
    edge.set(Hex::new(-30, 0), Terrain::Plains);
    edge.set(Hex::new(-29, 0), Terrain::Forest);
    let mut f = FlowField::default();
    build_flow_fields(&edge, &mut f);
    assert_eq!(f.blue.as_ref().unwrap().get(Hex::new(-29, 0)), Some(1));
    assert_eq!(f.blue.as_ref().unwrap().get(Hex::new(-30, 0)), Some(0));
    assert_eq!(own_line(Team::Red), enemy_line(Team::Blue));
}

#[test]
fn fields_are_built_once_there_is_terrain() {
    let mut w = World::new();
    step(&mut w);
    assert!(!w.field.built);
    w.terrain.set(Hex::new(29, 0), Terrain::Plains);
    step(&mut w);
    assert!(w.field.built);
    assert_eq!(w.field.red.as_ref().unwrap().get(Hex::new(29, 0)), Some(1));
    w.terrain.set(Hex::new(28, 0), Terrain::Plains);
    step(&mut w);
    assert_eq!(w.field.red.as_ref().unwrap().get(Hex::new(28, 0)), None);
}

#[test]
fn fronts_are_average_distances() {
    let mut w = World::new();
    for (q, group) in [(20, 1), (19, 1), (20, 2), (20, 2), (19, 2)] {
        w.spawn(unit(Team::Red, Kind::Infantry, Hex::new(q, 0), group));
    }
    w.spawn(unit(Team::Blue, Kind::Infantry, Hex::new(20, 0), 255));
    let mut f = Formations::default();
    build_formations(&w.units, &mut f);
    assert_eq!(f.front(Team::Red, 1).map(float), Some(10.5));
    assert_eq!(f.front(Team::Red, 2).map(float), Some(31.0f32 / 3.0));
    assert_eq!(f.front(Team::Blue, 255).map(float), Some(50.0));
    assert_eq!(f.front(Team::Blue, 1), None);
    assert_eq!(f.mean_dist.len(), 3);
    assert_eq!(float(cohesion_slack()), 4.0);
    assert_eq!(COHESION_SLACK, 4.0f32.to_bits());
}

#[test]
fn cohesion_waits_beyond_its_slack_only() {
    // The front of two units is halfway between them: 4 hexes ahead of it is still
    // in order, 4.5 is not.
    for (gap, waits) in [(8, false), (9, true)] {
        let mut w = World::new();
        let runner = w.spawn(unit(Team::Blue, Kind::Infantry, Hex::new(10, 0), 1));
        w.spawn(unit(Team::Blue, Kind::Infantry, Hex::new(10 + gap, 0), 1));
        step(&mut w);
        assert_eq!(w.get(runner).unwrap().hex == Hex::new(10, 0), waits, "gap {gap}");
    }
}

#[test]
fn paths_lead_around_and_end_where_they_should() {
    let (a, b) = (Hex::new(0, 0), Hex::new(3, 0));
    let mut t = TerrainMap::default();
    assert_eq!(
        a_star_path(a, b, &t),
        vec![Hex::new(3, 0), Hex::new(2, 0), Hex::new(1, 0)]
    );
    assert!(a_star_path(a, a, &t).is_empty());
    // A cheaper detour is taken over a costly straight way.
    t.set(Hex::new(1, 0), Terrain::Mountain);
    let steps = a_star_path(a, b, &t);
    assert_eq!(steps[0], b);
    assert_eq!(steps[steps.len() - 1].distance(a), 1);
    assert_eq!(steps.len(), 4);
    for k in 1..steps.len() {
        assert_eq!(steps[k].distance(steps[k - 1]), 1);
    }
    assert!(steps.iter().all(|h| t.get(*h).passable()));
    // Neither end may be impassable.
    t.set(b, Terrain::Water);
    assert!(a_star_path(a, b, &t).is_empty());
    assert!(a_star_path(b, a, &t).is_empty());
    // A walled-in start reaches nothing.
    let mut walled = TerrainMap::default();
    for n in a.neighbors() {
        walled.set(n, Terrain::Mountain);
    }
    assert!(a_star_path(a, b, &walled).is_empty());
    // Nor is a walled-in goal reached, from the open plane around it.
    let goal = Hex::new(5, 0);
    let mut fort = TerrainMap::default();
    for n in goal.neighbors() {
        fort.set(n, Terrain::Mountain);
    }
    assert!(a_star_path(a, goal, &fort).is_empty());
    assert!(a_star_path(goal, a, &fort).is_empty());
    assert!(!reaches(a, goal, &fort) && reaches(a, Hex::new(8, 0), &fort));
    assert!(reaches(goal, goal, &fort));
}

#[test]
fn paths_are_the_cheapest_there_are() {
    // A strip of forest with a gap two rows up: through it is two dearer steps less.
    let (a, b) = (Hex::new(0, 0), Hex::new(4, 0));
    let cost = |t: &TerrainMap, p: &[Hex]| p.iter().map(|h| t.get(*h).move_cost()).sum::<u64>();
    let mut t = TerrainMap::default();
    for r in -9..=9 {
        for q in 1..=3 {
            if r != -2 {
                t.set(Hex::new(q, r), Terrain::Forest);
            }
        }
    }
    assert_eq!(cost(&t, &a_star_path(a, b, &t)), 7);
    for r in -9..=9 {
        t.set(Hex::new(2, r), if r == 9 { Terrain::Hill } else { Terrain::Water });
    }
    let steps = a_star_path(a, b, &t);
    assert!(!steps.is_empty() && steps.iter().all(|h| t.get(*h).passable()));
    assert!(steps.iter().any(|h| h.q == 2 && (h.r < -9 || h.r >= 9)));
}

#[test]
fn a_walled_in_enemy_does_not_stop_the_battle() {
    let mut w = World::new();
    for n in Hex::new(5, 0).neighbors() {
        w.terrain.set(n, Terrain::Mountain);
    }
    let blue = w.spawn(unit(Team::Blue, Kind::Cavalry, Hex::new(0, 0), 1));
    let red = w.spawn(unit(Team::Red, Kind::Infantry, Hex::new(5, 0), 1));
    assert!(is_ready(&w, 30));
    run(&mut w, 30);
    assert_eq!(w.tick.0, 30);
    assert_eq!(w.get(red).unwrap().hex, Hex::new(5, 0));
    assert!(w.terrain.get(w.get(blue).unwrap().hex).passable());
}

#[test]
fn worlds_out_of_bounds_are_told() {
    let mut w = World::new();
    assert!(is_ready(&w, 0) && is_ready(&w, u32::MAX));
    w.spawn(unit(Team::Red, Kind::Infantry, Hex::new(100, -23000), 1));
    assert!(is_ready(&w, 0) && !is_ready(&w, 1) && !is_ready(&w, u32::MAX));
    w.units[0].path.goal = Hex::new(i32::MAX, 0);
    assert!(!is_ready(&w, 0), "a route that cannot be measured");
    w.units[0].path.goal = Hex::new(0, 0);
    w.units[0].path.steps.push(Hex::new(0, i32::MIN));
    assert!(!is_ready(&w, 0));
    w.units[0].path.steps.clear();
    w.terrain.set(Hex::new(100_000, 0), Terrain::Hill);
    assert!(is_ready(&w, 0), "passable ground may be anywhere");
    w.terrain.set(Hex::new(0, -3900), Terrain::Water);
    assert!(is_ready(&w, 0));
    w.terrain.set(Hex::new(0, -3901), Terrain::Water);
    assert!(!is_ready(&w, 0), "impassable ground too far out");
    w.terrain.set(Hex::new(0, -3901), Terrain::Plains);
    w.tick = Tick(u64::MAX - 6);
    assert!(is_ready(&w, 0) && !is_ready(&w, 1));
    w.terrain.set(Hex::new(i32::MAX, 0), Terrain::Plains);
    assert!(!is_ready(&w, 0), "a tile at the edge of the numbers");
}

#[test]
fn one_more_tick_is_asked_for_less() {
    let mut w = World::new();
    assert!(is_playable(&w));
    w.spawn(unit(Team::Red, Kind::Infantry, Hex::new(100_000, 5), 1));
    assert!(is_playable(&w) && !is_ready(&w, 0));
    w.spawn(unit(Team::Red, Kind::Infantry, Hex::new(-100_000, 40_000), 1));
    assert!(!is_playable(&w), "no table covers that");
    w.units[1].hex = Hex::new(100_001, i32::MAX);
    assert!(!is_playable(&w), "off the field");
    w.units[1].hex = Hex::new(100_001, 5);
    assert!(is_playable(&w));
    play(&mut w);
    w.terrain.set(Hex::new(5000, 0), Terrain::Mountain);
    assert!(!is_playable(&w));
}

#[test]
fn a_run_is_its_ticks_and_keeps_what_they_keep() {
    let build = || {
        let mut w = World::new();
        for r in -3..=3 {
            w.terrain.set(Hex::new(0, r), Terrain::Mountain);
        }
        for r in -4..=4 {
            w.spawn(unit(Team::Red, Kind::Cavalry, Hex::new(-3, r), 1));
            w.spawn(unit(Team::Blue, Kind::Infantry, Hex::new(3, r), 2));
        }
        w
    };
    let (mut a, mut b) = (build(), build());
    // What an earlier tick left behind does not matter.
    b.damage.set(Entity(3), single(1e9));
    b.moved.insert(Entity(5));
    run(&mut a, 60);
    for _ in 0..60 {
        step(&mut b);
    }
    let rows = |w: &World| -> Vec<(u64, i32, i32, u32)> {
        w.units.iter().map(|u| (u.entity.0, u.hex.q, u.hex.r, u.health.0.bits)).collect()
    };
    assert_eq!(rows(&a), rows(&b));
    let places: HashSet<(i32, i32)> = a.units.iter().map(|u| (u.hex.q, u.hex.r)).collect();
    assert_eq!(places.len(), a.units.len());
    for u in &a.units {
        assert_eq!(u.team == Team::Red, u.entity.0 % 2 == 0);
        assert_eq!((u.kind == Kind::Cavalry, u.group.0), (u.team == Team::Red, 1 + (u.entity.0 % 2) as u8));
        let h = float(u.health.0);
        assert!(0.0 < h && h <= float(max_hp(u.kind)));
        assert!(a.terrain.get(u.hex).passable());
    }
}

#[test]
fn routes_are_kept_until_they_are_outdated() {
    let t = TerrainMap::default();
    let a = Hex::new(0, 0);
    let mut cache = PathCache::default();
    assert_eq!(cached_step(a, Hex::new(3, 0), &t, 1, &mut cache), Some(Hex::new(1, 0)));
    assert_eq!((cache.goal, cache.stale_at), (Hex::new(3, 0), 6));
    // The goal may drift by two hexes.
    assert_eq!(cached_step(a, Hex::new(5, 0), &t, 2, &mut cache), Some(Hex::new(1, 0)));
    assert_eq!((cache.goal, cache.stale_at), (Hex::new(3, 0), 6));
    assert_eq!(cached_step(a, Hex::new(6, 0), &t, 3, &mut cache), Some(Hex::new(1, 0)));
    assert_eq!((cache.goal, cache.stale_at), (Hex::new(6, 0), 8));
    // Off the route, and out of time, it is planned anew.
    assert_eq!(
        cached_step(Hex::new(0, -3), Hex::new(6, -3), &t, 4, &mut cache),
        Some(Hex::new(1, -3))
    );
    assert_eq!(cache.stale_at, 9);
    assert_eq!(
        cached_step(Hex::new(0, -3), Hex::new(6, -3), &t, 9, &mut cache),
        Some(Hex::new(1, -3))
    );
    assert_eq!(cache.stale_at, 14);
    assert!(Hex::new(0, 0).off_route(None));
    assert!(Hex::new(0, 0).off_route(Some(Hex::new(2, 0))));
    assert!(!Hex::new(0, 0).off_route(Some(Hex::new(0, 1))));
}

#[test]
fn rest_after_a_move_depends_on_kind_order_and_ground() {
    for (kind, order, ground, due) in [
        (Kind::Infantry, Order::March, Terrain::Plains, 3),
        (Kind::Infantry, Order::March, Terrain::Forest, 5),
        (Kind::Infantry, Order::Charge, Terrain::Hill, 3),
        (Kind::Cavalry, Order::March, Terrain::Plains, 2),
        (Kind::Skirmisher, Order::Retreat, Terrain::Forest, 3),
    ] {
        let mut w = World::new();
        w.orders.set(Team::Blue, 1, order);
        let from = Hex::new(10, 0);
        for n in from.neighbors() {
            w.terrain.set(n, ground);
        }
        let e = w.spawn(unit(Team::Blue, kind, from, 1));
        step(&mut w);
        let u = w.get(e).unwrap();
        assert_eq!(u.hex.distance(from), 1, "{kind:?} {order:?}");
        assert_eq!(u.next_move.0, due, "{kind:?} {order:?} {ground:?}");
        // Until then it stays.
        let at = u.hex;
        for _ in 2..due {
            step(&mut w);
            assert_eq!(w.get(e).unwrap().hex, at);
        }
        step(&mut w);
        assert_ne!(w.get(e).unwrap().hex, at);
    }
}

#[test]
fn idle_and_engaged_units_stay() {
    let mut w = World::new();
    w.orders.set(Team::Red, 2, Order::Idle);
    let idle = w.spawn(unit(Team::Red, Kind::Cavalry, Hex::new(-9, 0), 2));
    let engaged = w.spawn(unit(Team::Red, Kind::Infantry, Hex::new(0, 0), 1));
    w.spawn(unit(Team::Blue, Kind::Infantry, Hex::new(1, 0), 1));
    step(&mut w);
    assert_eq!(w.get(idle).unwrap().hex, Hex::new(-9, 0));
    assert_eq!(w.get(engaged).unwrap().hex, Hex::new(0, 0));
}

#[test]
fn skirmishers_back_off_within_two_hexes_only() {
    assert_eq!(KITE_THRESHOLD, 2);
    for (q, comes_closer) in [(2, false), (3, true)] {
        let mut w = World::new();
        w.orders.set(Team::Blue, 1, Order::Hold);
        let sk = w.spawn(unit(Team::Red, Kind::Skirmisher, Hex::new(0, 0), 1));
        w.spawn(unit(Team::Blue, Kind::Infantry, Hex::new(q, 0), 1));
        step(&mut w);
        let d = w.get(sk).unwrap().hex.distance(Hex::new(q, 0));
        assert_eq!(d < q, comes_closer, "enemy {q} away, now {d}");
    }
}

#[test]
fn nobody_takes_a_hex_that_another_took_first() {
    // Both want the only free hex between them.
    let mut w = World::new();
    let a = w.spawn(unit(Team::Blue, Kind::Cavalry, Hex::new(10, 0), 1));
    let b = w.spawn(unit(Team::Blue, Kind::Cavalry, Hex::new(10, -1), 1));
    step(&mut w);
    let (ha, hb) = (w.get(a).unwrap().hex, w.get(b).unwrap().hex);
    assert_ne!(ha, hb);
    assert!(w.moved.contains(a));
}

#[test]
fn handles_are_unique_and_found_again() {
    let mut w = World::new();
    let a = w.spawn(unit(Team::Red, Kind::Infantry, Hex::new(0, 0), 1));
    let b = w.spawn(unit(Team::Blue, Kind::Cavalry, Hex::new(4, 0), 2));
    assert_ne!(a, b);
    assert_eq!(w.get(a).unwrap().kind, Kind::Infantry);
    assert_eq!(w.get(b).unwrap().group.0, 2);
    assert!(w.get(Entity(99)).is_none());
    w.set_health(b, single(3.25));
    assert_eq!(hp(&w, b), 3.25);
    w.set_health(Entity(99), single(1.0));
    assert_eq!((w.count(Team::Red), w.count(Team::Blue)), (1, 1));
    let fresh = w.get(a).unwrap();
    assert_eq!(fresh.next_move.0, NextMove::default().0);
    assert_eq!(fresh.anim, AnimState::default());
    assert!(fresh.path.steps.is_empty());
    assert_eq!(Health::default().0.bits, 0);
}

#[test]
fn a_tick_starts_clean() {
    let (mut tick, mut dmg) = (Tick(41), DamageBuffer::default());
    let (mut events, mut moved) = (BattleEvents::default(), MovedThisTick::default());
    dmg.set(Entity(1), single(5.0));
    moved.insert(Entity(1));
    tick_and_clear(&mut tick, &mut dmg, &mut events, &mut moved);
    assert_eq!(tick.0, 42);
    assert!(dmg.get(Entity(1)).is_none());
    assert!(!moved.contains(Entity(1)));
    assert!(events.attacks.is_empty() && events.deaths.is_empty());
}

#[test]
fn the_opponent_weighs_strength_and_contact() {
    let army = |blues: i32, reds: i32, contact: bool| {
        let mut w = World::new();
        for i in 0..blues {
            w.spawn(unit(Team::Blue, Kind::Infantry, Hex::new(0, 2 * i), 1));
        }
        for i in 0..reds {
            let q = if contact { 1 } else { 12 };
            w.spawn(unit(Team::Red, Kind::Infantry, Hex::new(q, 2 * i), 1));
        }
        build_spatial_index(&w.units, &mut w.index);
        enemy_ai(&w.units, &w.index, &mut w.orders);
        w.orders.get(Team::Blue, 1)
    };
    assert_eq!(army(2, 5, true), Order::Retreat);
    assert_eq!(army(3, 5, true), Order::Hold);
    assert_eq!(army(5, 5, true), Order::Charge);
    assert_eq!(army(5, 4, true), Order::Unleash);
    assert_eq!(army(5, 4, false), Order::March);
    assert_eq!(army(5, 0, false), Order::March);
    assert_eq!(ai_order(u32::MAX, u32::MAX, 1), Order::Charge);
}

#[test]
fn the_opponent_commands_blue_in_play() {
    let mut w = World::new();
    w.spawn(unit(Team::Blue, Kind::Infantry, Hex::new(3, 0), 1));
    for r in 0..3 {
        w.spawn(unit(Team::Red, Kind::Infantry, Hex::new(-3, r), 1));
    }
    play(&mut w);
    assert_eq!(w.orders.get(Team::Blue, 1), Order::Retreat);
    assert_eq!(w.tick.0, 1);
    // Without the opponent the orders are left alone.
    let mut v = World::new();
    v.spawn(unit(Team::Blue, Kind::Infantry, Hex::new(3, 0), 1));
    v.spawn(unit(Team::Red, Kind::Infantry, Hex::new(-3, 0), 1));
    step(&mut v);
    assert_eq!(v.orders.get(Team::Blue, 1), Order::March);
}

#[test]
fn a_later_unit_hides_an_earlier_one_on_its_hex() {
    let mut w = World::new();
    w.spawn(unit(Team::Red, Kind::Infantry, Hex::new(2, 2), 1));
    let top = w.spawn(unit(Team::Blue, Kind::Infantry, Hex::new(2, 2), 1));
    build_spatial_index(&w.units, &mut w.index);
    assert_eq!(w.index.at(Hex::new(2, 2)), Some((top, Team::Blue)));
    assert!(w.index.engaged(Hex::new(1, 2), Team::Red));
    assert!(!w.index.engaged(Hex::new(1, 2), Team::Blue));
}
