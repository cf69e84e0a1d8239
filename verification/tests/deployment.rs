//! The set piece and its controls.

use sim_core::deploy::{control, kind_for, log_status, new_battle, ARMY_COLS};
use sim_core::{play, Hex, Kind, Order, Orders, Team, Terrain, World};
use std::collections::HashSet;

#[test]
fn cavalry_leads_and_skirmishers_follow() {
    let row = |cols: i32| (0..cols).map(|c| kind_for(c, cols)).collect::<Vec<Kind>>();
    let kinds = row(ARMY_COLS);
    assert!(kinds[..7].iter().all(|k| *k == Kind::Cavalry));
    assert!(kinds[7..21].iter().all(|k| *k == Kind::Infantry));
    assert!(kinds[21..].iter().all(|k| *k == Kind::Skirmisher));
    assert_eq!(row(3), vec![Kind::Infantry, Kind::Infantry, Kind::Skirmisher]);
    // Quotients drop what is left over, below zero too.
    assert_eq!(kind_for(-2, -7), Kind::Cavalry);
    assert_eq!(kind_for(-1, -7), Kind::Skirmisher);
    assert_eq!(kind_for(0, 0), Kind::Skirmisher);
}

#[test]
fn armies_mirror_each_other_on_levelled_ground() {
    let w = new_battle();
    assert_eq!(w.units.len(), 3024);
    assert_eq!(w.terrain.tiles.len(), 81 * 69);
    assert_eq!((w.count(Team::Red), w.count(Team::Blue)), (1512, 1512));
    let mut seen: HashSet<Hex> = HashSet::new();
    for pair in w.units.chunks(2) {
        let (red, blue) = (&pair[0], &pair[1]);
        assert_eq!((red.team, blue.team), (Team::Red, Team::Blue));
        assert_eq!(red.kind, blue.kind);
        assert_eq!((-red.hex.q, red.hex.r), (blue.hex.q, blue.hex.r));
        for u in pair {
            assert_eq!(w.terrain.get(u.hex), Terrain::Plains);
            assert!(seen.insert(u.hex));
            assert_eq!(u.group.0, 1);
        }
    }
    assert_eq!(w.units[0].hex, Hex::new(-7, -27));
    assert_eq!(w.units[0].kind, Kind::Cavalry);
    assert_eq!(w.units[3023].hex, Hex::new(34, 26));
    assert_eq!(w.units[3023].kind, Kind::Skirmisher);
}

#[test]
fn the_set_piece_plays() {
    let mut w = new_battle();
    let mut left = w.units.len();
    for _ in 0..8 {
        play(&mut w);
        assert!(w.units.len() <= left);
        left = w.units.len();
        let hexes: HashSet<Hex> = w.units.iter().map(|u| u.hex).collect();
        assert_eq!(hexes.len(), left, "one unit to a hex");
        assert!(w.units.iter().all(|u| w.terrain.get(u.hex).passable()));
    }
    assert_eq!(w.tick.0, 8);
}

#[test]
fn keys_command_red() {
    let press = |keys: [bool; 5]| {
        let mut o = Orders::default();
        o.set(Team::Red, 1, Order::Idle);
        let given = control(keys, &mut o);
        let last = o.get(Team::Red, 1);
        assert_eq!(given.last().copied().unwrap_or(Order::Idle), last);
        assert_eq!(given.len(), keys.iter().filter(|k| **k).count());
        last
    };
    let all = [Order::March, Order::Charge, Order::Hold, Order::Retreat, Order::Unleash];
    for k in 0..5 {
        let mut keys = [false; 5];
        keys[k] = true;
        assert_eq!(press(keys), all[k]);
    }
    assert_eq!(press([false; 5]), Order::Idle);
    assert_eq!(press([true, false, true, false, false]), Order::Hold);
}

#[test]
fn the_status_comes_every_fourth_tick() {
    let mut w = new_battle();
    w.orders.set(Team::Red, 1, Order::Hold);
    let s = log_status(&w).expect("tick 0");
    assert_eq!((s.tick, s.red, s.blue), (0, 1512, 1512));
    assert_eq!((s.red_order, s.blue_order), (Order::Hold, Order::March));
    let mut empty = World::new();
    for t in 1..=4 {
        play(&mut empty);
        assert_eq!(log_status(&empty).is_some(), t == 4);
    }
}
