//! Orders by team and group, and the opponent that gives its own.

use crate::index::{engages, SpatialIndex};
use crate::unit::{fielded, roster, Order, Team, Unit, UnitView};
use std::collections::HashMap;
use vstd::prelude::*;

verus! {

broadcast use vstd::std_specs::hash::group_hash_axioms;

/// The key of a group in the tables that are indexed by group.
pub open spec fn spec_rank(team: Team, group: u8) -> u32 {
    if team == Team::Red {
        group as u32
    } else {
        (group + 256) as u32
    }
}

/// The key of a group in the tables that are indexed by group.
pub fn rank(team: Team, group: u8) -> (k: u32)
    ensures
        k == spec_rank(team, group),
{
    match team {
        Team::Red => group as u32,
        Team::Blue => group as u32 + 256,
    }
}

/// A table keyed by rank, read as a map from groups.
#[verifier::opaque]
pub open spec fn by_group<V>(m: Map<u32, V>) -> Map<(Team, u8), V> {
    Map::new(
        |g: (Team, u8)| m.contains_key(spec_rank(g.0, g.1)),
        |g: (Team, u8)| m[spec_rank(g.0, g.1)],
    )
}

pub proof fn lemma_by_group_get<V>(m: Map<u32, V>, team: Team, group: u8)
    ensures
        by_group(m).contains_key((team, group)) == m.contains_key(spec_rank(team, group)),
        m.contains_key(spec_rank(team, group)) ==> by_group(m)[(team, group)] == m[spec_rank(
            team,
            group,
        )],
{
    reveal(by_group);
}

pub proof fn lemma_by_group_empty<V>()
    ensures
        by_group(Map::<u32, V>::empty()) == Map::<(Team, u8), V>::empty(),
{
    reveal(by_group);
    assert(by_group(Map::<u32, V>::empty()) =~= Map::<(Team, u8), V>::empty());
}

pub proof fn lemma_by_group_insert<V>(m: Map<u32, V>, team: Team, group: u8, v: V)
    ensures
        by_group(m.insert(spec_rank(team, group), v)) == by_group(m).insert((team, group), v),
{
    reveal(by_group);
    assert(by_group(m.insert(spec_rank(team, group), v)) =~= by_group(m).insert(
        (team, group),
        v,
    ));
}

/// The order in force for a group; groups without one march.
pub open spec fn order_of(m: Map<(Team, u8), Order>, team: Team, group: u8) -> Order {
    if m.contains_key((team, group)) {
        m[(team, group)]
    } else {
        Order::March
    }
}

/// Orders by team and group.
#[derive(Debug)]
pub struct Orders(pub HashMap<u32, Order>);

impl View for Orders {
    type V = Map<(Team, u8), Order>;

    open spec fn view(&self) -> Map<(Team, u8), Order> {
        by_group(self.0@)
    }
}

impl Default for Orders {
    fn default() -> (o: Orders)
        ensures
            o@ == Map::<(Team, u8), Order>::empty(),
    {
        proof {
            lemma_by_group_empty::<Order>();
        }
        Orders(HashMap::new())
    }
}

impl Orders {
    pub fn get(&self, team: Team, group: u8) -> (o: Order)
        ensures
            o == order_of(self@, team, group),
    {
        proof {
            lemma_by_group_get(self.0@, team, group);
        }
        match self.0.get(&rank(team, group)) {
            Some(o) => *o,
            None => Order::March,
        }
    }

    pub fn set(&mut self, team: Team, group: u8, order: Order)
        ensures
            final(self)@ == old(self)@.insert((team, group), order),
    {
        proof {
            lemma_by_group_insert(self.0@, team, group, order);
        }
        self.0.insert(rank(team, group), order);
    }
}

/// The army-level order for `own` units against `foe`, `engaged` of them in
/// contact: fall back under half the enemy's strength, defend under four fifths,
/// and in contact hold, charge at even strength, and go all out from five to four.
pub open spec fn balance(own: int, foe: int, engaged: int) -> Order {
    if foe == 0 {
        Order::March
    } else if 2 * own < foe {
        Order::Retreat
    } else if 5 * own < 4 * foe {
        Order::Hold
    } else if engaged == 0 {
        Order::March
    } else if 4 * own >= 5 * foe {
        Order::Unleash
    } else if own >= foe {
        Order::Charge
    } else {
        Order::Hold
    }
}

/// Army-level order from the current force balance.
pub fn ai_order(own: u32, foe: u32, engaged: u32) -> (o: Order)
    ensures
        o == balance(own as int, foe as int, engaged as int),
{
    // The products need more than 32 bits.
    let own64: u64 = own as u64;
    let foe64: u64 = foe as u64;
    if foe64 == 0 {
        Order::March
    } else if own64 * 2 < foe64 {
        Order::Retreat
    } else if own64 * 5 < foe64 * 4 {
        Order::Hold
    } else if engaged > 0 && own64 * 4 >= foe64 * 5 {
        Order::Unleash
    } else if engaged > 0 && own64 >= foe64 {
        Order::Charge
    } else if engaged > 0 {
        Order::Hold
    } else {
        Order::March
    }
}

/// How committed an order of an army in contact is.
pub open spec fn aggression(o: Order) -> int {
    match o {
        Order::Retreat => 0,
        Order::Hold => 1,
        Order::Charge => 2,
        Order::Unleash => 3,
        _ => -1,
    }
}

/// In contact with an enemy, more strength never makes the army less aggressive,
/// and it never just marches or idles.
pub proof fn law_strength_never_lowers_aggression(
    own: int,
    more: int,
    foe: int,
    engaged: int,
)
    requires
        0 <= own <= more,
        foe > 0,
        engaged > 0,
    ensures
        0 <= aggression(balance(own, foe, engaged)) <= aggression(balance(more, foe, engaged)),
{
}

/// With nobody left to fight the army advances, and out of contact it never
/// attacks.
pub proof fn law_no_contact_no_attack(own: int, foe: int, engaged: int)
    requires
        own >= 0,
        foe >= 0,
    ensures
        foe == 0 ==> balance(own, foe, engaged) == Order::March,
        engaged == 0 ==> balance(own, foe, engaged) != Order::Charge && balance(own, foe, engaged)
            != Order::Unleash,
{
}

/// What is set is what is read back, for that group and for no other.
pub proof fn law_orders_read_back(
    m: Map<(Team, u8), Order>,
    team: Team,
    group: u8,
    order: Order,
    t: Team,
    g: u8,
)
    ensures
        order_of(m.insert((team, group), order), team, group) == order,
        (t, g) != (team, group) ==> order_of(m.insert((team, group), order), t, g) == order_of(
            m,
            t,
            g,
        ),
        order_of(Map::empty(), t, g) == Order::March,
{
}

/// How many of a row of units are of a team.
pub open spec fn strength(units: Seq<UnitView>, team: Team) -> nat
    decreases units.len(),
{
    if units.len() == 0 {
        0
    } else {
        let rest = strength(units.drop_last(), team);
        if units.last().team == team {
            rest + 1
        } else {
            rest
        }
    }
}

/// How many of a row of units are of a team and touch an enemy.
pub open spec fn contacts(
    units: Seq<UnitView>,
    occupied: Map<crate::hex::Hex, (crate::unit::Entity, Team)>,
    team: Team,
) -> nat
    decreases units.len(),
{
    if units.len() == 0 {
        0
    } else {
        let rest = contacts(units.drop_last(), occupied, team);
        if units.last().team == team && engages(occupied, units.last().hex, team) {
            rest + 1
        } else {
            rest
        }
    }
}

/// Sets Blue's orders from the battle state.
pub fn enemy_ai(units: &Vec<Unit>, idx: &SpatialIndex, orders: &mut Orders)
    requires
        units@.len() <= u32::MAX,
        fielded(roster(units@)),
        idx.wf(),
        idx.covers_field(),
    ensures
        final(orders)@ == old(orders)@.insert(
            (Team::Blue, 1u8),
            balance(
                strength(roster(units@), Team::Blue) as int,
                strength(roster(units@), Team::Red) as int,
                contacts(roster(units@), idx@, Team::Blue) as int,
            ),
        ),
{
    let ghost all = roster(units@);
    let mut own: u32 = 0;
    let mut foe: u32 = 0;
    let mut engaged: u32 = 0;
    let mut i: usize = 0;
    assert(all.take(0) =~= Seq::empty());
    while i < units.len()
        invariant
            i <= units@.len() <= u32::MAX,
            all == roster(units@),
            fielded(all),
            idx.wf(),
            idx.covers_field(),
            own == strength(all.take(i as int), Team::Blue),
            foe == strength(all.take(i as int), Team::Red),
            engaged == contacts(all.take(i as int), idx@, Team::Blue),
            own <= i,
            foe <= i,
            engaged <= i,
        decreases units@.len() - i,
    {
        assert(all.take(i + 1).drop_last() =~= all.take(i as int));
        assert(all.take(i + 1).last() == units@[i as int]@);
        assert(all[i as int].hex.in_field());
        match units[i].team {
            Team::Blue => {
                own = own + 1;
                if idx.engaged(units[i].hex, Team::Blue) {
                    engaged = engaged + 1;
                }
            },
            Team::Red => {
                foe = foe + 1;
            },
        }
        i = i + 1;
    }
    assert(all.take(i as int) =~= all);
    orders.set(Team::Blue, 1, ai_order(own, foe, engaged));
}

} // verus!
