//! Formations: how far the groups have advanced.

use crate::flow::{enemy_line, spec_enemy_line};
use crate::hex::{dist, lemma_measurable, Hex};
use crate::orders::{
    by_group, lemma_by_group_empty, lemma_by_group_get, lemma_by_group_insert, rank, spec_rank,
};
use crate::single::{
    lemma_nearest_multiple, lemma_of_int_within, lemma_quotient_within, lemma_rounded_order,
    lemma_sum_within, lemma_val_representable, Single,
};
use crate::unit::{fielded, roster, Team, Unit, UnitView};
use std::collections::HashMap;
use vstd::arithmetic::power2::{lemma2_to64, lemma_pow2_pos, pow2};
use vstd::prelude::*;

verus! {

broadcast use vstd::std_specs::hash::group_hash_axioms;

/// The pattern of [`cohesion_slack`].
pub const COHESION_SLACK: u32 = 0x4080_0000;

/// How far ahead of its group's front a unit may get before it waits: 4 hexes.
pub fn cohesion_slack() -> (r: Single)
    ensures
        r == Single::spec_of_int(4),
        r.bits == COHESION_SLACK,
{
    proof {
        lemma2_to64();
        crate::single::lemma_fraction(4, 1, 0x80_0000, 128, 0);
        assert(Single::fraction(4, 1) == Single::spec_of_int(4));
    }
    Single { bits: COHESION_SLACK }
}

/// How many of the units are in a group.
pub open spec fn headcount(units: Seq<UnitView>, team: Team, group: u8) -> nat
    decreases units.len(),
{
    if units.len() == 0 {
        0
    } else {
        let rest = headcount(units.drop_last(), team, group);
        if units.last().team == team && units.last().group == group {
            rest + 1
        } else {
            rest
        }
    }
}

/// The sum of the distances of a group's units to their enemy line.
pub open spec fn shortfall(units: Seq<UnitView>, team: Team, group: u8) -> int
    decreases units.len(),
{
    if units.len() == 0 {
        0
    } else {
        let rest = shortfall(units.drop_last(), team, group);
        if units.last().team == team && units.last().group == group {
            rest + dist(units.last().hex, spec_enemy_line(team))
        } else {
            rest
        }
    }
}

/// The average of `count` distances that add up to `total`.
pub open spec fn mean(total: int, count: nat) -> Single {
    Single::spec_of_int(total).spec_div(Single::spec_of_int(count as int))
}

/// The front of every group that has units: their average distance to the enemy
/// line.
pub open spec fn fronts(units: Seq<UnitView>) -> Map<(Team, u8), Single> {
    Map::new(
        |g: (Team, u8)| headcount(units, g.0, g.1) > 0,
        |g: (Team, u8)| mean(shortfall(units, g.0, g.1), headcount(units, g.0, g.1)),
    )
}

/// The fronts of the groups.
#[derive(Debug)]
pub struct Formations {
    pub mean_dist: HashMap<u32, Single>,
}

impl View for Formations {
    type V = Map<(Team, u8), Single>;

    open spec fn view(&self) -> Map<(Team, u8), Single> {
        by_group(self.mean_dist@)
    }
}

impl Default for Formations {
    fn default() -> (f: Formations)
        ensures
            f@ == Map::<(Team, u8), Single>::empty(),
    {
        proof {
            lemma_by_group_empty::<Single>();
        }
        Formations { mean_dist: HashMap::new() }
    }
}

impl Formations {
    /// Average distance to the enemy line of a group, or `None` if it has no units.
    pub fn front(&self, team: Team, group: u8) -> (f: Option<Single>)
        ensures
            f is Some <==> self@.contains_key((team, group)),
            f matches Some(s) ==> self@[(team, group)] == s,
    {
        proof {
            lemma_by_group_get(self.mean_dist@, team, group);
        }
        match self.mean_dist.get(&rank(team, group)) {
            Some(s) => Some(*s),
            None => None,
        }
    }
}

/// The team and the group of a rank.
pub open spec fn spec_unrank(k: int) -> (Team, u8) {
    if k < 256 {
        (Team::Red, k as u8)
    } else {
        (Team::Blue, (k - 256) as u8)
    }
}

fn unrank(k: usize) -> (g: (Team, u8))
    requires
        k < 512,
    ensures
        g == spec_unrank(k as int),
        spec_rank(g.0, g.1) == k,
{
    if k < 256 {
        (Team::Red, k as u8)
    } else {
        (Team::Blue, (k - 256) as u8)
    }
}

fn average(total: i64, count: u32) -> (m: Single)
    requires
        count > 0,
    ensures
        m == mean(total as int, count as nat),
{
    proof {
        lemma2_to64();
        lemma_pow2_pos(149);
        lemma_of_int_within(total as int, 64);
        lemma_of_int_within(count as int, 64);
        lemma_quotient_within(
            Single::spec_of_int(total as int),
            Single::spec_of_int(count as int),
            64,
        );
    }
    Single::of_int(total).div(Single::of_int(count as i64))
}

/// What the tallies of the ranks hold after some units.
spec fn tallied(sum: Seq<(i64, u32)>, units: Seq<UnitView>) -> bool {
    &&& sum.len() == 512
    &&& forall|k: int|
        0 <= k < 512 ==> {
            let g = spec_unrank(k);
            &&& (#[trigger] sum[k]).0 == shortfall(units, g.0, g.1)
            &&& sum[k].1 == headcount(units, g.0, g.1)
        }
}

proof fn lemma_tally_bounds(units: Seq<UnitView>, team: Team, group: u8)
    requires
        fielded(units),
    ensures
        headcount(units, team, group) <= units.len(),
        0 <= shortfall(units, team, group) <= units.len() * 0x2000_0000,
    decreases units.len(),
{
    if units.len() > 0 {
        let before = units.drop_last();
        assert forall|i: int| 0 <= i < before.len() implies (#[trigger] before[i]).hex.in_field() by {
            assert(units[i].hex.in_field());
        }
        lemma_tally_bounds(before, team, group);
        assert(units[units.len() - 1].hex.in_field());
    }
}

/// Computes the front of every group from where its units stand.
pub fn build_formations(units: &Vec<Unit>, formations: &mut Formations)
    requires
        units@.len() <= u32::MAX,
        fielded(roster(units@)),
    ensures
        final(formations)@ == fronts(roster(units@)),
{
    let ghost all = roster(units@);
    let mut sum: Vec<(i64, u32)> = Vec::new();
    let mut k: usize = 0;
    while k < 512
        invariant
            k <= 512,
            sum@.len() == k,
            forall|j: int| 0 <= j < k ==> #[trigger] sum@[j] == (0i64, 0u32),
        decreases 512 - k,
    {
        sum.push((0, 0));
        k = k + 1;
    }
    let mut i: usize = 0;
    assert(all.take(0) =~= Seq::empty());
    while i < units.len()
        invariant
            i <= units@.len() <= u32::MAX,
            all == roster(units@),
            fielded(all),
            tallied(sum@, all.take(i as int)),
        decreases units@.len() - i,
    {
        let ghost before = all.take(i as int);
        let ghost after = all.take(i + 1);
        let hex: Hex = units[i].hex;
        let team: Team = units[i].team;
        let group: u8 = units[i].group.0;
        proof {
            assert(after.drop_last() =~= before);
            assert(after.last() == units@[i as int]@);
            assert(all[i as int].hex.in_field());
            lemma_measurable(hex, spec_enemy_line(team));
            assert forall|j: int| 0 <= j < before.len() implies (#[trigger] before[j]).hex.in_field() by {
                assert(all[j].hex.in_field());
            }
            lemma_tally_bounds(before, team, group);
        }
        let d: i64 = hex.distance(enemy_line(team)) as i64;
        let k: usize = rank(team, group) as usize;
        assert(spec_unrank(k as int) == (team, group));
        let (total, count): (i64, u32) = sum[k];
        sum.set(k, (total + d, count + 1));
        proof {
            assert forall|j: int| 0 <= j < 512 implies ({
                let g = spec_unrank(j);
                &&& (#[trigger] sum@[j]).0 == shortfall(after, g.0, g.1)
                &&& sum@[j].1 == headcount(after, g.0, g.1)
            }) by {
                let g = spec_unrank(j);
                assert(spec_rank(g.0, g.1) == j);
            }
        }
        i = i + 1;
    }
    assert(all.take(i as int) =~= all);
    formations.mean_dist.clear();
    proof {
        lemma_by_group_empty::<Single>();
        assert(by_group(formations.mean_dist@) =~= Map::empty());
    }
    let mut k: usize = 0;
    while k < 512
        invariant
            k <= 512,
            tallied(sum@, all),
            forall|g: (Team, u8)| #[trigger]
                formations@.contains_key(g) <==> headcount(all, g.0, g.1) > 0 && spec_rank(
                    g.0,
                    g.1,
                ) < k,
            forall|g: (Team, u8)| #[trigger]
                formations@.contains_key(g) ==> formations@[g] == mean(
                    shortfall(all, g.0, g.1),
                    headcount(all, g.0, g.1),
                ),
        decreases 512 - k,
    {
        let (total, count): (i64, u32) = sum[k];
        let (team, group): (Team, u8) = unrank(k);
        let ghost before = formations@;
        assert(sum@[k as int].1 == headcount(all, team, group));
        assert(sum@[k as int].0 == shortfall(all, team, group));
        if count > 0 {
            let m: Single = average(total, count);
            proof {
                lemma_by_group_insert(formations.mean_dist@, team, group, m);
            }
            formations.mean_dist.insert(k as u32, m);
            assert(formations@ == before.insert((team, group), m));
        }
        assert forall|g: (Team, u8)| #[trigger] formations@.contains_key(g) <==> headcount(
            all,
            g.0,
            g.1,
        ) > 0 && spec_rank(g.0, g.1) < k + 1 by {
            assert(before.contains_key(g) <==> headcount(all, g.0, g.1) > 0 && spec_rank(g.0, g.1)
                < k);
            if spec_rank(g.0, g.1) == k {
                assert(g == (team, group));
            }
        }
        assert forall|g: (Team, u8)| #[trigger] formations@.contains_key(g) implies formations@[g]
            == mean(shortfall(all, g.0, g.1), headcount(all, g.0, g.1)) by {
            if g != (team, group) {
                assert(before.contains_key(g));
            }
        }
        k = k + 1;
    }
    proof {
        assert forall|g: (Team, u8)| spec_rank(g.0, g.1) < 512 by {}
        assert(formations@ =~= fronts(all));
    }
}

/// A unit on `from` is further ahead of its group's front than cohesion allows.
pub open spec fn ahead(from: Hex, team: Team, front: Single) -> bool {
    Single::spec_of_int(dist(from, spec_enemy_line(team))).spec_add(
        Single::spec_of_int(4),
    ).spec_below(front)
}

/// Whether a unit on `from` has outrun its group's front.
pub fn outruns(from: Hex, team: Team, front: Single) -> (b: bool)
    requires
        from.in_field(),
    ensures
        b == ahead(from, team, front),
{
    proof {
        lemma_measurable(from, spec_enemy_line(team));
        lemma2_to64();
        lemma_of_int_within(dist(from, spec_enemy_line(team)), 32);
        lemma_of_int_within(4, 32);
        lemma_sum_within(
            Single::spec_of_int(dist(from, spec_enemy_line(team))).val(),
            Single::spec_of_int(4).val(),
            32,
        );
    }
    let my_dist: Single = Single::of_int(from.distance(enemy_line(team)) as i64);
    my_dist.add(cohesion_slack()).below(front)
}

/// A unit that is all of its group never waits for it.
pub proof fn law_lone_unit_never_waits(units: Seq<UnitView>, i: int)
    requires
        0 <= i < units.len(),
        units[i].hex.in_field(),
        headcount(units, units[i].team, units[i].group) == 1,
    ensures
        fronts(units).contains_key((units[i].team, units[i].group)),
        !ahead(units[i].hex, units[i].team, fronts(units)[(units[i].team, units[i].group)]),
{
    let u = units[i];
    let d = dist(u.hex, spec_enemy_line(u.team));
    lemma_lone(units, i);
    lemma_measurable(u.hex, spec_enemy_line(u.team));
    lemma2_to64();
    lemma_pow2_pos(149);
    let sd = Single::spec_of_int(d);
    let one = Single::spec_of_int(1);
    let four = Single::spec_of_int(4);
    lemma_of_int_within(d, 32);
    lemma_of_int_within(1, 32);
    lemma_of_int_within(4, 32);
    crate::single::lemma_small_int(1);
    crate::single::lemma_small_int(4);
    assert(1 * pow2(149) == pow2(149));
    lemma_quotient_within(sd, one, 32);
    lemma_val_representable(sd);
    lemma_nearest_multiple(sd.mag(), pow2(149));
    assert(sd.val() >= 0);
    assert(sd.val() * pow2(149) == sd.mag() * pow2(149));
    assert(sd.mag() * pow2(149) >= 0) by (nonlinear_arith)
        requires
            pow2(149) > 0,
            sd.mag() >= 0,
    ;
    assert(sd.spec_div(one).val() == sd.val());
    lemma_sum_within(sd.val(), four.val(), 32);
    lemma_rounded_order(sd.val() + four.val(), sd.val());
}

proof fn lemma_lone(units: Seq<UnitView>, i: int)
    requires
        0 <= i < units.len(),
        headcount(units, units[i].team, units[i].group) == 1,
    ensures
        shortfall(units, units[i].team, units[i].group) == dist(
            units[i].hex,
            spec_enemy_line(units[i].team),
        ),
    decreases units.len(),
{
    let u = units[i];
    let before = units.drop_last();
    if i == units.len() - 1 {
        lemma_none(before, u.team, u.group);
    } else {
        assert(before[i] == u);
        lemma_some(before, i);
        lemma_lone(before, i);
    }
}

proof fn lemma_some(units: Seq<UnitView>, i: int)
    requires
        0 <= i < units.len(),
    ensures
        headcount(units, units[i].team, units[i].group) >= 1,
    decreases units.len(),
{
    if i < units.len() - 1 {
        assert(units.drop_last()[i] == units[i]);
        lemma_some(units.drop_last(), i);
    }
}

proof fn lemma_none(units: Seq<UnitView>, team: Team, group: u8)
    requires
        headcount(units, team, group) == 0,
    ensures
        shortfall(units, team, group) == 0,
    decreases units.len(),
{
    if units.len() > 0 {
        lemma_none(units.drop_last(), team, group);
    }
}

} // verus!
