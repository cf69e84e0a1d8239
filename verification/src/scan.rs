//! Searching for enemies around a hex.

use crate::hex::{abs, dir, direction, dist, lemma_measurable, Hex, FIELD};
use crate::index::{foe_on, SpatialIndex};
use crate::pick::{first_least, law_first_least};
use crate::terrain::{clear_between, line_of_sight, Terrain, TerrainMap};
use crate::unit::{Entity, Team, VISION};
use vstd::arithmetic::div_mod::lemma_fundamental_div_mod_converse;
use vstd::prelude::*;

verus! {

/// `n` steps of a direction's component `d`, which is -1, 0 or 1.
pub open spec fn steps(d: int, n: int) -> int {
    if d == 1 {
        n
    } else if d == -1 {
        -n
    } else {
        0
    }
}

/// The hex `j` steps along side `side` of the ring of `radius` around `from`. The
/// sides follow the six directions, starting from the corner in direction 4.
#[verifier::opaque]
pub open spec fn ring_cell(from: Hex, radius: int, side: int, j: int) -> Hex {
    let corner = dir((4 + side) % 6);
    let along = dir(side);
    Hex {
        q: (from.q + steps(corner.0, radius) + steps(along.0, j)) as i32,
        r: (from.r + steps(corner.1, radius) + steps(along.1, j)) as i32,
    }
}

/// The first hex of the ring, from step `j` of side `side` on, that an enemy of
/// `team` stands on.
pub open spec fn ring_hit(
    occupied: Map<Hex, (Entity, Team)>,
    from: Hex,
    team: Team,
    radius: int,
    side: int,
    j: int,
) -> Option<Hex>
    decreases 6 - side, radius - j,
{
    if side >= 6 {
        None
    } else if j >= radius {
        ring_hit(occupied, from, team, radius, side + 1, 0)
    } else if foe_on(occupied, ring_cell(from, radius, side, j), team) {
        Some(ring_cell(from, radius, side, j))
    } else {
        ring_hit(occupied, from, team, radius, side, j + 1)
    }
}

/// The first enemy met on the rings from `radius` out to `range`.
pub open spec fn sighted(
    occupied: Map<Hex, (Entity, Team)>,
    from: Hex,
    team: Team,
    radius: int,
    range: int,
) -> Option<Hex>
    decreases range - radius + 1,
{
    if radius > range {
        None
    } else {
        match ring_hit(occupied, from, team, radius, 0, 0) {
            Some(h) => Some(h),
            None => sighted(occupied, from, team, radius + 1, range),
        }
    }
}

proof fn lemma_ring_step(from: Hex, radius: int, side: int, j: int)
    requires
        from.in_field(),
        1 <= radius <= FIELD,
        0 <= side < 6,
        0 <= j < radius,
    ensures
        ({
            let h = ring_cell(from, radius, side, j);
            let n = ring_cell(from, radius, side, j + 1);
            &&& -2 * FIELD <= h.q <= 2 * FIELD
            &&& -2 * FIELD <= h.r <= 2 * FIELD
            &&& n.q == h.q + dir(side).0
            &&& n.r == h.r + dir(side).1
            &&& dist(from, h) == radius
        }),
{
    reveal(ring_cell);
    if side == 0 {
    } else if side == 1 {
    } else if side == 2 {
    } else if side == 3 {
    } else if side == 4 {
    } else {
        assert(side == 5);
    }
}

proof fn lemma_ring_corner(from: Hex, radius: int, side: int)
    requires
        0 <= side < 5,
    ensures
        ring_cell(from, radius, side, radius) == ring_cell(from, radius, side + 1, 0),
{
    reveal(ring_cell);
    if side == 0 {
    } else if side == 1 {
    } else if side == 2 {
    } else if side == 3 {
    } else {
        assert(side == 4);
    }
}

/// Nearest enemy within `range`, scanning ring by ring outward and stopping at
/// the first enemy met.
pub fn nearest_enemy_in_range(idx: &SpatialIndex, from: Hex, team: Team, range: i32) -> (r: Option<
    (Entity, Hex),
>)
    requires
        idx.wf(),
        idx.covers_field(),
        from.in_field(),
        range <= FIELD,
    ensures
        r is Some <==> sighted(idx@, from, team, 1, range as int) is Some,
        r matches Some(p) ==> sighted(idx@, from, team, 1, range as int) == Some(p.1)
            && idx@[p.1].0 == p.0,
{
    let mut radius: i32 = 1;
    while radius <= range
        invariant
            idx.wf(),
            idx.covers_field(),
            from.in_field(),
            range <= FIELD,
            1 <= radius,
            sighted(idx@, from, team, 1, range as int) == sighted(
                idx@,
                from,
                team,
                radius as int,
                range as int,
            ),
        decreases range - radius + 1,
    {
        let mut h: Hex = Hex::new(from.q - radius, from.r + radius);
        proof {
            reveal(ring_cell);
        }
        let mut side: usize = 0;
        while side < 6
            invariant
                idx.wf(),
                idx.covers_field(),
                from.in_field(),
                1 <= radius <= range <= FIELD,
                side <= 6,
                sighted(idx@, from, team, 1, range as int) == sighted(
                    idx@,
                    from,
                    team,
                    radius as int,
                    range as int,
                ),
                side < 6 ==> h == ring_cell(from, radius as int, side as int, 0),
                ring_hit(idx@, from, team, radius as int, 0, 0) == ring_hit(
                    idx@,
                    from,
                    team,
                    radius as int,
                    side as int,
                    0,
                ),
            decreases 6 - side,
        {
            let (dq, dr): (i32, i32) = direction(side);
            let mut j: i32 = 0;
            while j < radius
                invariant
                    idx.wf(),
                    idx.covers_field(),
                    from.in_field(),
                    1 <= radius <= range <= FIELD,
                    side < 6,
                    0 <= j <= radius,
                    dq == dir(side as int).0,
                    dr == dir(side as int).1,
                    h == ring_cell(from, radius as int, side as int, j as int),
                    sighted(idx@, from, team, 1, range as int) == sighted(
                        idx@,
                        from,
                        team,
                        radius as int,
                        range as int,
                    ),
                    ring_hit(idx@, from, team, radius as int, 0, 0) == ring_hit(
                        idx@,
                        from,
                        team,
                        radius as int,
                        side as int,
                        j as int,
                    ),
                decreases radius - j,
            {
                proof {
                    lemma_ring_step(from, radius as int, side as int, j as int);
                }
                if let Some((e, t)) = idx.at(h) {
                    if t != team {
                        return Some((e, h));
                    }
                }
                h = Hex::new(h.q + dq, h.r + dr);
                j = j + 1;
            }
            proof {
                if side < 5 {
                    lemma_ring_corner(from, radius as int, side as int);
                }
            }
            side = side + 1;
        }
        radius = radius + 1;
    }
    None
}

/// Closest enemy hex within [`VISION`].
pub fn nearest_enemy(idx: &SpatialIndex, from: Hex, team: Team) -> (r: Option<Hex>)
    requires
        idx.wf(),
        idx.covers_field(),
        from.in_field(),
    ensures
        r == sighted(idx@, from, team, 1, VISION as int),
{
    match nearest_enemy_in_range(idx, from, team, VISION) {
        Some((_, h)) => Some(h),
        None => None,
    }
}

proof fn lemma_ring_hit(
    occupied: Map<Hex, (Entity, Team)>,
    from: Hex,
    team: Team,
    radius: int,
    side: int,
    j: int,
)
    requires
        from.in_field(),
        1 <= radius <= FIELD,
        0 <= side,
        0 <= j <= radius,
    ensures
        match ring_hit(occupied, from, team, radius, side, j) {
            Some(h) => foe_on(occupied, h, team) && dist(from, h) == radius,
            None => forall|s: int, k: int|
                side <= s < 6 && 0 <= k < radius && (s > side || k >= j) ==> !foe_on(
                    occupied,
                    #[trigger] ring_cell(from, radius, s, k),
                    team,
                ),
        },
    decreases 6 - side, radius - j,
{
    if side < 6 {
        if j >= radius {
            lemma_ring_hit(occupied, from, team, radius, side + 1, 0);
        } else if foe_on(occupied, ring_cell(from, radius, side, j), team) {
            lemma_ring_step(from, radius, side, j);
        } else {
            lemma_ring_hit(occupied, from, team, radius, side, j + 1);
        }
    }
}

/// The ring of a radius is exactly the hexes at that distance.
pub proof fn law_ring_is_complete(from: Hex, h: Hex, radius: int)
    requires
        from.in_field(),
        1 <= radius <= FIELD,
        dist(from, h) == radius,
    ensures
        exists|side: int, j: int|
            0 <= side < 6 && 0 <= j < radius && #[trigger] ring_cell(from, radius, side, j) == h,
{
    reveal(ring_cell);
    let x = h.q - from.q;
    let z = h.r - from.r;
    assert(abs(x) <= radius && abs(z) <= radius && abs(x + z) <= radius);
    if z == radius && x < 0 {
        assert(ring_cell(from, radius, 0, x + radius) == h);
    } else if x + z == radius && x >= 0 && x < radius {
        assert(ring_cell(from, radius, 1, x) == h);
    } else if x == radius && -radius < z {
        assert(ring_cell(from, radius, 2, -z) == h);
    } else if z == -radius && x > 0 {
        assert(ring_cell(from, radius, 3, radius - x) == h);
    } else if x + z == -radius && x <= 0 && x > -radius {
        assert(ring_cell(from, radius, 4, -x) == h);
    } else {
        assert(x == -radius && 0 <= z < radius);
        assert(ring_cell(from, radius, 5, z) == h);
    }
}

proof fn lemma_sighted(
    occupied: Map<Hex, (Entity, Team)>,
    from: Hex,
    team: Team,
    radius: int,
    range: int,
)
    requires
        from.in_field(),
        1 <= radius,
        range <= FIELD,
    ensures
        match sighted(occupied, from, team, radius, range) {
            Some(h) => {
                &&& foe_on(occupied, h, team)
                &&& radius <= dist(from, h) <= range
                &&& forall|g: Hex| #[trigger]
                    foe_on(occupied, g, team) && dist(from, g) >= radius ==> dist(from, h)
                        <= dist(from, g)
            },
            None => forall|g: Hex| #[trigger]
                foe_on(occupied, g, team) && dist(from, g) >= radius ==> dist(from, g) > range,
        },
    decreases range - radius + 1,
{
    if radius <= range {
        lemma_ring_hit(occupied, from, team, radius, 0, 0);
        if ring_hit(occupied, from, team, radius, 0, 0) is None {
            lemma_sighted(occupied, from, team, radius + 1, range);
            assert forall|g: Hex| #[trigger]
                foe_on(occupied, g, team) && dist(from, g) >= radius implies dist(from, g)
                >= radius + 1 by {
                if dist(from, g) == radius {
                    law_ring_is_complete(from, g, radius);
                }
            }
        }
    }
}

/// The ring scan finds an enemy exactly when one is in range, and the one it
/// finds is at the least distance. A unit does not see what shares its hex.
pub proof fn law_sighted_enemy_is_nearest(
    occupied: Map<Hex, (Entity, Team)>,
    from: Hex,
    team: Team,
    range: int,
)
    requires
        from.in_field(),
        range <= FIELD,
    ensures
        match sighted(occupied, from, team, 1, range) {
            Some(h) => {
                &&& foe_on(occupied, h, team)
                &&& 1 <= dist(from, h) <= range
                &&& forall|g: Hex| #[trigger]
                    foe_on(occupied, g, team) && g != from ==> dist(from, h) <= dist(from, g)
            },
            None => forall|g: Hex| #[trigger]
                foe_on(occupied, g, team) && g != from ==> dist(from, g) > range,
        },
{
    lemma_sighted(occupied, from, team, 1, range);
    assert forall|g: Hex| #[trigger] foe_on(occupied, g, team) && g != from implies dist(from, g)
        >= 1 by {
        assert(g.q != from.q || g.r != from.r);
    }
}

/// The hexes of the square of `range` around `from`, numbered column by column.
pub open spec fn square_cell(from: Hex, range: int, k: int) -> Hex {
    Hex {
        q: (from.q - range + k / (2 * range + 1)) as i32,
        r: (from.r - range + k % (2 * range + 1)) as i32,
    }
}

/// A shooter of `team` on `from` may shoot at `h`.
pub open spec fn in_shot(
    occupied: Map<Hex, (Entity, Team)>,
    terrain: Map<Hex, Terrain>,
    from: Hex,
    team: Team,
    range: int,
    h: Hex,
) -> bool {
    &&& 0 < dist(from, h) <= range
    &&& foe_on(occupied, h, team)
    &&& clear_between(from, h, terrain)
}

/// The hex of the closest enemy that a shooter may shoot at, the first in the
/// numbering of the square where several are equally close.
pub open spec fn shot(
    occupied: Map<Hex, (Entity, Team)>,
    terrain: Map<Hex, Terrain>,
    from: Hex,
    team: Team,
    range: int,
) -> Option<Hex> {
    let n = ((2 * range + 1) * (2 * range + 1)) as nat;
    match first_least(
        n,
        |k: int| in_shot(occupied, terrain, from, team, range, square_cell(from, range, k)),
        |k: int| dist(from, square_cell(from, range, k)),
    ) {
        Some(k) => Some(square_cell(from, range, k)),
        None => None,
    }
}

/// Entity of the closest enemy within `range` that the shooter has line of sight
/// to.
pub fn nearest_enemy_entity(
    idx: &SpatialIndex,
    from: Hex,
    team: Team,
    range: i32,
    terrain: &TerrainMap,
) -> (r: Option<Entity>)
    requires
        idx.wf(),
        idx.covers_field(),
        from.in_field(),
        range <= FIELD,
    ensures
        r == (match shot(idx@, terrain@, from, team, range as int) {
            Some(h) => Some(idx@[h].0),
            None => None,
        }),
{
    let ghost rg = range as int;
    let ghost ok = |k: int|
        in_shot(idx@, terrain@, from, team, rg, square_cell(from, rg, k));
    let ghost key = |k: int| dist(from, square_cell(from, rg, k));
    let ghost width = 2 * rg + 1;
    if range < 0 {
        proof {
            law_first_least((width * width) as nat, ok, key);
        }
        return None;
    }
    let mut best: Option<Entity> = None;
    let mut best_d: i32 = i32::MAX;
    let mut dq: i32 = -range;
    let ghost mut k: int = 0;
    while dq <= range
        invariant
            idx.wf(),
            idx.covers_field(),
            from.in_field(),
            0 <= range <= FIELD,
            rg == range,
            width == 2 * rg + 1,
            -range <= dq <= range + 1,
            k == (dq + rg) * width,
            k >= 0,
            ok == |k: int| in_shot(idx@, terrain@, from, team, rg, square_cell(from, rg, k)),
            key == |k: int| dist(from, square_cell(from, rg, k)),
            match first_least(k as nat, ok, key) {
                Some(b) => best == Some(idx@[square_cell(from, rg, b)].0) && best_d == key(b),
                None => best is None && best_d == i32::MAX,
            },
        decreases range + 1 - dq,
    {
        let ghost base = k;
        let mut dr: i32 = -range;
        while dr <= range
            invariant
                idx.wf(),
                idx.covers_field(),
                from.in_field(),
                0 <= range <= FIELD,
                rg == range,
                width == 2 * rg + 1,
                -range <= dq <= range,
                -range <= dr <= range + 1,
                base == (dq + rg) * width,
                base >= 0,
                k == base + dr + rg,
                ok == |k: int| in_shot(idx@, terrain@, from, team, rg, square_cell(from, rg, k)),
                key == |k: int| dist(from, square_cell(from, rg, k)),
                match first_least(k as nat, ok, key) {
                    Some(b) => best == Some(idx@[square_cell(from, rg, b)].0) && best_d == key(b),
                    None => best is None && best_d == i32::MAX,
                },
            decreases range + 1 - dr,
        {
            let h: Hex = Hex::new(from.q + dq, from.r + dr);
            proof {
                lemma_fundamental_div_mod_converse(k, width, dq + rg, dr + rg);
                assert(square_cell(from, rg, k) == h);
                lemma_measurable(from, h);
            }
            let d: i32 = from.distance(h);
            if d != 0 && d <= range {
                if let Some((e, t)) = idx.at(h) {
                    if t != team && d < best_d && line_of_sight(from, h, terrain) {
                        best_d = d;
                        best = Some(e);
                    }
                }
            }
            proof {
                law_first_least(k as nat, ok, key);
                k = k + 1;
            }
            dr = dr + 1;
        }
        proof {
            assert(k == (dq + 1 + rg) * width) by (nonlinear_arith)
                requires
                    k == (dq + rg) * width + width,
            ;
        }
        dq = dq + 1;
    }
    assert(k == width * width) by (nonlinear_arith)
        requires
            k == (dq + rg) * width,
            dq == rg + 1,
            width == 2 * rg + 1,
    ;
    best
}

/// The shot goes to an enemy in range and in sight, and no enemy in range and in
/// sight is closer; there is none only when no enemy is in range and in sight.
pub proof fn law_shot_is_nearest_in_sight(
    occupied: Map<Hex, (Entity, Team)>,
    terrain: Map<Hex, Terrain>,
    from: Hex,
    team: Team,
    range: int,
)
    requires
        from.in_field(),
        range <= FIELD,
    ensures
        match shot(occupied, terrain, from, team, range) {
            Some(h) => {
                &&& in_shot(occupied, terrain, from, team, range, h)
                &&& forall|g: Hex| #[trigger]
                    in_shot(occupied, terrain, from, team, range, g) ==> dist(from, h) <= dist(
                        from,
                        g,
                    )
            },
            None => forall|g: Hex| !#[trigger] in_shot(occupied, terrain, from, team, range, g),
        },
{
    let width = 2 * range + 1;
    let ok = |k: int| in_shot(occupied, terrain, from, team, range, square_cell(from, range, k));
    let key = |k: int| dist(from, square_cell(from, range, k));
    law_first_least((width * width) as nat, ok, key);
    assert(width * width >= 0) by (nonlinear_arith);
    assert forall|g: Hex| #[trigger] in_shot(occupied, terrain, from, team, range, g) implies exists|
        k: int,
    | 0 <= k < width * width && #[trigger] square_cell(from, range, k) == g && ok(k) by {
        let a = g.q - from.q + range;
        let b = g.r - from.r + range;
        assert(abs(g.q - from.q) <= range && abs(g.r - from.r) <= range);
        assert(range >= 0);
        let k = a * width + b;
        lemma_fundamental_div_mod_converse(k, width, a, b);
        assert(0 <= k < width * width) by (nonlinear_arith)
            requires
                k == a * width + b,
                0 <= a < width,
                0 <= b < width,
        ;
        assert(square_cell(from, range, k) == g);
        assert(ok(k));
    }
}

} // verus!
