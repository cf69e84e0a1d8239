//! Who stands where: a dense grid over the box that the units span.

use crate::hex::{nb, Hex, FIELD};
use crate::unit::{fielded, roster, Entity, Team, Unit, UnitView};
use vstd::prelude::*;

verus! {

/// One occupant per hex, in a dense array over the bounding box of the occupied
/// hexes. Lookups outside the box always miss.
#[derive(Debug)]
pub struct SpatialIndex {
    pub q_min: i32,
    pub r_min: i32,
    pub width: i32,
    pub height: i32,
    pub cells: Vec<Option<(Entity, Team)>>,
}

/// The enemy, seen from `team`, that stands on `h`.
pub open spec fn foe_on(
    occupied: Map<Hex, (Entity, Team)>,
    h: Hex,
    team: Team,
) -> bool {
    occupied.contains_key(h) && occupied[h].1 != team
}

/// An enemy of `team` stands next to `h`.
pub open spec fn engages(occupied: Map<Hex, (Entity, Team)>, h: Hex, team: Team) -> bool {
    exists|i: int| 0 <= i < 6 && foe_on(occupied, #[trigger] nb(h, i), team)
}

impl SpatialIndex {
    pub open spec fn wf(self) -> bool {
        &&& 0 <= self.width
        &&& 0 <= self.height
        &&& self.width * self.height <= 0x8000_0000
        &&& self.cells@.len() == self.width * self.height
    }

    /// `h` lies in the box of the grid.
    pub open spec fn in_box(self, h: Hex) -> bool {
        &&& 0 <= h.q - self.q_min < self.width
        &&& 0 <= h.r - self.r_min < self.height
    }

    pub open spec fn slot(self, h: Hex) -> int {
        (h.r - self.r_min) * self.width + (h.q - self.q_min)
    }

    /// The offset of `h` from the corner of the box fits in 32 bits.
    pub open spec fn reaches(self, h: Hex) -> bool {
        &&& i32::MIN <= h.q - self.q_min <= i32::MAX
        &&& i32::MIN <= h.r - self.r_min <= i32::MAX
    }

    /// The corner of the box is on the field, so that every hex on it, or a little
    /// off it, is within reach.
    pub open spec fn covers_field(self) -> bool {
        &&& -FIELD <= self.q_min <= FIELD
        &&& -FIELD <= self.r_min <= FIELD
    }
}

impl View for SpatialIndex {
    type V = Map<Hex, (Entity, Team)>;

    #[verifier::opaque]
    open spec fn view(&self) -> Map<Hex, (Entity, Team)> {
        Map::new(
            |h: Hex| self.in_box(h) && self.cells@[self.slot(h)] is Some,
            |h: Hex| self.cells@[self.slot(h)]->0,
        )
    }
}

impl Default for SpatialIndex {
    fn default() -> (s: SpatialIndex)
        ensures
            s.wf(),
            s.covers_field(),
            s@ == Map::<Hex, (Entity, Team)>::empty(),
    {
        let s = SpatialIndex { q_min: 0, r_min: 0, width: 0, height: 0, cells: Vec::new() };
        assert(s@ == Map::<Hex, (Entity, Team)>::empty()) by {
            reveal(<SpatialIndex as View>::view);
            assert(s@ =~= Map::<Hex, (Entity, Team)>::empty());
        }
        s
    }
}

proof fn lemma_slot(s: SpatialIndex, h: Hex)
    requires
        s.wf(),
        s.in_box(h),
    ensures
        0 <= s.slot(h) < s.cells@.len(),
        s.slot(h) <= i32::MAX,
        0 <= (h.r - s.r_min) * s.width <= s.slot(h),
{
    let x = h.q - s.q_min;
    let y = h.r - s.r_min;
    let w = s.width as int;
    assert(y * w + x < w * s.height && y * w >= 0) by (nonlinear_arith)
        requires
            0 <= x < w,
            0 <= y < s.height,
    ;
}

proof fn lemma_slot_injective(s: SpatialIndex, a: Hex, b: Hex)
    requires
        s.in_box(a),
        s.in_box(b),
        s.slot(a) == s.slot(b),
    ensures
        a == b,
{
    let xa = a.q - s.q_min;
    let ya = a.r - s.r_min;
    let xb = b.q - s.q_min;
    let yb = b.r - s.r_min;
    let w = s.width as int;
    assert(ya == yb && xa == xb) by (nonlinear_arith)
        requires
            0 <= xa < w,
            0 <= xb < w,
            ya * w + xa == yb * w + xb,
    {
        if ya < yb {
            assert((yb - ya) * w >= w);
        }
        if yb < ya {
            assert((ya - yb) * w >= w);
        }
    }
}

impl SpatialIndex {
    /// Place of `h` in the grid, or `None` where `h` lies outside of it.
    fn index(&self, h: Hex) -> (i: Option<usize>)
        requires
            self.wf(),
            self.reaches(h),
        ensures
            i is Some <==> self.in_box(h),
            i matches Some(k) ==> k == self.slot(h) && k < self.cells@.len(),
    {
        let x: i32 = h.q - self.q_min;
        let y: i32 = h.r - self.r_min;
        if x < 0 || y < 0 || x >= self.width || y >= self.height {
            return None;
        }
        proof {
            lemma_slot(*self, h);
        }
        Some((y * self.width + x) as usize)
    }

    /// Who stands on `h`.
    pub fn at(&self, h: Hex) -> (o: Option<(Entity, Team)>)
        requires
            self.wf(),
            self.reaches(h),
        ensures
            o is Some <==> self@.contains_key(h),
            o matches Some(p) ==> self@[h] == p,
    {
        reveal(<SpatialIndex as View>::view);
        match self.index(h) {
            Some(i) => self.cells[i],
            None => None,
        }
    }

    pub fn occupied(&self, h: Hex) -> (b: bool)
        requires
            self.wf(),
            self.reaches(h),
        ensures
            b == self@.contains_key(h),
    {
        self.at(h).is_some()
    }

    /// Resizes the grid to the box `(q_min, r_min, q_max, r_max)` and clears it;
    /// without a box it is empty.
    pub fn reset(&mut self, bounds: Option<(i32, i32, i32, i32)>)
        requires
            bounds matches Some(b) ==> b.0 <= b.2 && b.1 <= b.3 && b.2 - b.0 < i32::MAX && b.3
                - b.1 < i32::MAX && (b.2 - b.0 + 1) * (b.3 - b.1 + 1) <= 0x8000_0000,
        ensures
            final(self).wf(),
            final(self)@ == Map::<Hex, (Entity, Team)>::empty(),
            bounds matches Some(b) ==> final(self).q_min == b.0 && final(self).r_min == b.1,
            bounds is None ==> final(self).q_min == 0 && final(self).r_min == 0,
            forall|h: Hex| #[trigger]
                final(self).in_box(h) <==> (bounds matches Some(b) && b.0 <= h.q <= b.2 && b.1
                    <= h.r <= b.3),
    {
        match bounds {
            None => {
                self.q_min = 0;
                self.r_min = 0;
                self.width = 0;
                self.height = 0;
                self.cells.clear();
            },
            Some((q_min, r_min, q_max, r_max)) => {
                self.q_min = q_min;
                self.r_min = r_min;
                self.width = q_max - q_min + 1;
                self.height = r_max - r_min + 1;
                let ghost area = self.width * self.height;
                assert(area >= 0) by (nonlinear_arith)
                    requires
                        area == self.width * self.height,
                        self.width >= 0,
                        self.height >= 0,
                ;
                let len: usize = (self.width as usize) * (self.height as usize);
                self.cells.clear();
                let mut i: usize = 0;
                while i < len
                    invariant
                        i <= len,
                        self.cells@.len() == i,
                        self.q_min == q_min,
                        self.r_min == r_min,
                        self.width == q_max - q_min + 1,
                        self.height == r_max - r_min + 1,
                        forall|j: int| 0 <= j < i ==> self.cells@[j] is None,
                    decreases len - i,
                {
                    self.cells.push(None);
                    i = i + 1;
                }
            },
        }
        proof {
            reveal(<SpatialIndex as View>::view);
            assert forall|h: Hex| self.in_box(h) implies self.cells@[self.slot(h)] is None by {
                lemma_slot(*self, h);
            }
            assert(self@ =~= Map::<Hex, (Entity, Team)>::empty());
        }
    }

    /// Marks `h` as occupied; the last one marked stays. Hexes outside of the box
    /// are left alone.
    pub fn set(&mut self, h: Hex, e: Entity, t: Team)
        requires
            old(self).wf(),
            old(self).reaches(h),
        ensures
            final(self).wf(),
            final(self).q_min == old(self).q_min,
            final(self).r_min == old(self).r_min,
            final(self).width == old(self).width,
            final(self).height == old(self).height,
            old(self).in_box(h) ==> final(self)@ == old(self)@.insert(h, (e, t)),
            !old(self).in_box(h) ==> final(self)@ == old(self)@,
    {
        let ghost before = *self;
        if let Some(i) = self.index(h) {
            self.cells.set(i, Some((e, t)));
            proof {
                reveal(<SpatialIndex as View>::view);
                let after = before@.insert(h, (e, t));
                assert forall|k: Hex|
                    (#[trigger] self@.contains_key(k) <==> after.contains_key(k)) && (
                    self@.contains_key(k) ==> self@[k] == after[k]) by {
                    if before.in_box(k) {
                        lemma_slot(before, k);
                        if k != h && before.slot(k) == i {
                            lemma_slot_injective(before, k, h);
                        }
                    }
                }
                assert(self@ =~= after);
            }
        }
    }

    /// Whether an enemy of `team` stands next to `h`.
    pub fn engaged(&self, h: Hex, team: Team) -> (b: bool)
        requires
            self.wf(),
            self.covers_field(),
            h.in_field(),
        ensures
            b == engages(self@, h, team),
    {
        let around: [Hex; 6] = h.neighbors();
        let mut i: usize = 0;
        while i < 6
            invariant
                self.wf(),
                self.covers_field(),
                h.in_field(),
                i <= 6,
                forall|j: int| 0 <= j < 6 ==> #[trigger] around[j] == nb(h, j),
                forall|j: int| 0 <= j < i ==> !foe_on(self@, #[trigger] nb(h, j), team),
            decreases 6 - i,
        {
            assert(around[i as int] == nb(h, i as int));
            if let Some((_, t)) = self.at(around[i]) {
                if t != team {
                    return true;
                }
            }
            i = i + 1;
        }
        false
    }
}

/// Who stands where, later units of the row taking the place of earlier ones.
pub open spec fn occupancy(units: Seq<UnitView>) -> Map<Hex, (Entity, Team)>
    decreases units.len(),
{
    if units.len() == 0 {
        Map::empty()
    } else {
        occupancy(units.drop_last()).insert(
            units.last().hex,
            (units.last().entity, units.last().team),
        )
    }
}

/// The units fit in a box that a grid can cover.
pub open spec fn compact(units: Seq<UnitView>) -> bool {
    exists|q0: int, r0: int, q1: int, r1: int| #[trigger] boxed(units, q0, r0, q1, r1)
}

pub open spec fn boxed(units: Seq<UnitView>, q0: int, r0: int, q1: int, r1: int) -> bool {
    &&& forall|i: int|
        0 <= i < units.len() ==> q0 <= (#[trigger] units[i]).hex.q <= q1 && r0 <= units[i].hex.r
            <= r1
    &&& q1 - q0 < i32::MAX
    &&& r1 - r0 < i32::MAX
    &&& (q1 - q0 + 1) * (r1 - r0 + 1) <= 0x8000_0000
}

/// The box that the units span, touched by a unit on each side.
pub open spec fn spans(units: Seq<UnitView>, b: (i32, i32, i32, i32)) -> bool {
    &&& forall|j: int|
        0 <= j < units.len() ==> b.0 <= (#[trigger] units[j]).hex.q <= b.2 && b.1 <= units[j].hex.r
            <= b.3
    &&& exists|j: int| 0 <= j < units.len() && (#[trigger] units[j]).hex.q == b.0
    &&& exists|j: int| 0 <= j < units.len() && (#[trigger] units[j]).hex.r == b.1
    &&& exists|j: int| 0 <= j < units.len() && (#[trigger] units[j]).hex.q == b.2
    &&& exists|j: int| 0 <= j < units.len() && (#[trigger] units[j]).hex.r == b.3
}

/// The box that the units span, if there are any.
fn bounding_box(units: &Vec<Unit>) -> (bounds: Option<(i32, i32, i32, i32)>)
    ensures
        bounds is None <==> units@.len() == 0,
        bounds matches Some(b) ==> spans(roster(units@), b),
{
    let ghost all = roster(units@);
    let mut bounds: Option<(i32, i32, i32, i32)> = None;
    let mut i: usize = 0;
    while i < units.len()
        invariant
            i <= units@.len(),
            all == roster(units@),
            i == 0 <==> bounds is None,
            bounds matches Some(b) ==> {
                &&& forall|j: int|
                    0 <= j < i ==> b.0 <= (#[trigger] all[j]).hex.q <= b.2 && b.1 <= all[j].hex.r
                        <= b.3
                &&& exists|j: int| 0 <= j < i && (#[trigger] all[j]).hex.q == b.0
                &&& exists|j: int| 0 <= j < i && (#[trigger] all[j]).hex.r == b.1
                &&& exists|j: int| 0 <= j < i && (#[trigger] all[j]).hex.q == b.2
                &&& exists|j: int| 0 <= j < i && (#[trigger] all[j]).hex.r == b.3
            },
        decreases units@.len() - i,
    {
        let h: Hex = units[i].hex;
        assert(all[i as int].hex == h);
        bounds = Some(
            match bounds {
                None => (h.q, h.r, h.q, h.r),
                Some((qn, rn, qx, rx)) => (
                    if h.q < qn {
                        h.q
                    } else {
                        qn
                    },
                    if h.r < rn {
                        h.r
                    } else {
                        rn
                    },
                    if h.q > qx {
                        h.q
                    } else {
                        qx
                    },
                    if h.r > rx {
                        h.r
                    } else {
                        rx
                    },
                ),
            },
        );
        i = i + 1;
    }
    bounds
}

/// Whether the units fit in a box that a grid can cover.
pub fn is_compact(units: &Vec<Unit>) -> (b: bool)
    ensures
        b == compact(roster(units@)),
{
    let ghost all = roster(units@);
    match bounding_box(units) {
        None => {
            assert(boxed(all, 0, 0, 0, 0));
            true
        },
        Some((q0, r0, q1, r1)) => {
            let width: u128 = (q1 as i64 - q0 as i64 + 1) as u128;
            let height: u128 = (r1 as i64 - r0 as i64 + 1) as u128;
            assert(0 <= width * height <= 0x1_0000_0000 * 0x1_0000_0000) by (nonlinear_arith)
                requires
                    0 <= width <= 0x1_0000_0000,
                    0 <= height <= 0x1_0000_0000,
            ;
            let fits: bool = width <= i32::MAX as u128 && height <= i32::MAX as u128 && width * height
                <= 0x8000_0000;
            proof {
                if fits {
                    assert(boxed(all, q0 as int, r0 as int, q1 as int, r1 as int));
                } else if compact(all) {
                    lemma_smallest_box(all, (q0, r0, q1, r1));
                }
            }
            fits
        },
    }
}

/// No box that holds the units is smaller than the one that they span.
proof fn lemma_smallest_box(units: Seq<UnitView>, b: (i32, i32, i32, i32))
    requires
        compact(units),
        spans(units, b),
    ensures
        b.0 <= b.2,
        b.1 <= b.3,
        b.2 - b.0 < i32::MAX,
        b.3 - b.1 < i32::MAX,
        (b.2 - b.0 + 1) * (b.3 - b.1 + 1) <= 0x8000_0000,
{
    let (q0, r0, q1, r1) = choose|q0: int, r0: int, q1: int, r1: int| #[trigger]
        boxed(units, q0, r0, q1, r1);
    assert(q0 <= b.0 && r0 <= b.1 && b.2 <= q1 && b.3 <= r1);
    assert((b.2 - b.0 + 1) * (b.3 - b.1 + 1) <= (q1 - q0 + 1) * (r1 - r0 + 1)) by (nonlinear_arith)
        requires
            q0 <= b.0 <= b.2 <= q1,
            r0 <= b.1 <= b.3 <= r1,
    ;
}

/// Builds the grid anew from where the units stand.
pub fn build_spatial_index(units: &Vec<Unit>, idx: &mut SpatialIndex)
    requires
        fielded(roster(units@)),
        compact(roster(units@)),
    ensures
        final(idx).wf(),
        final(idx).covers_field(),
        final(idx)@ == occupancy(roster(units@)),
{
    let ghost all = roster(units@);
    // Pass 1: bounding box of every occupied hex.
    let bounds: Option<(i32, i32, i32, i32)> = bounding_box(units);
    proof {
        if let Some(b) = bounds {
            lemma_smallest_box(all, b);
            let j0 = choose|j: int| 0 <= j < all.len() && (#[trigger] all[j]).hex.q == b.0;
            let j1 = choose|j: int| 0 <= j < all.len() && (#[trigger] all[j]).hex.r == b.1;
            assert(all[j0].hex.in_field() && all[j1].hex.in_field());
        }
    }
    // Pass 2: size the grid to that box and fill it.
    idx.reset(bounds);
    let mut k: usize = 0;
    assert(all.take(0) =~= Seq::empty());
    while k < units.len()
        invariant
            k <= units@.len(),
            all == roster(units@),
            fielded(all),
            units@.len() > 0 ==> bounds is Some,
            bounds matches Some(b) ==> forall|j: int|
                0 <= j < units@.len() ==> b.0 <= (#[trigger] all[j]).hex.q <= b.2 && b.1
                    <= all[j].hex.r <= b.3,
            idx.wf(),
            idx.covers_field(),
            forall|h: Hex| #[trigger]
                idx.in_box(h) <==> (bounds matches Some(b) && b.0 <= h.q <= b.2 && b.1 <= h.r
                    <= b.3),
            idx@ == occupancy(all.take(k as int)),
        decreases units@.len() - k,
    {
        assert(all.take(k + 1).drop_last() =~= all.take(k as int));
        assert(all.take(k + 1).last() == units@[k as int]@);
        assert(all[k as int].hex.in_field());
        let h: Hex = units[k].hex;
        let ghost before = *idx;
        assert(before.in_box(h));
        idx.set(h, units[k].entity, units[k].team);
        assert forall|g: Hex| #[trigger] idx.in_box(g) <==> before.in_box(g) by {}
        k = k + 1;
    }
    assert(all.take(k as int) =~= all);
}

/// No two units stand on the same hex.
pub open spec fn one_per_hex(units: Seq<UnitView>) -> bool {
    forall|i: int, j: int|
        0 <= i < j < units.len() ==> #[trigger] units[i].hex != #[trigger] units[j].hex
}

/// Some unit stands on `h`.
pub open spec fn stood_on(units: Seq<UnitView>, h: Hex) -> bool {
    exists|i: int| 0 <= i < units.len() && (#[trigger] units[i]).hex == h
}

/// The index knows exactly the hexes that units stand on, and with one unit to a
/// hex it gives for each the unit that stands there.
pub proof fn law_index_locates_every_unit(units: Seq<UnitView>)
    ensures
        forall|h: Hex| #[trigger] occupancy(units).contains_key(h) <==> stood_on(units, h),
        one_per_hex(units) ==> forall|i: int|
            0 <= i < units.len() ==> occupancy(units)[(#[trigger] units[i]).hex] == (
                units[i].entity,
                units[i].team,
            ),
    decreases units.len(),
{
    if units.len() > 0 {
        let before = units.drop_last();
        let n = units.len() - 1;
        law_index_locates_every_unit(before);
        assert forall|h: Hex| #[trigger] occupancy(units).contains_key(h) <==> stood_on(units, h) by {
            assert(occupancy(before).contains_key(h) <==> stood_on(before, h));
            if stood_on(before, h) {
                let i = choose|i: int| 0 <= i < before.len() && (#[trigger] before[i]).hex == h;
                assert(units[i].hex == h);
            }
            if units.last().hex == h {
                assert(units[n].hex == h);
            }
            if stood_on(units, h) && units.last().hex != h {
                let i = choose|i: int| 0 <= i < units.len() && (#[trigger] units[i]).hex == h;
                assert(before[i].hex == h);
            }
        }
        if one_per_hex(units) {
            assert forall|i: int, j: int| 0 <= i < j < before.len() implies #[trigger] before[i].hex
                != #[trigger] before[j].hex by {
                assert(units[i].hex != units[j].hex);
            }
            assert forall|i: int| 0 <= i < units.len() implies occupancy(
                units,
            )[(#[trigger] units[i]).hex] == (units[i].entity, units[i].team) by {
                if i < n {
                    assert(units[i].hex != units[n].hex);
                    assert(before[i] == units[i]);
                }
            }
        }
    }
}

} // verus!
