//! Reach: whether one hex can be walked to from another.

use crate::hex::{abs, dist, nb, Hex, FIELD};
use crate::steps::{in_sight, law_neighbours_are_one_step_apart, Reserved};
use crate::terrain::{
    ground, hex_of, lemma_by_hex_get, lemma_cell_injective, lemma_rectangle, rectangle, spec_cell,
    Terrain, TerrainMap,
};
use crate::unit::VISION;
use vstd::prelude::*;

verus! {

broadcast use vstd::std_specs::hash::group_hash_axioms;

/// Step `i` of a path leads to a neighbour.
pub open spec fn hop(path: Seq<Hex>, i: int) -> bool {
    dist(path[i - 1], path[i]) == 1
}

/// A path over passable ground.
pub open spec fn walk(tiles: Map<Hex, Terrain>, path: Seq<Hex>, from: Hex, to: Hex) -> bool {
    &&& path.len() > 0
    &&& path[0] == from
    &&& path.last() == to
    &&& forall|i: int| 0 <= i < path.len() ==> ground(tiles, #[trigger] path[i]).spec_passable()
    &&& forall|i: int| 0 < i < path.len() ==> #[trigger] hop(path, i)
}

/// A path leads from `from` to `to`.
pub open spec fn connected(tiles: Map<Hex, Terrain>, from: Hex, to: Hex) -> bool {
    exists|path: Seq<Hex>| #[trigger] walk(tiles, path, from, to)
}

/// The most hexes of a path that a search is sent after: what they cost, and how
/// far they lead, fits in 32 bits.
pub const LONGEST_WALK: u32 = 0x400_0000;

/// A path of at most [`LONGEST_WALK`] hexes leads from `from` to `to`.
pub open spec fn within_reach(tiles: Map<Hex, Terrain>, from: Hex, to: Hex) -> bool {
    exists|path: Seq<Hex>| #[trigger] walk(tiles, path, from, to) && path.len() <= LONGEST_WALK
}

/// How far from the origin, by each coordinate, ground is impassable on a hemmed
/// map at most.
pub const HEM: i32 = 3900;

/// All impassable ground lies around the origin.
pub open spec fn hemmed(tiles: Map<Hex, Terrain>) -> bool {
    forall|h: Hex|
        !(#[trigger] ground(tiles, h)).spec_passable() ==> abs(h.q as int) <= HEM && abs(
            h.r as int,
        ) <= HEM
}

/// Two hexes that are near each other, or both near the origin.
pub open spec fn at_hand(from: Hex, to: Hex) -> bool {
    ||| dist(from, to) <= 64
    ||| abs(from.q as int) <= 4000 && abs(from.r as int) <= 4000 && abs(to.q as int) <= 4000 && abs(
        to.r as int,
    ) <= 4000
}

/// A search comes to an end: if there is any path, there is one that is not too
/// long. On a hemmed map that holds of all hexes at hand, see
/// [`law_hemmed_maps_are_searchable`].
pub open spec fn searchable(tiles: Map<Hex, Terrain>, from: Hex, to: Hex) -> bool {
    ||| hemmed(tiles) && at_hand(from, to)
    ||| connected(tiles, from, to) ==> within_reach(tiles, from, to)
}

proof fn lemma_here(tiles: Map<Hex, Terrain>, h: Hex)
    requires
        ground(tiles, h).spec_passable(),
    ensures
        connected(tiles, h, h),
{
    let path = seq![h];
    assert(path.last() == h);
    assert(walk(tiles, path, h, h));
}

/// Two paths whose ends are neighbours make one.
proof fn lemma_joined(tiles: Map<Hex, Terrain>, p: Seq<Hex>, q: Seq<Hex>, a: Hex, b: Hex, c: Hex, d: Hex)
    requires
        walk(tiles, p, a, b),
        dist(b, c) == 1,
        walk(tiles, q, c, d),
    ensures
        walk(tiles, p + q, a, d),
{
    let path = p + q;
    let n = p.len() as int;
    assert(path.last() == q.last());
    assert forall|i: int| 0 <= i < path.len() implies ground(
        tiles,
        #[trigger] path[i],
    ).spec_passable() by {
        if i < n {
            assert(path[i] == p[i]);
        } else {
            assert(path[i] == q[i - n]);
        }
    }
    assert forall|i: int| 0 < i < path.len() implies #[trigger] hop(path, i) by {
        if i < n {
            assert(hop(p, i));
        } else if i > n {
            assert(hop(q, i - n));
        }
    }
}

/// A path can be walked back.
proof fn lemma_reversed(tiles: Map<Hex, Terrain>, p: Seq<Hex>, from: Hex, to: Hex)
    requires
        walk(tiles, p, from, to),
    ensures
        walk(tiles, p.reverse(), to, from),
{
    let back = p.reverse();
    let n = p.len() as int;
    assert forall|i: int| 0 <= i < back.len() implies ground(
        tiles,
        #[trigger] back[i],
    ).spec_passable() by {
        assert(back[i] == p[n - 1 - i]);
    }
    assert forall|i: int| 0 < i < back.len() implies #[trigger] hop(back, i) by {
        assert(hop(p, n - i));
        assert(back[i] == p[n - 1 - i] && back[i - 1] == p[n - i]);
    }
}

/// Hex `k` of a path is within `k` of where it starts.
pub proof fn lemma_path_spread(tiles: Map<Hex, Terrain>, p: Seq<Hex>, from: Hex, to: Hex, k: int)
    requires
        walk(tiles, p, from, to),
        0 <= k < p.len(),
    ensures
        from.q - k <= p[k].q <= from.q + k,
        from.r - k <= p[k].r <= from.r + k,
    decreases k,
{
    if k > 0 {
        lemma_path_spread(tiles, p, from, to, k - 1);
        assert(hop(p, k));
    }
}

/// A hex one step away is one of the six neighbours.
pub proof fn lemma_direction(a: Hex, b: Hex) -> (i: int)
    requires
        dist(a, b) == 1,
    ensures
        0 <= i < 6,
        nb(a, i) == b,
{
    let x = b.q - a.q;
    let z = b.r - a.r;
    if x == 1 && z == 0 {
        0
    } else if x == 1 {
        1
    } else if x == 0 && z == -1 {
        2
    } else if x == -1 && z == 0 {
        3
    } else if x == -1 {
        4
    } else {
        5
    }
}

/// Whoever is in a region that nothing leads out of cannot be walked to from
/// outside, nor get out.
pub proof fn law_walls_separate(tiles: Map<Hex, Terrain>, region: Set<Hex>, inside: Hex, outside: Hex)
    requires
        region.contains(inside),
        !region.contains(outside),
        forall|h: Hex, n: Hex|
            region.contains(h) && #[trigger] dist(h, n) == 1 && ground(tiles, n).spec_passable()
                ==> region.contains(n),
    ensures
        !connected(tiles, inside, outside),
        !connected(tiles, outside, inside),
{
    if connected(tiles, outside, inside) {
        let p = choose|p: Seq<Hex>| #[trigger] walk(tiles, p, outside, inside);
        lemma_reversed(tiles, p, outside, inside);
    }
    if connected(tiles, inside, outside) {
        let p = choose|p: Seq<Hex>| #[trigger] walk(tiles, p, inside, outside);
        lemma_stays_in_region(tiles, region, p, inside, outside, p.len() - 1);
    }
}

proof fn lemma_stays_in_region(
    tiles: Map<Hex, Terrain>,
    region: Set<Hex>,
    p: Seq<Hex>,
    from: Hex,
    to: Hex,
    k: int,
)
    requires
        walk(tiles, p, from, to),
        region.contains(from),
        forall|h: Hex, n: Hex|
            region.contains(h) && #[trigger] dist(h, n) == 1 && ground(tiles, n).spec_passable()
                ==> region.contains(n),
        0 <= k < p.len(),
    ensures
        region.contains(p[k]),
    decreases k,
{
    if k > 0 {
        lemma_stays_in_region(tiles, region, p, from, to, k - 1);
        assert(hop(p, k));
        assert(ground(tiles, p[k]).spec_passable());
    }
}

/// `n` can be entered from `h`, and distances to it can be measured.
spec fn opens(tiles: Map<Hex, Terrain>, h: Hex, n: Hex) -> bool {
    dist(h, n) == 1 && in_sight(n) && ground(tiles, n).spec_passable()
}

/// What has been reached from one hex: the hexes in the order in which they were
/// reached, of which those before `next` have been looked around.
struct Flood {
    hexes: Vec<Hex>,
    known: Reserved,
    next: usize,
}

impl Flood {
    spec fn wf(self, tiles: Map<Hex, Terrain>, root: Hex) -> bool {
        &&& self.next <= self.hexes@.len()
        &&& self.hexes@.no_duplicates()
        &&& self.known@.contains(root)
        &&& forall|k: int|
            0 <= k < self.hexes@.len() ==> self.known@.contains(#[trigger] self.hexes@[k])
        &&& forall|h: Hex| #[trigger]
            self.known@.contains(h) ==> {
                &&& self.hexes@.contains(h)
                &&& in_sight(h)
                &&& connected(tiles, root, h)
            }
        &&& forall|k: int, n: Hex|
            0 <= k < self.next && #[trigger] opens(tiles, self.hexes@[k], n)
                ==> self.known@.contains(n)
    }

    fn new(terrain: &TerrainMap, root: Hex) -> (f: Flood)
        requires
            in_sight(root),
            ground(terrain@, root).spec_passable(),
        ensures
            f.wf(terrain@, root),
            f.next == 0,
            f.known@ == set![root],
    {
        let mut hexes: Vec<Hex> = Vec::new();
        let mut known: Reserved = Reserved::new();
        hexes.push(root);
        known.insert(root);
        proof {
            lemma_here(terrain@, root);
            assert(hexes@[0] == root);
            assert(known@ =~= set![root]);
        }
        Flood { hexes, known, next: 0 }
    }

    /// Looks around the next hex. Whether it saw what the other flood has reached.
    fn grow(
        &mut self,
        terrain: &TerrainMap,
        other: &Flood,
        Ghost(root): Ghost<Hex>,
        Ghost(far): Ghost<Hex>,
    ) -> (met: bool)
        requires
            old(self).wf(terrain@, root),
            other.wf(terrain@, far),
            old(self).next < old(self).hexes@.len(),
            old(self).known@.disjoint(other.known@),
        ensures
            met ==> connected(terrain@, root, far),
            !met ==> {
                &&& final(self).wf(terrain@, root)
                &&& final(self).next == old(self).next + 1
                &&& final(self).known@.disjoint(other.known@)
            },
    {
        let ghost tiles = terrain@;
        let h: Hex = self.hexes[self.next];
        assert(self.known@.contains(h));
        let around: [Hex; 6] = h.neighbors();
        let mut i: usize = 0;
        while i < 6
            invariant
                i <= 6,
                tiles == terrain@,
                in_sight(h),
                connected(tiles, root, h),
                forall|j: int| 0 <= j < 6 ==> #[trigger] around[j] == nb(h, j),
                self.wf(tiles, root),
                other.wf(tiles, far),
                self.next == old(self).next,
                self.next < self.hexes@.len(),
                self.hexes@[self.next as int] == h,
                self.known@.disjoint(other.known@),
                forall|j: int|
                    0 <= j < i && #[trigger] opens(tiles, h, nb(h, j)) ==> self.known@.contains(
                        nb(h, j),
                    ),
            decreases 6 - i,
        {
            let n: Hex = around[i];
            assert(n == nb(h, i as int));
            proof {
                law_neighbours_are_one_step_apart(h, i as int);
            }
            if -2 * FIELD <= n.q && n.q <= 2 * FIELD && -2 * FIELD <= n.r && n.r <= 2 * FIELD
                && terrain.get(n).passable() {
                proof {
                    lemma_here(tiles, n);
                    let p = choose|p: Seq<Hex>| #[trigger] walk(tiles, p, root, h);
                    let q = choose|q: Seq<Hex>| #[trigger] walk(tiles, q, n, n);
                    lemma_joined(tiles, p, q, root, h, n, n);
                    assert(connected(tiles, root, n));
                }
                if other.known.contains(n) {
                    proof {
                        let p = choose|p: Seq<Hex>| #[trigger] walk(tiles, p, root, h);
                        let q = choose|q: Seq<Hex>| #[trigger] walk(tiles, q, far, n);
                        lemma_reversed(tiles, q, far, n);
                        lemma_joined(tiles, p, q.reverse(), root, h, n, far);
                    }
                    return true;
                }
                if !self.known.contains(n) {
                    let ghost before = *self;
                    self.known.insert(n);
                    self.hexes.push(n);
                    proof {
                        lemma_noted(before, *self, tiles, root, n);
                    }
                }
            }
            i = i + 1;
        }
        assert(self.next < self.hexes.len());
        self.next = self.next + 1;
        proof {
            assert forall|k: int, n: Hex|
                0 <= k < self.next && #[trigger] opens(tiles, self.hexes@[k], n) implies self.known@.contains(
                n,
            ) by {
                if k == self.next - 1 {
                    let j = lemma_direction(h, n);
                    assert(opens(tiles, h, nb(h, j)));
                }
            }
        }
        false
    }
}

/// A flood that has reached one more hex.
proof fn lemma_noted(a: Flood, b: Flood, tiles: Map<Hex, Terrain>, root: Hex, n: Hex)
    requires
        a.wf(tiles, root),
        b.next == a.next,
        b.known@ == a.known@.insert(n),
        b.hexes@ == a.hexes@.push(n),
        !a.known@.contains(n),
        in_sight(n),
        connected(tiles, root, n),
    ensures
        b.wf(tiles, root),
{
    assert(b.hexes@[a.hexes@.len() as int] == n);
    assert forall|i: int, j: int|
        0 <= i < b.hexes@.len() && 0 <= j < b.hexes@.len() && i != j implies b.hexes@[i]
        != b.hexes@[j] by {
        if i < a.hexes@.len() {
            assert(a.known@.contains(a.hexes@[i]));
        }
        if j < a.hexes@.len() {
            assert(a.known@.contains(a.hexes@[j]));
        }
    }
    assert forall|k: int| 0 <= k < b.hexes@.len() implies b.known@.contains(
        #[trigger] b.hexes@[k],
    ) by {
        if k < a.hexes@.len() {
            assert(a.known@.contains(a.hexes@[k]));
        }
    }
    assert forall|h: Hex| #[trigger] b.known@.contains(h) implies b.hexes@.contains(h) && in_sight(h)
        && connected(tiles, root, h) by {
        if h != n {
            assert(a.known@.contains(h));
            let k = choose|k: int| 0 <= k < a.hexes@.len() && a.hexes@[k] == h;
            assert(b.hexes@[k] == h);
        }
    }
    assert forall|k: int, m: Hex|
        0 <= k < b.next && #[trigger] opens(tiles, b.hexes@[k], m) implies b.known@.contains(m) by {
        assert(b.hexes@[k] == a.hexes@[k]);
    }
}

/// The hexes that distances can be measured to.
spec fn window() -> Set<Hex> {
    rectangle(2 * FIELD, 2 * FIELD)
}

/// A flood has no more hexes than there are.
proof fn lemma_room(f: Flood, tiles: Map<Hex, Terrain>, root: Hex)
    requires
        f.wf(tiles, root),
    ensures
        f.hexes@.len() <= window().len(),
{
    lemma_rectangle(2 * FIELD, 2 * FIELD);
    assert(f.hexes@.to_set().subset_of(window())) by {
        assert forall|h: Hex| f.hexes@.to_set().contains(h) implies window().contains(h) by {
            let k = choose|k: int| 0 <= k < f.hexes@.len() && f.hexes@[k] == h;
            assert(f.known@.contains(f.hexes@[k]));
        }
    }
    f.hexes@.unique_seq_to_set();
    vstd::set_lib::lemma_len_subset(f.hexes@.to_set(), window());
}

/// A flood with nothing left to look around holds every path from its root that
/// stays in the window.
proof fn lemma_drained(
    f: Flood,
    tiles: Map<Hex, Terrain>,
    p: Seq<Hex>,
    root: Hex,
    to: Hex,
    k: int,
)
    requires
        f.wf(tiles, root),
        f.next == f.hexes@.len(),
        walk(tiles, p, root, to),
        forall|j: int| 0 <= j < p.len() ==> in_sight(#[trigger] p[j]),
        0 <= k < p.len(),
    ensures
        f.known@.contains(p[k]),
    decreases k,
{
    if k > 0 {
        lemma_drained(f, tiles, p, root, to, k - 1);
        assert(hop(p, k));
        let j = choose|j: int| 0 <= j < f.hexes@.len() && f.hexes@[j] == p[k - 1];
        assert(opens(tiles, f.hexes@[j], p[k]));
    }
}

/// A path that is not too long stays in the window.
proof fn lemma_stays_in_sight(tiles: Map<Hex, Terrain>, p: Seq<Hex>, from: Hex, to: Hex)
    requires
        walk(tiles, p, from, to),
        from.in_field(),
        p.len() <= LONGEST_WALK,
    ensures
        forall|j: int| 0 <= j < p.len() ==> in_sight(#[trigger] p[j]),
        forall|j: int| 0 <= j < p.len() ==> in_sight(#[trigger] p.reverse()[j]),
{
    assert forall|j: int| 0 <= j < p.len() implies in_sight(#[trigger] p[j]) by {
        lemma_path_spread(tiles, p, from, to, j);
    }
    assert forall|j: int| 0 <= j < p.len() implies in_sight(#[trigger] p.reverse()[j]) by {
        assert(p.reverse()[j] == p[p.len() - 1 - j]);
    }
}

/// Whether `to` can be walked to from `from`. What can be reached from either is
/// explored in turn: they are connected if the two meet, and not if one of them is
/// explored to its end. So a goal that is walled in is found out from the inside.
pub fn reaches(from: Hex, to: Hex, terrain: &TerrainMap) -> (b: bool)
    requires
        from.in_field(),
        in_sight(to),
        searchable(terrain@, from, to),
    ensures
        b == connected(terrain@, from, to),
        b ==> within_reach(terrain@, from, to),
{
    let ghost tiles = terrain@;
    proof {
        if hemmed(tiles) && at_hand(from, to) {
            law_hemmed_maps_are_searchable(tiles, from, to);
        }
        assert forall|p: Seq<Hex>| #[trigger] walk(tiles, p, from, to) implies ground(
            tiles,
            from,
        ).spec_passable() && ground(tiles, to).spec_passable() by {
            assert(ground(tiles, p[0]).spec_passable());
            assert(ground(tiles, p[p.len() - 1]).spec_passable());
        }
    }
    if !terrain.get(from).passable() || !terrain.get(to).passable() {
        return false;
    }
    if from == to {
        proof {
            lemma_here(tiles, from);
        }
        return true;
    }
    let mut near: Flood = Flood::new(terrain, from);
    let mut far: Flood = Flood::new(terrain, to);
    while near.next < near.hexes.len() && far.next < far.hexes.len()
        invariant
            tiles == terrain@,
            connected(tiles, from, to) ==> within_reach(tiles, from, to),
            near.wf(tiles, from),
            far.wf(tiles, to),
            near.known@.disjoint(far.known@),
        decreases window().len() - near.next,
    {
        proof {
            lemma_room(near, tiles, from);
        }
        if near.grow(terrain, &far, Ghost(from), Ghost(to)) {
            return true;
        }
        if far.grow(terrain, &near, Ghost(to), Ghost(from)) {
            proof {
                let p = choose|p: Seq<Hex>| #[trigger] walk(tiles, p, to, from);
                lemma_reversed(tiles, p, to, from);
            }
            return true;
        }
    }
    proof {
        if connected(tiles, from, to) {
            let p = choose|p: Seq<Hex>| #[trigger]
                walk(tiles, p, from, to) && p.len() <= LONGEST_WALK;
            lemma_stays_in_sight(tiles, p, from, to);
            if near.next == near.hexes@.len() {
                lemma_drained(near, tiles, p, from, to, p.len() - 1);
            } else {
                lemma_reversed(tiles, p, from, to);
                lemma_drained(far, tiles, p.reverse(), to, from, p.len() - 1);
            }
        }
    }
    false
}

/// A straight walk, where nothing impassable is as close to `to` as `from` is.
proof fn lemma_straight_walk(tiles: Map<Hex, Terrain>, from: Hex, to: Hex) -> (path: Seq<Hex>)
    requires
        forall|h: Hex|
            dist(h, to) <= dist(from, to) ==> (#[trigger] ground(tiles, h)).spec_passable(),
        abs(from.q as int) + dist(from, to) <= 0x2000_0000,
        abs(from.r as int) + dist(from, to) <= 0x2000_0000,
    ensures
        walk(tiles, path, from, to),
        path.len() == dist(from, to) + 1,
    decreases dist(from, to),
{
    assert(ground(tiles, from).spec_passable());
    if dist(from, to) == 0 {
        assert(from == to);
        seq![from]
    } else {
        let dx = to.q - from.q;
        let dz = to.r - from.r;
        let i: int = if dx > 0 && dz < 0 {
            1
        } else if dx < 0 && dz > 0 {
            4
        } else if dx > 0 {
            0
        } else if dx < 0 {
            3
        } else if dz > 0 {
            5
        } else {
            2
        };
        let n = nb(from, i);
        assert(dist(n, to) == dist(from, to) - 1);
        let rest = lemma_straight_walk(tiles, n, to);
        let path = seq![from] + rest;
        assert(path.last() == to);
        assert forall|k: int| 0 <= k < path.len() implies ground(
            tiles,
            #[trigger] path[k],
        ).spec_passable() by {
            if k > 0 {
                assert(path[k] == rest[k - 1]);
            }
        }
        assert forall|k: int| 0 < k < path.len() implies #[trigger] hop(path, k) by {
            if k == 1 {
                assert(path[0] == from && path[1] == rest[0]);
            } else {
                assert(hop(rest, k - 1));
                assert(path[k] == rest[k - 1] && path[k - 1] == rest[k - 2]);
            }
        }
        path
    }
}

/// Where nothing impassable is as close to the goal as the start is, a path leads
/// straight there.
pub proof fn law_open_ground_is_searchable(tiles: Map<Hex, Terrain>, from: Hex, to: Hex)
    requires
        in_sight(from),
        dist(from, to) < LONGEST_WALK,
        forall|h: Hex|
            dist(h, to) <= dist(from, to) ==> (#[trigger] ground(tiles, h)).spec_passable(),
    ensures
        within_reach(tiles, from, to),
{
    let path = lemma_straight_walk(tiles, from, to);
    assert(walk(tiles, path, from, to));
}

/// How far from the origin paths have to lead on a hemmed map at most.
spec fn brim() -> int {
    4095
}

/// The nearest coordinate within the brim.
spec fn pulled(x: int) -> int {
    if x < -brim() {
        -brim()
    } else if x > brim() {
        brim()
    } else {
        x
    }
}

/// The hex within the brim that stands for `h`.
spec fn drawn_in(h: Hex) -> Hex {
    Hex { q: pulled(h.q as int) as i32, r: pulled(h.r as int) as i32 }
}

proof fn lemma_drawn_in(a: Hex, b: Hex)
    requires
        dist(a, b) == 1,
    ensures
        dist(drawn_in(a), drawn_in(b)) <= 1,
{
}

/// Step `i` of a path leads to a neighbour or nowhere.
spec fn glide(path: Seq<Hex>, i: int) -> bool {
    dist(path[i - 1], path[i]) <= 1
}

/// A path, even one that lingers, can be cut short until it visits no hex twice.
proof fn lemma_shortened(
    tiles: Map<Hex, Terrain>,
    path: Seq<Hex>,
    within: Set<Hex>,
) -> (short: Seq<Hex>)
    requires
        path.len() > 0,
        within.finite(),
        forall|k: int|
            0 <= k < path.len() ==> within.contains(#[trigger] path[k]) && ground(
                tiles,
                path[k],
            ).spec_passable(),
        forall|k: int| 0 < k < path.len() ==> #[trigger] glide(path, k),
    ensures
        walk(tiles, short, path[0], path.last()),
        short.len() <= within.len(),
    decreases path.len(),
{
    let from = path[0];
    let to = path.last();
    assert(within.contains(path[path.len() - 1]));
    let k = lemma_first(path, to, 0);
    assert(within.remove(to).len() == within.len() - 1);
    if k == 0 {
        let short = seq![to];
        assert(short.last() == to);
        assert(ground(tiles, path[0]).spec_passable());
        assert(walk(tiles, short, from, to));
        short
    } else {
        let before = path.take(k);
        let y = before.last();
        assert(before[0] == from);
        assert forall|j: int| 0 <= j < before.len() implies within.remove(to).contains(
            #[trigger] before[j],
        ) && ground(tiles, before[j]).spec_passable() by {
            assert(before[j] == path[j]);
        }
        assert forall|j: int| 0 < j < before.len() implies #[trigger] glide(before, j) by {
            assert(glide(path, j));
        }
        let shorter = lemma_shortened(tiles, before, within.remove(to));
        assert(glide(path, k));
        assert(y == path[k - 1] && y != to);
        assert(ground(tiles, path[k]).spec_passable());
        let last = seq![to];
        assert(last.last() == to);
        assert(walk(tiles, last, to, to));
        lemma_joined(tiles, shorter, last, from, y, to, to);
        shorter + last
    }
}

/// Where `h` comes first on a path that ends with it.
proof fn lemma_first(path: Seq<Hex>, h: Hex, from: int) -> (k: int)
    requires
        0 <= from < path.len(),
        path.last() == h,
        forall|j: int| 0 <= j < from ==> #[trigger] path[j] != h,
    ensures
        0 <= k < path.len(),
        path[k] == h,
        forall|j: int| 0 <= j < k ==> #[trigger] path[j] != h,
    decreases path.len() - from,
{
    if path[from] == h {
        from
    } else {
        lemma_first(path, h, from + 1)
    }
}

/// On a hemmed map every search between hexes at hand comes to an end: a path never
/// has to leave the brim, and one that visits no hex twice is not too long.
pub proof fn law_hemmed_maps_are_searchable(tiles: Map<Hex, Terrain>, from: Hex, to: Hex)
    requires
        hemmed(tiles),
        in_sight(from),
        at_hand(from, to),
    ensures
        connected(tiles, from, to) ==> within_reach(tiles, from, to),
{
    let m = brim();
    if connected(tiles, from, to) {
        if abs(from.q as int) <= m && abs(from.r as int) <= m && abs(to.q as int) <= m && abs(
            to.r as int,
        ) <= m {
            let p = choose|p: Seq<Hex>| #[trigger] walk(tiles, p, from, to);
            let path = Seq::new(p.len(), |k: int| drawn_in(p[k]));
            let within = rectangle(m, m);
            lemma_rectangle(m, m);
            assert((2 * m + 1) * (2 * m + 1) <= LONGEST_WALK) by (nonlinear_arith)
                requires
                    m == 4095,
            ;
            assert(drawn_in(from) == from && drawn_in(to) == to);
            assert forall|k: int| 0 <= k < path.len() implies within.contains(#[trigger] path[k])
                && ground(tiles, path[k]).spec_passable() by {
                assert(ground(tiles, p[k]).spec_passable());
                assert(path[k] == drawn_in(p[k]));
                assert(ground(tiles, path[k]).spec_passable());
            }
            assert forall|k: int| 0 < k < path.len() implies #[trigger] glide(path, k) by {
                assert(hop(p, k));
                lemma_drawn_in(p[k - 1], p[k]);
            }
            let short = lemma_shortened(tiles, path, within);
            assert(walk(tiles, short, from, to));
        } else {
            assert forall|h: Hex| dist(h, to) <= dist(from, to) implies (#[trigger] ground(
                tiles,
                h,
            )).spec_passable() by {}
            law_open_ground_is_searchable(tiles, from, to);
        }
    }
}

/// The hex with key `k` is passable or near the origin.
spec fn within_hem(tiles: Map<Hex, Terrain>, k: u64) -> bool {
    forall|h: Hex|
        #[trigger] spec_cell(h) == k && !ground(tiles, h).spec_passable() ==> abs(h.q as int) <= HEM
            && abs(h.r as int) <= HEM
}

/// From every hex of the field, searches for what a unit sees come to an end.
pub open spec fn navigable(tiles: Map<Hex, Terrain>) -> bool {
    forall|from: Hex, to: Hex|
        from.in_field() && dist(from, to) <= VISION ==> #[trigger] searchable(tiles, from, to)
}

/// A hemmed map is navigable.
pub proof fn law_hemmed_maps_are_navigable(tiles: Map<Hex, Terrain>)
    requires
        hemmed(tiles),
    ensures
        navigable(tiles),
{
    assert forall|from: Hex, to: Hex|
        from.in_field() && dist(from, to) <= VISION implies #[trigger] searchable(
        tiles,
        from,
        to,
    ) by {}
}

/// Whether all impassable ground lies around the origin.
pub fn is_hemmed(terrain: &TerrainMap) -> (b: bool)
    ensures
        b == hemmed(terrain@),
{
    let ghost tiles = terrain@;
    let keys = terrain.tiles.keys();
    let ghost row = vstd::std_specs::hash::into_iter_keys(keys);
    for k in it: keys
        invariant
            tiles == terrain@,
            it.seq().unref() == row,
            row.to_set() == terrain.tiles@.dom(),
            forall|j: int| 0 <= j < it.index() ==> within_hem(tiles, #[trigger] row[j]),
    {
        let h: Hex = hex_of(*k);
        proof {
            lemma_by_hex_get(terrain.tiles@, h);
        }
        let far: bool = h.q < -HEM || h.q > HEM || h.r < -HEM || h.r > HEM;
        if far && !terrain.get(h).passable() {
            assert(!ground(tiles, h).spec_passable());
            return false;
        }
        assert(within_hem(tiles, *k)) by {
            broadcast use lemma_cell_injective;

        }
    }
    proof {
        assert forall|h: Hex| !(#[trigger] ground(tiles, h)).spec_passable() implies abs(h.q as int)
            <= HEM && abs(h.r as int) <= HEM by {
            lemma_by_hex_get(terrain.tiles@, h);
            assert(row.to_set().contains(spec_cell(h)));
            let j = choose|j: int| 0 <= j < row.len() && row[j] == spec_cell(h);
            assert(within_hem(tiles, row[j]));
        }
    }
    true
}

} // verus!
