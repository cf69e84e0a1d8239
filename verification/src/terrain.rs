//! The ground: what can be entered, what it costs, what it protects and hides.

use crate::hex::{dist, line_point, Hex};
use crate::single::{lemma_fraction, Single};
use std::collections::HashMap;
use vstd::prelude::*;

verus! {

broadcast use vstd::std_specs::hash::group_hash_axioms;

#[derive(Clone, Copy, PartialEq, Eq, Structural, Debug)]
pub enum Terrain {
    Plains,
    Forest,
    Hill,
    Mountain,
    Water,
}

impl Terrain {
    pub open spec fn spec_passable(self) -> bool {
        self != Terrain::Mountain && self != Terrain::Water
    }

    /// Whether units can enter.
    pub fn passable(self) -> (r: bool)
        ensures
            r == self.spec_passable(),
    {
        !matches!(self, Terrain::Mountain | Terrain::Water)
    }

    pub open spec fn spec_move_cost(self) -> u64 {
        if self == Terrain::Forest || self == Terrain::Hill {
            2
        } else {
            1
        }
    }

    /// Cooldown multiplier for entering this terrain.
    pub fn move_cost(self) -> (r: u64)
        ensures
            r == self.spec_move_cost(),
    {
        match self {
            Terrain::Forest | Terrain::Hill => 2,
            _ => 1,
        }
    }

    pub open spec fn spec_defense_mult(self) -> Single {
        if self == Terrain::Forest {
            Single::fraction(7, 10)
        } else if self == Terrain::Hill {
            Single::fraction(6, 10)
        } else {
            Single { bits: 0x3f80_0000 }
        }
    }

    /// Multiplier on damage taken while standing here: 0.7 in a forest, 0.6 on a
    /// hill, 1 elsewhere.
    pub fn defense_mult(self) -> (r: Single)
        ensures
            r == self.spec_defense_mult(),
    {
        proof {
            vstd::arithmetic::power2::lemma2_to64();
            lemma_fraction(7, 10, 11744051, 125, 2);
            lemma_fraction(6, 10, 10066329, 125, 6);
        }
        match self {
            Terrain::Forest => Single { bits: 0x3f33_3333 },
            Terrain::Hill => Single { bits: 0x3f19_999a },
            _ => Single { bits: 0x3f80_0000 },
        }
    }

    pub open spec fn spec_blocks_sight(self) -> bool {
        self == Terrain::Mountain
    }

    /// Whether this terrain hides what lies behind it.
    pub fn blocks_sight(self) -> (r: bool)
        ensures
            r == self.spec_blocks_sight(),
    {
        matches!(self, Terrain::Mountain)
    }
}

/// The key of a hex in the tables that are indexed by hex.
pub open spec fn spec_cell(h: Hex) -> u64 {
    ((h.q + 0x8000_0000) * 0x1_0000_0000 + (h.r + 0x8000_0000)) as u64
}

/// The key of a hex in the tables that are indexed by hex.
pub fn cell(h: Hex) -> (k: u64)
    ensures
        k == spec_cell(h),
{
    ((h.q as i64 + 0x8000_0000) as u64) * 0x1_0000_0000 + ((h.r as i64 + 0x8000_0000) as u64)
}

/// The hex of a key.
pub fn hex_of(k: u64) -> (h: Hex)
    ensures
        spec_cell(h) == k,
{
    let q: i64 = (k / 0x1_0000_0000) as i64 - 0x8000_0000;
    let r: i64 = (k % 0x1_0000_0000) as i64 - 0x8000_0000;
    Hex::new(q as i32, r as i32)
}

/// Different hexes have different keys.
pub broadcast proof fn lemma_cell_injective(a: Hex, b: Hex)
    ensures
        #![trigger spec_cell(a), spec_cell(b)]
        spec_cell(a) == spec_cell(b) ==> a == b,
{
}

/// A table keyed by cell, read as a map from hexes.
#[verifier::opaque]
pub open spec fn by_hex<V>(m: Map<u64, V>) -> Map<Hex, V> {
    Map::new(|h: Hex| m.contains_key(spec_cell(h)), |h: Hex| m[spec_cell(h)])
}

pub proof fn lemma_by_hex_get<V>(m: Map<u64, V>, h: Hex)
    ensures
        by_hex(m).contains_key(h) == m.contains_key(spec_cell(h)),
        m.contains_key(spec_cell(h)) ==> by_hex(m)[h] == m[spec_cell(h)],
{
    reveal(by_hex);
}

pub proof fn lemma_by_hex_empty<V>()
    ensures
        by_hex(Map::<u64, V>::empty()) == Map::<Hex, V>::empty(),
{
    reveal(by_hex);
    assert(by_hex(Map::<u64, V>::empty()) =~= Map::<Hex, V>::empty());
}

pub proof fn lemma_by_hex_insert<V>(m: Map<u64, V>, h: Hex, v: V)
    ensures
        by_hex(m.insert(spec_cell(h), v)) == by_hex(m).insert(h, v),
{
    broadcast use lemma_cell_injective;

    reveal(by_hex);
    assert(by_hex(m.insert(spec_cell(h), v)) =~= by_hex(m).insert(h, v));
}

/// The hex of a key.
spec fn uncell(k: u64) -> Hex {
    Hex {
        q: (k as int / 0x1_0000_0000 - 0x8000_0000) as i32,
        r: (k as int % 0x1_0000_0000 - 0x8000_0000) as i32,
    }
}

/// Every key is that of some hex, so a table has as many hexes as keys.
pub proof fn lemma_by_hex_size<V>(m: Map<u64, V>)
    requires
        m.dom().finite(),
    ensures
        by_hex(m).dom().finite(),
        by_hex(m).dom().len() == m.dom().len(),
        m.is_empty() <==> by_hex(m).is_empty(),
{
    broadcast use lemma_cell_injective;

    reveal(by_hex);
    let f = |k: u64| uncell(k);
    assert forall|k: u64| #[trigger] spec_cell(uncell(k)) == k by {}
    assert forall|h: Hex| uncell(#[trigger] spec_cell(h)) == h by {}
    assert(vstd::relations::injective_on(f, m.dom())) by {
        assert forall|a: u64, b: u64|
            m.dom().contains(a) && m.dom().contains(b) && #[trigger] f(a) == #[trigger] f(b) implies a == b by {
            assert(spec_cell(uncell(a)) == a);
            assert(spec_cell(uncell(b)) == b);
        }
    }
    assert(m.dom().map(f) =~= by_hex(m).dom()) by {
        assert forall|h: Hex| by_hex(m).dom().contains(h) implies m.dom().map(f).contains(h) by {
            assert(f(spec_cell(h)) == h);
        }
    }
    vstd::set_lib::lemma_map_size(m.dom(), by_hex(m).dom(), f);
    if m.is_empty() {
        assert(m.dom() =~= Set::empty());
        by_hex(m).dom().lemma_len0_is_empty();
    }
    if by_hex(m).is_empty() {
        assert(by_hex(m).dom() =~= Set::empty());
        m.dom().lemma_len0_is_empty();
    }
}

/// The terrain of a hex; hexes that were never set are plains.
pub open spec fn ground(m: Map<Hex, Terrain>, h: Hex) -> Terrain {
    if m.contains_key(h) {
        m[h]
    } else {
        Terrain::Plains
    }
}

#[derive(Debug)]
pub struct TerrainMap {
    pub tiles: HashMap<u64, Terrain>,
}

impl View for TerrainMap {
    type V = Map<Hex, Terrain>;

    open spec fn view(&self) -> Map<Hex, Terrain> {
        by_hex(self.tiles@)
    }
}

impl Default for TerrainMap {
    fn default() -> (m: TerrainMap)
        ensures
            m@ == Map::<Hex, Terrain>::empty(),
    {
        proof {
            lemma_by_hex_empty::<Terrain>();
        }
        TerrainMap { tiles: HashMap::new() }
    }
}

impl TerrainMap {
    pub fn get(&self, h: Hex) -> (t: Terrain)
        ensures
            t == ground(self@, h),
    {
        proof {
            lemma_by_hex_get(self.tiles@, h);
        }
        match self.tiles.get(&cell(h)) {
            Some(t) => *t,
            None => Terrain::Plains,
        }
    }

    /// Whether the terrain of `h` was ever set.
    pub fn covers(&self, h: Hex) -> (b: bool)
        ensures
            b == self@.contains_key(h),
    {
        proof {
            lemma_by_hex_get(self.tiles@, h);
        }
        self.tiles.contains_key(&cell(h))
    }

    /// Whether no terrain was ever set.
    pub fn is_empty(&self) -> (b: bool)
        ensures
            b == self@.is_empty(),
    {
        proof {
            lemma_by_hex_size(self.tiles@);
        }
        self.tiles.is_empty()
    }

    pub fn set(&mut self, h: Hex, t: Terrain)
        ensures
            final(self)@ == old(self)@.insert(h, t),
    {
        proof {
            lemma_by_hex_insert(self.tiles@, h, t);
        }
        self.tiles.insert(cell(h), t);
    }
}

/// Hash noise: one 32-bit word per cell and seed.
pub open spec fn noise_word(a: i32, b: i32, seed: i32) -> u32 {
    let h0 = (a.wrapping_mul(73856093) ^ b.wrapping_mul(19349663) ^ seed.wrapping_mul(
        83492791,
    )) as u32;
    let h1 = (h0 ^ (h0 >> 13)).wrapping_mul(0x85eb_ca6b);
    h1 ^ (h1 >> 16)
}

/// The noise word as a fraction of the largest word.
pub open spec fn noise(a: i32, b: i32, seed: i32) -> Single {
    Single::spec_of_int(noise_word(a, b, seed) as int).spec_div(
        Single::spec_of_int(u32::MAX as int),
    )
}

/// The biome of a noise value, by rising bands.
pub open spec fn biome(v: Single) -> Terrain {
    if v.val() < Single::fraction(10, 100).val() {
        Terrain::Water
    } else if v.val() < Single::fraction(20, 100).val() {
        Terrain::Mountain
    } else if v.val() < Single::fraction(38, 100).val() {
        Terrain::Forest
    } else if v.val() < Single::fraction(52, 100).val() {
        Terrain::Hill
    } else {
        Terrain::Plains
    }
}

/// The terrain that a seed gives a hex: blobs of four by four share their noise.
#[verifier::opaque]
pub open spec fn generated(seed: i32, h: Hex) -> Terrain {
    biome(noise((h.q as int / 4) as i32, (h.r as int / 4) as i32, seed))
}

fn hash01(a: i32, b: i32, seed: i32) -> (v: Single)
    ensures
        v == noise(a, b, seed),
{
    let mut h: u32 = (a.wrapping_mul(73856093) ^ b.wrapping_mul(19349663) ^ seed.wrapping_mul(
        83492791,
    )) as u32;
    h = h ^ (h >> 13);
    h = h.wrapping_mul(0x85eb_ca6b);
    h = h ^ (h >> 16);
    let num: Single = Single::of_int(h as i64);
    let den: Single = Single::of_int(u32::MAX as i64);
    proof {
        vstd::arithmetic::power2::lemma2_to64();
        vstd::arithmetic::power2::lemma_pow2_pos(149);
        crate::single::lemma_of_int_within(h as int, 32);
        crate::single::lemma_of_int_within(u32::MAX as int, 32);
        crate::single::lemma_quotient_within(num, den, 32);
    }
    num.div(den)
}

fn band(v: Single) -> (t: Terrain)
    ensures
        t == biome(v),
{
    proof {
        vstd::arithmetic::power2::lemma2_to64();
        lemma_fraction(10, 100, 13421772, 122, 80);
        lemma_fraction(20, 100, 13421772, 123, 80);
        lemma_fraction(38, 100, 12750684, 124, 16);
        lemma_fraction(52, 100, 8724152, 125, 32);
    }
    if v.lt(Single { bits: 0x3dcc_cccd }) {
        Terrain::Water
    } else if v.lt(Single { bits: 0x3e4c_cccd }) {
        Terrain::Mountain
    } else if v.lt(Single { bits: 0x3ec2_8f5c }) {
        Terrain::Forest
    } else if v.lt(Single { bits: 0x3f05_1eb8 }) {
        Terrain::Hill
    } else {
        Terrain::Plains
    }
}

fn generate_tile(seed: i32, h: Hex) -> (t: Terrain)
    ensures
        t == generated(seed, h),
{
    reveal(generated);
    let bq: i32 = h.q.checked_div_euclid(4).unwrap();
    let br: i32 = h.r.checked_div_euclid(4).unwrap();
    band(hash01(bq, br, seed))
}

/// The hexes of an axial rectangle around the origin.
pub open spec fn in_rectangle(h: Hex, q_range: int, r_range: int) -> bool {
    &&& -q_range <= h.q <= q_range
    &&& -r_range <= h.r <= r_range
}

/// Deterministic terrain over an axial rectangle.
pub fn generate_terrain(seed: i32, q_range: i32, r_range: i32) -> (map: TerrainMap)
    requires
        q_range > i32::MIN,
        q_range >= 0 ==> r_range > i32::MIN,
    ensures
        forall|h: Hex| #[trigger]
            map@.contains_key(h) <==> in_rectangle(h, q_range as int, r_range as int),
        forall|h: Hex|
            map@.contains_key(h) ==> #[trigger] map@[h] == generated(seed, h),
{
    let mut map = TerrainMap::default();
    let mut q: i64 = -(q_range as i64);
    while q <= q_range as i64
        invariant
            q_range > i32::MIN,
            q_range >= 0 ==> r_range > i32::MIN,
            -q_range <= q,
            q_range >= 0 ==> q <= q_range + 1,
            forall|h: Hex| #[trigger]
                map@.contains_key(h) <==> in_rectangle(h, q_range as int, r_range as int) && h.q
                    < q,
            forall|h: Hex|
                map@.contains_key(h) ==> #[trigger] map@[h] == generated(seed, h),
        decreases q_range - q + 1,
    {
        let mut r: i64 = -(r_range as i64);
        while r <= r_range as i64
            invariant
                r_range > i32::MIN,
                -q_range <= q <= q_range,
                -r_range <= r,
                r_range >= 0 ==> r <= r_range + 1,
                forall|h: Hex| #[trigger]
                    map@.contains_key(h) <==> in_rectangle(h, q_range as int, r_range as int) && (
                    h.q < q || (h.q == q && h.r < r)),
                forall|h: Hex|
                    map@.contains_key(h) ==> #[trigger] map@[h] == generated(seed, h),
            decreases r_range - r + 1,
        {
            let h = Hex::new(q as i32, r as i32);
            map.set(h, generate_tile(seed, h));
            r = r + 1;
        }
        q = q + 1;
    }
    map
}

/// The hexes of a rectangle around the origin.
pub open spec fn rectangle(q_range: int, r_range: int) -> Set<Hex> {
    Set::new(|h: Hex| in_rectangle(h, q_range, r_range))
}

/// How many hexes a rectangle has at most.
pub proof fn lemma_rectangle(q_range: int, r_range: int)
    requires
        0 <= q_range < 0x4000_0000,
        0 <= r_range < 0x4000_0000,
    ensures
        rectangle(q_range, r_range).finite(),
        rectangle(q_range, r_range).len() <= (2 * q_range + 1) * (2 * r_range + 1),
{
    let width = 2 * r_range + 1;
    let n = (2 * q_range + 1) * width;
    let f = |k: int|
        Hex { q: (k / width - q_range) as i32, r: (k % width - r_range) as i32 };
    let all = vstd::set_lib::set_int_range(0, n);
    let dom = rectangle(q_range, r_range);
    assert(0 <= n) by (nonlinear_arith)
        requires
            n == (2 * q_range + 1) * width,
            0 <= 2 * q_range + 1,
            0 <= width,
    ;
    vstd::set_lib::lemma_int_range(0, n);
    assert(all.map(f) =~= dom) by {
        assert forall|h: Hex| dom.contains(h) implies all.map(f).contains(h) by {
            let a = h.q + q_range;
            let b = h.r + r_range;
            let k = a * width + b;
            assert(0 <= k < n) by (nonlinear_arith)
                requires
                    k == a * width + b,
                    n == (2 * q_range + 1) * width,
                    0 <= a < 2 * q_range + 1,
                    0 <= b < width,
            ;
            vstd::arithmetic::div_mod::lemma_fundamental_div_mod_converse(k, width, a, b);
            assert(all.contains(k));
            assert(f(k) == h);
        }
        assert forall|h: Hex| all.map(f).contains(h) implies dom.contains(h) by {
            let k = choose|k: int| all.contains(k) && f(k) == h;
            vstd::arithmetic::div_mod::lemma_fundamental_div_mod(k, width);
            let a = k / width;
            assert(0 <= a < 2 * q_range + 1) by (nonlinear_arith)
                requires
                    k == width * a + k % width,
                    0 <= k % width < width,
                    0 <= k < (2 * q_range + 1) * width,
                    width > 0,
            ;
            assert(in_rectangle(h, q_range, r_range));
        }
    }
    vstd::set_lib::lemma_map_size_bound(all, dom, f);
}

/// Nothing strictly inside the line from `from` to `to` hides one from the other.
pub open spec fn clear_between(from: Hex, to: Hex, m: Map<Hex, Terrain>) -> bool {
    forall|i: int|
        0 < i < dist(from, to) ==> !#[trigger] ground(
            m,
            line_point(from, to, i),
        ).spec_blocks_sight()
}

/// Whether nothing that hides sits strictly between `from` and `to`. A hex is
/// always in sight of itself.
pub fn line_of_sight(from: Hex, to: Hex, terrain: &TerrainMap) -> (r: bool)
    requires
        from.measurable(to),
        from.cubic(),
        to.cubic(),
    ensures
        r == clear_between(from, to, terrain@),
{
    let line: Vec<Hex> = from.line_to(to);
    let ghost n = dist(from, to);
    let last: usize = line.len() - 1;
    let mut i: usize = 1;
    while i < last
        invariant
            n == dist(from, to),
            last == n,
            line@.len() == n + 1,
            1 <= i,
            forall|j: int|
                0 <= j < line@.len() ==> #[trigger] line@[j] == line_point(from, to, j),
            forall|j: int|
                0 < j < i ==> !#[trigger] ground(
                    terrain@,
                    line_point(from, to, j),
                ).spec_blocks_sight(),
        decreases last - i,
    {
        if terrain.get(line[i]).blocks_sight() {
            assert(ground(terrain@, line_point(from, to, i as int)).spec_blocks_sight());
            return false;
        }
        i = i + 1;
    }
    true
}

/// What is set is what is read back, for that hex and for no other; what was never
/// set is plains.
pub proof fn law_terrain_reads_back(m: Map<Hex, Terrain>, h: Hex, t: Terrain, g: Hex)
    ensures
        ground(m.insert(h, t), h) == t,
        g != h ==> ground(m.insert(h, t), g) == ground(m, g),
        ground(Map::empty(), g) == Terrain::Plains,
{
}

} // verus!
