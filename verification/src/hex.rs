//! Flat-top axial hexes: neighbours, distance and straight lines.

use crate::single::{
    lemma_half_away_within, lemma_of_int_within, lemma_product_within, lemma_quotient_within,
    lemma_nearest_multiple, lemma_representable, lemma_small_int, lemma_sum_within,
    lemma_val_representable, magnitude, rounded, Single,
};
use vstd::arithmetic::div_mod::lemma_fundamental_div_mod_converse;
use vstd::arithmetic::power2::{lemma2_to64, lemma_pow2_pos, lemma_pow2_strictly_increases, pow2};
use vstd::prelude::*;

verus! {

/// A hex of the plane, in axial coordinates.
#[derive(Clone, Copy, PartialEq, Eq, Structural, Hash, Debug, Default)]
pub struct Hex {
    pub q: i32,
    pub r: i32,
}

/// Units are led on hexes whose coordinates are at most this far from zero; all
/// the distances between such hexes, and around them, fit in 32 bits.
pub const FIELD: i32 = 0x0800_0000;

/// The offset to the neighbour in direction `i`.
pub open spec fn dir(i: int) -> (int, int) {
    if i == 0 {
        (1, 0)
    } else if i == 1 {
        (1, -1)
    } else if i == 2 {
        (0, -1)
    } else if i == 3 {
        (-1, 0)
    } else if i == 4 {
        (-1, 1)
    } else {
        (0, 1)
    }
}

/// The offset to the neighbour in direction `i`.
pub fn direction(i: usize) -> (d: (i32, i32))
    requires
        i < 6,
    ensures
        d.0 == dir(i as int).0,
        d.1 == dir(i as int).1,
{
    if i == 0 {
        (1, 0)
    } else if i == 1 {
        (1, -1)
    } else if i == 2 {
        (0, -1)
    } else if i == 3 {
        (-1, 0)
    } else if i == 4 {
        (-1, 1)
    } else {
        (0, 1)
    }
}

/// `x` is a 32-bit integer.
pub open spec fn fits(x: int) -> bool {
    i32::MIN <= x <= i32::MAX
}

pub open spec fn abs(x: int) -> int {
    if x < 0 {
        -x
    } else {
        x
    }
}

fn abs_i32(x: i32) -> (r: i32)
    requires
        x > i32::MIN,
    ensures
        r == abs(x as int),
{
    if x < 0 {
        -x
    } else {
        x
    }
}

/// The number of steps between two hexes.
pub open spec fn dist(a: Hex, b: Hex) -> int {
    (abs(a.q - b.q) + abs(a.q + a.r - b.q - b.r) + abs(a.r - b.r)) / 2
}

/// The neighbour of `h` in direction `i`.
pub open spec fn nb(h: Hex, i: int) -> Hex {
    Hex { q: (h.q + dir(i).0) as i32, r: (h.r + dir(i).1) as i32 }
}

impl Hex {
    pub open spec fn in_field(self) -> bool {
        &&& -FIELD <= self.q <= FIELD
        &&& -FIELD <= self.r <= FIELD
    }

    /// All six neighbours have coordinates.
    pub open spec fn inner(self) -> bool {
        &&& i32::MIN < self.q < i32::MAX
        &&& i32::MIN < self.r < i32::MAX
    }

    /// The distance to `o` can be computed in 32 bits, term by term.
    pub open spec fn measurable(self, o: Hex) -> bool {
        &&& i32::MIN < self.q - o.q <= i32::MAX
        &&& fits(self.q + self.r)
        &&& fits(self.q + self.r - o.q)
        &&& i32::MIN < self.q + self.r - o.q - o.r <= i32::MAX
        &&& i32::MIN < self.r - o.r <= i32::MAX
        &&& fits(abs(self.q - o.q) + abs(self.q + self.r - o.q - o.r))
        &&& fits(abs(self.q - o.q) + abs(self.q + self.r - o.q - o.r) + abs(self.r - o.r))
    }

    pub fn new(q: i32, r: i32) -> (h: Hex)
        ensures
            h == (Hex { q, r }),
    {
        Hex { q, r }
    }

    /// The six hexes around this one, in the fixed order of the directions.
    pub fn neighbors(self) -> (n: [Hex; 6])
        requires
            self.inner(),
        ensures
            forall|i: int| 0 <= i < 6 ==> #[trigger] n[i] == nb(self, i),
    {
        [
            Hex::new(self.q + 1, self.r),
            Hex::new(self.q + 1, self.r - 1),
            Hex::new(self.q, self.r - 1),
            Hex::new(self.q - 1, self.r),
            Hex::new(self.q - 1, self.r + 1),
            Hex::new(self.q, self.r + 1),
        ]
    }

    /// Axial hex distance.
    pub fn distance(self, o: Hex) -> (d: i32)
        requires
            self.measurable(o),
        ensures
            d == dist(self, o),
            d >= 0,
    {
        (abs_i32(self.q - o.q) + abs_i32(self.q + self.r - o.q - o.r) + abs_i32(self.r - o.r)) / 2
    }
}

impl Hex {
    /// A route whose next hex is `next` does not go on from here.
    pub open spec fn strays(self, next: Option<Hex>) -> bool {
        match next {
            Some(n) => dist(self, n) != 1,
            None => true,
        }
    }

    /// Whether the next hex of a route is not one step from here.
    pub fn off_route(self, next: Option<Hex>) -> (b: bool)
        requires
            next matches Some(n) ==> self.measurable(n),
        ensures
            b == self.strays(next),
    {
        match next {
            Some(n) => self.distance(n) != 1,
            None => true,
        }
    }
}

/// From hexes of the field, or a little off it, hexes well beyond the field can
/// be measured.
pub proof fn lemma_measurable(a: Hex, b: Hex)
    requires
        -FIELD - 64 <= a.q <= FIELD + 64,
        -FIELD - 64 <= a.r <= FIELD + 64,
        -2 * FIELD - 64 <= b.q <= 2 * FIELD + 64,
        -2 * FIELD - 64 <= b.r <= 2 * FIELD + 64,
    ensures
        a.measurable(b),
        0 <= dist(a, b) < i32::MAX,
{
}

/// The point at the fraction `i / n` of the way from `a` to `b`, computed in
/// single precision.
pub open spec fn lerp(a: int, b: int, i: int, n: int) -> Single {
    let t = Single::spec_of_int(i).spec_div(Single::spec_of_int(n));
    let start = Single::spec_of_int(a);
    start.spec_add(Single::spec_of_int(b).spec_sub(start).spec_mul(t))
}

/// A whole part cut to 32 bits.
pub open spec fn cut(v: int) -> i32 {
    (if Single::whole(v) > i32::MAX {
        i32::MAX as int
    } else if Single::whole(v) < i32::MIN {
        i32::MIN as int
    } else {
        Single::whole(v)
    }) as i32
}

/// The hex around a point in cube coordinates: each is rounded, and the one that
/// moved furthest is replaced by what the other two leave for it.
pub open spec fn hex_around(x: Single, y: Single, z: Single) -> Hex {
    let rx = Single::half_away(x.val());
    let ry = Single::half_away(y.val());
    let rz = Single::half_away(z.val());
    let dx = abs(rounded(rx - x.val(), 1));
    let dy = abs(rounded(ry - y.val(), 1));
    let dz = abs(rounded(rz - z.val(), 1));
    if dx > dy && dx > dz {
        Hex { q: cut(rounded(-ry - rz, 1)), r: cut(rz) }
    } else if dz > dy {
        Hex { q: cut(rx), r: cut(rounded(-rx - ry, 1)) }
    } else {
        Hex { q: cut(rx), r: cut(rz) }
    }
}

/// The hex at step `i` of the line from `a` to `b`.
pub open spec fn line_point(a: Hex, b: Hex, i: int) -> Hex {
    let n = dist(a, b);
    if n == 0 {
        a
    } else {
        hex_around(
            lerp(a.q as int, b.q as int, i, n),
            lerp(-a.q - a.r, -b.q - b.r, i, n),
            lerp(a.r as int, b.r as int, i, n),
        )
    }
}

/// Rounds fractional cube coordinates to the nearest hex.
fn cube_round(xf: Single, yf: Single, zf: Single) -> (h: Hex)
    requires
        xf.within(70),
        yf.within(70),
        zf.within(70),
    ensures
        h == hex_around(xf, yf, zf),
{
    let x: Single = xf.round();
    let y: Single = yf.round();
    let z: Single = zf.round();
    proof {
        lemma_half_away_within(xf.val(), 70);
        lemma_half_away_within(yf.val(), 70);
        lemma_half_away_within(zf.val(), 70);
        lemma_pow2_strictly_increases(149 + 70, 149 + 71);
        lemma_sum_within(x.val(), xf.val(), 71);
        lemma_sum_within(y.val(), yf.val(), 71);
        lemma_sum_within(z.val(), zf.val(), 71);
        lemma_sum_within(-y.val(), z.val(), 71);
        lemma_sum_within(-x.val(), y.val(), 71);
    }
    let dx: Single = x.sub(xf).abs();
    let dy: Single = y.sub(yf).abs();
    let dz: Single = z.sub(zf).abs();
    if dy.lt(dx) && dz.lt(dx) {
        // x moved furthest: derive it from y and z.
        let x2: Single = y.neg().sub(z);
        Hex::new(x2.to_i32(), z.to_i32())
    } else if dy.lt(dz) {
        // z moved furthest: derive it from x and y.
        let z2: Single = x.neg().sub(y);
        Hex::new(x.to_i32(), z2.to_i32())
    } else {
        // y moved furthest, and is not kept anyway.
        Hex::new(x.to_i32(), z.to_i32())
    }
}

proof fn lemma_i32_magnitude(n: int)
    requires
        fits(n),
    ensures
        magnitude(n) <= pow2(32),
{
    lemma2_to64();
}

/// One coordinate of a point of a line.
fn lerp_single(a: i32, b: i32, i: i32, n: i32) -> (r: Single)
    requires
        0 <= i <= n,
        n >= 1,
    ensures
        r == lerp(a as int, b as int, i as int, n as int),
        r.within(70),
{
    proof {
        lemma_i32_magnitude(a as int);
        lemma_i32_magnitude(b as int);
        lemma_i32_magnitude(i as int);
        lemma_i32_magnitude(n as int);
        lemma_of_int_within(a as int, 32);
        lemma_of_int_within(b as int, 32);
        lemma_of_int_within(i as int, 32);
        lemma_of_int_within(n as int, 32);
        lemma2_to64();
    }
    let si: Single = Single::of_int(i as i64);
    let sn: Single = Single::of_int(n as i64);
    proof {
        lemma_pow2_pos(149);
        lemma_quotient_within(si, sn, 32);
    }
    let t: Single = si.div(sn);
    let sa: Single = Single::of_int(a as i64);
    let sb: Single = Single::of_int(b as i64);
    proof {
        lemma_sum_within(sb.val(), sa.val(), 32);
    }
    let d: Single = sb.sub(sa);
    proof {
        lemma_product_within(d, t, 33, 32);
    }
    let m: Single = d.mul(t);
    proof {
        lemma_pow2_strictly_increases(149 + 32, 149 + 69);
        lemma_pow2_strictly_increases(149 + 65, 149 + 69);
        lemma_sum_within(sa.val(), m.val(), 69);
    }
    sa.add(m)
}

impl Hex {
    /// The third cube coordinate `-q - r` can be computed in 32 bits.
    pub open spec fn cubic(self) -> bool {
        &&& self.q > i32::MIN
        &&& fits(-self.q - self.r)
    }

    /// The hexes that the straight line from `self` to `o` passes through,
    /// endpoints included, ordered from `self` to `o`.
    pub fn line_to(self, o: Hex) -> (line: Vec<Hex>)
        requires
            self.measurable(o),
            dist(self, o) != 0 ==> self.cubic() && o.cubic(),
        ensures
            line@.len() == dist(self, o) + 1,
            forall|i: int|
                0 <= i < line@.len() ==> #[trigger] line@[i] == line_point(self, o, i),
    {
        let n: i32 = self.distance(o);
        let mut line: Vec<Hex> = Vec::new();
        if n == 0 {
            line.push(self);
            return line;
        }
        let ay: i32 = -self.q - self.r;
        let by: i32 = -o.q - o.r;
        let mut i: i32 = 0;
        while i < n
            invariant
                0 <= i <= n,
                n >= 1,
                n == dist(self, o),
                ay == -self.q - self.r,
                by == -o.q - o.r,
                line@.len() == i,
                forall|j: int| 0 <= j < i ==> #[trigger] line@[j] == line_point(self, o, j),
            decreases n - i,
        {
            let h: Hex = Hex::on_line(self, ay, o, by, i, n);
            line.push(h);
            i = i + 1;
        }
        let h: Hex = Hex::on_line(self, ay, o, by, n, n);
        line.push(h);
        line
    }

    fn on_line(a: Hex, ay: i32, b: Hex, by: i32, i: i32, n: i32) -> (h: Hex)
        requires
            0 <= i <= n,
            n >= 1,
            n == dist(a, b),
            ay == -a.q - a.r,
            by == -b.q - b.r,
        ensures
            h == line_point(a, b, i as int),
    {
        cube_round(
            lerp_single(a.q, b.q, i, n),
            lerp_single(ay, by, i, n),
            lerp_single(a.r, b.r, i, n),
        )
    }
}

/// Both ends of a coordinate's walk are met exactly.
proof fn lemma_lerp_ends(a: int, b: int, n: int)
    requires
        abs(a) <= 0x80_0000,
        abs(b) <= 0x80_0000,
        1 <= n <= 0x100_0000,
    ensures
        lerp(a, b, 0, n).val() == a * pow2(149),
        lerp(a, b, n, n).val() == b * pow2(149),
{
    let one = pow2(149) as int;
    lemma_pow2_pos(149);
    lemma2_to64();
    lemma_of_int_within(a, 32);
    lemma_of_int_within(b, 32);
    lemma_of_int_within(0, 32);
    lemma_of_int_within(n, 32);
    lemma_small_int(a);
    lemma_small_int(b);
    lemma_small_int(n);
    lemma_small_int(0);
    let sa = Single::spec_of_int(a);
    let sb = Single::spec_of_int(b);
    let s0 = Single::spec_of_int(0);
    let sn = Single::spec_of_int(n);
    assert(0 * one == 0) by (nonlinear_arith);
    assert(b * one - a * one == (b - a) * one) by (nonlinear_arith);
    assert(a * one + (b - a) * one == b * one) by (nonlinear_arith);
    lemma_small_int(b - a);
    lemma_sum_within(sb.val(), sa.val(), 32);
    let d = sb.spec_sub(sa);
    assert(d.val() == (b - a) * one);
    // The start.
    lemma_quotient_within(s0, sn, 32);
    let t0 = s0.spec_div(sn);
    assert(s0.dividend(sn) == 0);
    lemma_representable(0, 0);
    assert(0nat * pow2(0) == 0);
    let den = sn.mag();
    assert(0 * den == 0) by (nonlinear_arith);
    lemma_nearest_multiple(0, den);
    assert(t0.val() == 0);
    lemma_product_within(d, t0, 33, 32);
    assert(d.val() * 0 == 0);
    assert(0 * pow2(149) == 0);
    lemma_nearest_multiple(0, pow2(149));
    let m0 = d.spec_mul(t0);
    lemma_pow2_strictly_increases(149 + 32, 149 + 69);
    lemma_pow2_strictly_increases(149 + 65, 149 + 69);
    lemma_sum_within(sa.val(), m0.val(), 69);
    // The end.
    lemma_quotient_within(sn, sn, 32);
    let t1 = sn.spec_div(sn);
    lemma_representable(1, 149);
    assert(1 * pow2(149) == pow2(149));
    assert(sn.dividend(sn) == one * den) by (nonlinear_arith)
        requires
            sn.dividend(sn) == sn.val() * one,
            sn.val() == den,
    ;
    lemma_nearest_multiple(pow2(149), den);
    assert(t1.val() == one);
    lemma_product_within(d, t1, 33, 32);
    let m1 = d.spec_mul(t1);
    lemma_val_representable(d);
    lemma_nearest_multiple(d.mag(), pow2(149));
    assert(magnitude(d.val() * one) == d.mag() * pow2(149)) by (nonlinear_arith)
        requires
            d.mag() == magnitude(d.val()),
            one == pow2(149),
            one > 0,
    ;
    assert((d.val() < 0 ==> d.val() * one < 0) && (d.val() >= 0 ==> d.val() * one >= 0))
        by (nonlinear_arith)
        requires
            one > 0,
    ;
    assert(m1.val() == d.val());
    lemma_sum_within(sa.val(), m1.val(), 69);
}

/// A whole number is its own rounding and its own whole part.
pub proof fn lemma_whole_point(n: int)
    requires
        fits(n),
    ensures
        Single::half_away(n * pow2(149)) == n * pow2(149),
        cut(n * pow2(149)) == n,
{
    let one = pow2(149) as int;
    lemma_pow2_pos(149);
    let k = magnitude(n) as int;
    assert(magnitude(n * one) == k * one) by (nonlinear_arith)
        requires
            k == magnitude(n),
            one > 0,
    ;
    assert((n < 0 ==> n * one < 0) && (n >= 0 ==> n * one >= 0)) by (nonlinear_arith)
        requires
            one > 0,
    ;
    assert(2 * (k * one) + one == k * (2 * one) + one) by (nonlinear_arith);
    lemma_fundamental_div_mod_converse(2 * (k * one) + one, 2 * one, k, one);
    lemma_fundamental_div_mod_converse(k * one, one, k, 0);
    assert((-n) * one == -(n * one)) by (nonlinear_arith);
}

/// The coordinates of a hex, the third included, are small enough that all their
/// differences are exact in single precision.
pub open spec fn exact_hex(h: Hex) -> bool {
    &&& abs(h.q as int) <= 0x80_0000
    &&& abs(h.r as int) <= 0x80_0000
    &&& abs(h.q + h.r) <= 0x80_0000
}

/// A line starts at its first hex and ends at its last.
pub proof fn law_line_joins_its_endpoints(a: Hex, b: Hex)
    requires
        exact_hex(a),
        exact_hex(b),
    ensures
        line_point(a, b, 0) == a,
        line_point(a, b, dist(a, b)) == b,
{
    let n = dist(a, b);
    if n != 0 {
        lemma_lerp_ends(a.q as int, b.q as int, n);
        lemma_lerp_ends(-a.q - a.r, -b.q - b.r, n);
        lemma_lerp_ends(a.r as int, b.r as int, n);
        lemma_whole_point(a.q as int);
        lemma_whole_point(-a.q - a.r);
        lemma_whole_point(a.r as int);
        lemma_whole_point(b.q as int);
        lemma_whole_point(-b.q - b.r);
        lemma_whole_point(b.r as int);
        lemma_small_int(0);
        assert(0 * pow2(149) == 0);
        assert(rounded(0, 1) == 0);
    }
}

} // verus!
