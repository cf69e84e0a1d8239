//! Straight lines over hexes not too far apart: their points are where exact
//! arithmetic puts them, so that each is next to the one before.

use crate::hex::{
    abs, cut, dist, exact_hex, hex_around, law_line_joins_its_endpoints, lemma_whole_point, lerp,
    line_point, Hex,
};
use crate::single::{
    lemma_nearest_multiple, lemma_of_int_within, lemma_product_within,
    lemma_quotient_within, lemma_ratio_le, lemma_representable, lemma_round_error,
    lemma_rounded_order, lemma_small_int, lemma_sum_within, magnitude, rounded, Single,
};
use crate::terrain::{clear_between, ground, Terrain};
use vstd::arithmetic::div_mod::lemma_fundamental_div_mod;
use vstd::arithmetic::power2::{
    lemma2_to64, lemma_pow2_adds, lemma_pow2_pos, lemma_pow2_strictly_increases, lemma_pow2_unfold,
    pow2,
};
use vstd::prelude::*;

verus! {

/// The number of binary digits.
pub open spec fn digits(x: nat) -> nat
    decreases x,
{
    if x == 0 {
        0
    } else {
        1 + digits(x / 2)
    }
}

pub open spec fn larger(a: int, b: int) -> int {
    if a < b {
        b
    } else {
        a
    }
}

/// The largest of the cube coordinates of a hex, without its sign.
pub open spec fn widest(h: Hex) -> int {
    larger(larger(abs(h.q as int), abs(h.r as int)), abs(h.q + h.r))
}

/// By how much single precision can misplace a coordinate of a point of a line, in
/// units of `2^-25`: the length of the line, the least power of two above that, and
/// the least power of two above all the coordinates.
pub open spec fn blur(a: Hex, b: Hex) -> int {
    let n = dist(a, b);
    n + pow2(digits(n as nat)) + pow2(digits(larger(widest(a), widest(b)) as nat))
}

/// Two hexes between which every point of a line is misplaced by less than a sixth,
/// or which have no hexes between them.
pub open spec fn sharp(a: Hex, b: Hex) -> bool {
    ||| blur(a, b) <= 0x50_0000
    ||| dist(a, b) <= 1 && exact_hex(a) && exact_hex(b)
}

/// A coordinate that changes by `d` over `n` steps stays, moves by one with every
/// step, or moves and rests often enough to tell it from being misplaced by `e`.
pub open spec fn steady(n: int, e: int, d: int) -> bool {
    ||| d == 0
    ||| abs(d) == n
    ||| n * e < 0x100_0000 * abs(d) && n * e < 0x100_0000 * (n - abs(d))
}

/// Two hexes between which single precision is enough to draw a line without gaps.
pub open spec fn in_line(a: Hex, b: Hex) -> bool {
    &&& sharp(a, b)
    &&& steady(dist(a, b), blur(a, b), b.q - a.q)
    &&& steady(dist(a, b), blur(a, b), b.r - a.r)
    &&& steady(dist(a, b), blur(a, b), a.q + a.r - b.q - b.r)
}

/// The coordinate `c` is the fraction `num / n` rounded to a whole number, give or
/// take `e` where the fraction is close to halfway.
pub open spec fn near(n: int, e: int, c: int, num: int) -> bool {
    0x200_0000 * abs(n * c - num) <= n * (0x100_0000 + e)
}

proof fn lemma_digits(x: nat)
    ensures
        x < pow2(digits(x)),
    decreases x,
{
    lemma2_to64();
    if x > 0 {
        lemma_digits(x / 2);
        lemma_pow2_unfold(digits(x));
    }
}

proof fn lemma_few_digits(x: nat, k: nat)
    requires
        x < pow2(k),
    ensures
        digits(x) <= k,
    decreases k,
{
    lemma2_to64();
    if x > 0 {
        if k > 0 {
            lemma_pow2_unfold(k);
            lemma_few_digits(x / 2, (k - 1) as nat);
        }
    }
}

proof fn lemma_pow2_at_most(a: nat, b: nat)
    requires
        a <= b,
    ensures
        pow2(a) <= pow2(b),
{
    if a < b {
        lemma_pow2_strictly_increases(a, b);
    }
}

/// What one is worth in the unit of the error bounds.
proof fn lemma_unit(f: int)
    requires
        f == pow2(125),
    ensures
        f > 0,
        pow2(149) == 0x100_0000 * f,
{
    lemma2_to64();
    lemma_pow2_pos(125);
    lemma_pow2_adds(24, 125);
}

/// The bounds that the error of a line's points is made of: the number of steps and
/// the coordinates have `j` and `k` digits.
spec fn scale(n: int, j: nat, k: nat) -> bool {
    &&& 1 <= n < pow2(j)
    &&& n + pow2(j) + pow2(k) <= 0x50_0000
}

proof fn lemma_scale(n: int, j: nat, k: nat)
    requires
        scale(n, j, k),
    ensures
        j <= 23,
        k <= 23,
        pow2(k) <= 0x80_0000,
{
    lemma2_to64();
    if j > 23 {
        lemma_pow2_at_most(24, j);
    }
    if k > 23 {
        lemma_pow2_at_most(24, k);
    }
    lemma_pow2_at_most(k, 23);
}

proof fn lemma_abs_mul(a: int, b: int)
    ensures
        abs(a * b) == abs(a) * abs(b),
{
    assert(abs(a * b) == abs(a) * abs(b)) by (nonlinear_arith);
}

/// A coordinate of a line is off from its exact value by a few last places.
proof fn lemma_lerp_error(a: int, b: int, i: int, n: int, j: nat, k: nat)
    requires
        scale(n, j, k),
        abs(a) < pow2(k),
        abs(b) < pow2(k),
        0 <= i <= n,
        abs(b - a) <= n,
    ensures
        2 * abs(n * lerp(a, b, i, n).val() - pow2(149) * (a * n + (b - a) * i)) <= n * ((n + pow2(j)
            + pow2(k)) * pow2(125)),
{
    let f = pow2(125) as int;
    let one = pow2(149) as int;
    let (pj, pk) = (pow2(j) as int, pow2(k) as int);
    let d = b - a;
    lemma_unit(f);
    lemma_scale(n, j, k);
    lemma2_to64();
    lemma_of_int_within(a, 32);
    lemma_of_int_within(b, 32);
    lemma_of_int_within(i, 32);
    lemma_of_int_within(n, 32);
    lemma_small_int(a);
    lemma_small_int(b);
    lemma_small_int(i);
    lemma_small_int(n);
    lemma_small_int(d);
    let sa = Single::spec_of_int(a);
    let sb = Single::spec_of_int(b);
    let si = Single::spec_of_int(i);
    let sn = Single::spec_of_int(n);
    // The fraction of the way.
    lemma_quotient_within(si, sn, 32);
    let t = si.spec_div(sn).val();
    let den = sn.mag();
    assert(den == n * one && sn.val() == n * one);
    assert(den > 0 && si.dividend(sn) == (i * one) * one && 0 <= (i * one) * one <= one * den)
        by (nonlinear_arith)
        requires
            den == n * one,
            one > 0,
            0 <= i <= n,
            n >= 1,
            si.dividend(sn) == si.val() * one,
            si.val() == i * one,
    ;
    lemma_representable(1, 149);
    assert(1 * pow2(149) == pow2(149));
    lemma_ratio_le(((i * one) * one) as nat, den, pow2(149));
    assert(0 <= t <= one);
    if i == n {
        lemma_nearest_multiple(pow2(149), den);
        assert((i * one) * one == pow2(149) * den) by (nonlinear_arith)
            requires
                den == n * one,
                i == n,
                one == pow2(149),
        ;
        assert(t == one);
        assert(n * t - one * i == 0) by (nonlinear_arith)
            requires
                t == one,
                i == n,
        ;
        assert(0 <= n * f) by (nonlinear_arith)
            requires
                n >= 1,
                f > 0,
        ;
    } else {
        assert((i * one) * one < den * one) by (nonlinear_arith)
            requires
                den == n * one,
                one > 0,
                0 <= i < n,
        ;
        lemma_round_error((i * one) * one, den, 149);
        assert(t * den - (i * one) * one == one * (n * t - one * i)) by (nonlinear_arith)
            requires
                den == n * one,
        ;
        lemma_abs_mul(one, n * t - one * i);
        assert(2 * abs(n * t - one * i) <= n * f) by (nonlinear_arith)
            requires
                2 * (one * abs(n * t - one * i)) <= (n * one) * f,
                one > 0,
        ;
    }
    let z = n * t - one * i;
    assert(2 * abs(z) <= n * f);
    // The way so far.
    lemma_sum_within(sb.val(), sa.val(), 32);
    assert(b * one - a * one == d * one) by (nonlinear_arith)
        requires
            d == b - a,
    ;
    let sd = sb.spec_sub(sa);
    assert(sd.val() == d * one);
    let st = si.spec_div(sn);
    lemma_product_within(sd, st, 33, 32);
    let m = sd.spec_mul(st).val();
    lemma_abs_mul(d, t);
    lemma_abs_mul(d * t, one);
    assert((d * one) * t == (d * t) * one) by (nonlinear_arith);
    lemma_pow2_adds(149, j);
    lemma_pow2_adds(125, j);
    assert(abs(d) * t < pj * one) by (nonlinear_arith)
        requires
            0 <= abs(d) < pj,
            0 <= t <= one,
            one > 0,
    ;
    assert(abs(d * t) * one < one * (one * pj)) by (nonlinear_arith)
        requires
            abs(d * t) < pj * one,
            one > 0,
    ;
    assert(magnitude((d * one) * t) == abs(d * t) * one);
    lemma_round_error((d * one) * t, pow2(149), 149 + j);
    assert(m * one - (d * one) * t == one * (m - d * t)) by (nonlinear_arith);
    let y = m - d * t;
    lemma_abs_mul(one, y);
    assert(2 * abs(y) <= pj * f) by (nonlinear_arith)
        requires
            2 * (one * abs(y)) <= one * (f * pj),
            one > 0,
    ;
    // The point.
    let sm = sd.spec_mul(st);
    lemma_pow2_strictly_increases(149 + 32, 149 + 69);
    lemma_pow2_strictly_increases(149 + 65, 149 + 69);
    lemma_sum_within(sa.val(), sm.val(), 69);
    let v = lerp(a, b, i, n).val();
    assert(v == rounded(a * one + m, 1));
    let w = a * one + m;
    lemma_abs_mul(n, y);
    lemma_abs_mul(d, z);
    assert(2 * (n * abs(y)) <= n * (pj * f) && 2 * (abs(d) * abs(z)) <= n * (n * f))
        by (nonlinear_arith)
        requires
            n >= 1,
            2 * abs(y) <= pj * f,
            0 <= abs(d) <= n,
            0 <= 2 * abs(z) <= n * f,
    ;
    assert(n * w == one * (a * n + d * i) + n * y + d * z) by {
        assert(n * w == n * (a * one) + n * m) by (nonlinear_arith)
            requires
                w == a * one + m,
        ;
        assert(n * m == n * y + n * (d * t)) by (nonlinear_arith)
            requires
                y == m - d * t,
        ;
        assert(n * (d * t) == d * z + one * (d * i)) by (nonlinear_arith)
            requires
                z == n * t - one * i,
        ;
        assert(one * (a * n + d * i) == n * (a * one) + one * (d * i)) by (nonlinear_arith);
    }
    lemma_between(a, b, i, n, pk - 1);
    lemma_abs_mul(one, a * n + d * i);
    lemma_abs_mul(n, w);
    let far = abs(a * n + d * i);
    assert(abs(w) < pk * one) by {
        assert(2 * (n * abs(w)) <= 2 * (one * far) + n * (pj * f) + n * (n * f));
        assert(one * far <= one * ((pk - 1) * n)) by (nonlinear_arith)
            requires
                far <= (pk - 1) * n,
                one > 0,
        ;
        assert(2 * (one * ((pk - 1) * n)) + n * (pj * f) + n * (n * f) == n * (2 * (pk * one) - 2
            * one + (pj + n) * f)) by (nonlinear_arith);
        assert((pj + n) * f < 2 * one) by (nonlinear_arith)
            requires
                0 <= pj + n < 0x100_0000,
                one == 0x100_0000 * f,
                f > 0,
        ;
        assert(abs(w) < pk * one) by (nonlinear_arith)
            requires
                2 * (n * abs(w)) <= n * (2 * (pk * one) - 2 * one + (pj + n) * f),
                (pj + n) * f < 2 * one,
                n >= 1,
        ;
    }
    lemma_pow2_adds(149, k);
    lemma_pow2_adds(125, k);
    assert(pk * one == one * pk && pk * f == f * pk) by (nonlinear_arith);
    assert(magnitude(w) < 1 * pow2(149 + k));
    lemma_round_error(w, 1, 149 + k);
    let x = v - w;
    assert(2 * abs(x) <= pk * f);
    // All of it.
    assert(n * v - one * (a * n + d * i) == n * x + n * y + d * z) by (nonlinear_arith)
        requires
            x == v - w,
            n * w == one * (a * n + d * i) + n * y + d * z,
    ;
    lemma_abs_mul(n, x);
    assert(2 * (n * abs(x)) <= n * (pk * f)) by (nonlinear_arith)
        requires
            n >= 1,
            2 * abs(x) <= pk * f,
    ;
    assert(n * (pk * f) + n * (pj * f) + n * (n * f) == n * ((n + pj + pk) * f)) by (nonlinear_arith);
}

/// The whole number that a value is rounded to.
spec fn ones(v: int) -> int {
    let one = pow2(149) as int;
    let k = (2 * magnitude(v) + one) / (2 * one);
    if v < 0 {
        -k
    } else {
        k
    }
}

proof fn lemma_ones(v: int)
    ensures
        Single::half_away(v) == ones(v) * pow2(149),
        2 * abs(ones(v) * pow2(149) - v) <= pow2(149),
{
    let one = pow2(149) as int;
    lemma_pow2_pos(149);
    let top = 2 * magnitude(v) + one;
    lemma_fundamental_div_mod(top, 2 * one);
    let k = top / (2 * one);
    assert(2 * one * k == 2 * (k * one)) by (nonlinear_arith);
    assert((-k) * one == -(k * one)) by (nonlinear_arith);
}

/// One coordinate of a point: its rounding is near its exact value. Where that is
/// whole, the rounding meets it and moves it little; where the rounding is about
/// half off, it moved it more.
proof fn lemma_coordinate(n: int, v: int, num: int, e: int, m: int)
    requires
        n >= 1,
        0 <= e <= 0x50_0000,
        2 * abs(n * v - pow2(149) * num) <= n * (e * pow2(125)),
        abs(num) <= m * n,
    ensures
        near(n, e, ones(v), num),
        abs(ones(v)) <= m + 1,
        forall|k: int| num == #[trigger] (n * k) ==> ones(v) == k && 2 * abs(
            ones(v) * pow2(149) - v,
        ) <= e * pow2(125),
        0x200_0000 * abs(n * ones(v) - num) >= n * (0x100_0000 - e) ==> 2 * abs(
            ones(v) * pow2(149) - v,
        ) >= (e + 1) * pow2(125),
{
    let f = pow2(125) as int;
    let one = pow2(149) as int;
    let c = ones(v);
    lemma_unit(f);
    lemma_ones(v);
    let off = c * one - v;
    let err = n * v - one * num;
    let g = abs(n * c - num);
    assert(one * (n * c - num) == n * off + err) by (nonlinear_arith)
        requires
            off == c * one - v,
            err == n * v - one * num,
    ;
    lemma_abs_mul(one, n * c - num);
    lemma_abs_mul(n, off);
    assert(one * g <= n * abs(off) + abs(err));
    // Both sides in the unit of the error.
    assert(2 * (one * g) == f * (0x200_0000 * g)) by (nonlinear_arith)
        requires
            one == 0x100_0000 * f,
    ;
    assert(n * (e * f) == f * (n * e)) by (nonlinear_arith);
    assert(n * (2 * abs(off)) == 2 * (n * abs(off))) by (nonlinear_arith);
    assert(n * (2 * abs(off)) <= n * one) by (nonlinear_arith)
        requires
            2 * abs(off) <= one,
            n >= 1,
    ;
    assert(n * one == f * (n * 0x100_0000)) by (nonlinear_arith)
        requires
            one == 0x100_0000 * f,
    ;
    assert(f * (0x200_0000 * g) <= f * (n * 0x100_0000) + f * (n * e));
    assert(0x200_0000 * g <= n * (0x100_0000 + e)) by (nonlinear_arith)
        requires
            f * (0x200_0000 * g) <= f * (n * 0x100_0000) + f * (n * e),
            f > 0,
    ;
    assert(n * (0x100_0000 + e) < 0x200_0000 * n) by (nonlinear_arith)
        requires
            n >= 1,
            e < 0x100_0000,
    ;
    assert(abs(c) <= m + 1) by {
        if c >= m + 2 {
            assert(n * c >= n * (m + 2)) by (nonlinear_arith)
                requires
                    c >= m + 2,
                    n >= 1,
            ;
            assert(n * (m + 2) == m * n + 2 * n) by (nonlinear_arith);
        }
        if c <= -(m + 2) {
            assert(n * c <= n * (-(m + 2))) by (nonlinear_arith)
                requires
                    c <= -(m + 2),
                    n >= 1,
            ;
            assert(n * (-(m + 2)) == -(m * n) - 2 * n) by (nonlinear_arith);
        }
    }
    assert forall|k: int| num == #[trigger] (n * k) implies c == k && 2 * abs(off) <= e * f by {
        lemma_exact(n, e, c, k, num);
        assert(one * (n * c - num) == 0) by (nonlinear_arith)
            requires
                n * c == num,
        ;
        assert(2 * abs(off) <= e * f) by (nonlinear_arith)
            requires
                n * abs(off) == abs(err),
                2 * abs(err) <= n * (e * f),
                n >= 1,
        ;
    }
    if 0x200_0000 * g >= n * (0x100_0000 - e) && 2 * abs(off) < (e + 1) * f {
        assert(n * (2 * abs(off)) < n * ((e + 1) * f)) by (nonlinear_arith)
            requires
                2 * abs(off) < (e + 1) * f,
                n >= 1,
        ;
        assert(n * ((e + 1) * f) == f * (n * e) + f * n) by (nonlinear_arith);
        assert(f * (n * (0x100_0000 - e)) <= f * (0x200_0000 * g)) by (nonlinear_arith)
            requires
                n * (0x100_0000 - e) <= 0x200_0000 * g,
                f > 0,
        ;
        assert(f * (n * (0x100_0000 - e)) < 2 * (f * (n * e)) + f * n);
        assert(false) by (nonlinear_arith)
            requires
                f * (n * (0x100_0000 - e)) < 2 * (f * (n * e)) + f * n,
                3 * e + 1 <= 0x100_0000,
                n >= 1,
                f > 0,
        {
            assert(f * (n * (0x100_0000 - e)) - 2 * (f * (n * e)) - f * n == (f * n) * (0x100_0000
                - 3 * e - 1)) by (nonlinear_arith);
            assert(f * n > 0) by (nonlinear_arith)
                requires
                    f > 0,
                    n >= 1,
            ;
        }
    }
}

/// How rounding off compares, measured in single precision.
proof fn lemma_moves(off: int, e: int)
    requires
        0 <= e < 0x100_0000,
    ensures
        2 * abs(off) <= e * pow2(125) ==> 2 * abs(rounded(off, 1)) <= e * pow2(125),
        2 * abs(off) >= (e + 1) * pow2(125) ==> 2 * abs(rounded(off, 1)) >= (e + 1) * pow2(125),
{
    let h = pow2(124) as int;
    lemma_pow2_unfold(125);
    lemma_representable(e as nat, 124);
    lemma_representable((e + 1) as nat, 124);
    lemma_pow2_pos(124);
    assert(e * pow2(125) == 2 * (e * h) && (e + 1) * pow2(125) == 2 * ((e + 1) * h))
        by (nonlinear_arith)
        requires
            pow2(125) == 2 * h,
    ;
    assert(e * h >= 0 && (e + 1) * h >= 0) by (nonlinear_arith)
        requires
            e >= 0,
            h > 0,
    ;
    lemma_rounded_order(off, e * h);
    lemma_rounded_order(off, -(e * h));
    lemma_rounded_order(off, (e + 1) * h);
    lemma_rounded_order(off, -((e + 1) * h));
}

/// A sum of two roundings is exact.
proof fn lemma_completed(a: int, b: int)
    requires
        abs(a) <= 0x80_0000,
        abs(b) <= 0x80_0000,
    ensures
        rounded(-(a * pow2(149)) - (b * pow2(149)), 1) == (-a - b) * pow2(149),
        cut((-a - b) * pow2(149)) == -a - b,
        cut(a * pow2(149)) == a,
{
    let one = pow2(149) as int;
    assert(-(a * one) - (b * one) == (-a - b) * one) by (nonlinear_arith);
    lemma_small_int(-a - b);
    lemma_whole_point(-a - b);
    lemma_whole_point(a);
}

/// The hex around a point whose cube coordinates are near fractions that add up to
/// nothing, one of them whole, has its coordinates near those fractions.
proof fn lemma_hex_around(
    n: int,
    e: int,
    m: int,
    x: Single,
    y: Single,
    z: Single,
    nx: int,
    ny: int,
    nz: int,
)
    requires
        n >= 1,
        0 <= e <= 0x50_0000,
        m < 0x80_0000,
        nx + ny + nz == 0,
        abs(nx) <= m * n,
        abs(ny) <= m * n,
        abs(nz) <= m * n,
        2 * abs(n * x.val() - pow2(149) * nx) <= n * (e * pow2(125)),
        2 * abs(n * y.val() - pow2(149) * ny) <= n * (e * pow2(125)),
        2 * abs(n * z.val() - pow2(149) * nz) <= n * (e * pow2(125)),
        (exists|k: int| nx == #[trigger] (n * k)) || (exists|k: int| ny == #[trigger] (n * k)) || (
        exists|k: int| nz == #[trigger] (n * k)),
    ensures
        ({
            let h = hex_around(x, y, z);
            &&& near(n, e, h.q as int, nx)
            &&& near(n, e, h.r as int, nz)
            &&& near(n, e, -h.q - h.r, ny)
        }),
{
    let f = pow2(125) as int;
    let one = pow2(149) as int;
    lemma_unit(f);
    let (vx, vy, vz) = (x.val(), y.val(), z.val());
    let (cx, cy, cz) = (ones(vx), ones(vy), ones(vz));
    lemma_ones(vx);
    lemma_ones(vy);
    lemma_ones(vz);
    lemma_coordinate(n, vx, nx, e, m);
    lemma_coordinate(n, vy, ny, e, m);
    lemma_coordinate(n, vz, nz, e, m);
    lemma_moves(cx * one - vx, e);
    lemma_moves(cy * one - vy, e);
    lemma_moves(cz * one - vz, e);
    lemma_completed(cx, cy);
    lemma_completed(cy, cz);
    lemma_completed(cz, cx);
    lemma_completed(cx, cz);
    assert((e + 1) * f == e * f + f) by (nonlinear_arith);
    let dx = abs(rounded(cx * one - vx, 1));
    let dy = abs(rounded(cy * one - vy, 1));
    let dz = abs(rounded(cz * one - vz, 1));
    let h = hex_around(x, y, z);
    assert(n * (-cy - cz) == -(n * cy) - n * cz) by (nonlinear_arith);
    assert(n * (-cx - cy) == -(n * cx) - n * cy) by (nonlinear_arith);
    assert(n * (-cx - cz) == -(n * cx) - n * cz) by (nonlinear_arith);
    let whole_x = nx == n * cx && 2 * abs(cx * one - vx) <= e * f;
    let whole_y = ny == n * cy && 2 * abs(cy * one - vy) <= e * f;
    let whole_z = nz == n * cz && 2 * abs(cz * one - vz) <= e * f;
    assert(whole_x || whole_y || whole_z);
    let (gx, gy, gz) = (n * cx - nx, n * cy - ny, n * cz - nz);
    let sum = cx + cy + cz;
    assert(n * sum == gx + gy + gz) by (nonlinear_arith)
        requires
            sum == cx + cy + cz,
            gx == n * cx - nx,
            gy == n * cy - ny,
            gz == n * cz - nz,
            nx + ny + nz == 0,
    ;
    let top = n * (0x100_0000 + e);
    let low = n * (0x100_0000 - e);
    assert(top + low == 0x200_0000 * n && top < 0x200_0000 * n && low >= 0) by (nonlinear_arith)
        requires
            top == n * (0x100_0000 + e),
            low == n * (0x100_0000 - e),
            0 <= e < 0x100_0000,
            n >= 1,
    ;
    assert(-1 <= sum <= 1) by {
        if sum >= 2 {
            assert(n * sum >= 2 * n) by (nonlinear_arith)
                requires
                    sum >= 2,
                    n >= 1,
            ;
        }
        if sum <= -2 {
            assert(n * sum <= -2 * n) by (nonlinear_arith)
                requires
                    sum <= -2,
                    n >= 1,
            ;
        }
    }
    assert(n * 1 == n && n * (-1) == -n && n * 0 == 0) by (nonlinear_arith);
    if sum != 0 {
        // Two coordinates are about half off, and the whole one hardly moved.
        assert(abs(gx + gy + gz) == n);
        if whole_x {
            assert(0x200_0000 * abs(gy) >= low && 0x200_0000 * abs(gz) >= low);
            assert(dx < dy && dx < dz);
        } else if whole_y {
            assert(0x200_0000 * abs(gx) >= low && 0x200_0000 * abs(gz) >= low);
            assert(dy < dx && dy < dz);
        } else {
            assert(0x200_0000 * abs(gx) >= low && 0x200_0000 * abs(gy) >= low);
            assert(dz < dx && dz < dy);
        }
    }
    if dx > dy && dx > dz {
        assert(h.q == -cy - cz && h.r == cz);
        assert(n * h.q - nx == -gy - gz);
    } else if dz > dy {
        assert(h.q == cx && h.r == -cx - cy);
        assert(n * h.r - nz == -gx - gy);
    } else {
        assert(h.q == cx && h.r == cz);
        assert(n * (-h.q - h.r) - ny == -gx - gz);
    }
}

/// The hex `h` is near the exact place of point `i` of a line.
pub open spec fn placed(n: int, e: int, a: Hex, b: Hex, i: int, h: Hex) -> bool {
    &&& near(n, e, h.q as int, a.q * n + (b.q - a.q) * i)
    &&& near(n, e, h.r as int, a.r * n + (b.r - a.r) * i)
    &&& near(n, e, -h.q - h.r, (-a.q - a.r) * n + (a.q + a.r - b.q - b.r) * i)
}

/// The points of a line are near their exact places.
pub proof fn lemma_line_point(a: Hex, b: Hex, i: int)
    requires
        blur(a, b) <= 0x50_0000,
        dist(a, b) >= 1,
        0 <= i <= dist(a, b),
    ensures
        placed(dist(a, b), blur(a, b), a, b, i, line_point(a, b, i)),
{
    let n = dist(a, b);
    let wide = larger(widest(a), widest(b));
    let j = digits(n as nat);
    let k = digits(wide as nat);
    let m = pow2(k) - 1;
    let e = n + pow2(j) + pow2(k);
    lemma_digits(n as nat);
    lemma_digits(wide as nat);
    lemma_scale(n, j, k);
    let (ax, ay, az) = (a.q as int, -a.q - a.r, a.r as int);
    let (bx, by, bz) = (b.q as int, -b.q - b.r, b.r as int);
    lemma_lerp_error(ax, bx, i, n, j, k);
    lemma_lerp_error(ay, by, i, n, j, k);
    lemma_lerp_error(az, bz, i, n, j, k);
    let nx = ax * n + (bx - ax) * i;
    let ny = ay * n + (by - ay) * i;
    let nz = az * n + (bz - az) * i;
    assert(nx + ny + nz == 0) by (nonlinear_arith)
        requires
            nx == ax * n + (bx - ax) * i,
            ny == ay * n + (by - ay) * i,
            nz == az * n + (bz - az) * i,
            ax + ay + az == 0,
            bx + by + bz == 0,
    ;
    lemma_between(ax, bx, i, n, m);
    lemma_between(ay, by, i, n, m);
    lemma_between(az, bz, i, n, m);
    assert(abs(bx - ax) == n || abs(by - ay) == n || abs(bz - az) == n);
    if abs(bx - ax) == n {
        lemma_whole_way(ax, bx, i, n);
    } else if abs(by - ay) == n {
        lemma_whole_way(ay, by, i, n);
    } else {
        lemma_whole_way(az, bz, i, n);
    }
    lemma_hex_around(
        n,
        e,
        m,
        lerp(ax, bx, i, n),
        lerp(ay, by, i, n),
        lerp(az, bz, i, n),
        nx,
        ny,
        nz,
    );
}

proof fn lemma_between(a: int, b: int, i: int, n: int, m: int)
    requires
        abs(a) <= m,
        abs(b) <= m,
        0 <= i <= n,
    ensures
        abs(a * n + (b - a) * i) <= m * n,
{
    assert(a * n + (b - a) * i == a * (n - i) + b * i) by (nonlinear_arith);
    lemma_abs_mul(a, n - i);
    lemma_abs_mul(b, i);
    assert(abs(a) * (n - i) <= m * (n - i) && abs(b) * i <= m * i) by (nonlinear_arith)
        requires
            abs(a) <= m,
            abs(b) <= m,
            0 <= i <= n,
    ;
    assert(m * (n - i) + m * i == m * n) by (nonlinear_arith);
}

proof fn lemma_whole_way(a: int, b: int, i: int, n: int)
    requires
        abs(b - a) == n,
    ensures
        exists|k: int| a * n + (b - a) * i == #[trigger] (n * k),
{
    let k = if b - a == n {
        a + i
    } else {
        a - i
    };
    assert(a * n + (b - a) * i == n * k) by (nonlinear_arith)
        requires
            (b - a == n && k == a + i) || (b - a == -n && k == a - i),
    ;
}

/// A coordinate that stays or moves with every step is where it should be.
proof fn lemma_exact_way(n: int, e: int, a: int, d: int, i: int, c: int)
    requires
        n >= 1,
        0 <= e <= 0x50_0000,
        near(n, e, c, a * n + d * i),
    ensures
        d == 0 ==> c == a,
        d == n ==> c == a + i,
        d == -n ==> c == a - i,
{
    if d == 0 || d == n || d == -n {
        let s: int = if d == 0 {
            0
        } else if d == n {
            1
        } else {
            -1
        };
        assert(0 * n == 0 && 1 * n == n && (-1) * n == -n) by (nonlinear_arith);
        assert(d == s * n);
        assert(a * n + d * i == n * (a + s * i)) by (nonlinear_arith)
            requires
                d == s * n,
        ;
        lemma_exact(n, e, c, a + s * i, a * n + d * i);
        assert(0 * i == 0 && 1 * i == i && (-1) * i == -i) by (nonlinear_arith);
    }
}

/// The coordinate that changes by `d` over `n` steps changes by `g` with one.
spec fn moves(n: int, d: int, g: int) -> bool {
    &&& d == 0 ==> g == 0
    &&& d == n ==> g == 1
    &&& d == -n ==> g == -1
    &&& d > 0 ==> 0 <= g <= 1
    &&& d < 0 ==> -1 <= g <= 0
}

/// What one coordinate does from one point of a line to the next.
proof fn lemma_next(n: int, e: int, a: int, d: int, i: int, c0: int, c1: int)
    requires
        n >= 1,
        0 <= e <= 0x50_0000,
        abs(d) <= n,
        steady(n, e, d),
        near(n, e, c0, a * n + d * i),
        near(n, e, c1, a * n + d * (i + 1)),
    ensures
        moves(n, d, c1 - c0),
{
    let g = c1 - c0;
    let p0 = n * c0 - (a * n + d * i);
    let p1 = n * c1 - (a * n + d * (i + 1));
    assert(n * g - d == p1 - p0) by (nonlinear_arith)
        requires
            g == c1 - c0,
            p0 == n * c0 - (a * n + d * i),
            p1 == n * c1 - (a * n + d * (i + 1)),
    ;
    assert(n * (0x100_0000 + e) == 0x100_0000 * n + n * e) by (nonlinear_arith);
    assert(0x100_0000 * abs(n * g - d) <= 0x100_0000 * n + n * e);
    lemma_exact_way(n, e, a, d, i, c0);
    lemma_exact_way(n, e, a, d, i + 1, c1);
    if d != 0 && abs(d) != n {
        let s: int = if d > 0 {
            g
        } else {
            -g
        };
        assert(n * (-g) == -(n * g)) by (nonlinear_arith);
        assert(abs(n * g - d) == abs(n * s - abs(d)));
        if s <= -1 {
            assert(n * s <= -n) by (nonlinear_arith)
                requires
                    s <= -1,
                    n >= 1,
            ;
        }
        if s >= 2 {
            assert(n * s >= 2 * n) by (nonlinear_arith)
                requires
                    s >= 2,
                    n >= 1,
            ;
        }
    }
}

proof fn lemma_exact(n: int, e: int, c: int, k: int, num: int)
    requires
        n >= 1,
        0 <= e <= 0x50_0000,
        near(n, e, c, num),
        num == n * k,
    ensures
        c == k,
{
    assert(n * c - num == n * (c - k)) by (nonlinear_arith)
        requires
            num == n * k,
    ;
    lemma_abs_mul(n, c - k);
    assert(abs(c - k) == 0) by (nonlinear_arith)
        requires
            0x200_0000 * (n * abs(c - k)) <= n * (0x100_0000 + e),
            e < 0x100_0000,
            n >= 1,
            abs(c - k) >= 0,
    ;
}

/// Two hexes whose coordinates differ as those of neighbours on a line are
/// neighbours.
proof fn lemma_one_step(n: int, a: Hex, b: Hex, p: Hex, q: Hex)
    requires
        n == dist(a, b),
        n >= 1,
        moves(n, b.q - a.q, q.q - p.q),
        moves(n, b.r - a.r, q.r - p.r),
        moves(n, a.q + a.r - b.q - b.r, p.q + p.r - q.q - q.r),
    ensures
        dist(p, q) == 1,
{
    let (dq, dr, dy) = (b.q - a.q, b.r - a.r, a.q + a.r - b.q - b.r);
    assert(abs(dq) == n || abs(dr) == n || abs(dy) == n);
    assert(dq + dr + dy == 0);
}

/// Hexes near two points of a line in a row are neighbours.
proof fn lemma_in_a_row(a: Hex, b: Hex, i: int, p: Hex, q: Hex)
    requires
        in_line(a, b),
        blur(a, b) <= 0x50_0000,
        0 <= i < dist(a, b),
        placed(dist(a, b), blur(a, b), a, b, i, p),
        placed(dist(a, b), blur(a, b), a, b, i + 1, q),
    ensures
        dist(p, q) == 1,
{
    let n = dist(a, b);
    let e = blur(a, b);
    lemma_next(n, e, a.q as int, b.q - a.q, i, p.q as int, q.q as int);
    lemma_next(n, e, a.r as int, b.r - a.r, i, p.r as int, q.r as int);
    lemma_next(n, e, -a.q - a.r, a.q + a.r - b.q - b.r, i, -p.q - p.r, -q.q - q.r);
    lemma_one_step(n, a, b, p, q);
}

/// Each hex of a line is next to the one before, as far as single precision
/// carries.
pub proof fn law_line_is_contiguous(a: Hex, b: Hex, i: int)
    requires
        in_line(a, b),
        0 <= i < dist(a, b),
    ensures
        dist(line_point(a, b, i), line_point(a, b, i + 1)) == 1,
{
    let p = line_point(a, b, i);
    let q = line_point(a, b, i + 1);
    if blur(a, b) <= 0x50_0000 {
        lemma_line_point(a, b, i);
        lemma_line_point(a, b, i + 1);
        lemma_in_a_row(a, b, i, p, q);
    } else {
        lemma_single_step(a, b);
        assert(i == 0);
    }
}

/// A line of one step is that step.
proof fn lemma_single_step(a: Hex, b: Hex)
    requires
        dist(a, b) == 1,
        exact_hex(a),
        exact_hex(b),
    ensures
        dist(line_point(a, b, 0), line_point(a, b, 1)) == 1,
{
    law_line_joins_its_endpoints(a, b);
}

/// How far single precision carries: any line between hexes whose coordinates are
/// within 1000 of zero, a line of less than 2048 steps between hexes whose cube
/// coordinates are below 4096, and a shot between hexes whose cube coordinates are
/// below four million.
pub proof fn law_how_far_single_precision_carries(a: Hex, b: Hex)
    ensures
        abs(a.q as int) <= 1000 && abs(a.r as int) <= 1000 && abs(b.q as int) <= 1000 && abs(
            b.r as int,
        ) <= 1000 ==> in_line(a, b),
        widest(a) < 4096 && widest(b) < 4096 && dist(a, b) < 2048 ==> in_line(a, b),
        widest(a) < 0x40_0000 && widest(b) < 0x40_0000 && dist(a, b) <= 3 ==> in_line(a, b),
{
    let n = dist(a, b);
    let e = blur(a, b);
    lemma2_to64();
    if widest(a) < 4096 && widest(b) < 4096 && n < 2048 {
        lemma_blur(a, b, 11, 12);
        lemma_product(n, e, 2047, 8191);
        lemma_steady(a, b, 1);
    }
    if widest(a) < 0x40_0000 && widest(b) < 0x40_0000 && n <= 3 {
        lemma_blur(a, b, 2, 22);
        lemma_product(n, e, 3, 0x40_0007);
        lemma_steady(a, b, 1);
    }
    if abs(a.q as int) <= 1000 && abs(a.r as int) <= 1000 && abs(b.q as int) <= 1000 && abs(
        b.r as int,
    ) <= 1000 {
        if n < 2048 {
            lemma_blur(a, b, 11, 11);
            lemma_product(n, e, 2047, 6143);
            lemma_steady(a, b, 1);
        } else {
            lemma_blur(a, b, 12, 11);
            lemma_product(n, e, 4000, 10144);
            lemma_steady(a, b, 3);
        }
    }
}

proof fn lemma_product(x: int, y: int, m: int, k: int)
    requires
        0 <= x <= m,
        0 <= y <= k,
    ensures
        x * y <= m * k,
{
    assert(x * y <= m * k) by (nonlinear_arith)
        requires
            0 <= x <= m,
            0 <= y <= k,
    ;
}

proof fn lemma_blur(a: Hex, b: Hex, j: nat, k: nat)
    requires
        dist(a, b) < pow2(j),
        widest(a) < pow2(k),
        widest(b) < pow2(k),
    ensures
        blur(a, b) <= dist(a, b) + pow2(j) + pow2(k),
{
    let w = larger(widest(a), widest(b)) as nat;
    lemma_few_digits(dist(a, b) as nat, j);
    lemma_few_digits(w, k);
    lemma_pow2_at_most(digits(dist(a, b) as nat), j);
    lemma_pow2_at_most(digits(w), k);
}

/// Coordinates that move and rest at least `m` times are steady.
proof fn lemma_steady(a: Hex, b: Hex, m: int)
    requires
        blur(a, b) <= 0x50_0000,
        dist(a, b) * blur(a, b) < 0x100_0000 * m,
        m > 1 ==> m <= abs(b.q - a.q) <= dist(a, b) - m && m <= abs(b.r - a.r) <= dist(a, b) - m,
        m <= 1 || abs(a.q + a.r - b.q - b.r) == dist(a, b),
    ensures
        in_line(a, b),
{
}

/// The hexes strictly inside a line are neither of its ends.
pub proof fn law_line_leaves_its_ends(a: Hex, b: Hex, i: int)
    requires
        sharp(a, b),
        0 < i < dist(a, b),
    ensures
        line_point(a, b, i) != a,
        line_point(a, b, i) != b,
{
    let n = dist(a, b);
    let e = blur(a, b);
    let p = line_point(a, b, i);
    lemma_line_point(a, b, i);
    lemma_exact_way(n, e, a.q as int, b.q - a.q, i, p.q as int);
    lemma_exact_way(n, e, a.r as int, b.r - a.r, i, p.r as int);
    lemma_exact_way(n, e, -a.q - a.r, a.q + a.r - b.q - b.r, i, -p.q - p.r);
}

/// The ends of a line never block the sight along it: what stands on a mountain
/// can be shot at, and can shoot. This holds as far as single precision carries.
pub proof fn law_ends_never_block(from: Hex, to: Hex, tiles: Map<Hex, Terrain>, t: Terrain)
    requires
        sharp(from, to),
    ensures
        clear_between(from, to, tiles.insert(from, t)) == clear_between(from, to, tiles),
        clear_between(from, to, tiles.insert(to, t)) == clear_between(from, to, tiles),
{
    assert forall|i: int| 0 < i < dist(from, to) implies {
        let h = #[trigger] line_point(from, to, i);
        &&& ground(tiles.insert(from, t), h) == ground(tiles, h)
        &&& ground(tiles.insert(to, t), h) == ground(tiles, h)
    } by {
        law_line_leaves_its_ends(from, to, i);
    }
    if clear_between(from, to, tiles) {
        assert forall|i: int| 0 < i < dist(from, to) implies !#[trigger] ground(
            tiles.insert(from, t),
            line_point(from, to, i),
        ).spec_blocks_sight() && !ground(
            tiles.insert(to, t),
            line_point(from, to, i),
        ).spec_blocks_sight() by {
            assert(!ground(tiles, line_point(from, to, i)).spec_blocks_sight());
        }
        assert forall|i: int| 0 < i < dist(from, to) implies !#[trigger] ground(
            tiles.insert(to, t),
            line_point(from, to, i),
        ).spec_blocks_sight() by {
            assert(!ground(tiles, line_point(from, to, i)).spec_blocks_sight());
        }
    } else {
        let i = choose|i: int|
            0 < i < dist(from, to) && (#[trigger] ground(
                tiles,
                line_point(from, to, i),
            )).spec_blocks_sight();
        assert(ground(tiles.insert(from, t), line_point(from, to, i)).spec_blocks_sight());
        assert(ground(tiles.insert(to, t), line_point(from, to, i)).spec_blocks_sight());
    }
}

} // verus!
