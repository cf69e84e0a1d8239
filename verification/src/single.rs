//! IEEE 754 single-precision arithmetic carried out in integers.
//!
//! The battle has to replay bit for bit on every machine, so health, damage and
//! the straight-line walk are computed here without touching a floating-point
//! unit. A [`Single`] is the 32-bit pattern of the number. Its mathematical value
//! is an integer count of `2^-149`, the smallest positive single; in that unit
//! every finite single is a whole number and "correctly rounded" is a statement
//! about integers.

use vstd::arithmetic::div_mod::{
    lemma_div_denominator, lemma_fundamental_div_mod, lemma_fundamental_div_mod_converse,
};
use vstd::arithmetic::power2::{
    lemma_pow2_adds, lemma_pow2_pos, lemma_pow2_strictly_increases, lemma_pow2_unfold, pow2,
};
use vstd::prelude::*;

verus! {

/// Weight of the sign bit.
pub const SIGN: u32 = 0x8000_0000;

/// Weight of the exponent field, and of the leading bit that it implies.
pub const HIDDEN: u32 = 0x0080_0000;

/// How many units of `2^-149` make one, as a power of two.
pub const ONE_EXP: u32 = 149;

/// Exponent of the last place of a 24-bit significand for the magnitude `q`:
/// zero while `q` fits in 24 bits, then one more for every further bit.
pub open spec fn last_place(q: nat) -> nat
    decreases q,
{
    if q < 0x100_0000 {
        0
    } else {
        1 + last_place(q / 2)
    }
}

/// The 24-bit magnitude nearest to `num / den`, ties going to the even one.
pub open spec fn nearest(num: nat, den: nat) -> nat {
    let u = pow2(last_place(num / den));
    let m = num / (den * u);
    let rem = num % (den * u);
    if 2 * rem > den * u || (2 * rem == den * u && m % 2 == 1) {
        (m + 1) * u
    } else {
        m * u
    }
}

/// [`nearest`] with the sign of `num` kept.
pub open spec fn rounded(num: int, den: nat) -> int {
    if num < 0 {
        -(nearest((-num) as nat, den) as int)
    } else {
        nearest(num as nat, den) as int
    }
}

/// The magnitude of `v`.
pub open spec fn magnitude(v: int) -> nat {
    if v < 0 {
        (-v) as nat
    } else {
        v as nat
    }
}

/// The exponent and fraction fields of the magnitude `n`, read as one number.
pub open spec fn pattern(n: nat) -> int {
    let e = last_place(n);
    e * HIDDEN + n as int / pow2(e) as int
}

/// Pattern of infinity. The patterns above it, up to the sign bit, are no numbers.
pub const INFINITE: u32 = 0x7f80_0000;

/// A single-precision number, held as its bit pattern. As a value, the pattern of
/// infinity lies above every finite one, and those beyond it are read on as ever
/// larger numbers; comparisons that can meet them ask first.
#[derive(Clone, Copy, PartialEq, Eq, Structural, Hash, Debug, Default)]
pub struct Single {
    pub bits: u32,
}

impl Single {
    /// Absolute value, in units of `2^-149`.
    pub open spec fn mag(self) -> nat {
        let b = (self.bits % SIGN) as nat;
        let e = b / HIDDEN as nat;
        let f = b % HIDDEN as nat;
        if e == 0 {
            f
        } else {
            (f + HIDDEN as nat) * pow2((e - 1) as nat)
        }
    }

    /// The number, in units of `2^-149`.
    pub open spec fn val(self) -> int {
        if self.bits >= SIGN {
            -(self.mag() as int)
        } else {
            self.mag() as int
        }
    }

    /// Neither infinite nor not a number.
    pub open spec fn finite(self) -> bool {
        self.bits % SIGN < INFINITE
    }

    /// Not a number.
    pub open spec fn spec_is_nan(self) -> bool {
        self.bits % SIGN > INFINITE
    }

    /// Both are numbers and `self` is the smaller one.
    pub open spec fn spec_below(self, o: Single) -> bool {
        !self.spec_is_nan() && !o.spec_is_nan() && self.val() < o.val()
    }

    /// The pattern of the value `v`, for a `v` of at most 24 significant bits.
    pub open spec fn encode(v: int) -> Single {
        let b = pattern(magnitude(v));
        Single { bits: (if v < 0 { b + SIGN } else { b }) as u32 }
    }

    /// The correctly rounded quotient of two integers, in units of `2^-149`.
    pub open spec fn round_ratio(num: int, den: nat) -> Single {
        Single::encode(rounded(num, den))
    }

    /// Whether `num / den` rounds to a number that the exponent can express.
    pub open spec fn in_range(num: int, den: nat) -> bool {
        nearest(magnitude(num), den) < pow2(278)
    }
}

/// Where `num / den` stands against the grid point `m * 2^e`: at or above it by a
/// remainder of less than one grid step.
spec fn offset(num: nat, den: nat, m: nat, e: int) -> int {
    num * pow2(512) - m * (den * pow2((e + 512) as nat))
}

spec fn grid(den: nat, e: int) -> int {
    (den * pow2((e + 512) as nat)) as int
}

/// The remainder is within one grid step, and is zero unless `some`.
spec fn loose(num: nat, den: nat, m: nat, e: int, some: bool) -> bool {
    let r = offset(num, den, m, e);
    &&& 0 <= r < grid(den, e)
    &&& some <==> r != 0
}

/// The guard bit `g` and the sticky bit `s` describe the remainder exactly.
spec fn tight(num: nat, den: nat, m: nat, e: int, g: bool, s: bool) -> bool {
    let r = offset(num, den, m, e);
    let d = grid(den, e);
    &&& 0 <= r < d
    &&& g <==> 2 * r >= d
    &&& s <==> (r != 0 && 2 * r != d)
}

proof fn lemma_shift(num: nat, den: nat, m: nat, e: int, some: bool)
    requires
        den > 0,
        e >= -511,
        loose(num, den, m, e, some),
    ensures
        tight(num, den, m / 2, e + 1, m % 2 == 1, some),
{
    lemma_pow2_unfold((e + 513) as nat);
    lemma_pow2_pos((e + 512) as nat);
    let d = grid(den, e);
    let p = pow2((e + 512) as nat) as int;
    assert(grid(den, e + 1) == 2 * d) by (nonlinear_arith)
        requires
            d == den * p,
            grid(den, e + 1) == den * (2 * p),
    ;
    assert(m == 2 * (m / 2) + m % 2);
    let h = (m / 2) as int;
    let b = (m % 2) as int;
    assert(m * d == h * (2 * d) + b * d) by (nonlinear_arith)
        requires
            m == 2 * h + b,
    ;
    assert(b == 0 || b == 1);
    assert(b * d == (if b == 1 { d } else { 0 })) by (nonlinear_arith)
        requires
            b == 0 || b == 1,
    ;
}

proof fn lemma_unshift(num: nat, den: nat, m: nat, e: int)
    requires
        den > 0,
        e >= -400,
        tight(num, den, m, e, false, false),
    ensures
        tight(num, den, 2 * m, e - 1, false, false),
{
    lemma_pow2_unfold((e + 512) as nat);
    lemma_pow2_pos((e + 511) as nat);
    let p = pow2((e + 511) as nat) as int;
    let d = grid(den, e - 1);
    assert(grid(den, e) == 2 * d) by (nonlinear_arith)
        requires
            d == den * p,
            grid(den, e) == den * (2 * p),
    ;
    assert(d > 0) by (nonlinear_arith)
        requires
            d == den * p,
            den > 0,
            p > 0,
    ;
    assert((2 * m) * d == m * (2 * d)) by (nonlinear_arith);
}

/// A magnitude whose significand over `2^e` has exactly 24 bits, or that needs no
/// scaling at all, has its last place at `2^e`.
proof fn lemma_last_place(q: nat, e: nat)
    requires
        q / pow2(e) < 0x100_0000,
        e == 0 || q / pow2(e) >= 0x80_0000,
    ensures
        last_place(q) == e,
    decreases e,
{
    lemma_pow2_pos(e);
    if e == 0 {
        vstd::arithmetic::power2::lemma2_to64();
        assert(q / 1 == q);
    } else {
        lemma_pow2_unfold(e);
        let p = pow2((e - 1) as nat);
        lemma_pow2_pos((e - 1) as nat);
        lemma_div_denominator(q as int, 2, p as int);
        assert((q / 2) / p == q / pow2(e));
        lemma_fundamental_div_mod(q as int, pow2(e) as int);
        let k = q / pow2(e);
        assert(pow2(e) * k >= 2 * 0x80_0000) by (nonlinear_arith)
            requires
                pow2(e) >= 2,
                k >= 0x80_0000,
        ;
        if e == 1 {
            vstd::arithmetic::power2::lemma2_to64();
            assert((q / 2) / 1 == q / 2);
        }
        lemma_last_place(q / 2, (e - 1) as nat);
    }
}

/// Every magnitude is bracketed by its last place.
pub proof fn lemma_last_place_bounds(q: nat)
    ensures
        q / pow2(last_place(q)) < 0x100_0000,
        last_place(q) == 0 || q / pow2(last_place(q)) >= 0x80_0000,
    decreases q,
{
    if q < 0x100_0000 {
        vstd::arithmetic::power2::lemma2_to64();
        assert(q / 1 == q);
    } else {
        lemma_last_place_bounds(q / 2);
        let e = last_place(q / 2);
        lemma_pow2_unfold(e + 1);
        lemma_pow2_pos(e);
        lemma_div_denominator(q as int, 2, pow2(e) as int);
        assert((q / 2) / pow2(e) == q / pow2(e + 1));
        if e == 0 {
            vstd::arithmetic::power2::lemma2_to64();
            assert((q / 2) / 1 == q / 2);
        }
    }
}

/// The tracked grid point with its guard and sticky bits settles the rounding.
proof fn lemma_settle(num: nat, den: nat, m: nat, e: nat, g: bool, s: bool)
    requires
        den > 0,
        tight(num, den, m, e as int, g, s),
        m < 0x100_0000,
        m >= 0x80_0000 || e == 0,
    ensures
        nearest(num, den) == (if g && (s || m % 2 == 1) {
            (m + 1) as nat
        } else {
            m
        }) * pow2(e),
{
    let big = pow2(512) as int;
    let p = pow2(e) as int;
    lemma_pow2_pos(512);
    lemma_pow2_pos(e);
    lemma_pow2_adds(e, 512);
    let d = den * p;
    let r = num - m * d;
    assert(grid(den, e as int) == d * big) by (nonlinear_arith)
        requires
            grid(den, e as int) == den * (p * big),
            d == den * p,
    ;
    assert(offset(num, den, m, e as int) == r * big) by (nonlinear_arith)
        requires
            offset(num, den, m, e as int) == num * big - m * (d * big),
            r == num - m * d,
    ;
    assert(d > 0) by (nonlinear_arith)
        requires
            d == den * p,
            den > 0,
            p > 0,
    ;
    assert(0 <= r < d && (g <==> 2 * r >= d) && (s <==> (r != 0 && 2 * r != d)))
        by (nonlinear_arith)
        requires
            0 <= r * big < d * big,
            g <==> 2 * (r * big) >= d * big,
            s <==> (r * big != 0 && 2 * (r * big) != d * big),
            big > 0,
    ;
    assert(num == m * d + r);
    lemma_fundamental_div_mod_converse(num as int, d, m as int, r);
    lemma_div_denominator(num as int, den as int, p);
    lemma_last_place(num / den, e);
}

proof fn lemma_pow2_less(a: nat, b: nat)
    requires
        pow2(a) < pow2(b),
    ensures
        a < b,
{
    if a > b {
        lemma_pow2_strictly_increases(b, a);
    }
}

/// While the tracked significand is still too wide, its exponent stays small.
proof fn lemma_wide_exponent(num: nat, den: nat, m: nat, e: int, some: bool)
    requires
        den > 0,
        e >= -500,
        loose(num, den, m, e, some),
        m >= 0x100_0000,
        num < den * pow2(279),
    ensures
        e < 255,
{
    let q = (e + 512) as nat;
    let p = pow2(q) as int;
    let big = pow2(512) as int;
    lemma_pow2_pos(q);
    lemma_pow2_pos(512);
    lemma_pow2_adds(279, 512);
    lemma_pow2_adds(24, q);
    vstd::arithmetic::power2::lemma2_to64();
    let t = pow2(279) as int;
    assert(m * p < t * big) by (nonlinear_arith)
        requires
            m * (den * p) <= num * big,
            num < den * t,
            den > 0,
            big > 0,
    {
        assert(num * big < (den * t) * big);
        assert(den * (m * p) == m * (den * p));
        assert((den * t) * big == den * (t * big));
        assert(den * (m * p) < den * (t * big));
    }
    assert(0x100_0000 * p <= m * p) by (nonlinear_arith)
        requires
            m >= 0x100_0000,
            p > 0,
    ;
    lemma_pow2_less(24 + q, 279 + 512);
}

/// A significand and exponent in standard position are the fields of a pattern.
proof fn lemma_fields(m: nat, e: nat)
    requires
        m <= 0x100_0000,
        m >= 0x80_0000 || e == 0,
        m * pow2(e) < pow2(278),
    ensures
        e * HIDDEN + m < SIGN,
        pattern(m * pow2(e)) == e * HIDDEN + m,
        (Single { bits: (e * HIDDEN + m) as u32 }).val() == m * pow2(e),
{
    let p = pow2(e);
    lemma_pow2_pos(e);
    vstd::arithmetic::power2::lemma2_to64();
    if e > 0 {
        lemma_pow2_adds(23, e);
        assert(0x80_0000 * p <= m * p) by (nonlinear_arith)
            requires
                m >= 0x80_0000,
                p > 0,
        ;
        lemma_pow2_less(23 + e, 278);
        if m == 0x100_0000 {
            lemma_pow2_adds(24, e);
            lemma_pow2_less(24 + e, 278);
        }
    }
    let v = m * p;
    if m < 0x100_0000 {
        assert(v / p == m) by (nonlinear_arith)
            requires
                v == m * p,
                p > 0,
        ;
        lemma_last_place(v, e);
    } else {
        lemma_pow2_unfold(e + 1);
        let p2 = pow2(e + 1);
        assert(v / p2 == 0x80_0000) by (nonlinear_arith)
            requires
                v == 0x100_0000 * p,
                p2 == 2 * p,
                p > 0,
        ;
        lemma_last_place(v, e + 1);
    }
    let b = e * HIDDEN + m;
    assert(e <= 254);
    if m < 0x80_0000 {
        assert(b / 0x80_0000 == 0 && b % 0x80_0000 == m);
    } else if m < 0x100_0000 {
        assert(b / 0x80_0000 == e + 1 && b % 0x80_0000 == m - 0x80_0000);
    } else {
        assert(b / 0x80_0000 == e + 2 && b % 0x80_0000 == 0);
        lemma_pow2_unfold(e + 1);
        assert(0x80_0000 * (2 * p) == 0x100_0000 * p) by (nonlinear_arith);
    }
}

/// Rounds `num / den` to the nearest single, given that it lies in the grid step
/// that starts at `mag * 2^k`, on its start unless `sticky`.
fn normalise(mag: u128, k: i32, sticky: bool, Ghost(num): Ghost<nat>, Ghost(den): Ghost<nat>) -> (r:
    u32)
    requires
        den > 0,
        -400 <= k <= 400,
        loose(num, den, mag as nat, k as int, sticky),
        sticky ==> mag >= 0x100_0000,
        nearest(num, den) < pow2(278),
        num < den * pow2(279),
    ensures
        r < SIGN,
        (Single { bits: r }).val() == nearest(num, den),
        pattern(nearest(num, den)) == r,
{
    let mut m: u128 = mag;
    let mut e: i32 = k;
    let mut g: bool = false;
    let mut s: bool = sticky;
    proof {
        lemma_pow2_pos((k + 512) as nat);
        let p = pow2((k + 512) as nat) as int;
        assert(grid(den, k as int) > 0) by (nonlinear_arith)
            requires
                grid(den, k as int) == den * p,
                den > 0,
                p > 0,
        ;
    }
    while m >= 0x100_0000 || e < 0
        invariant
            den > 0,
            -400 <= e <= 400,
            loose(num, den, m as nat, e as int, g || s),
            tight(num, den, m as nat, e as int, g, s) || m >= 0x100_0000,
            (!g && !s) || m >= 0x80_0000 || e <= 0,
            num < den * pow2(279),
        decreases m + (if e < 0 {
            -(e as int)
        } else {
            0
        }),
    {
        proof {
            lemma_shift(num, den, m as nat, e as int, g || s);
            if m >= 0x100_0000 {
                lemma_wide_exponent(num, den, m as nat, e as int, g || s);
            }
        }
        s = g || s;
        g = m % 2 == 1;
        m = m / 2;
        e = e + 1;
    }
    while m < 0x80_0000 && e > 0
        invariant
            den > 0,
            0 <= e <= 400,
            m < 0x100_0000,
            tight(num, den, m as nat, e as int, g, s),
            (!g && !s) || m >= 0x80_0000 || e <= 0,
        decreases e,
    {
        proof {
            lemma_unshift(num, den, m as nat, e as int);
        }
        m = m * 2;
        e = e - 1;
    }
    proof {
        lemma_settle(num, den, m as nat, e as nat, g, s);
    }
    if g && (s || m % 2 == 1) {
        m = m + 1;
    }
    proof {
        lemma_fields(m as nat, e as nat);
    }
    (e as u32) * HIDDEN + (m as u32)
}

/// What rounds into range was not far out of it to begin with.
proof fn lemma_range_before(num: nat, den: nat)
    requires
        den > 0,
        nearest(num, den) < pow2(278),
    ensures
        num < den * pow2(279),
{
    let e = last_place(num / den);
    let u = pow2(e) as int;
    lemma_pow2_pos(e);
    lemma_last_place_bounds(num / den);
    lemma_div_denominator(num as int, den as int, u);
    let d = den * u;
    assert(d > 0) by (nonlinear_arith)
        requires
            d == den * u,
            den > 0,
            u > 0,
    ;
    let m = num as int / d;
    lemma_fundamental_div_mod(num as int, d);
    lemma_pow2_unfold(279);
    lemma_pow2_pos(278);
    vstd::arithmetic::power2::lemma2_to64();
    let t = pow2(278) as int;
    assert(m * u <= nearest(num, den)) by (nonlinear_arith)
        requires
            nearest(num, den) == m * u || nearest(num, den) == (m + 1) * u,
            u > 0,
    ;
    assert(num < d * (m + 1)) by (nonlinear_arith)
        requires
            num == d * m + num as int % d,
            num as int % d < d,
    ;
    if m == 0 {
        assert(e == 0);
        assert(d * 1 <= den * (2 * t)) by (nonlinear_arith)
            requires
                d == den * u,
                u == 1,
                t > 0,
                den > 0,
        ;
    } else {
        assert(d * (m + 1) <= den * (2 * t)) by (nonlinear_arith)
            requires
                d == den * u,
                m * u < t,
                m >= 1,
                den > 0,
                u > 0,
        {
            assert(u * (m + 1) <= 2 * (m * u));
            assert(d * (m + 1) == den * (u * (m + 1)));
        }
    }
}

/// Rounding does not cross a multiple of its own last place.
proof fn lemma_nearest_le(num: nat, den: nat, c: nat)
    requires
        den > 0,
        num <= den * (c * pow2(last_place(num / den))),
    ensures
        nearest(num, den) <= c * pow2(last_place(num / den)),
{
    let u = pow2(last_place(num / den)) as int;
    lemma_pow2_pos(last_place(num / den));
    let d = den * u;
    assert(d > 0) by (nonlinear_arith)
        requires
            d == den * u,
            den > 0,
            u > 0,
    ;
    let m = num as int / d;
    let rem = num as int % d;
    lemma_fundamental_div_mod(num as int, d);
    assert(den * (c * u) == d * c) by (nonlinear_arith)
        requires
            d == den * u,
    ;
    assert(m <= c && (m == c ==> rem == 0)) by (nonlinear_arith)
        requires
            d * m + rem <= d * c,
            0 <= rem < d,
    ;
    if m == c {
    } else {
        assert((m + 1) * u <= c * u && m * u <= c * u) by (nonlinear_arith)
            requires
                m + 1 <= c,
                u > 0,
        ;
    }
}

/// Rounding does not cross a power of two.
pub proof fn lemma_nearest_le_pow2(num: nat, den: nat, k: nat)
    requires
        den > 0,
        num <= den * pow2(k),
    ensures
        nearest(num, den) <= pow2(k),
{
    let q = num / den;
    let e = last_place(q);
    lemma_last_place_bounds(q);
    lemma_pow2_pos(e);
    lemma_pow2_pos(k);
    assert(q <= pow2(k)) by (nonlinear_arith)
        requires
            q == num / den,
            num <= den * pow2(k),
            den > 0,
    ;
    vstd::arithmetic::power2::lemma2_to64();
    if e > 0 {
        lemma_fundamental_div_mod(q as int, pow2(e) as int);
        let s = q / pow2(e);
        assert(0x80_0000 * pow2(e) <= q) by (nonlinear_arith)
            requires
                q == pow2(e) * s + q % pow2(e),
                q % pow2(e) >= 0,
                s >= 0x80_0000,
                pow2(e) > 0,
        ;
        lemma_pow2_adds(23, e);
        if k < 23 + e {
            lemma_pow2_strictly_increases(k, 23 + e);
        }
        lemma_pow2_adds((k - e) as nat, e);
        lemma_nearest_le(num, den, pow2((k - e) as nat));
    } else {
        assert(pow2(k) * 1 == pow2(k));
        lemma_nearest_le(num, den, pow2(k));
    }
}

impl Single {
    /// The significand and the exponent of the magnitude.
    fn parts(self) -> (p: (u32, u32))
        ensures
            self.mag() == p.0 * pow2(p.1 as nat),
            p.0 < 0x100_0000,
            p.0 >= 0x80_0000 || p.1 == 0,
            p.1 <= 254,
    {
        proof {
            vstd::arithmetic::power2::lemma2_to64();
        }
        let b: u32 = self.bits % SIGN;
        let e: u32 = b / HIDDEN;
        let f: u32 = b % HIDDEN;
        if e == 0 {
            assert(f * pow2(0) == f);
            (f, 0)
        } else {
            assert(self.mag() == (f as nat + HIDDEN as nat) * pow2((e as nat - 1) as nat));
            (f + HIDDEN, e - 1)
        }
    }

    /// Puts the sign back on a magnitude.
    fn signed(neg: bool, mag: u32, Ghost(num): Ghost<int>, Ghost(den): Ghost<nat>) -> (r: Single)
        requires
            den > 0,
            mag < SIGN,
            (Single { bits: mag }).val() == nearest(magnitude(num), den),
            pattern(nearest(magnitude(num), den)) == mag,
            neg ==> num <= 0,
            !neg ==> num >= 0,
        ensures
            r == Single::round_ratio(num, den),
            r.val() == rounded(num, den),
    {
        let ghost n = nearest(magnitude(num), den);
        proof {
            if mag > 0 {
                lemma_positive(mag);
            } else {
                assert((Single { bits: 0 }).mag() == 0);
            }
            assert(rounded(num, den) == (if num < 0 { -(n as int) } else { n as int }));
            assert(magnitude(rounded(num, den)) == n);
        }
        if neg && mag > 0 {
            assert(num != 0) by {
                if num == 0 {
                    lemma_nearest_zero(den);
                }
            }
            let r = Single { bits: mag + SIGN };
            assert(r.bits % SIGN == mag);
            assert(r.mag() == (Single { bits: mag }).mag());
            r
        } else {
            Single { bits: mag }
        }
    }
}

proof fn lemma_nearest_zero(den: nat)
    requires
        den > 0,
    ensures
        nearest(0, den) == 0,
{
    vstd::arithmetic::power2::lemma2_to64();
    assert(0nat / den == 0) by (nonlinear_arith)
        requires
            den > 0,
    ;
    assert(last_place(0) == 0);
    assert(den * pow2(0) == den);
    assert(0nat % den == 0) by (nonlinear_arith)
        requires
            den > 0,
    ;
}

proof fn lemma_positive(b: u32)
    requires
        0 < b < SIGN,
    ensures
        (Single { bits: b }).val() > 0,
{
    let e = b as nat / HIDDEN as nat;
    let f = b as nat % HIDDEN as nat;
    if e > 0 {
        lemma_pow2_pos((e - 1) as nat);
        let p = pow2((e - 1) as nat);
        assert((f + HIDDEN) * p > 0) by (nonlinear_arith)
            requires
                p > 0,
                f >= 0,
        ;
    }
}

impl Single {
    pub open spec fn spec_neg(self) -> Single {
        Single { bits: (if self.bits >= SIGN { self.bits - SIGN } else { self.bits + SIGN }) as u32 }
    }

    /// The number with its sign flipped.
    pub fn neg(self) -> (r: Single)
        ensures
            r == self.spec_neg(),
            r.val() == -self.val(),
    {
        if self.bits >= SIGN {
            let r = Single { bits: self.bits - SIGN };
            assert(r.bits % SIGN == self.bits % SIGN);
            r
        } else {
            let r = Single { bits: self.bits + SIGN };
            assert(r.bits % SIGN == self.bits % SIGN);
            r
        }
    }

    /// The number without its sign.
    pub fn abs(self) -> (r: Single)
        ensures
            r.bits == self.bits % SIGN,
            r.val() == self.mag(),
    {
        let r = Single { bits: self.bits % SIGN };
        assert(r.bits % SIGN == self.bits % SIGN);
        r
    }

    pub open spec fn spec_of_int(n: int) -> Single {
        Single::round_ratio(n * pow2(ONE_EXP as nat), 1)
    }

    /// The single nearest to an integer.
    pub fn of_int(n: i64) -> (r: Single)
        ensures
            r == Single::spec_of_int(n as int),
            r.val() == rounded(n * pow2(149), 1),
    {
        let ghost p = pow2(149) as int;
        let neg: bool = n < 0;
        let mag: u128 = if n < 0 {
            (-(n as i128)) as u128
        } else {
            n as u128
        };
        let ghost num = n * p;
        proof {
            lemma_pow2_pos(149);
            lemma_pow2_adds(149, 512);
            lemma_pow2_adds(64, 149);
            vstd::arithmetic::power2::lemma2_to64();
            vstd::arithmetic::power2::lemma2_to64_rest();
            assert(magnitude(num) == mag * p) by (nonlinear_arith)
                requires
                    num == n * p,
                    mag == magnitude(n as int),
                    p > 0,
            ;
            assert(neg <==> num < 0) by (nonlinear_arith)
                requires
                    num == n * p,
                    neg == (n < 0),
                    p > 0,
            ;
            let big = pow2(512) as int;
            assert((mag * p) * big == mag * (1 * (p * big))) by (nonlinear_arith);
            assert(offset(magnitude(num), 1, mag as nat, 149) == 0);
            lemma_pow2_pos(661);
            assert(magnitude(num) <= pow2(213)) by (nonlinear_arith)
                requires
                    magnitude(num) == mag * p,
                    mag <= pow2(64),
                    pow2(213) == pow2(64) * p,
                    p > 0,
            ;
            lemma_nearest_le_pow2(magnitude(num), 1, 213);
            lemma_pow2_strictly_increases(213, 278);
            lemma_range_before(magnitude(num), 1);
        }
        let m: u32 = normalise(mag, 149, false, Ghost(magnitude(num)), Ghost(1));
        Single::signed(neg, m, Ghost(num), Ghost(1))
    }

    pub open spec fn spec_mul(self, o: Single) -> Single {
        Single::round_ratio(self.val() * o.val(), pow2(ONE_EXP as nat))
    }

    /// The product, correctly rounded.
    pub fn mul(self, o: Single) -> (r: Single)
        requires
            Single::in_range(self.val() * o.val(), pow2(149)),
        ensures
            r == self.spec_mul(o),
            r.val() == rounded(self.val() * o.val(), pow2(149)),
    {
        let (m1, e1): (u32, u32) = self.parts();
        let (m2, e2): (u32, u32) = o.parts();
        let neg: bool = (self.bits >= SIGN) != (o.bits >= SIGN);
        let ghost num = self.val() * o.val();
        let ghost den = pow2(149);
        assert(m1 * m2 < 0x100_0000 * 0x100_0000) by (nonlinear_arith)
            requires
                m1 < 0x100_0000,
                m2 < 0x100_0000,
        ;
        let mag: u128 = m1 as u128 * m2 as u128;
        let k: i32 = e1 as i32 + e2 as i32 - 149;
        proof {
            lemma_pow2_pos(149);
            let p1 = pow2(e1 as nat) as int;
            let p2 = pow2(e2 as nat) as int;
            let big = pow2(512) as int;
            let a = self.mag() as int;
            let b = o.mag() as int;
            assert(a >= 0 && b >= 0);
            assert(num == a * b || num == -(a * b)) by (nonlinear_arith)
                requires
                    num == self.val() * o.val(),
                    self.val() == a || self.val() == -a,
                    o.val() == b || o.val() == -b,
            ;
            assert(a * b >= 0) by (nonlinear_arith)
                requires
                    a >= 0,
                    b >= 0,
            ;
            assert((neg ==> num <= 0) && (!neg ==> num >= 0)) by (nonlinear_arith)
                requires
                    num == self.val() * o.val(),
                    self.val() == (if self.bits >= SIGN { -a } else { a }),
                    o.val() == (if o.bits >= SIGN { -b } else { b }),
                    neg == ((self.bits >= SIGN) != (o.bits >= SIGN)),
                    a >= 0,
                    b >= 0,
            ;
            assert(magnitude(num) == a * b);
            lemma_pow2_adds(e1 as nat, e2 as nat);
            lemma_pow2_adds(e1 as nat + e2 as nat, 512);
            lemma_pow2_adds(149, (k + 512) as nat);
            assert((a * b) * big == mag * ((p1 * p2) * big)) by (nonlinear_arith)
                requires
                    a == m1 * p1,
                    b == m2 * p2,
                    mag == m1 * m2,
            ;
            assert(offset(magnitude(num), den, mag as nat, k as int) == 0);
            lemma_pow2_pos((149 + k + 512) as nat);
            lemma_range_before(magnitude(num), den);
        }
        let m: u32 = normalise(mag, k, false, Ghost(magnitude(num)), Ghost(den));
        Single::signed(neg, m, Ghost(num), Ghost(den))
    }

    /// The numerator of the quotient `self / o`, with its sign.
    pub open spec fn dividend(self, o: Single) -> int {
        if o.bits >= SIGN {
            -(self.val() * pow2(ONE_EXP as nat))
        } else {
            self.val() * pow2(ONE_EXP as nat)
        }
    }

    pub open spec fn spec_div(self, o: Single) -> Single {
        Single::round_ratio(self.dividend(o), o.mag())
    }

    /// The quotient, correctly rounded.
    pub fn div(self, o: Single) -> (r: Single)
        requires
            o.val() != 0,
            Single::in_range(self.dividend(o), o.mag()),
        ensures
            r == self.spec_div(o),
            r.val() == rounded(self.dividend(o), o.mag()),
    {
        let (m1, e1): (u32, u32) = self.parts();
        let (m2, e2): (u32, u32) = o.parts();
        let neg: bool = (self.bits >= SIGN) != (o.bits >= SIGN);
        let ghost num = self.dividend(o);
        let ghost den = o.mag();
        let ghost p2 = pow2(e2 as nat) as int;
        assert(m2 > 0) by {
            if m2 == 0 {
                assert(0 * p2 == 0);
            }
        }
        let wide: u128 = m1 as u128 * 0x1_0000_0000_0000_0000u128;
        let mag: u128 = wide / (m2 as u128);
        let rem: u128 = wide % (m2 as u128);
        let k: i32 = e1 as i32 - e2 as i32 + 85;
        proof {
            let t = pow2(149) as int;
            lemma_pow2_pos(149);
            let p1 = pow2(e1 as nat) as int;
            let big = pow2(512) as int;
            let a = self.mag() as int;
            assert(num == a * t || num == -(a * t)) by (nonlinear_arith)
                requires
                    self.val() == a || self.val() == -a,
                    num == self.val() * t || num == -(self.val() * t),
            ;
            assert(a * t >= 0) by (nonlinear_arith)
                requires
                    a >= 0,
                    t > 0,
            ;
            assert((neg ==> num <= 0) && (!neg ==> num >= 0)) by (nonlinear_arith)
                requires
                    num == (if o.bits >= SIGN { -(self.val() * t) } else { self.val() * t }),
                    self.val() == (if self.bits >= SIGN { -a } else { a }),
                    neg == ((self.bits >= SIGN) != (o.bits >= SIGN)),
                    a >= 0,
                    t > 0,
            ;
            assert(magnitude(num) == a * t);
            lemma_fundamental_div_mod(wide as int, m2 as int);
            assert(wide == mag * m2 + rem) by (nonlinear_arith)
                requires
                    wide == m2 * (wide as int / m2 as int) + wide as int % m2 as int,
                    mag == wide / (m2 as u128),
                    rem == wide % (m2 as u128),
            ;
            // The grid step is m2 * c and the remainder is rem * c.
            let c = pow2((e1 + 597) as nat) as int;
            lemma_pow2_pos((e1 + 597) as nat);
            vstd::arithmetic::power2::lemma2_to64_rest();
            vstd::arithmetic::power2::lemma2_to64();
            lemma_pow2_adds(e1 as nat, 149);
            lemma_pow2_adds(e1 as nat + 149, 512);
            lemma_pow2_adds(64, (e1 + 597) as nat);
            lemma_pow2_adds(e2 as nat, (k + 512) as nat);
            assert((a * t) * big == wide * c) by (nonlinear_arith)
                requires
                    a == m1 * p1,
                    wide == m1 * 0x1_0000_0000_0000_0000,
                    (p1 * t) * big == 0x1_0000_0000_0000_0000 * c,
            {
                assert((a * t) * big == m1 * ((p1 * t) * big));
            }
            let w = pow2((k + 512) as nat) as int;
            assert(grid(den, k as int) == m2 * c) by (nonlinear_arith)
                requires
                    grid(den, k as int) == (m2 * p2) * w,
                    p2 * w == c,
            ;
            assert(wide * c - mag * (m2 * c) == rem * c) by (nonlinear_arith)
                requires
                    wide == mag * m2 + rem,
            ;
            assert(offset(magnitude(num), den, mag as nat, k as int) == rem * c);
            assert(0 <= rem * c < m2 * c && (rem != 0 <==> rem * c != 0)) by (nonlinear_arith)
                requires
                    0 <= rem < m2,
                    c > 0,
            ;
            assert(rem != 0 ==> mag >= 0x100_0000) by (nonlinear_arith)
                requires
                    wide == mag * m2 + rem,
                    0 <= rem < m2,
                    wide == m1 * 0x1_0000_0000_0000_0000,
                    0 < m2 < 0x100_0000,
                    m1 >= 0,
            {
                if rem != 0 && mag < 0x100_0000 {
                    assert(m1 >= 1);
                    assert(mag * m2 <= 0x100_0000 * 0x100_0000);
                }
            }
            lemma_range_before(magnitude(num), den);
        }
        let m: u32 = normalise(mag, k, rem != 0, Ghost(magnitude(num)), Ghost(den));
        Single::signed(neg, m, Ghost(num), Ghost(den))
    }
}

/// `m * 2^n`.
fn scaled_up(m: u32, n: u32) -> (r: u128)
    requires
        m < 0x100_0000,
        n <= 62,
    ensures
        r == m * pow2(n as nat),
        r <= m * 0x4000_0000_0000_0000,
{
    let mut r: u128 = m as u128;
    let mut i: u32 = 0;
    proof {
        vstd::arithmetic::power2::lemma2_to64();
        vstd::arithmetic::power2::lemma2_to64_rest();
        assert(m * pow2(0) == m);
    }
    while i < n
        invariant
            m < 0x100_0000,
            i <= n <= 62,
            r == m * pow2(i as nat),
            pow2(62) == 0x4000_0000_0000_0000,
        decreases n - i,
    {
        proof {
            lemma_pow2_unfold((i + 1) as nat);
            if i + 1 < 62 {
                lemma_pow2_strictly_increases((i + 1) as nat, 62);
            }
            let p = pow2(i as nat) as int;
            assert(2 * (m * p) == m * (2 * p)) by (nonlinear_arith);
            assert(m * (2 * p) <= 0x100_0000 * 0x4000_0000_0000_0000) by (nonlinear_arith)
                requires
                    m < 0x100_0000,
                    2 * p <= 0x4000_0000_0000_0000,
                    p >= 0,
            ;
        }
        r = r * 2;
        i = i + 1;
    }
    proof {
        if n < 62 {
            lemma_pow2_strictly_increases(n as nat, 62);
        }
        let p = pow2(n as nat) as int;
        assert(m * p <= m * 0x4000_0000_0000_0000) by (nonlinear_arith)
            requires
                p <= 0x4000_0000_0000_0000,
                m >= 0,
        ;
    }
    r
}

/// A whole magnitude `mag * 2^k` with nothing left over.
proof fn lemma_whole(mag: nat, k: nat)
    ensures
        loose(mag * pow2(k), 1, mag, k as int, false),
{
    let p = pow2(k) as int;
    let big = pow2(512) as int;
    lemma_pow2_adds(k, 512);
    lemma_pow2_pos(k + 512);
    assert((mag * p) * big == mag * (1 * (p * big))) by (nonlinear_arith);
}

/// Two magnitudes so far apart that the smaller is less than one step of the
/// grid 38 places below the larger.
proof fn lemma_far(m1: nat, e1: nat, m2: nat, e2: nat)
    requires
        0x80_0000 <= m1 < 0x100_0000,
        0 < m2 < 0x100_0000,
        e1 >= e2 + 62,
    ensures
        m2 * pow2(e2) < m1 * pow2(e1),
        loose(m1 * pow2(e1) + m2 * pow2(e2), 1, m1 * pow2(38), e1 - 38, true),
        m1 * pow2(38) >= 0x100_0001,
        loose(
            (m1 * pow2(e1) - m2 * pow2(e2)) as nat,
            1,
            (m1 * pow2(38) - 1) as nat,
            e1 - 38,
            true,
        ),
{
    let p1 = pow2(e1) as int;
    let p2 = pow2(e2) as int;
    let step = pow2((e1 - 38) as nat) as int;
    let top = pow2(38) as int;
    let big = pow2(512) as int;
    lemma_pow2_pos(e1);
    lemma_pow2_pos(e2);
    lemma_pow2_pos(512);
    lemma_pow2_pos((e1 - 38) as nat);
    lemma_pow2_adds((e1 - 38) as nat, 38);
    lemma_pow2_adds((e1 - 38) as nat, 512);
    lemma_pow2_adds(24, e2);
    vstd::arithmetic::power2::lemma2_to64();
    vstd::arithmetic::power2::lemma2_to64_rest();
    if 24 + e2 < e1 - 38 {
        lemma_pow2_strictly_increases(24 + e2, (e1 - 38) as nat);
    }
    let a = m1 * p1;
    let b = m2 * p2;
    let m = m1 * top;
    assert(0 < b < step) by (nonlinear_arith)
        requires
            b == m2 * p2,
            0 < m2 < 0x100_0000,
            0x100_0000 * p2 <= step,
            p2 > 0,
    ;
    assert(a == m * step) by (nonlinear_arith)
        requires
            a == m1 * p1,
            m == m1 * top,
            p1 == step * top,
    ;
    assert(m >= 0x100_0001);
    assert(m * step >= step) by (nonlinear_arith)
        requires
            m >= 1,
            step > 0,
    ;
    assert((a + b) * big - m * (1 * (step * big)) == b * big) by (nonlinear_arith)
        requires
            a == m * step,
    ;
    assert((a - b) * big - (m - 1) * (1 * (step * big)) == (step - b) * big) by (nonlinear_arith)
        requires
            a == m * step,
    ;
    assert(0 < b * big < step * big && 0 < (step - b) * big < step * big) by (nonlinear_arith)
        requires
            0 < b < step,
            big > 0,
    ;
}

impl Single {
    pub open spec fn spec_add(self, o: Single) -> Single {
        Single::round_ratio(self.val() + o.val(), 1)
    }

    /// The sum, correctly rounded.
    pub fn add(self, o: Single) -> (r: Single)
        requires
            Single::in_range(self.val() + o.val(), 1),
        ensures
            r == self.spec_add(o),
            r.val() == rounded(self.val() + o.val(), 1),
    {
        let (ma, ea): (u32, u32) = self.parts();
        let (mb, eb): (u32, u32) = o.parts();
        // The larger exponent comes first.
        let flip: bool = ea < eb;
        let (m1, e1, m2, e2): (u32, u32, u32, u32) = if flip {
            (mb, eb, ma, ea)
        } else {
            (ma, ea, mb, eb)
        };
        let n1: bool = if flip {
            o.bits >= SIGN
        } else {
            self.bits >= SIGN
        };
        let n2: bool = if flip {
            self.bits >= SIGN
        } else {
            o.bits >= SIGN
        };
        let ghost num = self.val() + o.val();
        let ghost a = (if flip { o.mag() } else { self.mag() }) as int;
        let ghost b = (if flip { self.mag() } else { o.mag() }) as int;
        proof {
            lemma_range_before(magnitude(num), 1);
        }
        if e1 - e2 < 62 {
            let up: u128 = scaled_up(m1, e1 - e2);
            let ghost p2 = pow2(e2 as nat) as int;
            proof {
                lemma_pow2_pos(e2 as nat);
                lemma_pow2_adds((e1 - e2) as nat, e2 as nat);
                let g = pow2((e1 - e2) as nat) as int;
                assert(a == up * p2) by (nonlinear_arith)
                    requires
                        a == m1 * (g * p2),
                        up == m1 * g,
                ;
            }
            let (neg, mag): (bool, u128) = if n1 == n2 {
                (n1, up + m2 as u128)
            } else if up >= m2 as u128 {
                (n1, up - m2 as u128)
            } else {
                (n2, m2 as u128 - up)
            };
            proof {
                lemma_whole(mag as nat, e2 as nat);
                assert(mag * p2 == a + b || mag * p2 == a - b || mag * p2 == b - a)
                    by (nonlinear_arith)
                    requires
                        a == up * p2,
                        b == m2 * p2,
                        mag == up + m2 || mag == up - m2 || mag == m2 - up,
                ;
                assert(n1 == n2 ==> mag * p2 == a + b) by (nonlinear_arith)
                    requires
                        a == up * p2,
                        b == m2 * p2,
                        n1 == n2 ==> mag == up + m2,
                ;
                assert(n1 != n2 && up >= m2 ==> mag * p2 == a - b && a >= b) by (nonlinear_arith)
                    requires
                        a == up * p2,
                        b == m2 * p2,
                        p2 > 0,
                        n1 != n2 && up >= m2 ==> mag == up - m2,
                ;
                assert(n1 != n2 && up < m2 ==> mag * p2 == b - a && b >= a) by (nonlinear_arith)
                    requires
                        a == up * p2,
                        b == m2 * p2,
                        p2 > 0,
                        n1 != n2 && up < m2 ==> mag == m2 - up,
                ;
                assert(magnitude(num) == mag * p2);
            }
            let m: u32 = normalise(mag, e2 as i32, false, Ghost(magnitude(num)), Ghost(1));
            Single::signed(neg, m, Ghost(num), Ghost(1))
        } else {
            let up: u128 = scaled_up(m1, 38);
            let k: i32 = e1 as i32 - 38;
            if m2 == 0 {
                proof {
                    let p2 = pow2(e2 as nat) as int;
                    assert(0 * p2 == 0) by (nonlinear_arith);
                    lemma_pow2_adds(38, k as nat);
                    let q = pow2(k as nat) as int;
                    let t = pow2(38) as int;
                    assert(m1 * (t * q) == (m1 * t) * q) by (nonlinear_arith);
                    lemma_whole(up as nat, k as nat);
                }
                let m: u32 = normalise(up, k, false, Ghost(magnitude(num)), Ghost(1));
                Single::signed(n1, m, Ghost(num), Ghost(1))
            } else {
                proof {
                    lemma_far(m1 as nat, e1 as nat, m2 as nat, e2 as nat);
                }
                let mag: u128 = if n1 == n2 {
                    up
                } else {
                    up - 1
                };
                let m: u32 = normalise(mag, k, true, Ghost(magnitude(num)), Ghost(1));
                Single::signed(n1, m, Ghost(num), Ghost(1))
            }
        }
    }

    pub open spec fn spec_sub(self, o: Single) -> Single {
        Single::round_ratio(self.val() - o.val(), 1)
    }

    /// The difference, correctly rounded.
    pub fn sub(self, o: Single) -> (r: Single)
        requires
            Single::in_range(self.val() - o.val(), 1),
        ensures
            r == self.spec_sub(o),
            r.val() == rounded(self.val() - o.val(), 1),
    {
        self.add(o.neg())
    }
}

/// A magnitude of at most 24 significant bits.
pub open spec fn representable(n: nat) -> bool {
    n % pow2(last_place(n)) == 0
}

/// Rounding leaves what is representable as it is.
pub proof fn lemma_nearest_exact(n: nat)
    requires
        representable(n),
    ensures
        nearest(n, 1) == n,
{
    let u = pow2(last_place(n)) as int;
    lemma_pow2_pos(last_place(n));
    assert(n / 1 == n);
    assert(1 * u == u);
    lemma_fundamental_div_mod(n as int, u);
    assert((n as int / u) * u == u * (n as int / u)) by (nonlinear_arith);
}

/// A quotient that comes out representable needs no rounding.
pub proof fn lemma_nearest_multiple(k: nat, den: nat)
    requires
        den > 0,
        representable(k),
    ensures
        nearest(k * den, den) == k,
{
    let u = pow2(last_place(k)) as int;
    lemma_pow2_pos(last_place(k));
    assert((k * den) / den == k) by (nonlinear_arith)
        requires
            den > 0,
    ;
    lemma_fundamental_div_mod(k as int, u);
    let c = k as int / u;
    let d = den * u;
    assert(k * den == c * d + 0) by (nonlinear_arith)
        requires
            k == u * c,
            d == den * u,
    ;
    assert(d > 0) by (nonlinear_arith)
        requires
            d == den * u,
            den > 0,
            u > 0,
    ;
    lemma_fundamental_div_mod_converse((k * den) as int, d, c, 0);
    assert(c * u == u * c) by (nonlinear_arith);
}

/// Anything that 24 bits and a scale can write is representable.
pub proof fn lemma_representable(m: nat, k: nat)
    requires
        m <= 0x100_0000,
    ensures
        representable(m * pow2(k)),
{
    let p = pow2(k) as int;
    let v = m * pow2(k);
    let e = last_place(v);
    let u = pow2(e) as int;
    lemma_pow2_pos(k);
    lemma_pow2_pos(e);
    lemma_last_place_bounds(v);
    lemma_fundamental_div_mod(v as int, u);
    if e <= k {
        lemma_pow2_adds(e, (k - e) as nat);
        let w = pow2((k - e) as nat) as int;
        assert(m * (u * w) == u * (m * w)) by (nonlinear_arith);
        lemma_fundamental_div_mod_converse(v as int, u, m * w, 0);
    } else {
        lemma_pow2_adds(k, (e - k) as nat);
        let w = pow2((e - k) as nat) as int;
        lemma_pow2_unfold((e - k) as nat);
        lemma_pow2_pos((e - k - 1) as nat);
        let q = v as int / u;
        assert(v as int == u * q + v as int % u);
        assert(v % pow2(e) == 0) by (nonlinear_arith)
            requires
                v == m * p,
                v == u * q + v as int % u,
                0 <= v as int % u,
                u == pow2(e),
                m <= 0x100_0000,
                q >= 0x80_0000,
                u == p * w,
                w >= 2,
                p > 0,
        {
            assert(u >= 2 * p);
            assert(u * q >= (2 * p) * 0x80_0000);
            assert(v <= 0x100_0000 * p);
        }
    }
}

proof fn lemma_last_place_monotone(a: nat, b: nat)
    requires
        a <= b,
    ensures
        last_place(a) <= last_place(b),
    decreases b,
{
    if a >= 0x100_0000 {
        lemma_last_place_monotone(a / 2, b / 2);
    }
}

/// Rounding never carries a number past a representable one.
pub proof fn lemma_nearest_order(n: nat, b: nat)
    requires
        representable(b),
    ensures
        n <= b ==> nearest(n, 1) <= b,
        n >= b ==> nearest(n, 1) >= b,
{
    let en = last_place(n);
    let eb = last_place(b);
    let un = pow2(en) as int;
    let ub = pow2(eb) as int;
    lemma_pow2_pos(en);
    lemma_pow2_pos(eb);
    lemma_fundamental_div_mod(b as int, ub);
    lemma_fundamental_div_mod(n as int, un);
    assert(n / 1 == n);
    let c = b as int / ub;
    if n <= b {
        lemma_last_place_monotone(n, b);
        lemma_pow2_adds(en, (eb - en) as nat);
        let w = pow2((eb - en) as nat) as int;
        let k = w * c;
        assert(b == k * un) by (nonlinear_arith)
            requires
                b == ub * c,
                ub == un * w,
                k == w * c,
        ;
        lemma_pow2_pos((eb - en) as nat);
        assert(k >= 0) by (nonlinear_arith)
            requires
                k == w * c,
                w > 0,
                c >= 0,
        ;
        assert(1 * (k * un) == k * un);
        lemma_nearest_le(n, 1, k as nat);
    }
    if n >= b {
        lemma_last_place_monotone(b, n);
        let m = n as int / un;
        assert(1 * un == un);
        assert(nearest(n, 1) >= m * un) by (nonlinear_arith)
            requires
                nearest(n, 1) == m * un || nearest(n, 1) == (m + 1) * un,
                un > 0,
        ;
        if en == eb {
            assert(m * un >= b) by (nonlinear_arith)
                requires
                    b == un * c,
                    n == un * m + n as int % un,
                    0 <= n as int % un < un,
                    n >= b,
                    un > 0,
            {
                if m < c {
                    assert(un * m + un <= un * c);
                }
            }
        } else {
            lemma_last_place_bounds(n);
            lemma_last_place_bounds(b);
            lemma_pow2_adds(eb, (en - eb) as nat);
            lemma_pow2_unfold((en - eb) as nat);
            lemma_pow2_pos((en - eb - 1) as nat);
            let w = pow2((en - eb) as nat) as int;
            assert(m * un >= b) by (nonlinear_arith)
                requires
                    b == ub * c,
                    c < 0x100_0000,
                    m >= 0x80_0000,
                    un == ub * w,
                    w >= 2,
                    ub > 0,
            {
                assert(un >= 2 * ub);
                assert(m * un >= 0x80_0000 * (2 * ub));
                assert(ub * c <= ub * 0x100_0000);
            }
        }
    }
}

/// The same for signed numbers.
pub proof fn lemma_rounded_order(v: int, b: int)
    requires
        representable(magnitude(b)),
    ensures
        v <= b ==> rounded(v, 1) <= b,
        v >= b ==> rounded(v, 1) >= b,
{
    lemma_nearest_order(magnitude(v), magnitude(b));
}

/// A single's own value needs no rounding.
pub proof fn lemma_val_representable(s: Single)
    ensures
        representable(s.mag()),
        s.mag() < pow2(278),
        rounded(s.val(), 1) == s.val(),
{
    let b = (s.bits % SIGN) as nat;
    let e = b / HIDDEN as nat;
    let f = b % HIDDEN as nat;
    vstd::arithmetic::power2::lemma2_to64();
    if e == 0 {
        assert(f * pow2(0) == f);
        lemma_representable(f, 0);
        lemma_pow2_strictly_increases(23, 278);
    } else {
        assert(e <= 255);
        let p = pow2((e - 1) as nat);
        lemma_pow2_pos((e - 1) as nat);
        lemma_representable(f + HIDDEN as nat, (e - 1) as nat);
        lemma_pow2_adds(24, (e - 1) as nat);
        if e < 255 {
            lemma_pow2_strictly_increases((24 + e - 1) as nat, 278);
        }
        assert((f + HIDDEN) * p < 0x100_0000 * p) by (nonlinear_arith)
            requires
                f < HIDDEN,
                p > 0,
        ;
    }
    lemma_nearest_exact(s.mag());
}

/// Patterns without a sign are in the order of their values.
proof fn lemma_mag_order(a: u32, b: u32)
    requires
        a < b < SIGN,
    ensures
        (Single { bits: a }).mag() < (Single { bits: b }).mag(),
{
    let ea = a as nat / HIDDEN as nat;
    let eb = b as nat / HIDDEN as nat;
    let fa = a as nat % HIDDEN as nat;
    let fb = b as nat % HIDDEN as nat;
    vstd::arithmetic::power2::lemma2_to64();
    if ea == eb {
        if ea > 0 {
            let p = pow2((ea - 1) as nat);
            lemma_pow2_pos((ea - 1) as nat);
            assert((fa + HIDDEN) * p < (fb + HIDDEN) * p) by (nonlinear_arith)
                requires
                    fa < fb,
                    p > 0,
            ;
        }
    } else {
        let pb = pow2((eb - 1) as nat);
        lemma_pow2_pos((eb - 1) as nat);
        assert((fb + HIDDEN) * pb >= HIDDEN * pb) by (nonlinear_arith)
            requires
                pb > 0,
                fb >= 0,
        ;
        if ea == 0 {
            assert(HIDDEN * pb >= HIDDEN) by (nonlinear_arith)
                requires
                    pb >= 1,
            ;
        } else {
            let pa = pow2((ea - 1) as nat);
            lemma_pow2_unfold(ea);
            if ea < eb - 1 {
                lemma_pow2_strictly_increases(ea, (eb - 1) as nat);
            }
            lemma_pow2_pos((ea - 1) as nat);
            assert((fa + HIDDEN) * pa < HIDDEN * pb) by (nonlinear_arith)
                requires
                    fa < HIDDEN,
                    2 * pa <= pb,
                    pa > 0,
            ;
        }
    }
}

impl Single {
    /// Whether `self` is the smaller number.
    pub fn lt(self, o: Single) -> (r: bool)
        ensures
            r == (self.val() < o.val()),
    {
        let a: u32 = self.bits % SIGN;
        let b: u32 = o.bits % SIGN;
        proof {
            assert(a % SIGN == a && b % SIGN == b);
            assert(self.mag() == (Single { bits: a }).mag());
            assert(o.mag() == (Single { bits: b }).mag());
            if a < b {
                lemma_mag_order(a, b);
            } else if b < a {
                lemma_mag_order(b, a);
            }
            if a > 0 {
                lemma_positive(a);
            } else {
                assert((Single { bits: 0 }).mag() == 0);
            }
            if b > 0 {
                lemma_positive(b);
            } else {
                assert((Single { bits: 0 }).mag() == 0);
            }
        }
        if self.bits >= SIGN {
            if o.bits >= SIGN {
                b < a
            } else {
                a > 0 || b > 0
            }
        } else if o.bits >= SIGN {
            false
        } else {
            a < b
        }
    }

    /// Whether this is not a number.
    pub fn is_nan(self) -> (r: bool)
        ensures
            r == self.spec_is_nan(),
    {
        self.bits % SIGN > INFINITE
    }

    /// Whether both are numbers and `self` is the smaller one.
    pub fn below(self, o: Single) -> (r: bool)
        ensures
            r == self.spec_below(o),
    {
        !self.is_nan() && !o.is_nan() && self.lt(o)
    }

    /// The value rounded to a whole number, halves going away from zero.
    pub open spec fn half_away(v: int) -> int {
        let one = pow2(ONE_EXP as nat) as int;
        let n = (2 * magnitude(v) + one) / (2 * one);
        if v < 0 {
            -(n * one)
        } else {
            n * one
        }
    }

    /// The nearest whole number, halves going away from zero.
    pub fn round(self) -> (r: Single)
        ensures
            r.val() == Single::half_away(self.val()),
    {
        let (m, e): (u32, u32) = self.parts();
        let ghost one = pow2(149) as int;
        let ghost p = pow2(e as nat) as int;
        proof {
            lemma_pow2_pos(149);
            lemma_pow2_pos(e as nat);
        }
        if e >= 149 {
            proof {
                lemma_pow2_adds((e - 149) as nat, 149);
                let w = pow2((e - 149) as nat) as int;
                let k = m * w;
                assert(m * (w * one) == k * one) by (nonlinear_arith)
                    requires
                        k == m * w,
                ;
                assert(2 * (k * one) + one == k * (2 * one) + one) by (nonlinear_arith);
                lemma_fundamental_div_mod_converse(2 * self.mag() + one, 2 * one, k, one);
            }
            return self;
        }
        let s: u32 = 149 - e;
        if s > 24 {
            proof {
                lemma_pow2_adds(24, e as nat);
                vstd::arithmetic::power2::lemma2_to64();
                lemma_pow2_unfold(149);
                if 24 + e < 148 {
                    lemma_pow2_strictly_increases((24 + e) as nat, 148);
                }
                assert(m * p < 0x100_0000 * p) by (nonlinear_arith)
                    requires
                        m < 0x100_0000,
                        p > 0,
                ;
                let num = 2 * self.mag() + one;
                assert(0 <= num < 2 * one);
                lemma_fundamental_div_mod_converse(num, 2 * one, 0, num);
                assert(0 * one == 0) by (nonlinear_arith);
                assert((Single { bits: 0 }).mag() == 0);
            }
            return Single { bits: 0 };
        }
        let g: u128 = scaled_up(1, s);
        proof {
            assert(1 * pow2(s as nat) == pow2(s as nat));
            lemma_pow2_pos(s as nat);
        }
        let q: u128 = (2 * m as u128 + g) / (2 * g);
        proof {
            vstd::arithmetic::power2::lemma2_to64();
            lemma_pow2_adds(s as nat, e as nat);
            let t = 2 * m + g;
            let d = 2 * g;
            assert(q == t / d);
            assert(2 * (m * p) + g * p == t * p) by (nonlinear_arith)
                requires
                    t == 2 * m + g,
            ;
            assert(2 * (g * p) == d * p) by (nonlinear_arith)
                requires
                    d == 2 * g,
            ;
            lemma_div_denominator(t * p, p, d);
            assert((t * p) / p == t) by (nonlinear_arith)
                requires
                    p > 0,
            ;
            assert(p * d == d * p) by (nonlinear_arith);
            assert((2 * self.mag() + one) / (2 * one) == q);
            assert(q <= 0x100_0000) by (nonlinear_arith)
                requires
                    q == t / d,
                    t == 2 * m + g,
                    d == 2 * g,
                    g >= 1,
                    m < 0x100_0000,
            ;
            lemma_small_int(q as int);
            lemma_small_int(-(q as int));
        }
        if self.bits >= SIGN {
            proof {
                assert((-(q as int)) * one == -(q * one)) by (nonlinear_arith);
                if self.mag() == 0 {
                    assert(q == 0) by {
                        lemma_fundamental_div_mod_converse(one, 2 * one, 0, one);
                    }
                }
            }
            Single::of_int(-(q as i64))
        } else {
            Single::of_int(q as i64)
        }
    }

    /// The whole part of the value, in ones.
    pub open spec fn whole(v: int) -> int {
        let n = (magnitude(v) / pow2(ONE_EXP as nat)) as int;
        if v < 0 {
            -n
        } else {
            n
        }
    }

    /// The whole part as a 32-bit integer; numbers out of its range stop at its ends.
    pub fn to_i32(self) -> (r: i32)
        ensures
            r == (if Single::whole(self.val()) > i32::MAX {
                i32::MAX as int
            } else if Single::whole(self.val()) < i32::MIN {
                i32::MIN as int
            } else {
                Single::whole(self.val())
            }),
    {
        let (m, e): (u32, u32) = self.parts();
        let ghost one = pow2(149) as int;
        let ghost p = pow2(e as nat) as int;
        proof {
            lemma_pow2_pos(149);
            lemma_pow2_pos(e as nat);
            vstd::arithmetic::power2::lemma2_to64();
        }
        let n: u128 = if e >= 149 {
            proof {
                lemma_pow2_adds((e - 149) as nat, 149);
                let w = pow2((e - 149) as nat) as int;
                lemma_pow2_pos((e - 149) as nat);
                let k = m * w;
                assert(m * (w * one) == k * one) by (nonlinear_arith)
                    requires
                        k == m * w,
                ;
                assert(self.mag() as int / one == k) by (nonlinear_arith)
                    requires
                        self.mag() == k * one,
                        one > 0,
                ;
                if e - 149 > 8 {
                    if e - 149 > 9 {
                        lemma_pow2_strictly_increases(9, (e - 149) as nat);
                    }
                    assert(k >= 0x1_0000_0000) by (nonlinear_arith)
                        requires
                            k == m * w,
                            m >= 0x80_0000,
                            w >= 512,
                    ;
                }
            }
            if e - 149 > 8 {
                0x1_0000_0000
            } else {
                scaled_up(m, e - 149)
            }
        } else if 149 - e > 24 {
            proof {
                lemma_pow2_adds(24, e as nat);
                lemma_pow2_strictly_increases((24 + e) as nat, 149);
                assert(m * p < 0x100_0000 * p) by (nonlinear_arith)
                    requires
                        m < 0x100_0000,
                        p > 0,
                ;
                lemma_fundamental_div_mod_converse(
                    self.mag() as int,
                    one,
                    0,
                    self.mag() as int,
                );
            }
            0
        } else {
            let g: u128 = scaled_up(1, 149 - e);
            proof {
                let s = (149 - e) as nat;
                assert(1 * pow2(s) == pow2(s));
                lemma_pow2_adds(s, e as nat);
                lemma_pow2_pos(s);
                lemma_div_denominator(m * p, p, g as int);
                assert((m * p) / p == m) by (nonlinear_arith)
                    requires
                        p > 0,
                ;
                assert(p * g == g * p) by (nonlinear_arith);
            }
            m as u128 / g
        };
        proof {
            let k = self.mag() as int / one;
            assert(n == k || (n == 0x1_0000_0000 && k >= 0x1_0000_0000));
        }
        if self.bits >= SIGN {
            if n > 0x8000_0000 {
                i32::MIN
            } else {
                (-(n as i64)) as i32
            }
        } else if n > 0x7fff_ffff {
            i32::MAX
        } else {
            n as i32
        }
    }
}

/// Whole numbers of up to 24 bits convert without loss.
pub proof fn lemma_small_int(n: int)
    requires
        -0x100_0000 <= n <= 0x100_0000,
    ensures
        rounded(n * pow2(149), 1) == n * pow2(149),
{
    let p = pow2(149) as int;
    lemma_pow2_pos(149);
    let k = magnitude(n);
    assert(magnitude(n * p) == k * p) by (nonlinear_arith)
        requires
            k == magnitude(n),
            p > 0,
    ;
    lemma_representable(k, 149);
    lemma_nearest_exact(k * pow2(149));
}

/// A representable value survives being written as a pattern.
pub proof fn lemma_encode_val(v: int)
    requires
        representable(magnitude(v)),
        magnitude(v) < pow2(278),
    ensures
        Single::encode(v).val() == v,
{
    let n = magnitude(v);
    let e = last_place(n);
    let m = n / pow2(e);
    lemma_pow2_pos(e);
    lemma_last_place_bounds(n);
    lemma_fundamental_div_mod(n as int, pow2(e) as int);
    assert(n == m * pow2(e)) by (nonlinear_arith)
        requires
            n == pow2(e) * m + n % pow2(e),
            n % pow2(e) == 0,
    ;
    lemma_fields(m, e);
    let b = e * HIDDEN + m;
    if v < 0 {
        assert((b + SIGN) as u32 % SIGN == b);
        if b > 0 {
            lemma_positive(b as u32);
        } else {
            assert((Single { bits: 0 }).mag() == 0);
        }
    }
}

/// Rounding yields something representable.
pub proof fn lemma_nearest_representable(num: nat, den: nat)
    requires
        den > 0,
    ensures
        representable(nearest(num, den)),
{
    let e = last_place(num / den);
    let u = pow2(e) as int;
    lemma_pow2_pos(e);
    lemma_last_place_bounds(num / den);
    lemma_div_denominator(num as int, den as int, u);
    let m = num / (den * pow2(e));
    lemma_representable(m, e);
    lemma_representable(m + 1, e);
}

/// The value of a correctly rounded quotient.
pub proof fn lemma_round_ratio(num: int, den: nat)
    requires
        den > 0,
        Single::in_range(num, den),
    ensures
        Single::round_ratio(num, den).val() == rounded(num, den),
{
    lemma_nearest_representable(magnitude(num), den);
    lemma_encode_val(rounded(num, den));
}

impl Single {
    /// The magnitude is at most `2^k`.
    pub open spec fn within(self, k: nat) -> bool {
        self.mag() <= pow2(ONE_EXP as nat + k)
    }
}

/// A quotient of integers that is at most `2^k` rounds to at most `2^k`.
pub proof fn lemma_ratio_within(num: int, den: nat, k: nat)
    requires
        den > 0,
        k <= 128,
        magnitude(num) <= den * pow2(149 + k),
    ensures
        Single::in_range(num, den),
        Single::round_ratio(num, den).within(k),
        Single::round_ratio(num, den).val() == rounded(num, den),
{
    lemma_nearest_le_pow2(magnitude(num), den, 149 + k);
    lemma_pow2_strictly_increases(149 + k, 278);
    lemma_round_ratio(num, den);
}

pub proof fn lemma_of_int_within(n: int, k: nat)
    requires
        magnitude(n) <= pow2(k),
        k <= 64,
    ensures
        Single::spec_of_int(n).within(k),
        Single::spec_of_int(n).val() == rounded(n * pow2(149), 1),
        n >= 1 ==> Single::spec_of_int(n).val() >= pow2(149),
{
    let p = pow2(149) as int;
    lemma_pow2_pos(149);
    lemma_pow2_adds(149, k);
    assert(magnitude(n * p) <= 1 * (p * pow2(k))) by (nonlinear_arith)
        requires
            magnitude(n) <= pow2(k),
            p > 0,
    ;
    lemma_ratio_within(n * p, 1, k);
    if n >= 1 {
        lemma_representable(1, 149);
        assert(1 * pow2(149) == pow2(149));
        assert(n * p >= p) by (nonlinear_arith)
            requires
                n >= 1,
                p > 0,
        ;
        lemma_rounded_order(n * p, p);
    }
}

pub proof fn lemma_sum_within(a: int, b: int, k: nat)
    requires
        magnitude(a) <= pow2(149 + k),
        magnitude(b) <= pow2(149 + k),
        k <= 100,
    ensures
        Single::in_range(a + b, 1),
        Single::in_range(a - b, 1),
        Single::round_ratio(a + b, 1).within(k + 1),
        Single::round_ratio(a - b, 1).within(k + 1),
        Single::round_ratio(a + b, 1).val() == rounded(a + b, 1),
        Single::round_ratio(a - b, 1).val() == rounded(a - b, 1),
{
    lemma_pow2_unfold(149 + k + 1);
    lemma_ratio_within(a + b, 1, k + 1);
    lemma_ratio_within(a - b, 1, k + 1);
}

pub proof fn lemma_product_within(a: Single, b: Single, j: nat, k: nat)
    requires
        a.within(j),
        b.within(k),
        j + k <= 128,
    ensures
        Single::in_range(a.val() * b.val(), pow2(149)),
        a.spec_mul(b).within(j + k),
        a.spec_mul(b).val() == rounded(a.val() * b.val(), pow2(149)),
{
    lemma_pow2_pos(149);
    lemma_pow2_adds(149 + j, 149 + k);
    lemma_pow2_adds(149, 149 + j + k);
    let v = a.val() * b.val();
    assert(magnitude(v) <= pow2(149 + j) * pow2(149 + k)) by (nonlinear_arith)
        requires
            v == a.val() * b.val(),
            magnitude(a.val()) <= pow2(149 + j),
            magnitude(b.val()) <= pow2(149 + k),
    {
        let x = magnitude(a.val()) as int;
        let y = magnitude(b.val()) as int;
        assert(v == x * y || v == -(x * y));
        assert(x * y >= 0);
        assert(x * y <= pow2(149 + j) * y);
        assert(pow2(149 + j) * y <= pow2(149 + j) * pow2(149 + k));
    }
    lemma_ratio_within(v, pow2(149), j + k);
}

pub proof fn lemma_quotient_within(a: Single, b: Single, k: nat)
    requires
        a.within(k),
        b.val() >= pow2(149),
        k <= 100,
    ensures
        Single::in_range(a.dividend(b), b.mag()),
        a.spec_div(b).within(k),
        a.spec_div(b).val() == rounded(a.dividend(b), b.mag()),
{
    lemma_pow2_pos(149);
    let p = pow2(149) as int;
    let d = b.mag() as int;
    assert(magnitude(a.dividend(b)) <= d * pow2(149 + k)) by (nonlinear_arith)
        requires
            a.dividend(b) == a.val() * p || a.dividend(b) == -(a.val() * p),
            magnitude(a.val()) <= pow2(149 + k),
            d >= p,
            p > 0,
    {
        let x = magnitude(a.val()) as int;
        assert(magnitude(a.dividend(b)) == x * p);
        assert(x * p <= pow2(149 + k) * p);
        assert(pow2(149 + k) * p <= pow2(149 + k) * d);
    }
    lemma_ratio_within(a.dividend(b), b.mag(), k);
}

/// Rounding to a whole number at most doubles a number of one or more, and takes
/// a smaller one to at most one.
pub proof fn lemma_half_away_within(v: int, k: nat)
    requires
        magnitude(v) <= pow2(149 + k),
    ensures
        magnitude(Single::half_away(v)) <= pow2(149 + k + 1),
{
    let one = pow2(149) as int;
    lemma_pow2_pos(149);
    lemma_pow2_unfold(149 + k + 1);
    if k > 0 {
        lemma_pow2_strictly_increases(149, 149 + k);
    }
    let n = (2 * magnitude(v) + one) / (2 * one);
    lemma_fundamental_div_mod(2 * magnitude(v) + one, 2 * one);
    assert(n >= 0 && n * one <= magnitude(v) + one) by (nonlinear_arith)
        requires
            2 * magnitude(v) + one == (2 * one) * n + (2 * magnitude(v) + one) % (2 * one),
            0 <= (2 * magnitude(v) + one) % (2 * one) < 2 * one,
            one > 0,
    ;
    assert(n * one >= 0) by (nonlinear_arith)
        requires
            n >= 0,
            one > 0,
    ;
}

impl Single {
    /// The single nearest to the fraction `n / d`.
    pub open spec fn fraction(n: int, d: nat) -> Single {
        Single::round_ratio(n * pow2(ONE_EXP as nat), d)
    }
}

/// Long division settles a fraction: `m` is its 24-bit significand when the last
/// place is worth `2^k` units, and `rem` is what the division leaves.
pub proof fn lemma_fraction(n: nat, d: nat, m: nat, k: nat, rem: nat)
    requires
        d > 0,
        k <= 149,
        n * pow2((149 - k) as nat) == d * m + rem,
        rem < d,
        0x80_0000 <= m < 0xff_ffff,
    ensures
        2 * rem < d ==> Single::fraction(n as int, d) == (Single {
            bits: (k * HIDDEN + m) as u32,
        }),
        2 * rem > d ==> Single::fraction(n as int, d) == (Single {
            bits: (k * HIDDEN + m + 1) as u32,
        }),
{
    let p = pow2(k) as int;
    let t = pow2((149 - k) as nat) as int;
    lemma_pow2_pos(k);
    lemma_pow2_adds((149 - k) as nat, k);
    let num = n * pow2(149);
    let du = d * p;
    let r = rem * p;
    assert(num == m * du + r) by (nonlinear_arith)
        requires
            num == n * (t * p),
            n * t == d * m + rem,
            du == d * p,
            r == rem * p,
    ;
    assert(0 <= r < du && (2 * r < du <==> 2 * rem < d) && (2 * r > du <==> 2 * rem > d))
        by (nonlinear_arith)
        requires
            du == d * p,
            r == rem * p,
            0 <= rem < d,
            p > 0,
    ;
    lemma_fundamental_div_mod_converse(num as int, du, m as int, r);
    lemma_div_denominator(num as int, d as int, p);
    lemma_last_place(num / d, k);
    lemma_pow2_adds(24, k);
    vstd::arithmetic::power2::lemma2_to64();
    lemma_pow2_strictly_increases(24 + k, 278);
    assert(m * p < pow2(278) && (m + 1) * p < pow2(278)) by (nonlinear_arith)
        requires
            m < 0xff_ffff,
            p > 0,
            0x100_0000 * p < pow2(278),
    ;
    lemma_fields(m, k);
    lemma_fields(m + 1, k);
}

/// Less than half a last place added to a representable magnitude is rounded off.
pub proof fn lemma_nearest_absorbs(b: nat, r: nat)
    requires
        representable(b),
        2 * r < pow2(last_place(b)),
    ensures
        nearest(b + r, 1) == b,
{
    let e = last_place(b);
    let u = pow2(e) as int;
    lemma_pow2_pos(e);
    lemma_last_place_bounds(b);
    lemma_fundamental_div_mod(b as int, u);
    let c = b as int / u;
    assert(b + r == c * u + r) by (nonlinear_arith)
        requires
            b == u * c,
    ;
    lemma_fundamental_div_mod_converse((b + r) as int, u, c, r as int);
    lemma_last_place(b + r, e);
    assert((b + r) / 1 == b + r);
    assert(1 * u == u);
    assert(c * u == u * c) by (nonlinear_arith);
}

/// Finite patterns are those of the values below `2^128`.
pub proof fn lemma_finite(s: Single)
    ensures
        s.finite() <==> s.mag() < pow2(277),
        s.spec_is_nan() <==> s.mag() > pow2(277),
        (Single { bits: INFINITE }).val() == pow2(277),
        (Single { bits: (SIGN + INFINITE) as u32 }).val() == -pow2(277),
{
    let b: u32 = s.bits % SIGN;
    let inf = Single { bits: INFINITE };
    vstd::arithmetic::power2::lemma2_to64();
    lemma_pow2_adds(23, 254);
    assert(b % SIGN == b);
    assert(s.mag() == (Single { bits: b }).mag());
    assert(INFINITE as nat / HIDDEN as nat == 255 && INFINITE as nat % HIDDEN as nat == 0);
    assert(INFINITE % SIGN == INFINITE);
    assert(inf.mag() == HIDDEN as nat * pow2(254));
    assert((SIGN + INFINITE) as u32 % SIGN == INFINITE);
    if b < INFINITE {
        lemma_mag_order(b, INFINITE);
    } else if b > INFINITE {
        lemma_mag_order(INFINITE, b);
    }
}

/// A finite sum of strikes stays finite: where a strike would carry it too far, it
/// is less than half a last place and is rounded off.
pub proof fn lemma_strikes_saturate(v: int, a: int)
    requires
        representable(magnitude(v)),
        0 <= v < pow2(277),
        0 <= a <= pow2(155),
    ensures
        Single::in_range(v + a, 1),
        v <= rounded(v + a, 1) < pow2(277),
{
    vstd::arithmetic::power2::lemma2_to64();
    lemma_rounded_order(v + a, v);
    lemma_pow2_strictly_increases(277, 278);
    if v <= pow2(200) {
        lemma_pow2_strictly_increases(155, 200);
        lemma_pow2_unfold(201);
        lemma_pow2_strictly_increases(201, 277);
        assert(1 * pow2(201) == pow2(201));
        lemma_nearest_le_pow2((v + a) as nat, 1, 201);
    } else {
        let e = last_place(v as nat);
        let u = pow2(e) as int;
        lemma_pow2_pos(e);
        lemma_last_place_bounds(v as nat);
        lemma_fundamental_div_mod(v, u);
        if e <= 176 {
            let c = v / u;
            lemma_pow2_adds(24, e);
            if e < 176 {
                lemma_pow2_strictly_increases(24 + e, 200);
            }
            assert(v < u * 0x100_0000) by (nonlinear_arith)
                requires
                    v == u * c + v % u,
                    0 <= v % u < u,
                    c < 0x100_0000,
                    u > 0,
            ;
        }
        lemma_pow2_unfold(156);
        lemma_pow2_strictly_increases(156, e);
        lemma_nearest_absorbs(v as nat, a as nat);
    }
}

/// The difference of two finite numbers is at most twice the largest one.
proof fn lemma_difference_in_range(a: Single, b: Single)
    requires
        a.finite(),
        b.finite(),
    ensures
        Single::in_range(a.val() - b.val(), 1),
{
    let top = 0xff_ffff * pow2(253);
    lemma_finite(a);
    lemma_finite(b);
    lemma_largest(a);
    lemma_largest(b);
    lemma_pow2_unfold(254);
    lemma_representable(0xff_ffff, 254);
    vstd::arithmetic::power2::lemma2_to64();
    lemma_pow2_adds(24, 254);
    lemma_pow2_pos(254);
    assert(2 * top == 0xff_ffff * pow2(254)) by (nonlinear_arith)
        requires
            top == 0xff_ffff * pow2(253),
            pow2(254) == 2 * pow2(253),
    ;
    lemma_nearest_order(magnitude(a.val() - b.val()), 2 * top);
}

/// No finite number is beyond the one with all digits set.
proof fn lemma_largest(a: Single)
    requires
        a.finite(),
    ensures
        a.mag() <= 0xff_ffff * pow2(253),
{
    let b: u32 = a.bits % SIGN;
    let top = Single { bits: 0x7f7f_ffff };
    assert(b % SIGN == b);
    assert(a.mag() == (Single { bits: b }).mag());
    assert(0x7f7f_ffffu32 % SIGN == 0x7f7f_ffff);
    assert(0x7f7f_ffff as nat / HIDDEN as nat == 254 && 0x7f7f_ffff as nat % HIDDEN as nat == 0x7f_ffff);
    assert(top.mag() == 0xff_ffff * pow2(253));
    if b < 0x7f7f_ffff {
        lemma_mag_order(b, 0x7f7f_ffff);
    }
}

impl Single {
    /// The difference to a finite number: what is infinite or not a number stays as
    /// it is, and what is too large for the exponent is infinite.
    pub open spec fn spec_minus(self, o: Single) -> Single {
        let r = self.spec_sub(o);
        if !self.finite() {
            self
        } else if r.finite() {
            r
        } else if r.bits >= SIGN {
            Single { bits: (SIGN + INFINITE) as u32 }
        } else {
            Single { bits: INFINITE }
        }
    }

    /// The difference to a finite number, correctly rounded, whatever `self` is.
    pub fn minus(self, o: Single) -> (r: Single)
        requires
            o.finite(),
        ensures
            r == self.spec_minus(o),
    {
        if self.bits % SIGN >= INFINITE {
            return self;
        }
        proof {
            lemma_difference_in_range(self, o);
        }
        let r: Single = self.sub(o);
        if r.bits % SIGN < INFINITE {
            r
        } else if r.bits >= SIGN {
            Single { bits: SIGN + INFINITE }
        } else {
            Single { bits: INFINITE }
        }
    }
}

/// Taking something away never makes a number larger, and a number stays one.
pub proof fn lemma_minus(a: Single, b: Single)
    requires
        b.finite(),
        b.val() >= 0,
    ensures
        a.spec_minus(b).val() <= a.val(),
        a.spec_is_nan() ==> a.spec_minus(b) == a,
        a.spec_minus(b).spec_is_nan() <==> a.spec_is_nan(),
{
    if a.finite() {
        let r = a.spec_sub(b);
        lemma_difference_in_range(a, b);
        lemma_val_representable(a);
        lemma_round_ratio(a.val() - b.val(), 1);
        lemma_rounded_order(a.val() - b.val(), a.val());
        lemma_finite(a);
        lemma_finite(r);
        lemma_finite(a.spec_minus(b));
        assert(r.val() <= a.val());
    }
}

/// Rounding a quotient never carries it past a representable number.
pub proof fn lemma_ratio_le(num: nat, den: nat, b: nat)
    requires
        den > 0,
        representable(b),
        num <= b * den,
    ensures
        nearest(num, den) <= b,
{
    let q = num / den;
    let en = last_place(q);
    let eb = last_place(b);
    assert(q <= b) by (nonlinear_arith)
        requires
            q == num / den,
            num <= b * den,
            den > 0,
    ;
    lemma_last_place_monotone(q, b);
    lemma_pow2_adds(en, (eb - en) as nat);
    lemma_pow2_pos(eb);
    lemma_pow2_pos((eb - en) as nat);
    lemma_fundamental_div_mod(b as int, pow2(eb) as int);
    let c = b as int / pow2(eb) as int;
    let w = pow2((eb - en) as nat) as int;
    let un = pow2(en) as int;
    let k = w * c;
    assert(k >= 0) by (nonlinear_arith)
        requires
            k == w * c,
            w > 0,
            c >= 0,
    ;
    assert(b == k * un) by (nonlinear_arith)
        requires
            b == (un * w) * c,
            k == w * c,
    ;
    assert(den * (k * un) == b * den) by (nonlinear_arith)
        requires
            b == k * un,
    ;
    lemma_nearest_le(num, den, k as nat);
}

/// A multiplier of at most one never enlarges; one of at most three quarters makes
/// everything but the tiniest numbers smaller.
pub proof fn lemma_scaled_down(d: Single, m: Single)
    requires
        0 <= d.val(),
        0 <= m.val() <= pow2(149),
        d.within(128),
    ensures
        0 <= d.spec_mul(m).val() <= d.val(),
        4 * m.val() <= 3 * pow2(149) && d.val() >= pow2(24) ==> d.spec_mul(m).val() < d.val(),
{
    let v = d.val();
    let p = pow2(149) as int;
    lemma_pow2_pos(149);
    assert(m.within(0));
    lemma_product_within(d, m, 128, 0);
    lemma_val_representable(d);
    assert(0 <= v * m.val() <= v * p) by (nonlinear_arith)
        requires
            0 <= v,
            0 <= m.val() <= p,
    ;
    lemma_ratio_le((v * m.val()) as nat, pow2(149), v as nat);
    if 4 * m.val() <= 3 * p && v >= pow2(24) {
        vstd::arithmetic::power2::lemma2_to64();
        let e = last_place(v as nat);
        let u = pow2(e) as int;
        lemma_pow2_pos(e);
        lemma_last_place_bounds(v as nat);
        lemma_fundamental_div_mod(v, u);
        let c = v / u;
        if e == 0 {
            assert(v / 1 == v);
        }
        assert(c >= 0x80_0000);
        lemma_representable((c - 1) as nat, e);
        let b = (c - 1) * u;
        assert(v * m.val() <= b * p) by (nonlinear_arith)
            requires
                v == u * c,
                b == (c - 1) * u,
                c >= 4,
                4 * m.val() <= 3 * p,
                u > 0,
                p > 0,
                m.val() >= 0,
        {
            assert(4 * (v * m.val()) <= v * (3 * p)) by (nonlinear_arith)
                requires
                    4 * m.val() <= 3 * p,
                    v >= 0,
            ;
            assert(3 * v <= 4 * b) by (nonlinear_arith)
                requires
                    v == u * c,
                    b == (c - 1) * u,
                    c >= 4,
                    u > 0,
            ;
            assert((3 * v) * p <= (4 * b) * p) by (nonlinear_arith)
                requires
                    3 * v <= 4 * b,
                    p > 0,
            ;
        }
        assert(b < v && b >= 0) by (nonlinear_arith)
            requires
                v == u * c,
                b == (c - 1) * u,
                c >= 4,
                u > 0,
        ;
        lemma_ratio_le((v * m.val()) as nat, pow2(149), b as nat);
    }
}

proof fn lemma_last_place_small(q: nat, k: nat)
    requires
        q < pow2(k),
        k >= 24,
    ensures
        last_place(q) <= k - 24,
    decreases k,
{
    if q >= 0x100_0000 {
        vstd::arithmetic::power2::lemma2_to64();
        if k > 24 {
            lemma_pow2_unfold(k);
            lemma_last_place_small(q / 2, (k - 1) as nat);
        }
    }
}

/// Rounding is off by half a last place at most.
pub proof fn lemma_round_error(num: int, den: nat, k: nat)
    requires
        den > 0,
        k >= 24,
        magnitude(num) < den * pow2(k),
    ensures
        2 * magnitude(rounded(num, den) * den - num) <= den * pow2((k - 24) as nat),
{
    let m = magnitude(num) as int;
    let q = magnitude(num) / den;
    assert(q < pow2(k)) by (nonlinear_arith)
        requires
            q == magnitude(num) / den,
            magnitude(num) < den * pow2(k),
            den > 0,
    ;
    lemma_last_place_small(q, k);
    let e = last_place(q);
    let u = pow2(e) as int;
    let top = pow2((k - 24) as nat) as int;
    lemma_pow2_pos(e);
    if e < k - 24 {
        lemma_pow2_strictly_increases(e, (k - 24) as nat);
    }
    let d = den * u;
    assert(d > 0 && d <= den * top) by (nonlinear_arith)
        requires
            d == den * u,
            den > 0,
            0 < u <= top,
    ;
    lemma_fundamental_div_mod(m, d);
    let c = m / d;
    let rem = m % d;
    let r = nearest(magnitude(num), den) as int;
    assert(r * den == c * d || r * den == (c + 1) * d) by (nonlinear_arith)
        requires
            r == c * u || r == (c + 1) * u,
            d == den * u,
    ;
    assert(2 * magnitude(r * den - m) <= d) by {
        assert((c + 1) * d == c * d + d && d * c == c * d) by (nonlinear_arith);
        if 2 * rem > d || (2 * rem == d && c % 2 == 1) {
            assert(r == (c + 1) * u);
            assert(r * den == (c + 1) * d) by (nonlinear_arith)
                requires
                    r == (c + 1) * u,
                    d == den * u,
            ;
        } else {
            assert(r == c * u);
            assert(r * den == c * d) by (nonlinear_arith)
                requires
                    r == c * u,
                    d == den * u,
            ;
        }
    }
    if num < 0 {
        assert((-r) * den - num == -(r * den - m)) by (nonlinear_arith)
            requires
                m == -num,
        ;
    }
}

/// Rounding goes to the nearest multiple of the last place, and halfway to the even one.
pub proof fn law_rounding_is_nearest(num: nat, den: nat)
    requires
        den > 0,
    ensures
        ({
            let step = den * pow2(last_place(num / den));
            exists|m: nat|
                {
                    &&& nearest(num, den) == #[trigger] (m * pow2(last_place(num / den)))
                    &&& 2 * (m * step) <= 2 * num + step
                    &&& 2 * num <= 2 * (m * step) + step
                    &&& (2 * (m * step) == 2 * num + step || 2 * num == 2 * (m * step) + step) ==> m
                        % 2 == 0
                }
        }),
{
    let u = pow2(last_place(num / den));
    let step = den * u;
    lemma_pow2_pos(last_place(num / den));
    assert(step > 0) by (nonlinear_arith)
        requires
            step == den * u,
            den > 0,
            u > 0,
    ;
    let q = num / step;
    let rem = num % step;
    lemma_fundamental_div_mod(num as int, step as int);
    assert(step * q == q * step && (q + 1) * step == q * step + step) by (nonlinear_arith);
    if 2 * rem > step || (2 * rem == step && q % 2 == 1) {
        assert(nearest(num, den) == (q + 1) * u);
    } else {
        assert(nearest(num, den) == q * u);
    }
}

/// Rounding to whole numbers goes to the nearest one, and halfway away from zero.
pub proof fn law_whole_numbers_are_nearest(v: int)
    ensures
        ({
            let one = pow2(149) as int;
            let h = Single::half_away(v);
            &&& exists|k: int| h == #[trigger] (k * one)
            &&& v >= 0 ==> 2 * (h - v) <= one && 2 * (v - h) < one && h >= 0
            &&& v < 0 ==> 2 * (v - h) <= one && 2 * (h - v) < one && h <= 0
        }),
{
    let one = pow2(149) as int;
    lemma_pow2_pos(149);
    let top = 2 * magnitude(v) + one;
    lemma_fundamental_div_mod(top, 2 * one);
    let k = top / (2 * one);
    assert((2 * one) * k == 2 * (k * one)) by (nonlinear_arith);
    assert((-k) * one == -(k * one)) by (nonlinear_arith);
    assert(k >= 0 && k * one >= 0) by (nonlinear_arith)
        requires
            top == (2 * one) * k + top % (2 * one),
            0 <= top % (2 * one) < 2 * one,
            top >= 0,
            one > 0,
    ;
}

/// A difference of finite numbers is rounded correctly wherever it is not too large to
/// be finite, and is infinite, with its sign, where it is.
pub proof fn law_differences(a: Single, b: Single)
    requires
        a.finite(),
        b.finite(),
    ensures
        ({
            let r = rounded(a.val() - b.val(), 1);
            &&& magnitude(r) < pow2(277) ==> a.spec_minus(b).val() == r
            &&& r >= pow2(277) ==> a.spec_minus(b).val() == pow2(277)
            &&& r <= -pow2(277) ==> a.spec_minus(b).val() == -pow2(277)
        }),
{
    lemma_difference_in_range(a, b);
    lemma_round_ratio(a.val() - b.val(), 1);
    lemma_finite(a.spec_sub(b));
}

} // verus!
