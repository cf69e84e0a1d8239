//! The integer arithmetic against the machine's own single precision.

use sim_core::single::Single;

fn s(x: f32) -> Single {
    Single { bits: x.to_bits() }
}

fn f(x: Single) -> f32 {
    f32::from_bits(x.bits)
}

/// A fixed pseudo-random stream of finite patterns of moderate exponent.
fn samples() -> Vec<f32> {
    let mut state: u32 = 0x1234_5678;
    let mut out = vec![
        0.0, 1.0, -1.0, 0.5, -0.5, 1.5, 2.5, -2.5, 0.7, 0.6, 0.1, 14.0, 100.0, 16777215.0,
        16777216.0, -16777216.0, 8388607.5, 1.0e-40, -3.0e-42, 1.0e30, 0.33333334, 2147483648.0,
    ];
    for _ in 0..200 {
        state ^= state << 13;
        state ^= state >> 17;
        state ^= state << 5;
        let e = 90 + (state >> 8) % 70;
        out.push(f32::from_bits((state & 0x807f_ffff) | (e << 23)));
    }
    out
}

#[test]
fn arithmetic_agrees_with_the_machine() {
    let v = samples();
    for a in &v {
        for b in &v {
            assert_eq!(f(s(*a).add(s(*b))), a + b, "{a} + {b}");
            assert_eq!(f(s(*a).sub(s(*b))), a - b, "{a} - {b}");
            if (a * b).is_finite() {
                assert_eq!(f(s(*a).mul(s(*b))), a * b, "{a} * {b}");
            }
            if *b != 0.0 && (a / b).is_finite() {
                assert_eq!(f(s(*a).div(s(*b))), a / b, "{a} / {b}");
            }
            assert_eq!(s(*a).lt(s(*b)), a < b, "{a} < {b}");
        }
    }
}

#[test]
fn conversions_agree_with_the_machine() {
    for a in samples() {
        assert_eq!(f(s(a).round()), a.round(), "round {a}");
        assert_eq!(s(a).to_i32(), a as i32, "to_i32 {a}");
        assert_eq!(f(s(a).abs()), a.abs(), "abs {a}");
        assert_eq!(f(s(a).neg()), -a, "neg {a}");
    }
    for n in [0i64, 1, -1, 7, 16777217, 16777219, -16777217, i64::MAX, i64::MIN, 4294967295] {
        assert_eq!(f(Single::of_int(n)), n as f32, "of_int {n}");
    }
}
