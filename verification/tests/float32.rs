//! Arithmetic on bit patterns against the arithmetic of the machine.

use art_junk::float32::Float32;

fn f(x: f32) -> Float32 {
    Float32::from_bits(x.to_bits())
}

fn v(x: Float32) -> f32 {
    f32::from_bits(x.to_bits())
}

/// Patterns that matter on their own.
fn special() -> Vec<f32> {
    vec![
        0.0,
        -0.0,
        1.0,
        -1.0,
        2.0,
        0.5,
        0.1,
        3.0,
        f32::MIN_POSITIVE,
        f32::from_bits(1),
        f32::from_bits(0x007f_ffff),
        f32::MAX,
        f32::MIN,
        f32::INFINITY,
        f32::NEG_INFINITY,
        f32::NAN,
        f32::EPSILON,
        16_777_216.0,
        16_777_217.0,
        1e-40,
        -1e-40,
        1e38,
    ]
}

/// A long run of patterns without a pattern.
fn scattered(count: usize) -> Vec<u32> {
    let mut state: u64 = 0x9e37_79b9_7f4a_7c15;
    let mut out = Vec::new();
    for _ in 0..count {
        state = state.wrapping_mul(6_364_136_223_846_793_005).wrapping_add(1_442_695_040_888_963_407);
        out.push((state >> 32) as u32);
    }
    out
}

fn pairs() -> Vec<(f32, f32)> {
    let mut out = Vec::new();
    for a in special() {
        for b in special() {
            out.push((a, b));
        }
    }
    let bits = scattered(40_000);
    for w in bits.chunks(2) {
        out.push((f32::from_bits(w[0]), f32::from_bits(w[1])));
    }
    // Neighbouring magnitudes, where sums cancel and round.
    for w in scattered(20_000).chunks(2) {
        let b = (w[0] & 0x807f_ffff) | (0x3f80_0000 + ((w[1] % 60) << 23) - (30 << 23));
        out.push((f32::from_bits((w[1] & 0x807f_ffff) | 0x3f80_0000), f32::from_bits(b)));
    }
    out
}

fn same(actual: Float32, expected: f32) -> bool {
    if expected.is_nan() {
        v(actual).is_nan()
    } else {
        actual.to_bits() == expected.to_bits()
    }
}

#[test]
fn products_are_those_of_the_machine() {
    for (a, b) in pairs() {
        assert!(same(f(a).mul(f(b)), a * b), "{a} * {b}");
    }
}

#[test]
fn quotients_are_those_of_the_machine() {
    for (a, b) in pairs() {
        assert!(same(f(a).div(f(b)), a / b), "{a} / {b}");
    }
}

#[test]
fn sums_are_those_of_the_machine() {
    for (a, b) in pairs() {
        assert!(same(f(a).add(f(b)), a + b), "{a} + {b}");
    }
}

#[test]
fn differences_are_those_of_the_machine() {
    for (a, b) in pairs() {
        assert!(same(f(a).sub(f(b)), a - b), "{a} - {b}");
    }
}

#[test]
fn roots_are_those_of_the_machine() {
    for (a, b) in pairs() {
        assert!(same(f(a).sqrt(), a.sqrt()), "sqrt {a}");
        assert!(same(f(b).sqrt(), b.sqrt()), "sqrt {b}");
    }
}

#[test]
fn comparisons_are_those_of_the_machine() {
    for (a, b) in pairs() {
        assert_eq!(f(a).lt(f(b)), a < b, "{a} < {b}");
        assert_eq!(f(a).le(f(b)), a <= b, "{a} <= {b}");
        assert_eq!(f(a).equals(f(b)), a == b, "{a} == {b}");
        assert_eq!(f(a) == f(b), a == b, "{a} == {b}");
    }
}

#[test]
fn clamping_signs_and_maxima_are_those_of_the_machine() {
    for (a, b) in pairs() {
        assert!(same(f(a).clamp(f(-1.5), f(2.25)), a.clamp(-1.5, 2.25)), "clamp {a}");
        assert_eq!(f(a).abs().to_bits(), a.abs().to_bits());
        assert_eq!(f(a).neg().to_bits(), (-a).to_bits());
        assert_eq!(f(a).is_nan(), a.is_nan());
        let larger = v(f(a).max(f(b)));
        assert!(larger == a.max(b) || (larger.is_nan() && a.is_nan() && b.is_nan()));
    }
}

#[test]
fn whole_numbers_are_those_of_the_machine() {
    for n in [0_i64, 1, -1, 255, -72, 1_234_567, 16_777_217, -16_777_219, 0xffff_ffff_ffff] {
        assert_eq!(Float32::from_i64(n).to_bits(), (n as f32).to_bits(), "{n}");
    }
}

#[test]
fn a_ratio_of_at_most_one_does_not_raise_a_number() {
    for w in scattered(4_000).chunks(2) {
        let ratio = (w[0] as f32) / 4_294_967_296.0;
        let x = f32::from_bits(w[1] & 0x7f7f_ffff);
        let p = v(f(ratio).mul(f(x)));
        assert!(p >= 0.0 && p <= x);
    }
}

#[test]
fn bytes_are_those_of_the_machine() {
    for (a, b) in pairs() {
        assert_eq!(f(a).to_byte(), a as u8, "{a}");
        assert_eq!(f(b).to_byte(), b as u8, "{b}");
    }
    for n in 0..2_600 {
        let x = n as f32 / 10.0;
        assert_eq!(f(x).to_byte(), x as u8, "{x}");
        assert_eq!(f(-x).to_byte(), (-x) as u8, "{x}");
    }
}
