//! Arithmetic in double precision against the arithmetic of the machine.

use art_junk::float32::Float32;
use art_junk::float64::Float64;

fn d(x: f64) -> Float64 {
    Float64::from_bits(x.to_bits())
}

fn v(x: Float64) -> f64 {
    f64::from_bits(x.to_bits())
}

fn special() -> Vec<f64> {
    vec![
        0.0,
        -0.0,
        1.0,
        -1.0,
        2.0,
        0.1,
        f64::MIN_POSITIVE,
        f64::from_bits(1),
        f64::from_bits(0x000f_ffff_ffff_ffff),
        f64::MAX,
        f64::MIN,
        f64::INFINITY,
        f64::NEG_INFINITY,
        f64::NAN,
        f64::EPSILON,
        9_007_199_254_740_993.0,
        1e-310,
        1e308,
    ]
}

fn scattered(count: usize) -> Vec<u64> {
    let mut state: u64 = 0x2545_f491_4f6c_dd1d;
    let mut out = Vec::new();
    for _ in 0..count {
        state ^= state << 13;
        state ^= state >> 7;
        state ^= state << 17;
        out.push(state);
    }
    out
}

fn pairs() -> Vec<(f64, f64)> {
    let mut out = Vec::new();
    for a in special() {
        for b in special() {
            out.push((a, b));
        }
    }
    for w in scattered(20_000).chunks(2) {
        out.push((f64::from_bits(w[0]), f64::from_bits(w[1])));
    }
    for w in scattered(20_000).chunks(2) {
        let a = (w[0] & 0x800f_ffff_ffff_ffff) | 0x3ff0_0000_0000_0000;
        let b = (w[1] & 0x800f_ffff_ffff_ffff) | ((1023 - 60 + (w[0] >> 55) % 120) << 52);
        out.push((f64::from_bits(a), f64::from_bits(b)));
    }
    out
}

fn same(actual: Float64, expected: f64) -> bool {
    if expected.is_nan() {
        v(actual).is_nan()
    } else {
        actual.to_bits() == expected.to_bits()
    }
}

#[test]
fn double_arithmetic_is_that_of_the_machine() {
    for (a, b) in pairs() {
        assert!(same(d(a).mul(d(b)), a * b), "{a} * {b}");
        assert!(same(d(a).div(d(b)), a / b), "{a} / {b}");
        assert!(same(d(a).add(d(b)), a + b), "{a} + {b}");
        assert!(same(d(a).sub(d(b)), a - b), "{a} - {b}");
    }
}

#[test]
fn double_comparisons_are_those_of_the_machine() {
    for (a, b) in pairs() {
        assert_eq!(d(a).lt(d(b)), a < b, "{a} < {b}");
        assert_eq!(d(a).le(d(b)), a <= b, "{a} <= {b}");
        assert_eq!(d(a) == d(b), a == b, "{a} == {b}");
        assert!(same(d(a).clamp(d(-1.5), d(2.25)), a.clamp(-1.5, 2.25)), "clamp {a}");
        let smaller = v(d(a).min(d(b)));
        assert!(smaller == a.min(b) || (smaller.is_nan() && a.is_nan() && b.is_nan()));
        assert_eq!(d(a).neg().to_bits(), (-a).to_bits());
        assert_eq!(d(a).abs().to_bits(), a.abs().to_bits());
        assert_eq!(d(a).is_nan(), a.is_nan());
    }
}

#[test]
fn conversions_are_those_of_the_machine() {
    for n in [0_u64, 1, 2, 3, 1280, 16_777_217, 9_007_199_254_740_993, u64::MAX] {
        assert_eq!(v(Float64::from_u64(n)), n as f64);
    }
    for n in scattered(5_000) {
        assert_eq!(v(Float64::from_u64(n)), n as f64);
        assert_eq!(v(Float64::from_u64(n >> 9)), (n >> 9) as f64);
    }
    for w in scattered(5_000) {
        let x = f32::from_bits(w as u32);
        assert!(same(Float64::from_f32(Float32::from_bits(x.to_bits())), f64::from(x)), "{x}");
    }
    for x in [0.0_f32, -0.0, f32::MAX, f32::from_bits(1), f32::INFINITY, -f32::INFINITY] {
        assert!(same(Float64::from_f32(Float32::from_bits(x.to_bits())), f64::from(x)), "{x}");
    }
}

#[test]
fn double_roots_are_those_of_the_machine() {
    for (a, b) in pairs() {
        assert!(same(d(a).sqrt(), a.sqrt()), "sqrt {a}");
        assert!(same(d(b).sqrt(), b.sqrt()), "sqrt {b}");
    }
}

#[test]
fn double_maxima_are_those_of_the_machine() {
    for (a, b) in pairs() {
        let larger = v(d(a).max(d(b)));
        assert!(larger == a.max(b) || (larger.is_nan() && a.is_nan() && b.is_nan()));
    }
}

#[test]
fn counts_round_up_and_saturate() {
    for x in [0.25, 0.5, 1.0, 1.5, 7.0, 7.000_000_1, 63.999, 1e15, 1e18, 1e19, 1e25] {
        assert_eq!(d(x).to_count(), x.ceil() as usize, "{x}");
        assert_eq!(d(-x).to_count(), 0, "{x}");
    }
    for (a, b) in pairs() {
        assert_eq!(d(a).to_count(), a.ceil() as usize, "{a}");
        assert_eq!(d(b).to_count(), b.ceil() as usize, "{b}");
    }
}

#[test]
fn narrowing_is_that_of_the_machine() {
    let check = |x: f64| {
        let narrow = f32::from_bits(Float32::from_f64(d(x)).to_bits());
        let expected = x as f32;
        assert!(narrow.to_bits() == expected.to_bits() || (narrow.is_nan() && expected.is_nan()));
    };
    for (a, b) in pairs() {
        check(a);
        check(b);
    }
    for w in scattered(20_000) {
        // Exponents within and around the range of single precision.
        let e = 1023 - 160 + (w >> 52) % 300;
        check(f64::from_bits((w & 0x800f_ffff_ffff_ffff) | (e << 52)));
    }
}

#[test]
fn spans_are_rounded_to_nanoseconds() {
    use_duration(0.0);
    for x in [1e-9, 0.4e-9, 0.5e-9, 0.6e-9, 1.5e-9, 2.7, 0.999e-9, 1.0 / 3.0, 12345.678_901_234_5] {
        use_duration(x);
    }
    for n in scattered(20_000) {
        // Spans from below a nanosecond up to some centuries.
        let e = 1023 - 40 + (n >> 52) % 70;
        use_duration(f64::from_bits((n & 0x000f_ffff_ffff_ffff) | (e << 52)));
    }
    assert_eq!(d(-1.0).to_nanos(), 0);
    assert_eq!(d(f64::NAN).to_nanos(), 0);
    let longest = std::time::Duration::MAX.as_nanos();
    assert_eq!(d(1e300).to_nanos(), longest);
    assert_eq!(d(18_446_744_073_709_551_616.0).to_nanos(), longest);
    assert_eq!(d(f64::INFINITY).to_nanos(), longest);
    for x in [2e10, 9e15, 1e18, 18_446_744_073_709_549_568.0] {
        use_duration(x);
    }
    assert_eq!(d(f64::MIN_POSITIVE).to_nanos(), 0);
}

fn use_duration(secs: f64) {
    let expected = std::time::Duration::from_secs_f64(secs).as_nanos();
    assert_eq!(d(secs).to_nanos(), expected, "{secs}");
}
