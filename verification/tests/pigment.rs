//! Pigments and their spectra.

use art_junk::brush::LinearRgba;
use art_junk::float32::Float32;
use art_junk::pigment::{
    brush_uniforms, integrate_to_rgb, k_from_reflectance, pigment_canvas_reflectance,
    reflectance_from_ks, upsample_rgb, KubelkaMunk, MixOp, Pigment, BANDS,
};

fn f(x: f32) -> Float32 {
    Float32::from_bits(x.to_bits())
}

fn v(x: Float32) -> f32 {
    f32::from_bits(x.to_bits())
}

fn close(a: f32, b: f32, eps: f32) -> bool {
    (a - b).abs() <= eps
}

fn color(r: f32, g: f32, b: f32) -> LinearRgba {
    LinearRgba::new(f(r), f(g), f(b), f(1.0))
}

fn rgb_close(a: LinearRgba, b: LinearRgba, eps: f32) -> bool {
    close(v(a.r), v(b.r), eps) && close(v(a.g), v(b.g), eps) && close(v(a.b), v(b.b), eps)
}

fn upsample(r: f32, g: f32, b: f32) -> [f32; 7] {
    upsample_rgb(f(r), f(g), f(b)).map(v)
}

fn integrate(spectrum: [f32; 7]) -> (f32, f32, f32) {
    let (r, g, b) = integrate_to_rgb(&spectrum.map(f));
    (v(r), v(g), v(b))
}

#[test]
fn reflectance_one_gives_zero_absorption() {
    let k = v(k_from_reflectance(f(1.0)));
    assert!(k < 1e-5, "K at R=1 was {k}");
}

#[test]
fn reflectance_zero_clamps_to_finite_high_k() {
    let k = v(k_from_reflectance(f(0.0)));
    assert!(k > 100.0 && k < 1000.0, "K at R=0 was {k}");
}

#[test]
fn k_to_r_is_inverse_of_r_to_k_in_safe_range() {
    for r in [0.05_f32, 0.1, 0.25, 0.5, 0.75, 0.9, 0.95] {
        let k = k_from_reflectance(f(r));
        let back = v(reflectance_from_ks(k, f(1.0)));
        assert!(close(r, back, 1e-5), "round-trip {r} → {} → {back}", v(k));
    }
}

#[test]
fn zero_scattering_resolves_to_zero_reflectance() {
    assert_eq!(v(reflectance_from_ks(f(1.0), f(0.0))), 0.0);
}

#[test]
fn formulas_agree_with_hardware_arithmetic() {
    for i in 0..=200_u16 {
        let r = f32::from(i) / 200.0;
        let c = r.clamp(1e-3, 1.0 - 1e-6);
        let d = 1.0 - c;
        assert_eq!(v(k_from_reflectance(f(r))), (d * d) / (2.0 * c));
        let k = f32::from(i) * 0.37;
        let s = 0.25 + f32::from(i) * 0.01;
        let q = k / s;
        let inner = (q * q + 2.0 * q).max(0.0);
        let expected = (1.0 + q - inner.sqrt()).clamp(0.0, 1.0);
        assert_eq!(v(reflectance_from_ks(f(k), f(s))), expected);
    }
}

#[test]
fn white_roundtrips() {
    let p = Pigment::from_linear_rgb(LinearRgba::white());
    let back = p.to_linear_rgb();
    assert!(rgb_close(back, LinearRgba::white(), 1e-4), "got {back:?}");
}

#[test]
fn primaries_roundtrip_within_tolerance() {
    for (r, g, b) in [(0.05, 0.05, 0.8), (0.9, 0.85, 0.05), (0.5, 0.5, 0.5), (0.2, 0.7, 0.3)] {
        let c = color(r, g, b);
        let p = Pigment::from_linear_rgb(c);
        let back = p.to_linear_rgb();
        assert!(rgb_close(c, back, 1e-3), "round-trip drifted: {c:?} -> {back:?}");
    }
}

#[test]
fn mix_endpoints_are_exact() {
    let a = Pigment::from_linear_rgb(color(0.2, 0.5, 0.8));
    let b = Pigment::from_linear_rgb(color(0.7, 0.3, 0.1));
    assert_eq!(a.mix(b, f(0.0)), a);
    assert_eq!(a.mix(b, f(1.0)), b);
}

#[test]
fn mix_is_symmetric() {
    let a = Pigment::from_linear_rgb(color(0.2, 0.5, 0.8));
    let b = Pigment::from_linear_rgb(color(0.7, 0.3, 0.1));
    let m1 = a.mix(b, f(0.3));
    let m2 = b.mix(a, f(0.7));
    for i in 0..BANDS {
        assert!(close(v(m1.absorption_bands()[i]), v(m2.absorption_bands()[i]), 1e-5));
        assert!(close(v(m1.scattering_bands()[i]), v(m2.scattering_bands()[i]), 1e-5));
    }
}

#[test]
fn mix_differs_from_linear_lerp() {
    let blue = color(0.05, 0.05, 0.80);
    let yellow = color(0.90, 0.85, 0.05);
    let pigment_mix = Pigment::from_linear_rgb(blue)
        .mix(Pigment::from_linear_rgb(yellow), f(0.5))
        .to_linear_rgb();
    let lerp_mix = [
        0.5 * (v(blue.r) + v(yellow.r)),
        0.5 * (v(blue.g) + v(yellow.g)),
        0.5 * (v(blue.b) + v(yellow.b)),
    ];
    let dr = (v(pigment_mix.r) - lerp_mix[0]).abs();
    let dg = (v(pigment_mix.g) - lerp_mix[1]).abs();
    let db = (v(pigment_mix.b) - lerp_mix[2]).abs();
    let total = dr + dg + db;
    assert!(
        total > 0.05,
        "pigment mix {pigment_mix:?} is suspiciously close to linear lerp {lerp_mix:?}"
    );
}

#[test]
fn blue_plus_yellow_is_green() {
    let blue = color(0.05, 0.05, 0.80);
    let yellow = color(0.90, 0.85, 0.05);
    let mix = Pigment::from_linear_rgb(blue)
        .mix(Pigment::from_linear_rgb(yellow), f(0.5))
        .to_linear_rgb();
    let (_, a, b) = linear_rgb_to_oklab(v(mix.r), v(mix.g), v(mix.b));
    assert!(
        a < -0.03,
        "blue + yellow should land green-side in Oklab (negative a); got a={a}, b={b}, rgb={mix:?}"
    );
    assert!(v(mix.g) > v(mix.r), "expected G > R for green mix; got {mix:?}");
    assert!(v(mix.g) > v(mix.b), "expected G > B for green mix; got {mix:?}");
}

fn linear_rgb_to_oklab(r: f32, g: f32, b: f32) -> (f32, f32, f32) {
    let l = 0.412_221_47 * r + 0.536_332_55 * g + 0.051_445_995 * b;
    let m = 0.211_903_5 * r + 0.680_699_5 * g + 0.107_396_96 * b;
    let s = 0.088_302_46 * r + 0.281_718_85 * g + 0.629_978_7 * b;
    let l_ = l.cbrt();
    let m_ = m.cbrt();
    let s_ = s.cbrt();
    (
        0.210_454_26 * l_ + 0.793_617_8 * m_ - 0.004_072_047 * s_,
        1.977_998_5 * l_ - 2.428_592_2 * m_ + 0.450_593_7 * s_,
        0.025_904_037 * l_ + 0.782_771_77 * m_ - 0.808_675_77 * s_,
    )
}

#[test]
fn kubelka_munk_deposit_at_zero_coverage_keeps_canvas() {
    let canvas = Pigment::from_linear_rgb(color(0.2, 0.5, 0.8));
    let brush = Pigment::from_linear_rgb(color(0.7, 0.3, 0.1));
    assert_eq!(KubelkaMunk.deposit(canvas, brush, f(0.0)), canvas);
}

#[test]
fn kubelka_munk_deposit_at_full_coverage_replaces_with_brush() {
    let canvas = Pigment::from_linear_rgb(color(0.2, 0.5, 0.8));
    let brush = Pigment::from_linear_rgb(color(0.7, 0.3, 0.1));
    assert_eq!(KubelkaMunk.deposit(canvas, brush, f(1.0)), brush);
}

#[test]
fn primaries_roundtrip_exactly() {
    for (r, g, b) in [(1.0, 0.0, 0.0), (0.0, 1.0, 0.0), (0.0, 0.0, 1.0)] {
        let spec = upsample(r, g, b);
        let (r2, g2, b2) = integrate(spec);
        assert!(close(r, r2, 5e-4), "R: {r} -> {r2}");
        assert!(close(g, g2, 5e-4), "G: {g} -> {g2}");
        assert!(close(b, b2, 5e-4), "B: {b} -> {b2}");
    }
}

#[test]
fn achromatic_roundtrips() {
    for k in [0.0_f32, 0.25, 0.5, 0.75, 1.0] {
        let spec = upsample(k, k, k);
        for s in spec {
            assert!(close(s, k, 1e-6), "achromatic spec band drifted: {s} vs {k}");
        }
        let (r, g, b) = integrate(spec);
        assert!(close(r, k, 5e-4), "R drift at k={k}: {r}");
        assert!(close(g, k, 5e-4), "G drift at k={k}: {g}");
        assert!(close(b, k, 5e-4), "B drift at k={k}: {b}");
    }
}

#[test]
fn basis_spectra_overlap_in_green_band() {
    let spec_blue = upsample(0.0, 0.0, 1.0);
    assert!(spec_blue[2] > 0.10, "blue band-2 reflectance: {}", spec_blue[2]);
    let spec_yellow = upsample(1.0, 1.0, 0.0);
    assert!(spec_yellow[2] > 0.10, "yellow band-2 reflectance: {}", spec_yellow[2]);
}

#[test]
fn spectra_of_the_primaries_are_the_basis() {
    assert_eq!(upsample(1.0, 0.0, 0.0), [0.0, 0.0, 0.0, 0.05, 0.35, 0.95, 1.0]);
    assert_eq!(upsample(0.0, 1.0, 0.0), [0.0, 0.05, 0.65, 0.95, 0.65, 0.05, 0.0]);
    assert_eq!(upsample(0.0, 0.0, 1.0), [1.0, 0.95, 0.35, 0.0, 0.0, 0.0, 0.0]);
    assert_eq!(upsample(-3.0, 0.0, f32::NAN), [0.0; 7]);
}

#[test]
fn host_upsample_matches_aj_core_for_primaries() {
    for (r, g, b) in
        [(1.0, 0.0, 0.0), (0.0, 1.0, 0.0), (0.0, 0.0, 1.0), (0.5, 0.5, 0.5), (0.05, 0.05, 0.8)]
    {
        let p = Pigment::from_linear_rgb(color(r, g, b));
        let back = p.to_linear_rgb();
        assert!(
            (r - v(back.r)).abs() < 1e-2
                && (g - v(back.g)).abs() < 1e-2
                && (b - v(back.b)).abs() < 1e-2,
            "input ({r}, {g}, {b}) round-tripped to {back:?}",
        );
        let spec = upsample(r, g, b);
        for (i, &s) in spec.iter().enumerate() {
            assert!((0.0..=1.0).contains(&s), "spec[{i}] = {s} out of range");
        }
    }
}

#[test]
fn cpu_deposit_at_full_coverage_returns_brush() {
    let canvas = [1.0_f32; 7];
    let brush = upsample(0.05, 0.05, 0.8);
    let mut out = [0.0_f32; 7];
    for i in 0..7 {
        let canvas_k = v(k_from_reflectance(f(canvas[i])));
        let brush_k = v(k_from_reflectance(f(brush[i])));
        let mixed_k = canvas_k * 0.0 + brush_k * 1.0;
        out[i] = v(reflectance_from_ks(f(mixed_k), f(1.0)));
    }
    for i in 0..7 {
        assert!((out[i] - brush[i]).abs() < 5e-3, "band {i}: {} vs {}", out[i], brush[i]);
    }
}

#[test]
fn uniforms_carry_color_and_spectrum() {
    let c = LinearRgba::new(f(0.3), f(0.6), f(0.1), f(0.5));
    let u = brush_uniforms(c);
    assert_eq!(u.brush_lin.map(v), [0.3, 0.6, 0.1, 0.5]);
    assert_eq!(v(u.brush_alpha), 0.5);
    let p = Pigment::from_linear_rgb(color(0.3, 0.6, 0.1));
    let bands = pigment_canvas_reflectance(&p).map(v);
    assert_eq!(u.brush_lo.map(v), [bands[0], bands[1], bands[2], bands[3]]);
    assert_eq!(u.brush_hi.map(v), [bands[4], bands[5], bands[6], 0.0]);
}

#[test]
fn white_absorbs_nothing() {
    let w = Pigment::white();
    assert_eq!(w.absorption_bands().map(v), [0.0; 7]);
    assert_eq!(w.scattering_bands().map(v), [1.0; 7]);
    assert_eq!(v(w.to_linear_rgb().a), 1.0);
}

#[test]
fn every_color_comes_back() {
    let steps = [0.0, 0.001, 0.02, 0.25, 0.5, 0.7, 0.999, 1.0];
    for r in steps {
        for g in steps {
            for b in steps {
                let c = color(r, g, b);
                let back = Pigment::from_linear_rgb(c).to_linear_rgb();
                assert!(rgb_close(c, back, 0.005), "{c:?} came back as {back:?}");
            }
        }
    }
}

#[test]
fn halves_mix_the_same_either_way() {
    let a = Pigment::from_linear_rgb(color(0.2, 0.5, 0.8));
    let b = Pigment::from_linear_rgb(color(0.7, 0.3, 0.1));
    assert_eq!(a.mix(b, f(0.5)), b.mix(a, f(0.5)));
    assert_eq!(a.mix(b, f(0.25)), b.mix(a, f(0.75)));
}

#[test]
fn colors_above_the_floor_come_back_closely() {
    let steps = [0.00103, 0.02, 0.1, 0.33, 0.5, 0.77, 0.99, 1.0];
    for r in steps {
        for g in steps {
            for b in steps {
                let c = color(r, g, b);
                let back = Pigment::from_linear_rgb(c).to_linear_rgb();
                assert!(rgb_close(c, back, 5e-4), "{c:?} came back as {back:?}");
            }
        }
    }
    for (r, g, b) in [(0.5, 0.0, 0.5), (0.1, 0.0, 0.1), (1.0, 0.0, 1.0), (0.03, 0.0, 0.9)] {
        let c = color(r, g, b);
        let back = Pigment::from_linear_rgb(c).to_linear_rgb();
        assert!(rgb_close(c, back, 5e-4), "{c:?} came back as {back:?}");
    }
}

#[test]
fn every_such_blue_and_yellow_make_green() {
    for db in [-0.0099, 0.0, 0.0099] {
        for dy in [-0.0099, 0.0, 0.0099] {
            let blue = Pigment::from_linear_rgb(color(0.05 + db, 0.05 - db, 0.8 + db));
            let yellow = Pigment::from_linear_rgb(color(0.9 - dy, 0.85 + dy, 0.05 + dy));
            let c = blue.mix(yellow, f(0.5)).to_linear_rgb();
            assert!(v(c.g) > v(c.r) && v(c.g) > v(c.b), "{c:?}");
        }
    }
}
