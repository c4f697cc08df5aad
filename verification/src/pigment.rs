//! Mixing colors as paint mixes.
//!
//! A pigment holds, for each of seven bands of the spectrum, how much it absorbs and how much
//! it scatters. Mixing averages the two, and the reflectance of the mixture follows from the
//! formula of Kubelka and Munk, so that blue and yellow mix to green. A color in linear RGB is
//! spread over the bands by three basis spectra, and a spectrum is turned back into linear RGB
//! by three matching curves and a correction.

use crate::brush::{LinearRgba, ONE};
use crate::float32::Float32;
use vstd::prelude::*;

verus! {

/// The number of bands.
pub const BANDS: usize = 7;

/// What red reflects in each band, as bit patterns.
pub const R_BASIS: [u32; 7] = [
    0,
    0,
    0,
    0x3d4c_cccd,
    0x3eb3_3333,
    0x3f73_3333,
    0x3f80_0000,
];

/// What green reflects in each band, as bit patterns.
pub const G_BASIS: [u32; 7] = [
    0,
    0x3d4c_cccd,
    0x3f26_6666,
    0x3f73_3333,
    0x3f26_6666,
    0x3d4c_cccd,
    0,
];

/// What blue reflects in each band, as bit patterns. The third band is shared with green:
/// without it a mixture of blue and yellow would be dark.
pub const B_BASIS: [u32; 7] = [
    0x3f80_0000,
    0x3f73_3333,
    0x3eb3_3333,
    0,
    0,
    0,
    0,
];

/// The three channels at band `i`, each weighted by its basis.
#[verifier::opaque]
pub open spec fn band_of(r: Float32, g: Float32, b: Float32, i: int) -> Float32 {
    r.larger(Float32(0)).product(Float32(R_BASIS[i])).sum(
        g.larger(Float32(0)).product(Float32(G_BASIS[i])),
    ).sum(b.larger(Float32(0)).product(Float32(B_BASIS[i])))
}

fn band(r: Float32, g: Float32, b: Float32, i: usize) -> (res: Float32)
    requires
        i < 7,
    ensures
        res == band_of(r, g, b, i as int),
{
    reveal(band_of);
    let r = r.max(Float32(0));
    let g = g.max(Float32(0));
    let b = b.max(Float32(0));
    r.mul(Float32(R_BASIS[i])).add(g.mul(Float32(G_BASIS[i]))).add(b.mul(Float32(B_BASIS[i])))
}

/// The spectrum of a color in linear RGB. A negative channel counts as zero.
pub fn upsample_rgb(r: Float32, g: Float32, b: Float32) -> (res: [Float32; 7])
    ensures
        res@ == Seq::new(7, |i: int| band_of(r, g, b, i)),
{
    let res = [
        band(r, g, b, 0),
        band(r, g, b, 1),
        band(r, g, b, 2),
        band(r, g, b, 3),
        band(r, g, b, 4),
        band(r, g, b, 5),
        band(r, g, b, 6),
    ];
    assert(res@ =~= Seq::new(7, |i: int| band_of(r, g, b, i)));
    res
}

/// The lowest reflectance that absorption is computed for, as the bit pattern of 0.001.
pub const REFLECTANCE_FLOOR: u32 = 0x3a83_126f;

/// The highest reflectance that absorption is computed for: the number that is 0.000001 below
/// 1, as its bit pattern.
pub const REFLECTANCE_CEIL: u32 = 0x3f7f_ffef;

/// The bit pattern of 2.0.
pub const TWO: u32 = 0x4000_0000;

/// How much a pigment absorbs that reflects `r` and scatters 1: `(1 - r)^2 / 2r`.
#[verifier::opaque]
pub open spec fn absorption(r: Float32) -> Float32 {
    let r = r.clamped(Float32(REFLECTANCE_FLOOR), Float32(REFLECTANCE_CEIL));
    let d = Float32(ONE).difference(r);
    d.product(d).quotient(Float32(TWO).product(r))
}

/// How much a pigment absorbs that reflects `r` and scatters 1.
pub fn k_from_reflectance(r: Float32) -> (res: Float32)
    ensures
        res == absorption(r),
{
    reveal(absorption);
    let r = r.clamp(Float32(REFLECTANCE_FLOOR), Float32(REFLECTANCE_CEIL));
    let d = Float32(ONE).sub(r);
    d.mul(d).div(Float32(TWO).mul(r))
}

/// How much a pigment reflects that absorbs `k` and scatters `s`: with the ratio `q = k / s`
/// it is `1 + q - sqrt(q^2 + 2q)`. A pigment that does not scatter reflects nothing.
#[verifier::opaque]
pub open spec fn reflectance(k: Float32, s: Float32) -> Float32 {
    if s.at_most(Float32(0)) {
        Float32(0)
    } else {
        let q = k.quotient(s);
        let inner = q.product(q).sum(Float32(TWO).product(q)).larger(Float32(0));
        Float32(ONE).sum(q).difference(inner.root()).clamped(Float32(0), Float32(ONE))
    }
}

/// How much a pigment reflects that absorbs `k` and scatters `s`.
pub fn reflectance_from_ks(k: Float32, s: Float32) -> (res: Float32)
    ensures
        res == reflectance(k, s),
{
    reveal(reflectance);
    if s.le(Float32(0)) {
        return Float32(0);
    }
    let q = k.div(s);
    let inner = q.mul(q).add(Float32(TWO).mul(q)).max(Float32(0));
    Float32(ONE).add(q).sub(inner.sqrt()).clamp(Float32(0), Float32(ONE))
}

/// The first matching curve, as bit patterns. Each of the three sums to 1.
pub const X_BAR: [u32; 7] = [
    0,
    0,
    0x3d4c_cccd,
    0x3e4c_cccd,
    0x3ecc_cccd,
    0x3e99_999a,
    0x3d4c_cccd,
];

/// The second matching curve, as bit patterns.
pub const Y_BAR: [u32; 7] = [
    0,
    0x3dcc_cccd,
    0x3eb3_3333,
    0x3ecc_cccd,
    0x3dcc_cccd,
    0x3d4c_cccd,
    0,
];

/// The third matching curve, as bit patterns.
pub const Z_BAR: [u32; 7] = [
    0x3e99_999a,
    0x3ecc_cccd,
    0x3e4c_cccd,
    0x3d4c_cccd,
    0x3d4c_cccd,
    0,
    0,
];

/// The row of the correction matrix that gives red, as bit patterns.
pub const RED_ROW: [u32; 3] = [0x401d_460b, 0xbffc_6738, 0x3f03_b646];

/// The row of the correction matrix that gives green, as bit patterns.
pub const GREEN_ROW: [u32; 3] = [0xbec6_594b, 0x3ff8_8312, 0xbf0d_d2f2];

/// The row of the correction matrix that gives blue, as bit patterns.
pub const BLUE_ROW: [u32; 3] = [0x3d5a_511a, 0xbf0a_f4f1, 0x3fbe_a7f0];

/// The sum of the first `n` bands, each weighted by the curve, added up in order.
pub open spec fn integral(spectrum: Seq<Float32>, curve: Seq<u32>, n: nat) -> Float32
    decreases n,
{
    if n == 0 {
        Float32(0)
    } else {
        integral(spectrum, curve, (n - 1) as nat).sum(
            spectrum[n - 1].product(Float32(curve[n - 1])),
        )
    }
}

fn integrate(spectrum: &[Float32; 7], curve: &[u32; 7]) -> (res: Float32)
    ensures
        res == integral(spectrum@, curve@, 7),
{
    let mut res = Float32(0);
    let mut i: usize = 0;
    while i < 7
        invariant
            i <= 7,
            res == integral(spectrum@, curve@, i as nat),
        decreases 7 - i,
    {
        res = res.add(spectrum[i].mul(Float32(curve[i])));
        i += 1;
    }
    res
}

/// One row of the correction applied to the three sums.
#[verifier::opaque]
pub open spec fn corrected(row: Seq<u32>, x: Float32, y: Float32, z: Float32) -> Float32 {
    Float32(row[0]).product(x).sum(Float32(row[1]).product(y)).sum(Float32(row[2]).product(z))
}

fn correct(row: &[u32; 3], x: Float32, y: Float32, z: Float32) -> (res: Float32)
    ensures
        res == corrected(row@, x, y, z),
{
    reveal(corrected);
    Float32(row[0]).mul(x).add(Float32(row[1]).mul(y)).add(Float32(row[2]).mul(z))
}

/// One channel of the color that a spectrum looks like, not limited to 0 and 1.
pub open spec fn channel_of(spectrum: Seq<Float32>, row: Seq<u32>) -> Float32 {
    corrected(
        row,
        integral(spectrum, X_BAR@, 7),
        integral(spectrum, Y_BAR@, 7),
        integral(spectrum, Z_BAR@, 7),
    )
}

/// The color in linear RGB that a spectrum looks like. Its channels are not limited to 0
/// and 1.
pub fn integrate_to_rgb(spectrum: &[Float32; 7]) -> (res: (Float32, Float32, Float32))
    ensures
        res.0 == channel_of(spectrum@, RED_ROW@),
        res.1 == channel_of(spectrum@, GREEN_ROW@),
        res.2 == channel_of(spectrum@, BLUE_ROW@),
{
    let x = integrate(spectrum, &X_BAR);
    let y = integrate(spectrum, &Y_BAR);
    let z = integrate(spectrum, &Z_BAR);
    (correct(&RED_ROW, x, y, z), correct(&GREEN_ROW, x, y, z), correct(&BLUE_ROW, x, y, z))
}

/// A color that mixes like paint.
#[derive(Debug, Clone, Copy, PartialEq)]
pub struct Pigment {
    k: [Float32; 7],
    s: [Float32; 7],
}

/// The mathematical content of a pigment.
#[verifier::ext_equal]
pub struct PigmentView {
    /// Absorption in each band.
    pub k: Seq<Float32>,
    /// Scattering in each band.
    pub s: Seq<Float32>,
}

impl View for Pigment {
    type V = PigmentView;

    closed spec fn view(&self) -> PigmentView {
        PigmentView { k: self.k@, s: self.s@ }
    }
}

/// `(1 - t) a + t b`.
#[verifier::opaque]
pub open spec fn averaged(a: Float32, b: Float32, t: Float32) -> Float32 {
    Float32(ONE).difference(t).product(a).sum(t.product(b))
}

fn average(a: Float32, b: Float32, u: Float32, t: Float32) -> (res: Float32)
    requires
        u == Float32(ONE).difference(t),
    ensures
        res == averaged(a, b, t),
{
    reveal(averaged);
    u.mul(a).add(t.mul(b))
}

fn average_bands(a: &[Float32; 7], b: &[Float32; 7], t: Float32) -> (res: [Float32; 7])
    ensures
        res@ == averaged_bands(a@, b@, t),
{
    let u = Float32(ONE).sub(t);
    let res = [
        average(a[0], b[0], u, t),
        average(a[1], b[1], u, t),
        average(a[2], b[2], u, t),
        average(a[3], b[3], u, t),
        average(a[4], b[4], u, t),
        average(a[5], b[5], u, t),
        average(a[6], b[6], u, t),
    ];
    assert(res@ =~= averaged_bands(a@, b@, t));
    res
}

/// The average, band by band.
pub open spec fn averaged_bands(a: Seq<Float32>, b: Seq<Float32>, t: Float32) -> Seq<Float32> {
    Seq::new(7, |i: int| averaged(a[i], b[i], t))
}

impl PigmentView {
    /// The pigment that a color in linear RGB stands for.
    pub open spec fn of_color(c: LinearRgba) -> PigmentView {
        PigmentView {
            k: Seq::new(7, |i: int| absorption(band_of(c.r, c.g, c.b, i))),
            s: Seq::new(7, |i: int| Float32(ONE)),
        }
    }

    /// What the pigment reflects in each band.
    pub open spec fn spectrum(self) -> Seq<Float32> {
        Seq::new(7, |i: int| reflectance(self.k[i], self.s[i]))
    }

    /// The color in linear RGB that the pigment looks like, each channel within 0 and 1.
    pub open spec fn color(self) -> LinearRgba {
        LinearRgba {
            r: channel_of(self.spectrum(), RED_ROW@).clamped(Float32(0), Float32(ONE)),
            g: channel_of(self.spectrum(), GREEN_ROW@).clamped(Float32(0), Float32(ONE)),
            b: channel_of(self.spectrum(), BLUE_ROW@).clamped(Float32(0), Float32(ONE)),
            a: Float32(ONE),
        }
    }

    /// The mixture with the part `t`, within 0 and 1, of another pigment.
    pub open spec fn mixed(self, other: PigmentView, t: Float32) -> PigmentView {
        let t = t.clamped(Float32(0), Float32(ONE));
        PigmentView {
            k: averaged_bands(self.k, other.k, t),
            s: averaged_bands(self.s, other.s, t),
        }
    }
}

impl Pigment {
    /// A pigment that absorbs nothing.
    pub fn white() -> (res: Pigment)
        ensures
            res@.k == Seq::new(7, |i: int| Float32(0)),
            res@.s == Seq::new(7, |i: int| Float32(ONE)),
    {
        let z = Float32(0);
        let o = Float32(ONE);
        let res = Pigment { k: [z, z, z, z, z, z, z], s: [o, o, o, o, o, o, o] };
        assert(res@.k =~= Seq::new(7, |i: int| Float32(0)));
        assert(res@.s =~= Seq::new(7, |i: int| Float32(ONE)));
        res
    }

    /// How much the pigment absorbs in each band.
    pub fn absorption_bands(&self) -> (res: [Float32; 7])
        ensures
            res@ == self@.k,
    {
        self.k
    }

    /// How much the pigment scatters in each band.
    pub fn scattering_bands(&self) -> (res: [Float32; 7])
        ensures
            res@ == self@.s,
    {
        self.s
    }

    /// The pigment that a color in linear RGB stands for. Alpha is dropped.
    #[must_use]
    pub fn from_linear_rgb(c: LinearRgba) -> (res: Pigment)
        ensures
            res@ == PigmentView::of_color(c),
    {
        let spectrum = upsample_rgb(c.r, c.g, c.b);
        let k = [
            k_from_reflectance(spectrum[0]),
            k_from_reflectance(spectrum[1]),
            k_from_reflectance(spectrum[2]),
            k_from_reflectance(spectrum[3]),
            k_from_reflectance(spectrum[4]),
            k_from_reflectance(spectrum[5]),
            k_from_reflectance(spectrum[6]),
        ];
        let o = Float32(ONE);
        let res = Pigment { k, s: [o, o, o, o, o, o, o] };
        assert(res@.k =~= PigmentView::of_color(c).k);
        assert(res@.s =~= PigmentView::of_color(c).s);
        res
    }

    /// The color in linear RGB that the pigment looks like, with full alpha.
    #[must_use]
    pub fn to_linear_rgb(self) -> (res: LinearRgba)
        ensures
            res == self@.color(),
    {
        let spectrum = [
            reflectance_from_ks(self.k[0], self.s[0]),
            reflectance_from_ks(self.k[1], self.s[1]),
            reflectance_from_ks(self.k[2], self.s[2]),
            reflectance_from_ks(self.k[3], self.s[3]),
            reflectance_from_ks(self.k[4], self.s[4]),
            reflectance_from_ks(self.k[5], self.s[5]),
            reflectance_from_ks(self.k[6], self.s[6]),
        ];
        assert(spectrum@ =~= self@.spectrum());
        let (r, g, b) = integrate_to_rgb(&spectrum);
        LinearRgba {
            r: r.clamp(Float32(0), Float32(ONE)),
            g: g.clamp(Float32(0), Float32(ONE)),
            b: b.clamp(Float32(0), Float32(ONE)),
            a: Float32(ONE),
        }
    }

    /// The mixture with the part `t`, within 0 and 1, of another pigment.
    #[must_use]
    pub fn mix(self, other: Pigment, t: Float32) -> (res: Pigment)
        ensures
            res@ == self@.mixed(other@, t),
    {
        let t = t.clamp(Float32(0), Float32(ONE));
        Pigment { k: average_bands(&self.k, &other.k, t), s: average_bands(&self.s, &other.s, t) }
    }
}

/// The spectrum of the color that a pigment looks like.
pub open spec fn canvas_spectrum(p: PigmentView) -> Seq<Float32> {
    let c = p.color();
    Seq::new(7, |i: int| band_of(c.r, c.g, c.b, i))
}

/// The spectrum of the color that a pigment looks like.
pub fn pigment_canvas_reflectance(p: &Pigment) -> (res: [Float32; 7])
    ensures
        res@ == canvas_spectrum(p@),
{
    let c = p.to_linear_rgb();
    upsample_rgb(c.r, c.g, c.b)
}

/// What a brush program is told about the brush.
#[derive(Debug, Clone, Copy, PartialEq)]
pub struct BrushUniforms {
    /// The color in linear RGB.
    pub brush_lin: [Float32; 4],
    /// The first four bands of the spectrum of the color.
    pub brush_lo: [Float32; 4],
    /// The other three bands, and a zero.
    pub brush_hi: [Float32; 4],
    pub brush_alpha: Float32,
}

/// What a brush program is told about a brush of the given color.
pub fn brush_uniforms(color: LinearRgba) -> (res: BrushUniforms)
    ensures
        ({
            let bands = canvas_spectrum(
                PigmentView::of_color((LinearRgba { a: Float32(ONE), ..color })),
            );
            &&& res.brush_lin@ == seq![color.r, color.g, color.b, color.a]
            &&& res.brush_lo@ == bands.subrange(0, 4)
            &&& res.brush_hi@ == bands.subrange(4, 7).push(Float32(0))
            &&& res.brush_alpha == color.a
        }),
{
    let p = Pigment::from_linear_rgb(
        LinearRgba { r: color.r, g: color.g, b: color.b, a: Float32(ONE) },
    );
    let bands = pigment_canvas_reflectance(&p);
    let res = BrushUniforms {
        brush_lin: [color.r, color.g, color.b, color.a],
        brush_lo: [bands[0], bands[1], bands[2], bands[3]],
        brush_hi: [bands[4], bands[5], bands[6], Float32(0)],
        brush_alpha: color.a,
    };
    assert(res.brush_lin@ =~= seq![color.r, color.g, color.b, color.a]);
    assert(res.brush_lo@ =~= bands@.subrange(0, 4));
    assert(res.brush_hi@ =~= bands@.subrange(4, 7).push(Float32(0)));
    res
}

/// A way to lay a brush's pigment onto what is on the canvas. A coverage of 0 leaves the
/// canvas, one of 1 replaces it.
pub trait MixOp {
    fn deposit(&self, canvas: Pigment, brush: Pigment, coverage: Float32) -> (res: Pigment);
}

/// Depositing by mixing pigments.
#[derive(Debug, Default, Clone, Copy)]
pub struct KubelkaMunk;

impl MixOp for KubelkaMunk {
    fn deposit(&self, canvas: Pigment, brush: Pigment, coverage: Float32) -> (res: Pigment)
        ensures
            res@ == canvas@.mixed(brush@, coverage),
    {
        canvas.mix(brush, coverage)
    }
}

} // verus!
