//! The color picker: its state, what its controls do to it, the recent colors, and colors
//! written as hexadecimal text.
//!
//! The picker holds a color as hue, saturation and lightness in the Okhsl space. The hue is
//! a coordinate of its own, so passing through a neutral color does not lose it.

use crate::brush::{LinearRgba, ONE};
use crate::float32::Float32;
use crate::ui::BrushAction;
use vstd::prelude::*;
use vstd::string::*;

verus! {

/// The bit pattern of 0.001: channels closer than this count as equal.
pub const COLOR_EQ_EPS: u32 = 0x3a83_126f;

/// The bit pattern of 0.0001: a color less saturated than this counts as neutral.
pub const NEUTRAL_S_EPS: u32 = 0x38d1_b717;

/// The bit pattern of 0.5: the plane is repainted when the hue moved by more degrees.
pub const HUE_REPAINT_EPS_DEG: u32 = 0x3f00_0000;

/// The bit pattern of 100.0.
pub const HUNDRED: u32 = 0x42c8_0000;

/// The bit pattern of 360.0.
pub const FULL_TURN: u32 = 0x43b4_0000;

/// How many recent colors are kept.
pub const RECENT_CAP: usize = 12;

/// A color in the Okhsl space; the hue is in degrees.
#[derive(Debug, Clone, Copy, PartialEq)]
pub struct Okhsl {
    pub hue: Float32,
    pub saturation: Float32,
    pub lightness: Float32,
}

impl Okhsl {
    /// Whether the color is too little saturated for its hue to mean anything.
    pub open spec fn neutral(self) -> bool {
        self.saturation.below(Float32(NEUTRAL_S_EPS))
    }

    /// The color `incoming` with the hue of this one where `incoming` is neutral.
    pub open spec fn adopting(self, incoming: Okhsl) -> Okhsl {
        Okhsl { hue: if incoming.neutral() { self.hue } else { incoming.hue }, ..incoming }
    }
}

/// Whether two colors agree in every channel up to `COLOR_EQ_EPS`.
pub open spec fn nearly_equal(a: LinearRgba, b: LinearRgba) -> bool {
    &&& a.r.difference(b.r).unsigned().below(Float32(COLOR_EQ_EPS))
    &&& a.g.difference(b.g).unsigned().below(Float32(COLOR_EQ_EPS))
    &&& a.b.difference(b.b).unsigned().below(Float32(COLOR_EQ_EPS))
    &&& a.a.difference(b.a).unsigned().below(Float32(COLOR_EQ_EPS))
}

/// Whether two colors agree in every channel up to `COLOR_EQ_EPS`.
pub fn linear_rgba_approx_eq(a: LinearRgba, b: LinearRgba) -> (res: bool)
    ensures
        res == nearly_equal(a, b),
{
    let eps = Float32(COLOR_EQ_EPS);
    a.r.sub(b.r).abs().lt(eps) && a.g.sub(b.g).abs().lt(eps) && a.b.sub(b.b).abs().lt(eps)
        && a.a.sub(b.a).abs().lt(eps)
}

/// A rectangle on the screen.
#[derive(Debug, Clone, Copy, PartialEq)]
pub struct ScreenRect {
    pub x: Float32,
    pub y: Float32,
    pub width: Float32,
    pub height: Float32,
}

impl ScreenRect {
    /// How far to the right `x` lies, as a fraction of the width within 0 and 1.
    pub open spec fn across(self, x: Float32) -> Float32 {
        x.difference(self.x).quotient(self.width).clamped(Float32(0), Float32(ONE))
    }

    /// How far up `y` lies, as a fraction of the height within 0 and 1.
    pub open spec fn upward(self, y: Float32) -> Float32 {
        Float32(ONE).difference(y.difference(self.y).quotient(self.height)).clamped(
            Float32(0),
            Float32(ONE),
        )
    }
}

/// How many pixels the plane has on each side.
pub const PLANE_SIZE: u16 = 128;

/// How many columns the hue strip has.
pub const HUE_STRIP_SIZE: u16 = 160;

/// The color in a pixel of the plane: saturation grows to the right and lightness upwards.
pub open spec fn plane_color(px: int, py: int, hue: Float32) -> Okhsl {
    let steps = Float32::of_whole(PLANE_SIZE as int).difference(Float32(ONE));
    Okhsl {
        hue,
        saturation: Float32::of_whole(px).quotient(steps),
        lightness: Float32(ONE).difference(Float32::of_whole(py).quotient(steps)),
    }
}

/// The color in a pixel of the plane.
pub fn plane_pixel(px: u16, py: u16, hue: Float32) -> (res: Okhsl)
    ensures
        res == plane_color(px as int, py as int, hue),
{
    let steps = Float32::from_i64(PLANE_SIZE as i64).sub(Float32(ONE));
    Okhsl {
        hue,
        saturation: Float32::from_i64(px as i64).div(steps),
        lightness: Float32(ONE).sub(Float32::from_i64(py as i64).div(steps)),
    }
}

/// The hue, in degrees, of a column of the strip: from 0 to a full turn.
pub fn strip_hue(column: u16) -> (res: Float32)
    ensures
        res == Float32(FULL_TURN).product(Float32::of_whole(column as int)).quotient(
            Float32::of_whole(HUE_STRIP_SIZE as int).difference(Float32(ONE)),
        ),
{
    let steps = Float32::from_i64(HUE_STRIP_SIZE as i64).sub(Float32(ONE));
    Float32(FULL_TURN).mul(Float32::from_i64(column as i64)).div(steps)
}

impl ScreenRect {
    /// The left edge of a column of the strip, each taking an equal part of the width.
    pub open spec fn column_edge(self, column: Float32) -> Float32 {
        self.x.sum(
            column.quotient(Float32::of_whole(HUE_STRIP_SIZE as int)).product(self.width),
        )
    }

    /// The left and the right edge of a column of the strip.
    pub fn strip_column(&self, column: u16) -> (res: (Float32, Float32))
        ensures
            res.0 == self.column_edge(Float32::of_whole(column as int)),
            res.1 == self.column_edge(Float32::of_whole(column as int).sum(Float32(ONE))),
    {
        let n = Float32::from_i64(HUE_STRIP_SIZE as i64);
        let x = Float32::from_i64(column as i64);
        (
            self.x.add(x.div(n).mul(self.width)),
            self.x.add(x.add(Float32(ONE)).div(n).mul(self.width)),
        )
    }

    /// Where a hue, in degrees from 0 to a full turn, is marked on the strip.
    pub fn hue_marker(&self, degrees: Float32) -> (res: Float32)
        ensures
            res == self.x.sum(degrees.quotient(Float32(FULL_TURN)).product(self.width)),
    {
        self.x.add(degrees.div(Float32(FULL_TURN)).mul(self.width))
    }
}

/// The state of the picker.
#[derive(Debug, PartialEq)]
pub struct PickerState {
    pub okhsl: Okhsl,
    pub expanded: bool,
    /// The latest first.
    pub recent: Vec<LinearRgba>,
    /// The hue that the plane was painted with, if it is still of use.
    pub plane_hue_cache: Option<Float32>,
    /// What stands in the text field; kept apart so that it can be edited freely.
    pub hex_input: String,
}

/// The mathematical content of a picker.
#[verifier::ext_equal]
pub struct PickerView {
    pub okhsl: Okhsl,
    pub expanded: bool,
    pub recent: Seq<LinearRgba>,
    pub plane_hue_cache: Option<Float32>,
    pub hex_input: Seq<char>,
}

impl View for PickerState {
    type V = PickerView;

    open spec fn view(&self) -> PickerView {
        PickerView {
            okhsl: self.okhsl,
            expanded: self.expanded,
            recent: self.recent@,
            plane_hue_cache: self.plane_hue_cache,
            hex_input: self.hex_input@,
        }
    }
}

impl PickerView {
    /// An open picker on black without recent colors.
    pub open spec fn initial() -> PickerView {
        PickerView {
            okhsl: Okhsl { hue: Float32(0), saturation: Float32(0), lightness: Float32(0) },
            expanded: true,
            recent: seq![],
            plane_hue_cache: None,
            hex_input: seq![],
        }
    }

    /// The picker after the color was set to `okhsl`; the text field is to be filled anew.
    pub open spec fn with_color(self, okhsl: Okhsl) -> PickerView {
        PickerView { okhsl, hex_input: seq![], ..self }
    }

    /// The picker after a color with a hue of its own came in: the plane is out of date.
    pub open spec fn with_adopted(self, incoming: Okhsl) -> PickerView {
        PickerView {
            plane_hue_cache: None,
            ..self.with_color(self.okhsl.adopting(incoming))
        }
    }

    /// The picker after a point of the plane was picked.
    pub open spec fn picked_on_plane(self, x: Float32, y: Float32, rect: ScreenRect) -> PickerView {
        self.with_color(
            Okhsl {
                hue: self.okhsl.hue,
                saturation: rect.across(x),
                lightness: rect.upward(y),
            },
        )
    }

    /// The picker after a point of the hue strip was picked.
    pub open spec fn picked_on_strip(self, x: Float32, rect: ScreenRect) -> PickerView {
        self.with_hue(rect.across(x).product(Float32(FULL_TURN)))
    }

    /// The picker after the lightness was set in percent.
    pub open spec fn with_lightness(self, percent: Float32) -> PickerView {
        self.with_color(Okhsl { lightness: part_of_percent(percent), ..self.okhsl })
    }

    /// The picker after the saturation was set in percent.
    pub open spec fn with_saturation(self, percent: Float32) -> PickerView {
        self.with_color(Okhsl { saturation: part_of_percent(percent), ..self.okhsl })
    }

    /// Where the crosshair stands on the plane.
    pub open spec fn crosshair(self, rect: ScreenRect) -> (Float32, Float32) {
        (
            rect.x.sum(self.okhsl.saturation.clamped(Float32(0), Float32(ONE)).product(rect.width)),
            rect.y.sum(
                Float32(ONE).difference(
                    self.okhsl.lightness.clamped(Float32(0), Float32(ONE)),
                ).product(rect.height),
            ),
        )
    }

    /// The picker after the hue was set.
    pub open spec fn with_hue(self, hue: Float32) -> PickerView {
        PickerView { plane_hue_cache: None, ..self.with_color(Okhsl { hue, ..self.okhsl }) }
    }
}

impl Default for PickerState {
    fn default() -> (res: PickerState)
        ensures
            res@ == PickerView::initial(),
    {
        let res = PickerState {
            okhsl: Okhsl { hue: Float32(0), saturation: Float32(0), lightness: Float32(0) },
            expanded: true,
            recent: Vec::new(),
            plane_hue_cache: None,
            hex_input: String::new(),
        };
        assert(res@ =~= PickerView::initial());
        res
    }
}

fn adopted(okhsl: Okhsl, incoming: Okhsl) -> (res: Okhsl)
    ensures
        res == okhsl.adopting(incoming),
{
    let hue = if incoming.saturation.lt(Float32(NEUTRAL_S_EPS)) {
        okhsl.hue
    } else {
        incoming.hue
    };
    Okhsl { hue, saturation: incoming.saturation, lightness: incoming.lightness }
}

impl PickerState {
    /// Adopts the color `current` of the brush, unless the picker would produce it itself.
    /// `produced` is what the color of the picker is in linear RGB, `incoming` is what
    /// `current` is in Okhsl.
    pub fn sync_from_engine(&mut self, current: LinearRgba, produced: LinearRgba, incoming: Okhsl)
        ensures
            final(self)@ == (if nearly_equal(produced, current) {
                old(self)@
            } else {
                old(self)@.with_adopted(incoming)
            }),
    {
        if linear_rgba_approx_eq(produced, current) {
            return ;
        }
        self.adopt(incoming);
    }

    /// Takes over a color that was chosen as a whole, as by a click on a recent color.
    pub fn adopt(&mut self, incoming: Okhsl)
        ensures
            final(self)@ == old(self)@.with_adopted(incoming),
    {
        self.okhsl = adopted(self.okhsl, incoming);
        self.plane_hue_cache = None;
        self.hex_input = String::new();
        assert(self@ =~= old(self)@.with_adopted(incoming));
    }

    /// Shows the picker where it is folded and folds it where it is shown.
    pub fn toggle_expanded(&mut self)
        ensures
            final(self)@ == (PickerView { expanded: !old(self)@.expanded, ..old(self)@ }),
    {
        self.expanded = !self.expanded;
    }

    /// The pointer picked a point of the plane: saturation grows to the right, lightness
    /// upwards, the hue stays.
    pub fn pick_on_plane(&mut self, x: Float32, y: Float32, rect: ScreenRect)
        ensures
            final(self)@ == old(self)@.picked_on_plane(x, y, rect),
            final(self)@ == old(self)@.with_color(
                (Okhsl {
                    hue: old(self).okhsl.hue,
                    saturation: rect.across(x),
                    lightness: rect.upward(y),
                }),
            ),
    {
        let saturation = x.sub(rect.x).div(rect.width).clamp(Float32(0), Float32(ONE));
        let lightness = Float32(ONE).sub(y.sub(rect.y).div(rect.height)).clamp(
            Float32(0),
            Float32(ONE),
        );
        self.okhsl = Okhsl { hue: self.okhsl.hue, saturation, lightness };
        self.hex_input = String::new();
        assert(self@.hex_input =~= seq![]);
    }

    /// The pointer picked a point of the hue strip, which runs through a full turn.
    pub fn pick_on_strip(&mut self, x: Float32, rect: ScreenRect)
        ensures
            final(self)@ == old(self)@.picked_on_strip(x, rect),
            final(self)@ == old(self)@.with_hue(rect.across(x).product(Float32(FULL_TURN))),
    {
        let t = x.sub(rect.x).div(rect.width).clamp(Float32(0), Float32(ONE));
        self.set_hue(t.mul(Float32(FULL_TURN)));
    }

    /// Sets the hue in degrees.
    pub fn set_hue(&mut self, degrees: Float32)
        ensures
            final(self)@ == old(self)@.with_hue(degrees),
    {
        self.okhsl = Okhsl {
            hue: degrees,
            saturation: self.okhsl.saturation,
            lightness: self.okhsl.lightness,
        };
        self.plane_hue_cache = None;
        self.hex_input = String::new();
        assert(self@.hex_input =~= seq![]);
    }

    /// Sets the lightness in percent.
    pub fn set_lightness(&mut self, percent: Float32)
        ensures
            final(self)@ == old(self)@.with_lightness(percent),
            final(self)@ == old(self)@.with_color(
                (Okhsl { lightness: part_of_percent(percent), ..old(self).okhsl }),
            ),
    {
        self.okhsl = Okhsl {
            hue: self.okhsl.hue,
            saturation: self.okhsl.saturation,
            lightness: from_percent(percent),
        };
        self.hex_input = String::new();
        assert(self@.hex_input =~= seq![]);
    }

    /// Sets the saturation in percent.
    pub fn set_saturation(&mut self, percent: Float32)
        ensures
            final(self)@ == old(self)@.with_saturation(percent),
            final(self)@ == old(self)@.with_color(
                (Okhsl { saturation: part_of_percent(percent), ..old(self).okhsl }),
            ),
    {
        self.okhsl = Okhsl {
            hue: self.okhsl.hue,
            saturation: from_percent(percent),
            lightness: self.okhsl.lightness,
        };
        self.hex_input = String::new();
        assert(self@.hex_input =~= seq![]);
    }

    /// The lightness in percent.
    pub fn lightness_percent(&self) -> (res: Float32)
        ensures
            res == self.okhsl.lightness.product(Float32(HUNDRED)),
    {
        self.okhsl.lightness.mul(Float32(HUNDRED))
    }

    /// The saturation in percent.
    pub fn saturation_percent(&self) -> (res: Float32)
        ensures
            res == self.okhsl.saturation.product(Float32(HUNDRED)),
    {
        self.okhsl.saturation.mul(Float32(HUNDRED))
    }

    /// Where the crosshair stands on the plane.
    pub fn plane_position(&self, rect: ScreenRect) -> (res: (Float32, Float32))
        ensures
            res == self@.crosshair(rect),
            res.0 == rect.x.sum(
                self.okhsl.saturation.clamped(Float32(0), Float32(ONE)).product(rect.width),
            ),
            res.1 == rect.y.sum(
                Float32(ONE).difference(
                    self.okhsl.lightness.clamped(Float32(0), Float32(ONE)),
                ).product(rect.height),
            ),
    {
        let s = self.okhsl.saturation.clamp(Float32(0), Float32(ONE));
        let l = self.okhsl.lightness.clamp(Float32(0), Float32(ONE));
        (rect.x.add(s.mul(rect.width)), rect.y.add(Float32(ONE).sub(l).mul(rect.height)))
    }

    /// Whether the plane has to be painted for the hue `degrees`: there is none yet
    /// (`painted` is false), it is out of date, or the hue moved too far.
    pub fn plane_needs_paint(&self, painted: bool, degrees: Float32) -> (res: bool)
        ensures
            res == (match self.plane_hue_cache {
                Some(cached) => !painted || Float32(HUE_REPAINT_EPS_DEG).below(
                    degrees.difference(cached).unsigned(),
                ),
                None => true,
            }),
    {
        match self.plane_hue_cache {
            Some(cached) => !painted || Float32(HUE_REPAINT_EPS_DEG).lt(
                degrees.sub(cached).abs(),
            ),
            None => true,
        }
    }

    /// The plane was painted for the hue `degrees`.
    pub fn plane_painted(&mut self, degrees: Float32)
        ensures
            final(self)@ == (PickerView { plane_hue_cache: Some(degrees), ..old(self)@ }),
    {
        self.plane_hue_cache = Some(degrees);
    }
}

/// The fraction, within 0 and 1, that a percentage stands for.
pub open spec fn part_of_percent(percent: Float32) -> Float32 {
    percent.quotient(Float32(HUNDRED)).clamped(Float32(0), Float32(ONE))
}

fn from_percent(percent: Float32) -> (res: Float32)
    ensures
        res == part_of_percent(percent),
{
    percent.div(Float32(HUNDRED)).clamp(Float32(0), Float32(ONE))
}

/// The recent colors after `rgba` was used: it comes first, colors nearly equal to it go, and
/// no more than `RECENT_CAP` stay.
pub open spec fn with_recent(recent: Seq<LinearRgba>, rgba: LinearRgba) -> Seq<LinearRgba> {
    let all = seq![rgba] + recent.filter(|r: LinearRgba| !nearly_equal(r, rgba));
    if all.len() > RECENT_CAP {
        all.take(RECENT_CAP as int)
    } else {
        all
    }
}

impl PickerState {
    /// Remembers `rgba` as the latest color.
    pub fn push_recent(&mut self, rgba: LinearRgba)
        ensures
            final(self)@ == (PickerView {
                recent: with_recent(old(self)@.recent, rgba),
                ..old(self)@
            }),
    {
        let ghost distinct = |r: LinearRgba| !nearly_equal(r, rgba);
        let mut recent: Vec<LinearRgba> = Vec::new();
        recent.push(rgba);
        let ghost all = seq![rgba] + self.recent@.filter(distinct);
        let mut i: usize = 0;
        proof {
            reveal(Seq::filter);
            assert(recent@ =~= seq![rgba] + self.recent@.take(0).filter(distinct));
        }
        while i < self.recent.len()
            invariant
                i <= self.recent@.len(),
                distinct == (|r: LinearRgba| !nearly_equal(r, rgba)),
                recent@ == seq![rgba] + self.recent@.take(i as int).filter(distinct),
            decreases self.recent@.len() - i,
        {
            let r = self.recent[i];
            proof {
                reveal(Seq::filter);
                assert(self.recent@.take(i + 1).drop_last() =~= self.recent@.take(i as int));
                assert(self.recent@.take(i + 1).last() == r);
            }
            if !linear_rgba_approx_eq(r, rgba) {
                recent.push(r);
                assert(recent@ =~= seq![rgba] + self.recent@.take(i + 1).filter(distinct));
            }
            i += 1;
        }
        assert(self.recent@.take(i as int) =~= self.recent@);
        if recent.len() > RECENT_CAP {
            recent.truncate(RECENT_CAP);
        }
        self.recent = recent;
        assert(self@.recent =~= with_recent(old(self)@.recent, rgba));
    }

    /// Fills the text field where it is empty; `current` is the color of the picker.
    pub fn fill_hex(&mut self, current: (u8, u8, u8))
        ensures
            final(self)@ == (if old(self)@.hex_input.len() == 0 {
                PickerView {
                    hex_input: crate::hex_color::hex_text(current.0, current.1, current.2),
                    ..old(self)@
                }
            } else {
                old(self)@
            }),
    {
        if self.hex_input.as_str().is_empty() {
            self.hex_input = crate::hex_color::format_hex(current.0, current.1, current.2);
        }
    }

    /// The text field was left: without a submission, or with one that names no color, it
    /// goes back to the color `current` of the picker.
    fn reset_hex(&mut self, current: (u8, u8, u8))
        ensures
            final(self)@ == (PickerView {
                hex_input: crate::hex_color::hex_text(current.0, current.1, current.2),
                ..old(self)@
            }),
    {
        self.hex_input = crate::hex_color::format_hex(current.0, current.1, current.2);
    }

    /// The text field after the user had it: what it holds was submitted, or it may still have
    /// the focus. A submission that names a color gives that color. Otherwise, unless the user
    /// is still typing, the field goes back to the color `current` of the picker.
    pub fn hex_edited(&mut self, submitted: bool, has_focus: bool, current: (u8, u8, u8)) -> (res:
        Option<(u8, u8, u8)>)
        ensures
            match res {
                Some(c) => {
                    &&& submitted
                    &&& crate::hex_color::named_color(old(self)@.hex_input) == Some(
                        (c.0 as int, c.1 as int, c.2 as int),
                    )
                },
                None => submitted ==> crate::hex_color::named_color(old(self)@.hex_input) is None,
            },
            final(self)@ == (if res is None && (submitted || !has_focus) {
                PickerView {
                    hex_input: crate::hex_color::hex_text(current.0, current.1, current.2),
                    ..old(self)@
                }
            } else {
                old(self)@
            }),
    {
        if submitted {
            if let Some(color) = crate::hex_color::parse_hex(self.hex_input.as_str()) {
                return Some(color);
            }
            self.reset_hex(current);
        } else if !has_focus {
            self.reset_hex(current);
        }
        None
    }

    /// A color was submitted in the text field; `incoming` is what it is in Okhsl.
    pub fn submit_hex(&mut self, color: (u8, u8, u8), incoming: Okhsl)
        ensures
            final(self)@ == (PickerView {
                hex_input: crate::hex_color::hex_text(color.0, color.1, color.2),
                ..old(self)@.with_adopted(incoming)
            }),
    {
        self.adopt(incoming);
        self.hex_input = crate::hex_color::format_hex(color.0, color.1, color.2);
    }
}

/// What a picked color changes of the brush: its color, but not its opacity `alpha`.
pub fn picked(color: LinearRgba, alpha: Float32) -> (res: BrushAction)
    ensures
        res == BrushAction::SetColor((LinearRgba { a: alpha, ..color })),
{
    BrushAction::SetColor(LinearRgba { a: alpha, ..color })
}

/// Whether no color is nearly equal to a later one that stands before it, and no more than
/// `RECENT_CAP` are held.
pub open spec fn recents_wf(recent: Seq<LinearRgba>) -> bool {
    &&& recent.len() <= RECENT_CAP
    &&& pairwise_distinct(recent)
}

/// Whether no color is nearly equal to one that stands before it.
pub open spec fn pairwise_distinct(recent: Seq<LinearRgba>) -> bool {
    forall|i: int, j: int|
        0 <= i < j < recent.len() ==> !nearly_equal(#[trigger] recent[j], #[trigger] recent[i])
}

proof fn lemma_filter_keeps_distinct(s: Seq<LinearRgba>, keep: spec_fn(LinearRgba) -> bool)
    requires
        pairwise_distinct(s),
    ensures
        pairwise_distinct(s.filter(keep)),
        forall|i: int|
            0 <= i < s.filter(keep).len() ==> keep(#[trigger] s.filter(keep)[i]) && s.contains(
                s.filter(keep)[i],
            ),
    decreases s.len(),
{
    reveal(Seq::filter);
    if s.len() > 0 {
        let front = s.drop_last();
        lemma_filter_keeps_distinct(front, keep);
        let f = s.filter(keep);
        let g = front.filter(keep);
        assert forall|i: int| 0 <= i < f.len() implies keep(#[trigger] f[i]) && s.contains(
            f[i],
        ) by {
            if i < g.len() {
                assert(f[i] == g[i]);
                let k = choose|k: int| 0 <= k < front.len() && front[k] == g[i];
                assert(s[k] == f[i]);
            } else {
                assert(s[s.len() - 1] == f[i]);
            }
        }
        assert forall|i: int, j: int| 0 <= i < j < f.len() implies !nearly_equal(
            #[trigger] f[j],
            #[trigger] f[i],
        ) by {
            assert(f[i] == g[i]);
            if j < g.len() {
                assert(f[j] == g[j]);
            } else {
                assert(f[j] == s[s.len() - 1]);
                let k = choose|k: int| 0 <= k < front.len() && front[k] == g[i];
                assert(s[k] == f[i]);
            }
        }
    }
}

/// Using a color puts it first, keeps the recent colors distinct and within their number.
pub proof fn lemma_recents_stay_distinct(recent: Seq<LinearRgba>, rgba: LinearRgba)
    requires
        recents_wf(recent),
    ensures
        recents_wf(with_recent(recent, rgba)),
        with_recent(recent, rgba)[0] == rgba,
{
    let keep = |r: LinearRgba| !nearly_equal(r, rgba);
    lemma_filter_keeps_distinct(recent, keep);
    let f = recent.filter(keep);
    let all = seq![rgba] + f;
    assert(pairwise_distinct(all)) by {
        assert forall|i: int, j: int| 0 <= i < j < all.len() implies !nearly_equal(
            #[trigger] all[j],
            #[trigger] all[i],
        ) by {
            assert(all[j] == f[j - 1]);
            if i > 0 {
                assert(all[i] == f[i - 1]);
            }
        }
    }
}

} // verus!
