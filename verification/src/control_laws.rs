//! What the controls and the mouse do to the document and to the picker: a control changes what it
//! is for, and the pressed mouse draws where it goes.

use crate::brush::{BrushParams, BrushType, ONE};
use crate::brush_panel::{self, type_choice};
use crate::color_picker::{PickerView, ScreenRect, FULL_TURN};
use crate::command_laws::{
    in_unit, lemma_layer_blend_mode_is_read_back, lemma_layer_opacity_is_read_back,
    lemma_layer_visibility_is_read_back, spoken_of,
};
use crate::document::has_layer;
use crate::engine::{Command, EngineView};
use crate::float32::near::{
    lemma_difference_near, lemma_product_near, lemma_sum_near, modest, near, unit,
};
use crate::float32::Float32;
use crate::float64::error::{distance, size};
use crate::geometry::Point;
use crate::ids::{LayerId, StrokeId};
use crate::layer::{BlendMode, Layer};
use crate::layers_panel::{self, eye_click, mode_choice, name_click};
use crate::panel_laws::{
    lemma_across_is_part_of_the_width, lemma_percent_is_a_hundredth,
    lemma_upward_is_part_of_the_height,
};
use crate::ribbon::extent::moderate_width;
use crate::sample::ToolKind;
use crate::ui::{BrushAction, LayerAction};
use crate::window_input::MouseTool;
use vstd::arithmetic::power2::*;
use vstd::prelude::*;

verus! {

/// The controls of the brush change what they are for: the type that was clicked becomes the type
/// of the brush, and a click on the current one does nothing; the opacity becomes the alpha of the
/// color and leaves its hue alone; the widths are set by their sliders.
pub proof fn lemma_brush_controls_set_the_brush(
    state: EngineView,
    clicked: BrushType,
    opacity: Float32,
    v: Float32,
)
    ensures
        ({
            let brush = state.doc.brush;
            let choice = type_choice(brush.brush_type, clicked);
            let typed = state.after(choice->0.carried_out()).doc.brush;
            let faded = state.after(
                brush_panel::opacity_choice(brush.color, opacity).carried_out(),
            ).doc.brush;
            &&& choice is None <==> clicked == brush.brush_type
            &&& choice is Some ==> typed.brush_type == clicked && typed.color == brush.color
                && typed.max_width == brush.max_width && typed.min_width == brush.min_width
            &&& faded.color.r == brush.color.r
            &&& faded.color.g == brush.color.g
            &&& faded.color.b == brush.color.b
            &&& in_unit(opacity) ==> faded.color.a == opacity
            &&& opacity.below(Float32(0)) ==> faded.color.a == Float32(0)
            &&& Float32(ONE).below(opacity) ==> faded.color.a == Float32(ONE)
            &&& faded.brush_type == brush.brush_type
            &&& faded.max_width == brush.max_width
            &&& state.after(BrushAction::SetMaxWidth(v).carried_out()) == state.after(
                Command::SetBrushMaxWidth(v),
            )
            &&& state.after(BrushAction::SetMinRatio(v).carried_out()) == state.after(
                Command::SetBrushMinRatio(v),
            )
        }),
{
}

/// The eye of a layer turns its visibility over and leaves its opacity alone.
pub proof fn lemma_eye_turns_visibility_over(state: EngineView, layer: Layer, i: int)
    requires
        spoken_of(state, layer.id, i),
        state.doc.layers[i] == layer@,
    ensures
        ({
            let after = state.after(eye_click(layer).carried_out());
            &&& after.doc.layers[i].visible == !layer.visible
            &&& after.doc.layers[i].opacity == layer.opacity
        }),
{
    lemma_layer_visibility_is_read_back(state, layer.id, !layer.visible, i);
}

/// A click on the name of a layer makes it the active one; on that of the active layer it does
/// nothing.
pub proof fn lemma_name_makes_active(state: EngineView, layer: Layer, i: int)
    requires
        spoken_of(state, layer.id, i),
        state.doc.layers[i] == layer@,
    ensures
        ({
            let click = name_click(layer, state.doc.active_layer);
            let after = state.after(click->0.carried_out());
            &&& click is None <==> state.doc.active_layer == layer.id
            &&& click is Some ==> after.doc.active_layer == layer.id
            &&& click is Some ==> after.doc.layers == state.doc.layers
        }),
{
    assert(state.doc.layers[i].id == layer.id);
    assert(has_layer(state.doc.layers, layer.id));
}

/// The slider of a layer sets its opacity, kept from 0 to 1, and leaves its visibility alone.
pub proof fn lemma_slider_sets_the_opacity(
    state: EngineView,
    layer: Layer,
    i: int,
    opacity: Float32,
)
    requires
        spoken_of(state, layer.id, i),
        state.doc.layers[i] == layer@,
    ensures
        ({
            let after = state.after(layers_panel::opacity_choice(layer, opacity).carried_out());
            &&& in_unit(opacity) ==> after.doc.layers[i].opacity == opacity
            &&& opacity.below(Float32(0)) ==> after.doc.layers[i].opacity == Float32(0)
            &&& Float32(ONE).below(opacity) ==> after.doc.layers[i].opacity == Float32(ONE)
            &&& after.doc.layers[i].visible == layer.visible
        }),
{
    let limited = opacity.clamped(Float32(0), Float32(ONE));
    lemma_layer_opacity_is_read_back(state, layer.id, limited, i);
    assert(in_unit(Float32(0)) && in_unit(Float32(ONE)));
}

/// A click on a blend mode sets it and leaves the opacity alone; on the layer's own mode it does
/// nothing.
pub proof fn lemma_mode_is_set(state: EngineView, layer: Layer, i: int, clicked: BlendMode)
    requires
        spoken_of(state, layer.id, i),
        state.doc.layers[i] == layer@,
    ensures
        ({
            let click = mode_choice(layer, clicked);
            let after = state.after(click->0.carried_out());
            &&& click is None <==> clicked == layer.blend_mode
            &&& click is Some ==> after.doc.layers[i].blend_mode == clicked
            &&& click is Some ==> after.doc.layers[i].opacity == layer.opacity
        }),
{
    lemma_layer_blend_mode_is_read_back(state, layer.id, clicked, i);
}

/// Actions on the layers are carried out by the commands of the same name.
pub proof fn lemma_layer_actions_are_carried_out(
    id: LayerId,
    index: usize,
    name: String,
)
    ensures
        LayerAction::RemoveLayer(id).carried_out() == (Command::RemoveLayer { id }),
        (LayerAction::MoveLayer { id, new_index: index }).carried_out() == (Command::MoveLayer {
            id,
            new_index: index,
        }),
        (LayerAction::AddLayer { name }).carried_out() == (Command::AddLayer { name }),
        LayerAction::SetActiveLayer(id).carried_out() == (Command::SetActiveLayer { id }),
{
}

/// The mouse draws where it goes: pressed on the page it begins a stroke there with the brush that
/// it was given, moved while pressed it adds where it went, and released it ends the stroke.
/// Moved while not pressed it draws nothing.
pub proof fn lemma_pressed_mouse_draws(
    state: EngineView,
    tool: MouseTool,
    start: Point,
    position: Point,
    next: Point,
    first_now: u128,
    now: u128,
    brush: BrushParams,
    id: StrokeId,
)
    ensures
        ({
            let (down, begin) = tool.pressed(start, first_now, brush, id);
            let begun = state.after(begin);
            let (dragged, add) = down.dragged(position, next, now);
            let drawn = begun.after(add->0);
            let (up, end) = dragged.released();
            let ended = drawn.after(end->0);
            let samples = drawn.doc.active->0.samples;
            &&& down.wf() && dragged.wf() && up.wf()
            &&& down.mouse_down && dragged.mouse_down && !up.mouse_down
            &&& down.cursor == tool.cursor
            &&& dragged.cursor == Some(position)
            &&& begun.doc.active is Some
            &&& begun.doc.active->0.id == id
            &&& begun.doc.active->0.brush == brush
            &&& add is Some
            &&& drawn.doc.active->0.id == id
            &&& samples.len() == 2
            &&& samples[0].position == start && samples[0].timestamp == first_now
            &&& samples[1].position == next && samples[1].timestamp == now
            &&& samples[0].tool == ToolKind::Mouse && samples[1].tool == ToolKind::Mouse
            &&& samples[0].pressure == Float32(ONE) && samples[1].pressure == Float32(ONE)
            &&& end is Some
            &&& ended.doc.active is None
            &&& !tool.mouse_down ==> tool.dragged(position, next, now).1 is None
            &&& tool.dragged(position, next, now).0.cursor == Some(position)
            &&& tool.active_stroke is None ==> tool.released().1 is None
        }),
{
}

proof fn lemma_units()
    ensures
        unit() >= 0x100_0000_0000_0000,
        Float32(ONE).value() == unit(),
        Float32(FULL_TURN).value() == 360 * unit(),
        Float32(FULL_TURN).finite(),
{
    lemma2_to64();
    lemma2_to64_rest();
    lemma_pow2_strictly_increases(56, 149);
    crate::float32::lemma_value_of_one();
    let m: int = 0x43b4_0000;
    assert(m / 0x80_0000 == 135 && m % 0x80_0000 == 0x34_0000);
    lemma_pow2_adds(134, 15);
    assert(unit() == 0x8000 * pow2(134));
}

/// A point on the plane that is picked sets the saturation by how far right it lies and the
/// lightness by how far up; the hue stays.
pub proof fn lemma_plane_sets_saturation_and_lightness(
    picker: PickerView,
    x: Float32,
    y: Float32,
    rect: ScreenRect,
)
    requires
        rect.width.finite() && !rect.width.negative(),
        0 < rect.width.value() <= 0x8_0000 * unit(),
        rect.height.finite() && !rect.height.negative(),
        0 < rect.height.value() <= 0x8_0000 * unit(),
        rect.x.finite() && size(rect.x.value()) <= 0x4_0000 * unit(),
        rect.y.finite() && size(rect.y.value()) <= 0x4_0000 * unit(),
        x.finite() && size(x.value()) <= 0x4_0000 * unit(),
        y.finite() && size(y.value()) <= 0x4_0000 * unit(),
        rect.x.value() < x.value() <= rect.x.value() + rect.width.value(),
        rect.y.value() < y.value() <= rect.y.value() + rect.height.value(),
    ensures
        ({
            let after = picker.picked_on_plane(x, y, rect);
            let w = rect.width.value();
            let h = rect.height.value();
            let right = x.value() - rect.x.value();
            let up = rect.y.value() + h - y.value();
            &&& after.okhsl.hue == picker.okhsl.hue
            &&& after.plane_hue_cache == picker.plane_hue_cache
            &&& after.recent == picker.recent
            &&& 0x20_0000 * distance(after.okhsl.saturation.value() * w, right * unit()) <= right
                * unit() + 0x20_0000 * (w + 2 * unit())
            &&& 0x10_0000 * distance(after.okhsl.lightness.value() * h, up * unit()) <= h * unit()
                + 0x40_0000 * (h + unit())
        }),
{
    lemma_across_is_part_of_the_width(rect, x);
    lemma_upward_is_part_of_the_height(rect, y);
}

/// The percentages set the lightness and the saturation to that many hundredths, and nothing else
/// of the color.
pub proof fn lemma_percentages_set_their_part(picker: PickerView, percent: Float32)
    requires
        moderate_width(percent),
        !percent.negative(),
        percent.value() <= 100 * unit(),
    ensures
        ({
            let light = picker.with_lightness(percent).okhsl;
            let vivid = picker.with_saturation(percent).okhsl;
            let slack = percent.value() + 0x20_0000 * 100;
            &&& light.hue == picker.okhsl.hue && vivid.hue == picker.okhsl.hue
            &&& light.saturation == picker.okhsl.saturation
            &&& vivid.lightness == picker.okhsl.lightness
            &&& 0x20_0000 * distance(100 * light.lightness.value(), percent.value()) <= slack
            &&& 0x20_0000 * distance(100 * vivid.saturation.value(), percent.value()) <= slack
        }),
{
    lemma_percent_is_a_hundredth(percent);
}

proof fn lemma_strip_arithmetic(a: int, exact: int, z: int, w: int, u: int)
    requires
        u >= 0x100_0000_0000_0000,
        0 < w,
        0 <= exact <= w,
        0 <= a <= u,
        0x20_0000 * distance(a * w, exact * u) <= exact * u + 0x20_0000 * (w + 2 * u),
        near(z * u, a * (360 * u), u),
    ensures
        0x1000 * distance(z * w, 360 * (exact * u)) <= w * u + 4_096_000 * (w + u),
{
    let a3 = 360 * a;
    assert(a * (360 * u) == a3 * u) by (nonlinear_arith)
        requires
            a3 == 360 * a,
    ;
    let o = z - a3;
    assert(z * u - a3 * u == o * u && a3 * u >= 0) by (nonlinear_arith)
        requires
            o == z - a3,
            a3 >= 0,
            u > 0,
    ;
    let m = a3 + 0x80_0000;
    assert(m * u == a3 * u + 0x80_0000 * u) by (nonlinear_arith)
        requires
            m == a3 + 0x80_0000,
    ;
    assert(-m <= 0x80_0000 * o <= m) by (nonlinear_arith)
        requires
            -(m * u) <= 0x80_0000 * (o * u) <= m * u,
            u > 0,
    ;
    let aw = a * w;
    let ow = o * w;
    let wu = w * u;
    let eu = exact * u;
    assert(z * w == 360 * aw + ow) by (nonlinear_arith)
        requires
            o == z - a3,
            a3 == 360 * a,
            aw == a * w,
            ow == o * w,
    ;
    assert(0 <= aw <= wu && 0 <= eu <= wu) by (nonlinear_arith)
        requires
            aw == a * w,
            wu == w * u,
            eu == exact * u,
            0 <= a <= u,
            0 <= exact <= w,
            w > 0,
            u > 0,
    ;
    assert(-(360 * aw + 0x80_0000 * w) <= 0x80_0000 * ow <= 360 * aw + 0x80_0000 * w)
        by (nonlinear_arith)
        requires
            ow == o * w,
            aw == a * w,
            m == 360 * a + 0x80_0000,
            -m <= 0x80_0000 * o <= m,
            w > 0,
    ;
    let d = aw - eu;
    assert(-(eu + 0x20_0000 * (w + 2 * u)) <= 0x20_0000 * d <= eu + 0x20_0000 * (w + 2 * u));
    assert(0x20_0000 * size(d) <= wu + 0x20_0000 * (w + 2 * u));
    assert(0x20_0000 * (360 * size(d)) <= 360 * wu + 754_974_720 * (w + 2 * u));
    assert(2048 * (0x1000 * size(ow)) <= 360 * wu + 0x80_0000 * w);
    assert(z * w - 360 * eu == 360 * d + ow);
}

/// A point on the strip that is picked sets the hue to the part of a full turn that it lies across
/// the strip; saturation and lightness stay.
pub proof fn lemma_strip_sets_the_hue(picker: PickerView, x: Float32, rect: ScreenRect)
    requires
        rect.width.finite() && !rect.width.negative(),
        0 < rect.width.value() <= 0x8_0000 * unit(),
        rect.x.finite() && size(rect.x.value()) <= 0x4_0000 * unit(),
        x.finite() && size(x.value()) <= 0x4_0000 * unit(),
        rect.x.value() < x.value() <= rect.x.value() + rect.width.value(),
    ensures
        ({
            let after = picker.picked_on_strip(x, rect);
            let w = rect.width.value();
            let right = x.value() - rect.x.value();
            &&& after.okhsl.saturation == picker.okhsl.saturation
            &&& after.okhsl.lightness == picker.okhsl.lightness
            &&& 0x1000 * distance(after.okhsl.hue.value() * w, 360 * (right * unit())) <= w * unit()
                + 4_096_000 * (w + unit())
        }),
{
    lemma_units();
    lemma_across_is_part_of_the_width(rect, x);
    let a = rect.across(x);
    lemma_across_is_a_fraction(rect, x);
    lemma_product_near(a, Float32(FULL_TURN));
    lemma_strip_arithmetic(
        a.value(),
        x.value() - rect.x.value(),
        a.product(Float32(FULL_TURN)).value(),
        rect.width.value(),
        unit(),
    );
}

proof fn lemma_across_is_a_fraction(rect: ScreenRect, x: Float32)
    requires
        rect.width.finite() && !rect.width.negative(),
        0 < rect.width.value(),
        rect.x.finite() && size(rect.x.value()) <= 0x4_0000 * unit(),
        x.finite() && size(x.value()) <= 0x4_0000 * unit(),
        rect.x.value() < x.value() <= rect.x.value() + rect.width.value(),
    ensures
        rect.across(x).finite(),
        0 <= rect.across(x).value() <= unit(),
{
    lemma_units();
    lemma_difference_near(x, rect.x);
    let d = x.difference(rect.x);
    crate::float32::lemma_step(0, 0);
    if d.magnitude() > 0 {
        crate::float32::lemma_magnitude_value_increases(0, d.magnitude());
    }
    crate::float32::near::lemma_quotient_near(d, rect.width);
    let q = d.quotient(rect.width);
    crate::float32::lemma_order_is_order_of_values(q, Float32(0));
    crate::float32::lemma_order_is_order_of_values(Float32(ONE), q);
}

proof fn lemma_crosshair_arithmetic(c: int, s: int, w: int, p: int, z: int, u: int)
    requires
        u >= 0x100_0000_0000_0000,
        0 <= s <= u,
        0 <= w <= 1024 * u,
        near(p * u, s * w, u),
        near(z, c + p, 1),
    ensures
        0x20_0000 * distance(z * u, c * u + s * w) <= (size(c) + w + u) * u,
{
    let k = size(c) + w + u;
    let ku = k * u;
    let sw = s * w;
    let pu = p * u;
    assert(0 <= sw <= w * u && w * u <= ku && 0x100_0000_0000_0000 * u <= ku) by (nonlinear_arith)
        requires
            sw == s * w,
            0 <= s <= u,
            0 <= w,
            w <= k,
            ku == k * u,
            k >= u,
            u >= 0x100_0000_0000_0000,
    ;
    let wu = w * u;
    assert(0x80_0000 * pu <= 0x80_0001 * wu + 0x80_0000 * u && pu >= -u);
    assert(-1 <= p <= w + w + 1) by (nonlinear_arith)
        requires
            pu == p * u,
            wu == w * u,
            0x80_0000 * pu <= 0x80_0001 * wu + 0x80_0000 * u,
            pu >= -u,
            w >= 0,
            u > 0,
    ;
    let o = z - (c + p);
    let ou = o * u;
    assert(0x80_0000 * size(o) <= 2 * k + 0x80_0000 + 1);
    let m = 2 * k + 0x80_0000 + 1;
    assert(-(m * u) <= 0x80_0000 * ou <= m * u && m * u == 2 * ku + 0x80_0001 * u)
        by (nonlinear_arith)
        requires
            ou == o * u,
            -m <= 0x80_0000 * o <= m,
            m == 2 * k + 0x80_0000 + 1,
            ku == k * u,
            u > 0,
    ;
    assert(z * u == c * u + pu + ou) by (nonlinear_arith)
        requires
            o == z - (c + p),
            ou == o * u,
            pu == p * u,
    ;
}

/// The crosshair stands where the color lies on the plane: as far right as it is saturated and as
/// far up as it is light.
pub proof fn lemma_crosshair_marks_the_color(picker: PickerView, rect: ScreenRect)
    requires
        modest(rect.width) && rect.width.value() >= 0,
        modest(rect.height) && rect.height.value() >= 0,
        rect.x.finite() && size(rect.x.value()) <= 0x4_0000 * unit(),
        rect.y.finite() && size(rect.y.value()) <= 0x4_0000 * unit(),
        picker.okhsl.saturation.finite() && 0 <= picker.okhsl.saturation.value() <= unit(),
        picker.okhsl.lightness.finite() && 0 <= picker.okhsl.lightness.value() <= unit(),
    ensures
        ({
            let (x, y) = picker.crosshair(rect);
            let u = unit();
            let w = rect.width.value();
            let h = rect.height.value();
            let s = picker.okhsl.saturation.value();
            let l = picker.okhsl.lightness.value();
            &&& 0x20_0000 * distance(x.value() * u, rect.x.value() * u + s * w) <= (size(
                rect.x.value(),
            ) + w + u) * u
            &&& 0x10_0000 * distance(y.value() * u, rect.y.value() * u + (u - l) * h) <= (size(
                rect.y.value(),
            ) + h + u) * u
        }),
{
    lemma_units();
    let u = unit();
    let w = rect.width;
    let h = rect.height;
    let s = picker.okhsl.saturation;
    let l = picker.okhsl.lightness;
    let zero = Float32(0);
    let one = Float32(ONE);
    crate::float32::lemma_step(0, 0);
    crate::float32::lemma_order_is_order_of_values(s, zero);
    crate::float32::lemma_order_is_order_of_values(one, s);
    crate::float32::lemma_order_is_order_of_values(l, zero);
    crate::float32::lemma_order_is_order_of_values(one, l);
    assert(s.clamped(zero, one) == s && l.clamped(zero, one) == l);
    lemma_mark(rect.x, s, w);
    lemma_difference_near(one, l);
    let d = one.difference(l);
    lemma_rest_is_a_fraction(l);
    lemma_mark(rect.y, d, h);
    let dv = d.value();
    let o = dv - (u - l.value());
    let hv = h.value();
    let oh = o * hv;
    assert(dv * hv == (u - l.value()) * hv + oh) by (nonlinear_arith)
        requires
            o == dv - (u - l.value()),
            oh == o * hv,
    ;
    let m = u + 0x80_0000;
    let hu = hv * u;
    assert(-(m * hv) <= 0x80_0000 * oh <= m * hv && m * hv == hu + 0x80_0000 * hv && 0x80_0000 * hv
        <= hu) by (nonlinear_arith)
        requires
            oh == o * hv,
            -m <= 0x80_0000 * o <= m,
            m == u + 0x80_0000,
            hu == hv * u,
            hv >= 0,
            u >= 0x80_0000,
    ;
    let k = size(rect.y.value()) + hv + u;
    assert(hu <= k * u) by (nonlinear_arith)
        requires
            hu == hv * u,
            hv <= k,
            u > 0,
    ;
}

/// What a part lacks to 1 is a part.
proof fn lemma_rest_is_a_fraction(l: Float32)
    requires
        l.finite(),
        0 <= l.value() <= unit(),
    ensures
        Float32(ONE).difference(l).finite(),
        0 <= Float32(ONE).difference(l).value() <= unit(),
{
    lemma_units();
    let one = Float32(ONE);
    lemma_difference_near(one, l);
    let d = one.difference(l);
    crate::float32::lemma_step(0, 0);
    crate::float32::lemma_order_is_order_of_values(Float32(0), l);
    crate::float32::lemma_order_is_order_of_values(l, one);
    if l.value() == 0 {
        assert(l.negated().value() == 0 && Float32(0).negated().value() == 0);
        assert(d == one.difference(Float32(0)));
        crate::float32::identities::lemma_one_minus_fraction(Float32(0));
    } else {
        crate::float32::identities::lemma_one_minus_fraction(l);
    }
    crate::float32::lemma_order_is_order_of_values(Float32(0), d);
    crate::float32::lemma_order_is_order_of_values(d, one);
}

proof fn lemma_mark(c: Float32, s: Float32, w: Float32)
    requires
        c.finite() && size(c.value()) <= 0x4_0000 * unit(),
        s.finite() && 0 <= s.value() <= unit(),
        modest(w) && w.value() >= 0,
    ensures
        0x20_0000 * distance(
            c.sum(s.product(w)).value() * unit(),
            c.value() * unit() + s.value() * w.value(),
        ) <= (size(c.value()) + w.value() + unit()) * unit(),
{
    lemma_units();
    let u = unit();
    lemma_product_near(s, w);
    let p = s.product(w);
    let (pv, sv, wv) = (p.value(), s.value(), w.value());
    let pu = pv * u;
    let sw = sv * wv;
    let wu = wv * u;
    assert(0 <= sw <= wu) by (nonlinear_arith)
        requires
            sw == sv * wv,
            wu == wv * u,
            0 <= sv <= u,
            0 <= wv,
    ;
    assert(-1 <= pv <= 2 * wv + 1) by (nonlinear_arith)
        requires
            pu == pv * u,
            wu == wv * u,
            0x80_0000 * pu <= 0x80_0001 * wu + 0x80_0000 * u,
            pu >= -u,
            wv >= 0,
            u > 0,
    ;
    lemma_sum_near(c, p);
    lemma_crosshair_arithmetic(c.value(), sv, wv, pv, c.sum(p).value(), u);
}

} // verus!
