//! The color picker and hexadecimal colors.

use art_junk::brush::LinearRgba;
use art_junk::color_picker::{
    linear_rgba_approx_eq, picked, plane_pixel, strip_hue, Okhsl, PickerState, ScreenRect,
    RECENT_CAP,
};
use art_junk::float32::Float32;
use art_junk::hex_color::{format_hex, is_white_space, parse_hex};
use art_junk::srgb::{decode_bases, Channels};
use art_junk::ui::BrushAction;

fn f(x: f32) -> Float32 {
    Float32::from_bits(x.to_bits())
}

fn v(x: Float32) -> f32 {
    f32::from_bits(x.to_bits())
}

fn raised(c: Channels, exponent: f32) -> Channels {
    let channel = |x: Float32| f(f32::from_bits(x.to_bits()).powf(exponent));
    Channels { r: channel(c.r), g: channel(c.g), b: channel(c.b) }
}

fn from_srgb8(c: [u8; 4]) -> LinearRgba {
    LinearRgba::from_srgb8(c, raised(decode_bases(c), 2.4))
}

fn parsed(s: &str) -> Option<LinearRgba> {
    parse_hex(s).map(|(r, g, b)| from_srgb8([r, g, b, 255]))
}

fn gray(x: f32) -> LinearRgba {
    LinearRgba::new(f(x), f(x), f(x), f(1.0))
}

fn okhsl(hue: f32, saturation: f32, lightness: f32) -> Okhsl {
    Okhsl { hue: f(hue), saturation: f(saturation), lightness: f(lightness) }
}

fn plane() -> ScreenRect {
    ScreenRect { x: f(10.0), y: f(20.0), width: f(200.0), height: f(100.0) }
}

#[test]
fn parse_hex_accepts_common_forms() {
    assert_eq!(parsed("#ff8040"), Some(from_srgb8([0xff, 0x80, 0x40, 255])));
    assert_eq!(parsed("FF8040"), Some(from_srgb8([0xff, 0x80, 0x40, 255])));
    assert_eq!(parsed("  #000000  "), Some(from_srgb8([0, 0, 0, 255])));
}

#[test]
fn parse_hex_rejects_malformed() {
    assert_eq!(parsed(""), None);
    assert_eq!(parsed("#12345"), None);
    assert_eq!(parsed("#1234567"), None);
    assert_eq!(parsed("#gg0000"), None);
}

#[test]
fn parse_hex_edge_cases() {
    assert_eq!(parse_hex("##0a0B0c"), Some((10, 11, 12)));
    assert_eq!(parse_hex("+f+1+0"), Some((15, 1, 0)));
    assert_eq!(parse_hex("-1-1-1"), None);
    assert_eq!(parse_hex("# 12345"), None);
    assert_eq!(parse_hex("\u{3000}\t#123456\u{a0}\n"), Some((0x12, 0x34, 0x56)));
    assert_eq!(parse_hex("ééé"), None);
    assert_eq!(parse_hex("#a€bc"), None);
    assert_eq!(parse_hex("aébcd"), None);
    assert_eq!(parse_hex("#"), None);
}

#[test]
fn reading_a_written_color_gives_it_back() {
    assert_eq!(format_hex(255, 128, 64), "#FF8040");
    assert_eq!(format_hex(0, 1, 15), "#00010F");
    for r in [0_u8, 1, 9, 10, 15, 16, 99, 171, 255] {
        for g in [0_u8, 127, 250] {
            for b in [3_u8, 255] {
                assert_eq!(parse_hex(&format_hex(r, g, b)), Some((r, g, b)));
            }
        }
    }
}

#[test]
fn white_space_is_that_of_unicode() {
    for n in 0..=0x10_ffff_u32 {
        if let Some(c) = char::from_u32(n) {
            assert_eq!(is_white_space(c), c.is_whitespace(), "{n:#x}");
        }
    }
}

#[test]
fn colors_within_a_thousandth_are_nearly_equal() {
    assert!(linear_rgba_approx_eq(gray(0.5), gray(0.5009)));
    assert!(!linear_rgba_approx_eq(gray(0.5), gray(0.502)));
    let faint = LinearRgba::new(f(0.5), f(0.5), f(0.5), f(0.9));
    assert!(!linear_rgba_approx_eq(gray(0.5), faint));
    assert!(!linear_rgba_approx_eq(gray(f32::NAN), gray(f32::NAN)));
}

#[test]
fn sync_keeps_what_the_picker_would_produce_itself() {
    let mut state = PickerState::default();
    state.set_hue(f(120.0));
    state.plane_painted(f(120.0));
    state.sync_from_engine(gray(0.5), gray(0.5), okhsl(0.0, 0.0, 0.5));
    assert_eq!(state.okhsl, okhsl(120.0, 0.0, 0.0));
    assert_eq!(state.plane_hue_cache, Some(f(120.0)));
}

#[test]
fn sync_keeps_the_hue_for_a_neutral_color_only() {
    let mut state = PickerState::default();
    state.set_hue(f(120.0));
    state.sync_from_engine(gray(0.5), gray(0.0), okhsl(33.0, 0.00005, 0.7));
    assert_eq!(state.okhsl, okhsl(120.0, 0.00005, 0.7));
    state.sync_from_engine(gray(0.5), gray(0.0), okhsl(33.0, 0.5, 0.7));
    assert_eq!(state.okhsl, okhsl(33.0, 0.5, 0.7));
    assert_eq!(state.plane_hue_cache, None);
}

#[test]
fn the_plane_maps_to_saturation_and_lightness() {
    let mut state = PickerState::default();
    state.set_hue(f(200.0));
    state.pick_on_plane(f(60.0), f(45.0), plane());
    assert_eq!(state.okhsl, okhsl(200.0, 0.25, 0.75));
    let (x, y) = state.plane_position(plane());
    assert_eq!((v(x), v(y)), (60.0, 45.0));
    state.pick_on_plane(f(-500.0), f(9000.0), plane());
    assert_eq!(state.okhsl, okhsl(200.0, 0.0, 0.0));
}

#[test]
fn the_strip_maps_to_a_full_turn() {
    let mut state = PickerState::default();
    state.plane_painted(f(0.0));
    state.pick_on_strip(f(110.0), plane());
    assert_eq!(v(state.okhsl.hue), 180.0);
    assert_eq!(state.plane_hue_cache, None);
    state.pick_on_strip(f(1e9), plane());
    assert_eq!(v(state.okhsl.hue), 360.0);
}

#[test]
fn percentages_are_limited() {
    let mut state = PickerState::default();
    state.set_lightness(f(50.0));
    state.set_saturation(f(130.0));
    assert_eq!(state.okhsl, okhsl(0.0, 1.0, 0.5));
    assert_eq!(v(state.lightness_percent()), 50.0);
    assert_eq!(v(state.saturation_percent()), 100.0);
    state.set_lightness(f(-3.0));
    assert_eq!(v(state.okhsl.lightness), 0.0);
}

#[test]
fn the_plane_is_painted_when_it_has_to_be() {
    let mut state = PickerState::default();
    assert!(state.plane_needs_paint(true, f(0.0)));
    state.plane_painted(f(10.0));
    assert!(!state.plane_needs_paint(true, f(10.5)));
    assert!(state.plane_needs_paint(true, f(10.75)));
    assert!(state.plane_needs_paint(true, f(9.25)));
    assert!(state.plane_needs_paint(false, f(10.0)));
}

#[test]
fn recent_colors_are_distinct_and_few() {
    let mut state = PickerState::default();
    for i in 0..20_u8 {
        state.push_recent(gray(f32::from(i) * 0.01));
    }
    assert_eq!(state.recent.len(), RECENT_CAP);
    assert_eq!(state.recent[0], gray(0.19));
    assert_eq!(state.recent[11], gray(0.08));
    state.push_recent(gray(0.1503));
    assert_eq!(state.recent.len(), RECENT_CAP);
    assert_eq!(state.recent[0], gray(0.1503));
    assert!(!state.recent[1..].contains(&gray(0.15)));
}

#[test]
fn the_text_field_follows_the_color() {
    let mut state = PickerState::default();
    state.fill_hex((1, 2, 3));
    assert_eq!(state.hex_input, "#010203");
    state.fill_hex((9, 9, 9));
    assert_eq!(state.hex_input, "#010203");
    assert_eq!(state.hex_edited(false, false, (9, 9, 9)), None);
    assert_eq!(state.hex_input, "#090909");
    state.submit_hex((255, 0, 16), okhsl(40.0, 0.9, 0.6));
    assert_eq!(state.hex_input, "#FF0010");
    assert_eq!(state.okhsl, okhsl(40.0, 0.9, 0.6));
    state.adopt(okhsl(50.0, 0.4, 0.6));
    assert_eq!(state.hex_input, "");
}

#[test]
fn a_submission_is_read_or_undone() {
    let mut state = PickerState::default();
    state.hex_input = " #0a14ff ".to_string();
    assert_eq!(state.hex_edited(false, true, (1, 2, 3)), None);
    assert_eq!(state.hex_input, " #0a14ff ");
    assert_eq!(state.hex_edited(true, false, (1, 2, 3)), Some((10, 20, 255)));
    assert_eq!(state.hex_input, " #0a14ff ");
    state.hex_input = "no color".to_string();
    assert_eq!(state.hex_edited(true, false, (1, 2, 3)), None);
    assert_eq!(state.hex_input, "#010203");
}

#[test]
fn the_picker_folds_and_unfolds() {
    let mut state = PickerState::default();
    assert!(state.expanded);
    state.toggle_expanded();
    assert!(!state.expanded);
}

#[test]
fn the_plane_and_the_strip_span_their_ranges() {
    let corner = plane_pixel(0, 0, f(30.0));
    assert_eq!((v(corner.hue), v(corner.saturation), v(corner.lightness)), (30.0, 0.0, 1.0));
    let corner = plane_pixel(127, 127, f(30.0));
    assert_eq!((v(corner.saturation), v(corner.lightness)), (1.0, 0.0));
    let inner = plane_pixel(10, 30, f(0.0));
    assert_eq!(v(inner.saturation), 10.0_f32 / 127.0);
    assert_eq!(v(inner.lightness), 1.0_f32 - 30.0 / 127.0);
    assert_eq!(v(strip_hue(0)), 0.0);
    assert_eq!(v(strip_hue(159)), 360.0);
    assert_eq!(v(strip_hue(40)), 360.0_f32 * 40.0 / 159.0);
    let (left, right) = plane().strip_column(40);
    assert_eq!(v(left), 10.0_f32 + 40.0 / 160.0 * 200.0);
    assert_eq!(v(right), 10.0_f32 + 41.0 / 160.0 * 200.0);
    assert_eq!(v(plane().hue_marker(f(90.0))), 10.0_f32 + 90.0 / 360.0 * 200.0);
}

#[test]
fn a_pick_leaves_the_opacity_of_the_brush() {
    let color = LinearRgba::new(f(0.1), f(0.2), f(0.3), f(1.0));
    let expected = LinearRgba::new(f(0.1), f(0.2), f(0.3), f(0.25));
    assert_eq!(picked(color, f(0.25)), BrushAction::SetColor(expected));
}
