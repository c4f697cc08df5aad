//! Putting a frame together.

use art_junk::brush::{BrushParams, BrushType, LinearRgba};
use art_junk::compositor::{
    brush_program, deposits, kept_layers, BrushPass, BrushProgram, Compositor, Deposit,
};
use art_junk::float32::Float32;
use art_junk::geometry::Point;
use art_junk::ids::{LayerId, StrokeId};
use art_junk::layer::{BlendMode, Layer, Stroke};
use art_junk::pigment::brush_uniforms;
use art_junk::sample::{PointerId, Sample, ToolCaps};
use art_junk::uniforms::blend_uniform_bytes;

fn f(x: f32) -> Float32 {
    Float32::from_bits(x.to_bits())
}

fn id(n: u64) -> LayerId {
    LayerId::from_raw(n)
}

fn stroke(n: u64, samples: usize) -> Stroke {
    Stroke {
        id: StrokeId(n),
        samples: vec![Sample::mouse(Point::zero(), 0, PointerId::mouse()); samples],
        caps: ToolCaps::empty(),
        brush: BrushParams::default(),
    }
}

fn layer(n: u64, visible: bool, strokes: Vec<Stroke>) -> Layer {
    Layer {
        id: id(n),
        name: format!("Layer {n}"),
        strokes,
        blend_mode: BlendMode::Normal,
        opacity: f(1.0),
        visible,
    }
}

#[test]
fn every_brush_type_has_a_program() {
    assert_eq!(brush_program(BrushType::Normal), BrushProgram::Plain);
    assert_eq!(brush_program(BrushType::Highlighter), BrushProgram::Highlighter);
    assert_eq!(brush_program(BrushType::Pigment), BrushProgram::Pigment);
    assert_eq!(brush_program(BrushType::Unknown), BrushProgram::Plain);
}

#[test]
fn textures_are_never_empty() {
    let mut c = Compositor::new(0, 5);
    assert_eq!((c.width(), c.height()), (1, 5));
    assert!(!c.resize(1, 5));
    assert!(!c.resize(0, 5));
    c.begin_frame(&vec![id(1)]);
    assert!(c.has_substrate(id(1)));
    assert!(c.resize(2, 5));
    assert!(!c.has_substrate(id(1)));
    assert_eq!((c.width(), c.height()), (2, 5));
}

#[test]
fn a_frame_keeps_what_it_needs() {
    let mut c = Compositor::new(8, 8);
    let first = c.begin_frame(&vec![id(1), id(2), id(1)]);
    assert_eq!(first.allocated, vec![id(1), id(2)]);
    assert!(first.dropped.is_empty());
    let second = c.begin_frame(&vec![id(3), id(2)]);
    assert_eq!(second.allocated, vec![id(3)]);
    assert_eq!(second.dropped, vec![id(1)]);
    assert!(!c.has_substrate(id(1)));
    assert!(c.has_substrate(id(2)));
}

#[test]
fn deposits_swap_the_sides() {
    let mut c = Compositor::new(8, 8);
    c.begin_frame(&vec![id(1), id(2)]);
    let pass = |read, write, program| Some(BrushPass { program, read, write });
    assert_eq!(c.apply_stroke(id(1), BrushType::Normal), pass(0, 1, BrushProgram::Plain));
    assert_eq!(c.apply_stroke(id(1), BrushType::Pigment), pass(1, 0, BrushProgram::Pigment));
    assert_eq!(
        c.apply_stroke(id(2), BrushType::Highlighter),
        pass(0, 1, BrushProgram::Highlighter)
    );
    assert_eq!(c.apply_stroke(id(9), BrushType::Normal), None);
    c.begin_frame(&vec![id(1), id(2)]);
    assert_eq!(c.apply_stroke(id(2), BrushType::Normal), pass(0, 1, BrushProgram::Plain));
}

#[test]
fn visible_layers_are_blended_bottom_to_top() {
    let mut c = Compositor::new(8, 8);
    let mut layers = vec![
        layer(1, true, vec![]),
        layer(2, false, vec![]),
        layer(3, true, vec![]),
        layer(4, false, vec![]),
        layer(5, true, vec![]),
    ];
    layers[2].blend_mode = BlendMode::Unknown;
    layers[2].opacity = f(7.0);
    layers[3].blend_mode = BlendMode::OklabMix;
    layers[3].opacity = f(-1.0);
    c.begin_frame(&vec![id(1), id(2), id(3), id(4)]);
    c.apply_stroke(id(3), BrushType::Normal);
    let passes = c.composite_layers(&layers, Some(id(4)));
    let shown: Vec<u64> = passes.iter().map(|p| p.layer.raw()).collect();
    assert_eq!(shown, vec![1, 3, 4]);
    assert_eq!(passes[1].mode, BlendMode::Normal);
    assert_eq!(passes[1].opacity, f(1.0));
    assert_eq!(passes[1].substrate, 1);
    assert_eq!(passes[2].mode, BlendMode::OklabMix);
    assert_eq!(passes[2].opacity, f(0.0));
    let sides: Vec<(usize, usize)> = passes.iter().map(|p| (p.read, p.write)).collect();
    assert_eq!(sides, vec![(0, 1), (1, 0), (0, 1)]);
    assert_eq!(c.composite_front(), 1);
}

#[test]
fn a_frame_without_layers_presents_its_first_side() {
    let mut c = Compositor::new(8, 8);
    c.begin_frame(&vec![id(1)]);
    assert!(c.composite_layers(&vec![layer(1, false, vec![])], None).is_empty());
    assert_eq!(c.composite_front(), 0);
}

#[test]
fn strokes_without_samples_leave_no_mark() {
    let layers = vec![
        layer(1, true, vec![stroke(1, 2), stroke(2, 0), stroke(3, 1)]),
        layer(2, true, vec![]),
        layer(3, false, vec![stroke(4, 1)]),
    ];
    assert_eq!(
        deposits(&layers, None),
        vec![Deposit { layer: 0, stroke: 0 }, Deposit { layer: 0, stroke: 2 }]
    );
    assert_eq!(kept_layers(&layers, None), vec![id(1), id(2), id(3)]);
    assert_eq!(kept_layers(&layers, Some(id(7))), vec![id(1), id(2), id(3), id(7)]);
}

#[test]
fn a_hidden_layer_shows_only_the_stroke_being_drawn() {
    let layers = vec![
        layer(1, false, vec![stroke(1, 2), stroke(2, 1)]),
        layer(2, true, vec![stroke(3, 1)]),
    ];
    let drawing = |number| deposits(&layers, Some(StrokeId(number)));
    assert_eq!(deposits(&layers, None), vec![Deposit { layer: 1, stroke: 0 }]);
    assert_eq!(
        drawing(2),
        vec![Deposit { layer: 1, stroke: 0 }, Deposit { layer: 0, stroke: 1 }]
    );
    assert_eq!(drawing(3), vec![Deposit { layer: 1, stroke: 0 }]);
    assert_eq!(drawing(4), vec![Deposit { layer: 1, stroke: 0 }]);
}

#[test]
fn uniforms_are_laid_out_in_memory() {
    let color = LinearRgba::new(f(0.25), f(0.5), f(0.75), f(0.8));
    let u = brush_uniforms(color);
    let mut expected: Vec<u8> = Vec::new();
    for group in [u.brush_lin, u.brush_lo, u.brush_hi] {
        for x in group {
            expected.extend(x.to_bits().to_ne_bytes());
        }
    }
    expected.extend(0.8_f32.to_ne_bytes());
    expected.extend([0_u8; 12]);
    assert_eq!(u.bytes(), expected);
    assert_eq!(u.bytes().len(), 64);

    let mut blend: Vec<u8> = Vec::new();
    blend.extend(0.5_f32.to_ne_bytes());
    blend.extend([0_u8; 12]);
    assert_eq!(blend_uniform_bytes(f(0.5)), blend);
}
