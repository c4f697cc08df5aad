//! Saving a document and loading it back.

use art_junk::brush::{BrushParams, BrushType, LinearRgba, PressureCurve};
use art_junk::document::{DocumentSnapshot, DocumentState, Edit, CURRENT_DOC_VERSION};
use art_junk::float32::Float32;
use art_junk::geometry::{Float64, Page, Point, Size};
use art_junk::ids::{IdCounter, LayerId, StrokeId};
use art_junk::layer::{BlendMode, Layer, Stroke};
use art_junk::sample::{PointerId, Sample, ToolCaps};

fn f(x: f32) -> Float32 {
    Float32::from_bits(x.to_bits())
}

fn d(x: f64) -> Float64 {
    Float64::from_bits(x.to_bits())
}

fn size(width: f64, height: f64) -> Size {
    Size { width: d(width), height: d(height) }
}

fn sample_at(x: f64, y: f64, t_micros: u64) -> Sample {
    Sample::mouse(Point::new(d(x), d(y)), u128::from(t_micros) * 1000, PointerId::mouse())
}

fn snapshot_fixture(ids: &mut IdCounter) -> DocumentSnapshot {
    let mut layer = Layer::new(ids, "Layer 1".to_string());
    layer.strokes = vec![
        Stroke {
            id: StrokeId(1),
            samples: vec![sample_at(0.0, 0.0, 0), sample_at(10.0, 10.0, 1000)],
            caps: ToolCaps::pressure_only(),
            brush: BrushParams::default(),
        },
        Stroke {
            id: StrokeId(42),
            samples: vec![
                sample_at(100.0, 100.0, 2000),
                sample_at(200.0, 150.0, 3000),
                sample_at(250.0, 180.0, 4000),
            ],
            caps: ToolCaps::pressure_only().union(ToolCaps { tilt: true, ..ToolCaps::empty() }),
            brush: BrushParams { color: LinearRgba::black(), ..BrushParams::default() },
        },
    ];
    let active = layer.id;
    DocumentSnapshot {
        doc_version: 2,
        page: Page { size: size(800.0, 600.0), show_bounds: true, clip_to_bounds: false },
        brush: BrushParams {
            min_width: f(1.0),
            max_width: f(12.0),
            curve: PressureCurve::Linear,
            color: LinearRgba::new(f(0.578), f(0.08), f(0.021), f(1.0)),
            brush_type: BrushType::Normal,
        },
        strokes: Vec::new(),
        layers: vec![layer],
        active_layer: Some(active),
    }
}

#[test]
fn document_state_projects_and_loads() {
    let mut ids = IdCounter::new();
    let mut stroke_ids = IdCounter::new();
    let mut state = DocumentState::new(&mut ids);
    state.set_page_size(size(400.0, 300.0));
    state.set_clip_to_bounds(true);
    state.set_brush_max_width(f(8.0));

    let layer = state.active_layer();
    let stroke = Stroke {
        id: StrokeId(5),
        samples: vec![sample_at(1.0, 2.0, 100), sample_at(3.0, 4.0, 200)],
        caps: ToolCaps::empty(),
        brush: state.brush(),
    };
    Edit::AddStroke { stroke: stroke.clone(), layer }.apply(&mut state).unwrap();

    let snap = DocumentSnapshot::from(&state);
    assert_eq!(snap.doc_version, 2);
    assert_eq!(snap.doc_version, CURRENT_DOC_VERSION);
    assert_eq!(snap.layers.len(), 1);
    assert_eq!(snap.layers[0].strokes.len(), 1);
    assert!(snap.strokes.is_empty(), "saves leave the field of version 1 empty");
    assert_eq!(snap.page.size, size(400.0, 300.0));
    assert!(snap.page.clip_to_bounds);

    let reloaded = DocumentState::from(snap, &mut ids, &mut stroke_ids);
    assert_eq!(reloaded.committed_strokes().len(), 1);
    assert_eq!(reloaded.committed_strokes()[0].id, StrokeId(5));
    assert!(!reloaded.has_active_stroke());
}

#[test]
fn load_bumps_stroke_id_counter_past_loaded_ids() {
    let mut ids = IdCounter::new();
    let mut stroke_ids = IdCounter::new();
    let mut snap = snapshot_fixture(&mut ids);
    snap.layers[0].strokes.push(Stroke {
        id: StrokeId(10_000),
        samples: vec![sample_at(0.0, 0.0, 0)],
        caps: ToolCaps::empty(),
        brush: BrushParams::default(),
    });
    let _state = DocumentState::from(snap, &mut ids, &mut stroke_ids);
    let next = StrokeId::next(&mut stroke_ids);
    assert!(next.0 > 10_000, "StrokeId::next() returned {next:?}, expected > 10000");
}

#[test]
fn load_bumps_layer_id_counter_past_loaded_ids() {
    let mut ids = IdCounter::new();
    let mut stroke_ids = IdCounter::new();
    let huge = LayerId::from_raw(99_999);
    let snap = DocumentSnapshot {
        doc_version: 2,
        page: Page::default(),
        brush: BrushParams::default(),
        strokes: Vec::new(),
        layers: vec![Layer {
            id: huge,
            name: "Loaded".into(),
            strokes: Vec::new(),
            blend_mode: BlendMode::Normal,
            opacity: f(1.0),
            visible: true,
        }],
        active_layer: Some(huge),
    };
    let _state = DocumentState::from(snap, &mut ids, &mut stroke_ids);
    let next = LayerId::next(&mut ids);
    assert!(next.raw() > 99_999, "LayerId::next() returned {}, expected > 99999", next.raw());
}

#[test]
fn load_with_bogus_active_layer_falls_back_to_first_layer() {
    let mut ids = IdCounter::new();
    let mut stroke_ids = IdCounter::new();
    let real_layer = Layer::new(&mut ids, "Layer 1".to_string());
    let real_id = real_layer.id;
    let bogus = LayerId::from_raw(424_242);
    let snap = DocumentSnapshot {
        doc_version: 2,
        page: Page::default(),
        brush: BrushParams::default(),
        strokes: Vec::new(),
        layers: vec![real_layer],
        active_layer: Some(bogus),
    };
    let state = DocumentState::from(snap, &mut ids, &mut stroke_ids);
    assert_eq!(state.active_layer(), real_id);
}

#[test]
fn active_stroke_is_dropped_on_save() {
    let mut ids = IdCounter::new();
    let mut state = DocumentState::new(&mut ids);
    let active = Stroke {
        id: StrokeId(77),
        samples: vec![sample_at(1.0, 1.0, 0)],
        caps: ToolCaps::empty(),
        brush: state.brush(),
    };
    state.begin_stroke(active);
    assert!(state.has_active_stroke());

    let snap = DocumentSnapshot::from(&state);
    assert!(
        snap.layers.iter().all(|l| l.strokes.iter().all(|s| s.id != StrokeId(77))),
        "active stroke leaked into save"
    );
}

#[test]
fn v1_document_migrates_strokes_into_default_layer() {
    let mut ids = IdCounter::new();
    let mut stroke_ids = IdCounter::new();
    let strokes = vec![
        Stroke {
            id: StrokeId(7),
            samples: vec![sample_at(1.0, 1.0, 0)],
            caps: ToolCaps::empty(),
            brush: BrushParams::default(),
        },
        Stroke {
            id: StrokeId(8),
            samples: vec![sample_at(2.0, 2.0, 100)],
            caps: ToolCaps::empty(),
            brush: BrushParams::default(),
        },
    ];
    let v1_snap = DocumentSnapshot {
        doc_version: 1,
        page: Page::default(),
        brush: BrushParams::default(),
        strokes,
        layers: Vec::new(),
        active_layer: None,
    };
    let reloaded = DocumentState::from(v1_snap, &mut ids, &mut stroke_ids);
    assert_eq!(reloaded.layers().len(), 1);
    assert_eq!(reloaded.layers()[0].name, "Layer 1");
    assert_eq!(reloaded.layers()[0].strokes.len(), 2);
    assert_eq!(reloaded.active_layer(), reloaded.layers()[0].id);
}

#[test]
fn loading_what_was_saved_gives_the_document_back() {
    let mut ids = IdCounter::new();
    let mut stroke_ids = IdCounter::new();
    let snap = snapshot_fixture(&mut ids);
    let state = DocumentState::from(snap, &mut ids, &mut stroke_ids);
    let first = DocumentSnapshot::from(&state);
    let again = DocumentState::from(DocumentSnapshot::from(&state), &mut ids, &mut stroke_ids);
    let second = DocumentSnapshot::from(&again);
    assert_eq!(first.page, second.page);
    assert_eq!(first.brush, second.brush);
    assert_eq!(first.layers, second.layers);
    assert_eq!(first.active_layer, second.active_layer);
    assert_eq!(second.layers[0].strokes.len(), 2);
    assert_eq!(second.layers[0].strokes[1].samples[2].timestamp, 4_000_000);
}

#[test]
fn an_empty_save_loads_as_one_empty_layer() {
    let mut ids = IdCounter::new();
    let mut stroke_ids = IdCounter::new();
    let snap = DocumentSnapshot {
        doc_version: 1,
        page: Page::default(),
        brush: BrushParams::default(),
        strokes: Vec::new(),
        layers: Vec::new(),
        active_layer: None,
    };
    let state = DocumentState::from(snap, &mut ids, &mut stroke_ids);
    assert_eq!(state.layers().len(), 1);
    assert!(state.layers()[0].strokes.is_empty());
}
