//! The document: edits and their inverses, layers, the stroke being drawn, the brush.

use art_junk::brush::{BrushParams, MAX_WIDTH_MAX, MAX_WIDTH_MIN};
use art_junk::document::{DocumentState, Edit, EditError};
use art_junk::float32::Float32;
use art_junk::geometry::{Float64, Page, Point, Size};
use art_junk::ids::{IdCounter, LayerId, StrokeId};
use art_junk::layer::{Layer, Stroke};
use art_junk::sample::{PointerId, Sample, SampleClass, SampleRevision, ToolCaps};

fn f(x: f32) -> Float32 {
    Float32::from_bits(x.to_bits())
}

fn v(x: Float32) -> f32 {
    f32::from_bits(x.to_bits())
}

fn d(x: f64) -> Float64 {
    Float64::from_bits(x.to_bits())
}

fn size(width: f64, height: f64) -> Size {
    Size { width: d(width), height: d(height) }
}

fn sample_at(x: f64, y: f64) -> Sample {
    Sample::mouse(Point::new(d(x), d(y)), 0, PointerId::mouse())
}

fn stroke(id: u64, points: &[(f64, f64)]) -> Stroke {
    Stroke {
        id: StrokeId(id),
        samples: points.iter().map(|&(x, y)| sample_at(x, y)).collect(),
        caps: ToolCaps::empty(),
        brush: BrushParams::default(),
    }
}

#[test]
fn default_state_has_one_layer_and_active_points_at_it() {
    let mut ids = IdCounter::new();
    let doc = DocumentState::new(&mut ids);
    assert_eq!(doc.layers().len(), 1);
    assert_eq!(doc.active_layer(), doc.layers()[0].id);
    assert_eq!(doc.layers()[0].name, "Layer 1");
}

#[test]
fn add_then_remove_stroke_is_roundtrip() {
    let mut ids = IdCounter::new();
    let mut doc = DocumentState::new(&mut ids);
    let target = doc.active_layer();
    let s = stroke(1, &[(0.0, 0.0), (1.0, 1.0)]);
    let undo = Edit::AddStroke { stroke: s.clone(), layer: target }.apply(&mut doc).unwrap();
    assert_eq!(doc.layers()[0].strokes.len(), 1);
    let redo = undo.apply(&mut doc).unwrap();
    assert!(doc.layers()[0].strokes.is_empty());
    match redo {
        Edit::AddStroke { stroke: restored, layer } => {
            assert_eq!(restored.id, s.id);
            assert_eq!(restored.samples.len(), s.samples.len());
            assert_eq!(layer, target);
        }
        _ => panic!("expected AddStroke as inverse of remove"),
    }
}

#[test]
fn double_undo_via_returned_inverse_is_stable() {
    let mut ids = IdCounter::new();
    let mut doc = DocumentState::new(&mut ids);
    let target = doc.active_layer();
    let inv1 = Edit::AddStroke { stroke: stroke(1, &[(0.0, 0.0)]), layer: target }
        .apply(&mut doc)
        .unwrap();
    let inv2 = Edit::AddStroke { stroke: stroke(2, &[(1.0, 1.0)]), layer: target }
        .apply(&mut doc)
        .unwrap();
    assert_eq!(doc.layers()[0].strokes.len(), 2);
    // Undo in reverse order, as a history stack would.
    let _redo2 = inv2.apply(&mut doc).unwrap();
    let _redo1 = inv1.apply(&mut doc).unwrap();
    assert!(doc.layers()[0].strokes.is_empty());
}

#[test]
fn remove_missing_stroke_returns_typed_error() {
    let mut ids = IdCounter::new();
    let mut doc = DocumentState::new(&mut ids);
    let target = doc.active_layer();
    let result = Edit::RemoveStroke { id: StrokeId(42), layer: target }.apply(&mut doc);
    assert_eq!(result.unwrap_err(), EditError::MissingStroke(StrokeId(42)));
}

#[test]
fn remove_stroke_in_missing_layer_returns_typed_error() {
    let mut ids = IdCounter::new();
    let mut doc = DocumentState::new(&mut ids);
    let bogus = LayerId::next(&mut ids);
    let result = Edit::RemoveStroke { id: StrokeId(1), layer: bogus }.apply(&mut doc);
    assert_eq!(result.unwrap_err(), EditError::MissingLayer(bogus));
}

#[test]
fn snapshot_includes_active_stroke_and_targets_layer_at_begin_time() {
    let mut ids = IdCounter::new();
    let mut doc = DocumentState::new(&mut ids);
    doc.begin_stroke(stroke(7, &[(0.0, 0.0)]));
    let snap = doc.snapshot();
    assert_eq!(snap.strokes.len(), 1);
    assert_eq!(snap.strokes[0].id, StrokeId(7));
    // Active stroke is in the layer that was active when begin_stroke ran.
    let layer = snap.layers.iter().find(|l| l.id == snap.active_layer).unwrap();
    assert_eq!(layer.strokes.len(), 1);
}

#[test]
fn default_page_is_1920x1080_bounded_unclipped() {
    let page = Page::default();
    assert_eq!(page.size, size(1920.0, 1080.0));
    assert!(page.show_bounds);
    assert!(!page.clip_to_bounds);
}

#[test]
fn snapshot_carries_page_state() {
    let mut ids = IdCounter::new();
    let mut doc = DocumentState::new(&mut ids);
    doc.set_show_bounds(false);
    doc.set_clip_to_bounds(true);
    doc.set_page_size(size(800.0, 600.0));
    let snap = doc.snapshot();
    assert_eq!(snap.page.size, size(800.0, 600.0));
    assert!(!snap.page.show_bounds);
    assert!(snap.page.clip_to_bounds);
}

#[test]
fn end_stroke_returns_active_and_target_layer() {
    let mut ids = IdCounter::new();
    let mut doc = DocumentState::new(&mut ids);
    let original_layer = doc.active_layer();
    doc.begin_stroke(stroke(7, &[(0.0, 0.0)]));
    doc.add_sample(StrokeId(7), sample_at(1.0, 1.0));
    let (s, layer) = doc.end_stroke(StrokeId(7)).expect("active stroke");
    assert_eq!(s.samples.len(), 2);
    assert_eq!(layer, original_layer);
    assert!(!doc.has_active_stroke());
}

#[test]
fn end_stroke_targets_layer_active_at_begin_not_at_end() {
    // Live-vs-frozen for layers: switching active layer mid-drag must
    // not redirect the in-flight stroke. The stroke commits to the
    // layer that was active when begin_stroke ran.
    let mut ids = IdCounter::new();
    let mut doc = DocumentState::new(&mut ids);
    let original = doc.active_layer();
    doc.begin_stroke(stroke(7, &[(0.0, 0.0)]));
    let other = doc.add_layer(&mut ids, "Layer 2".to_string());
    doc.set_active_layer(other);
    let (_, target) = doc.end_stroke(StrokeId(7)).expect("active stroke");
    assert_eq!(target, original, "stroke must commit to layer active at BeginStroke time");
}

fn estimated_sample_at(x: f64, y: f64, update_index: u64, pressure: f32) -> Sample {
    let mut s = Sample::mouse(Point::new(d(x), d(y)), 0, PointerId::mouse());
    s.class = SampleClass::Estimated { update_index };
    s.pressure = f(pressure);
    s
}

#[test]
fn revise_sample_updates_active_stroke_and_promotes_to_committed() {
    let mut ids = IdCounter::new();
    let mut doc = DocumentState::new(&mut ids);
    let s = Stroke {
        id: StrokeId(1),
        samples: vec![estimated_sample_at(0.0, 0.0, 42, 0.0)],
        caps: ToolCaps::empty(),
        brush: BrushParams::default(),
    };
    doc.begin_stroke(s);
    let revision = SampleRevision { pressure: Some(f(0.75)), ..SampleRevision::default() };

    assert!(doc.revise_sample(StrokeId(1), 42, revision));

    let active = doc.active_stroke().expect("active stroke");
    assert!((v(active.samples[0].pressure) - 0.75).abs() < f32::EPSILON);
    assert_eq!(active.samples[0].class, SampleClass::Committed);
}

#[test]
fn revise_sample_falls_back_to_last_committed_stroke_in_any_layer() {
    let mut ids = IdCounter::new();
    let mut doc = DocumentState::new(&mut ids);
    let target = doc.active_layer();
    let s = Stroke {
        id: StrokeId(1),
        samples: vec![estimated_sample_at(0.0, 0.0, 99, 0.0)],
        caps: ToolCaps::empty(),
        brush: BrushParams::default(),
    };
    Edit::AddStroke { stroke: s, layer: target }.apply(&mut doc).unwrap();
    let revision = SampleRevision { pressure: Some(f(0.4)), ..SampleRevision::default() };

    assert!(doc.revise_sample(StrokeId(1), 99, revision));
    let layer = doc.layers().iter().find(|l| l.id == target).unwrap();
    assert!((v(layer.strokes[0].samples[0].pressure) - 0.4).abs() < f32::EPSILON);
    assert_eq!(layer.strokes[0].samples[0].class, SampleClass::Committed);
}

#[test]
fn revise_sample_reaches_a_stroke_below_a_later_one() {
    let mut ids = IdCounter::new();
    let mut doc = DocumentState::new(&mut ids);
    let target = doc.active_layer();
    for number in [1, 1, 2] {
        let s = Stroke {
            id: StrokeId(number),
            samples: vec![estimated_sample_at(0.0, 0.0, 99, 0.0)],
            caps: ToolCaps::empty(),
            brush: BrushParams::default(),
        };
        Edit::AddStroke { stroke: s, layer: target }.apply(&mut doc).unwrap();
    }
    let revision = SampleRevision { pressure: Some(f(0.4)), ..SampleRevision::default() };

    assert!(doc.revise_sample(StrokeId(1), 99, revision));
    let pressures = |doc: &DocumentState| -> Vec<f32> {
        let layer = doc.layer(target).unwrap();
        layer.strokes.iter().map(|s| v(s.samples[0].pressure)).collect()
    };
    assert_eq!(pressures(&doc), vec![0.0, 0.4, 0.0]);
    assert!(doc.revise_sample(StrokeId(1), 99, revision));
    assert_eq!(pressures(&doc), vec![0.4, 0.4, 0.0]);
    assert!(!doc.revise_sample(StrokeId(1), 99, revision));
}

#[test]
fn revise_sample_finds_stroke_in_non_active_layer() {
    // A revision can race with EndStroke even after the user switches
    // active layer; the cross-layer scan must still find the stroke
    // and apply the revision (not just return true).
    let mut ids = IdCounter::new();
    let mut doc = DocumentState::new(&mut ids);
    let l1 = doc.active_layer();
    let s = Stroke {
        id: StrokeId(1),
        samples: vec![estimated_sample_at(0.0, 0.0, 99, 0.0)],
        caps: ToolCaps::empty(),
        brush: BrushParams::default(),
    };
    Edit::AddStroke { stroke: s, layer: l1 }.apply(&mut doc).unwrap();
    let l2 = doc.add_layer(&mut ids, "Layer 2".to_string());
    doc.set_active_layer(l2);
    let revision = SampleRevision { pressure: Some(f(0.4)), ..SampleRevision::default() };

    assert!(doc.revise_sample(StrokeId(1), 99, revision));
    let layer = doc.layer(l1).unwrap();
    assert!((v(layer.strokes[0].samples[0].pressure) - 0.4).abs() < f32::EPSILON);
    assert_eq!(layer.strokes[0].samples[0].class, SampleClass::Committed);
}

#[test]
fn revise_sample_is_no_op_when_update_index_missing() {
    let mut ids = IdCounter::new();
    let mut doc = DocumentState::new(&mut ids);
    doc.begin_stroke(stroke(1, &[(0.0, 0.0)])); // Committed sample, no Estimated
    assert!(!doc.revise_sample(StrokeId(1), 99, SampleRevision::default()));
}

#[test]
fn default_brush_matches_brush_params_default() {
    let mut ids = IdCounter::new();
    let doc = DocumentState::new(&mut ids);
    assert_eq!(doc.brush(), BrushParams::default());
}

#[test]
fn set_brush_max_width_preserves_ratio() {
    let mut ids = IdCounter::new();
    let mut doc = DocumentState::new(&mut ids);
    doc.set_brush(BrushParams { min_width: f(2.0), max_width: f(8.0), ..Default::default() });
    doc.set_brush_max_width(f(16.0));
    let b = doc.brush();
    assert!((v(b.max_width) - 16.0).abs() < f32::EPSILON);
    assert!((v(b.min_width) - 4.0).abs() < f32::EPSILON);
}

#[test]
fn set_brush_max_width_clamps_to_bounds() {
    let mut ids = IdCounter::new();
    let mut doc = DocumentState::new(&mut ids);
    doc.set_brush_max_width(f(1000.0));
    assert!((v(doc.brush().max_width) - f32::from_bits(MAX_WIDTH_MAX)).abs() < f32::EPSILON);
    doc.set_brush_max_width(f(-5.0));
    assert!((v(doc.brush().max_width) - f32::from_bits(MAX_WIDTH_MIN)).abs() < f32::EPSILON);
}

#[test]
fn set_brush_max_width_min_equals_max_scales_both() {
    let mut ids = IdCounter::new();
    let mut doc = DocumentState::new(&mut ids);
    doc.set_brush(BrushParams { min_width: f(4.0), max_width: f(4.0), ..Default::default() });
    doc.set_brush_max_width(f(8.0));
    assert!((v(doc.brush().min_width) - 8.0).abs() < f32::EPSILON);
    assert!((v(doc.brush().max_width) - 8.0).abs() < f32::EPSILON);
}

#[test]
fn set_brush_max_width_below_current_min_drags_min_down() {
    let mut ids = IdCounter::new();
    let mut doc = DocumentState::new(&mut ids);
    doc.set_brush(BrushParams { min_width: f(5.0), max_width: f(8.0), ..Default::default() });
    doc.set_brush_max_width(f(3.0));
    let b = doc.brush();
    assert!((v(b.max_width) - 3.0).abs() < f32::EPSILON);
    assert!((v(b.min_width) - 1.875).abs() < 1e-5);
}

#[test]
fn set_brush_min_width_clamps_to_max() {
    let mut ids = IdCounter::new();
    let mut doc = DocumentState::new(&mut ids);
    doc.set_brush(BrushParams { min_width: f(1.0), max_width: f(4.0), ..Default::default() });
    doc.set_brush_min_width(f(10.0));
    assert!((v(doc.brush().min_width) - 4.0).abs() < f32::EPSILON);
    doc.set_brush_min_width(f(-1.0));
    assert!(v(doc.brush().min_width).abs() < f32::EPSILON);
}

#[test]
fn set_brush_min_ratio_maps_to_width() {
    let mut ids = IdCounter::new();
    let mut doc = DocumentState::new(&mut ids);
    doc.set_brush(BrushParams { min_width: f(1.0), max_width: f(4.0), ..Default::default() });
    doc.set_brush_min_ratio(f(0.5));
    assert!((v(doc.brush().min_width) - 2.0).abs() < f32::EPSILON);
    doc.set_brush_min_ratio(f(1.5));
    assert!((v(doc.brush().min_width) - 4.0).abs() < f32::EPSILON);
    doc.set_brush_min_ratio(f(-0.5));
    assert!(v(doc.brush().min_width).abs() < f32::EPSILON);
}

#[test]
fn snapshot_carries_brush() {
    let mut ids = IdCounter::new();
    let mut doc = DocumentState::new(&mut ids);
    doc.set_brush_max_width(f(12.0));
    let snap = doc.snapshot();
    assert!((v(snap.brush.max_width) - 12.0).abs() < f32::EPSILON);
}

#[test]
fn revise_sample_second_revision_is_ignored() {
    let mut ids = IdCounter::new();
    let mut doc = DocumentState::new(&mut ids);
    let s = Stroke {
        id: StrokeId(1),
        samples: vec![estimated_sample_at(0.0, 0.0, 7, 0.0)],
        caps: ToolCaps::empty(),
        brush: BrushParams::default(),
    };
    doc.begin_stroke(s);
    let r1 = SampleRevision { pressure: Some(f(0.5)), ..SampleRevision::default() };
    let r2 = SampleRevision { pressure: Some(f(0.9)), ..SampleRevision::default() };

    assert!(doc.revise_sample(StrokeId(1), 7, r1));
    assert!(!doc.revise_sample(StrokeId(1), 7, r2));

    let active = doc.active_stroke().unwrap();
    assert!((v(active.samples[0].pressure) - 0.5).abs() < f32::EPSILON);
}

#[test]
fn add_layer_appends_with_fresh_id_at_end() {
    let mut ids = IdCounter::new();
    let mut doc = DocumentState::new(&mut ids);
    let l1 = doc.layers()[0].id;
    let l2 = doc.add_layer(&mut ids, "Layer 2".to_string());
    assert_eq!(doc.layers().len(), 2);
    assert_eq!(doc.layers()[1].id, l2);
    assert_ne!(l1, l2);
}

#[test]
fn remove_layer_succeeds_when_more_than_one_remains() {
    let mut ids = IdCounter::new();
    let mut doc = DocumentState::new(&mut ids);
    let l1 = doc.layers()[0].id;
    let l2 = doc.add_layer(&mut ids, "Layer 2".to_string());
    let inv = Edit::RemoveLayer { id: l2 }.apply(&mut doc).unwrap();
    assert_eq!(doc.layers().len(), 1);
    assert_eq!(doc.layers()[0].id, l1);
    match inv {
        Edit::AddLayer { layer, index, was_active } => {
            assert_eq!(layer.id, l2);
            assert_eq!(index, 1);
            assert!(!was_active);
        }
        _ => panic!("expected AddLayer as inverse"),
    }
}

#[test]
fn remove_last_layer_errors() {
    let mut ids = IdCounter::new();
    let mut doc = DocumentState::new(&mut ids);
    let only = doc.layers()[0].id;
    let result = Edit::RemoveLayer { id: only }.apply(&mut doc);
    assert_eq!(result.unwrap_err(), EditError::LastLayer);
}

#[test]
fn remove_active_layer_falls_back_to_sibling() {
    let mut ids = IdCounter::new();
    let mut doc = DocumentState::new(&mut ids);
    let l1 = doc.layers()[0].id;
    let l2 = doc.add_layer(&mut ids, "Layer 2".to_string());
    doc.set_active_layer(l2);
    let inv = Edit::RemoveLayer { id: l2 }.apply(&mut doc).unwrap();
    assert_eq!(doc.active_layer(), l1);
    // And the inverse remembered we were active so undo restores it.
    match inv {
        Edit::AddLayer { was_active, .. } => assert!(was_active),
        _ => panic!("expected AddLayer as inverse"),
    }
}

#[test]
fn undo_remove_active_layer_restores_active() {
    let mut ids = IdCounter::new();
    let mut doc = DocumentState::new(&mut ids);
    let l1 = doc.layers()[0].id;
    let l2 = doc.add_layer(&mut ids, "Layer 2".to_string());
    doc.set_active_layer(l2);
    let inv = Edit::RemoveLayer { id: l2 }.apply(&mut doc).unwrap();
    assert_eq!(doc.active_layer(), l1);
    let _redo = inv.apply(&mut doc).unwrap();
    assert_eq!(doc.active_layer(), l2, "undo of RemoveLayer of the active layer restores it");
}

#[test]
fn move_layer_changes_position_and_inverse_restores() {
    let mut ids = IdCounter::new();
    let mut doc = DocumentState::new(&mut ids);
    let l1 = doc.layers()[0].id;
    let l2 = doc.add_layer(&mut ids, "Layer 2".to_string());
    let l3 = doc.add_layer(&mut ids, "Layer 3".to_string());
    // Move l3 to position 0.
    let inv = Edit::MoveLayer { id: l3, new_index: 0 }.apply(&mut doc).unwrap();
    assert_eq!(doc.layers().iter().map(|l| l.id).collect::<Vec<_>>(), vec![l3, l1, l2]);
    // Undo restores.
    let _redo = inv.apply(&mut doc).unwrap();
    assert_eq!(doc.layers().iter().map(|l| l.id).collect::<Vec<_>>(), vec![l1, l2, l3]);
}

#[test]
fn move_missing_layer_errors() {
    let mut ids = IdCounter::new();
    let mut doc = DocumentState::new(&mut ids);
    let bogus = LayerId::next(&mut ids);
    assert_eq!(
        Edit::MoveLayer { id: bogus, new_index: 0 }.apply(&mut doc).unwrap_err(),
        EditError::MissingLayer(bogus)
    );
}

#[test]
fn move_layer_clamps_out_of_bounds_index() {
    // `Edit::MoveLayer` silently clamps `new_index` to
    // `layers.len() - 1`. Property is documented; this test fences it
    // so a future tweak to error-on-OOB doesn't go unnoticed.
    let mut ids = IdCounter::new();
    let mut doc = DocumentState::new(&mut ids);
    let l1 = doc.layers()[0].id;
    let l2 = doc.add_layer(&mut ids, "Layer 2".to_string());
    // Try to move l1 to index 100 (way past the end).
    let inv = Edit::MoveLayer { id: l1, new_index: 100 }.apply(&mut doc).unwrap();
    assert_eq!(
        doc.layers().iter().map(|l| l.id).collect::<Vec<_>>(),
        vec![l2, l1],
        "out-of-bounds move clamps to last position"
    );
    // Inverse points back to the original position 0.
    match inv {
        Edit::MoveLayer { id, new_index } => {
            assert_eq!(id, l1);
            assert_eq!(new_index, 0);
        }
        _ => panic!("expected MoveLayer as inverse"),
    }
}

#[test]
fn undo_add_layer_clears_active_when_undoing_to_pre_activation() {
    // Engine-level scenario condensed into core: AddLayer (inactive),
    // user activates the new layer via SetActiveLayer (non-undoable),
    // then Undo. Undo applies `Edit::RemoveLayer { id }` against live
    // state — RemoveLayer recomputes `was_active` from current state,
    // so the redo-info correctly remembers that the layer was active
    // when removed.
    let mut ids = IdCounter::new();
    let mut doc = DocumentState::new(&mut ids);
    let l1 = doc.layers()[0].id;
    let l2 = Layer::new(&mut ids, "Layer 2".to_string());
    let new_id = l2.id;
    // Apply AddLayer with was_active=false (matches engine behaviour).
    let undo =
        Edit::AddLayer { layer: l2, index: 1, was_active: false }.apply(&mut doc).unwrap();
    // User activates the new layer outside the Edit machinery.
    doc.set_active_layer(new_id);
    // Now undo — applies the inverse RemoveLayer.
    let redo = undo.apply(&mut doc).unwrap();
    // Active falls back to the only remaining layer.
    assert_eq!(doc.active_layer(), l1);
    // Redo info captures was_active=true, so applying it restores
    // active to the resurrected layer.
    let _ = redo.apply(&mut doc).unwrap();
    assert_eq!(doc.active_layer(), new_id);
}

#[test]
fn add_stroke_to_specific_layer_lands_there_not_in_active() {
    let mut ids = IdCounter::new();
    let mut doc = DocumentState::new(&mut ids);
    let l1 = doc.layers()[0].id;
    let l2 = doc.add_layer(&mut ids, "Layer 2".to_string());
    doc.set_active_layer(l2);
    // Explicit target l1 (not active).
    Edit::AddStroke { stroke: stroke(1, &[(0.0, 0.0)]), layer: l1 }.apply(&mut doc).unwrap();
    let lay1 = doc.layer(l1).unwrap();
    let lay2 = doc.layer(l2).unwrap();
    assert_eq!(lay1.strokes.len(), 1);
    assert_eq!(lay2.strokes.len(), 0);
}

#[test]
fn undo_after_active_layer_switch_targets_original_layer() {
    // Add stroke to L1, switch active to L2, undo. Stroke must come out
    // of L1, not L2 — Edit captures the layer.
    let mut ids = IdCounter::new();
    let mut doc = DocumentState::new(&mut ids);
    let l1 = doc.layers()[0].id;
    let l2 = doc.add_layer(&mut ids, "Layer 2".to_string());
    let inv = Edit::AddStroke { stroke: stroke(1, &[(0.0, 0.0)]), layer: l1 }
        .apply(&mut doc)
        .unwrap();
    doc.set_active_layer(l2);
    let _redo = inv.apply(&mut doc).unwrap(); // Undo the AddStroke
    assert_eq!(doc.layer(l1).unwrap().strokes.len(), 0);
    assert_eq!(doc.layer(l2).unwrap().strokes.len(), 0);
}
