//! Menus and panels.

use art_junk::brush::{BrushParams, BrushType, LinearRgba};
use art_junk::brush_panel;
use art_junk::engine::{Command, HistoryStatus};
use art_junk::float32::Float32;
use art_junk::geometry::Page;
use art_junk::ids::LayerId;
use art_junk::layer::{BlendMode, Layer};
use art_junk::layers_panel;
use art_junk::ui::{Action, BrushAction, LayerAction, ViewAction};

fn f(x: f32) -> Float32 {
    Float32::from_bits(x.to_bits())
}

fn v(x: Float32) -> f32 {
    f32::from_bits(x.to_bits())
}

fn layer(n: u64, name: &str) -> Layer {
    Layer {
        id: LayerId::from_raw(n),
        name: name.to_string(),
        strokes: Vec::new(),
        blend_mode: BlendMode::Normal,
        opacity: f(1.0),
        visible: true,
    }
}

fn id(n: u64) -> LayerId {
    LayerId::from_raw(n)
}

#[test]
fn history_actions_follow_the_history() {
    let both = HistoryStatus { can_undo: true, can_redo: false };
    assert_eq!(Action::all(), vec![Action::Undo, Action::Redo]);
    assert!(Action::Undo.enabled(both));
    assert!(!Action::Redo.enabled(both));
    assert_eq!(Action::Undo.label(), "Undo");
    assert_eq!(Action::Redo.label(), "Redo");
    assert!(matches!(Action::Undo.command(), Command::Undo));
    assert!(matches!(Action::Redo.command(), Command::Redo));
}

#[test]
fn view_actions_name_themselves() {
    let labels: Vec<&str> = ViewAction::menu_entries().iter().map(|a| a.label()).collect();
    assert_eq!(
        labels,
        vec!["Zoom In", "Zoom Out", "Zoom to 100%", "Zoom to Fit", "Reset View"]
    );
    assert_eq!(ViewAction::TogglePageBounds.label(), "Show page bounds");
    assert_eq!(ViewAction::ToggleClipToBounds.label(), "Clip strokes to page");
    let page = Page::default();
    assert!(matches!(
        ViewAction::TogglePageBounds.page_command(page),
        Some(Command::SetShowBounds(false))
    ));
    assert!(matches!(
        ViewAction::ToggleClipToBounds.page_command(page),
        Some(Command::SetClipToBounds(true))
    ));
    assert!(ViewAction::ZoomIn.page_command(page).is_none());
}

#[test]
fn brush_types_are_described() {
    assert_eq!(brush_panel::brush_type_label(BrushType::Pigment), "Pigment (paint)");
    assert_eq!(brush_panel::brush_type_label(BrushType::Unknown), "Unknown (fallback)");
    for brush_type in brush_panel::selectable_brush_types() {
        assert!(!brush_panel::brush_type_label(brush_type).is_empty());
        assert!(brush_panel::brush_type_tooltip(brush_type).len() > 40);
    }
    assert_eq!(
        brush_panel::selectable_brush_types(),
        vec![BrushType::Normal, BrushType::Highlighter, BrushType::Pigment]
    );
}

#[test]
fn brush_controls_become_actions() {
    assert_eq!(
        brush_panel::choose_brush_type(BrushType::Normal, BrushType::Pigment),
        Some(BrushAction::SetBrushType(BrushType::Pigment))
    );
    assert_eq!(brush_panel::choose_brush_type(BrushType::Normal, BrushType::Normal), None);
    let color = LinearRgba::new(f(0.1), f(0.2), f(0.3), f(0.4));
    assert_eq!(
        brush_panel::choose_opacity(color, f(1.5)),
        BrushAction::SetColor(LinearRgba::new(f(0.1), f(0.2), f(0.3), f(1.0)))
    );
    assert!(matches!(
        BrushAction::SetMaxWidth(f(3.0)).command(),
        Command::SetBrushMaxWidth(w) if v(w) == 3.0
    ));
    assert!(matches!(
        BrushAction::SetMinRatio(f(0.5)).command(),
        Command::SetBrushMinRatio(r) if v(r) == 0.5
    ));
    assert!(matches!(
        BrushAction::SetBrushType(BrushType::Pigment).command(),
        Command::SetBrushType(BrushType::Pigment)
    ));
    assert!(matches!(BrushAction::SetColor(color).command(), Command::SetBrushColor(_)));
}

#[test]
fn the_ratio_slider_shows_the_ratio() {
    let brush = |min, max| BrushParams {
        min_width: f(min),
        max_width: f(max),
        ..BrushParams::default()
    };
    assert_eq!(v(brush_panel::current_ratio(brush(0.5, 4.0))), 0.125);
    assert_eq!(v(brush_panel::current_ratio(brush(8.0, 4.0))), 1.0);
    assert_eq!(v(brush_panel::current_ratio(brush(1.0, 0.0))), 0.0);
}

#[test]
fn blend_modes_are_described() {
    assert_eq!(layers_panel::blend_mode_label(BlendMode::OklabMix), "Oklab Mix");
    assert_eq!(layers_panel::blend_mode_label(BlendMode::Unknown), "Unknown (fallback)");
    for mode in layers_panel::selectable_blend_modes() {
        assert!(layers_panel::blend_mode_tooltip(mode).len() > 40);
    }
    assert_eq!(
        layers_panel::selectable_blend_modes(),
        vec![BlendMode::Normal, BlendMode::OklabMix]
    );
}

#[test]
fn rows_show_the_top_of_the_stack_first() {
    let layers = vec![layer(1, "bottom"), layer(2, "middle"), layer(3, "top")];
    let names: Vec<&str> =
        (0..3).map(|row| layers_panel::layer_of_row(&layers, row).name.as_str()).collect();
    assert_eq!(names, vec!["top", "middle", "bottom"]);
}

#[test]
fn the_toolbar_follows_the_active_layer() {
    let layers = vec![layer(1, "a"), layer(2, "b"), layer(3, "c")];
    let t = layers_panel::toolbar(&layers, id(2));
    assert_eq!(t.add, LayerAction::AddLayer { name: "Layer 4".to_string() });
    assert_eq!(t.remove, Some(LayerAction::RemoveLayer(id(2))));
    assert_eq!(t.move_up, Some(LayerAction::MoveLayer { id: id(2), new_index: 2 }));
    assert_eq!(t.move_down, Some(LayerAction::MoveLayer { id: id(2), new_index: 0 }));
    let top = layers_panel::toolbar(&layers, id(3));
    assert_eq!(top.move_up, None);
    assert!(top.move_down.is_some());
    let bottom = layers_panel::toolbar(&layers, id(1));
    assert_eq!(bottom.move_down, None);
    let absent = layers_panel::toolbar(&layers, id(9));
    assert_eq!((absent.move_up, absent.move_down), (None, None));
    let only = layers_panel::toolbar(&vec![layer(1, "a")], id(1));
    assert_eq!(only.remove, None);
    assert_eq!(layers_panel::position(&layers, id(3)), Some(2));
}

#[test]
fn added_layers_are_numbered_in_decimal() {
    let mut layers = Vec::new();
    for n in 0..120_u64 {
        let t = layers_panel::toolbar(&layers, id(0));
        assert_eq!(t.add, LayerAction::AddLayer { name: format!("Layer {}", n + 1) });
        layers.push(layer(n + 1, "x"));
    }
}

#[test]
fn layer_controls_become_actions() {
    let mut l = layer(5, "x");
    assert_eq!(
        layers_panel::toggle_visible(&l),
        LayerAction::SetLayerVisible { id: id(5), visible: false }
    );
    l.visible = false;
    assert_eq!(
        layers_panel::toggle_visible(&l),
        LayerAction::SetLayerVisible { id: id(5), visible: true }
    );
    assert_eq!(layers_panel::choose_layer(&l, id(5)), None);
    assert_eq!(
        layers_panel::choose_layer(&l, id(6)),
        Some(LayerAction::SetActiveLayer(id(5)))
    );
    assert_eq!(
        layers_panel::choose_opacity(&l, f(-0.5)),
        LayerAction::SetLayerOpacity { id: id(5), opacity: f(0.0) }
    );
    assert_eq!(layers_panel::choose_blend_mode(&l, BlendMode::Normal), None);
    assert_eq!(
        layers_panel::choose_blend_mode(&l, BlendMode::OklabMix),
        Some(LayerAction::SetLayerBlendMode { id: id(5), mode: BlendMode::OklabMix })
    );
}

#[test]
fn layer_actions_become_commands() {
    assert!(matches!(
        LayerAction::AddLayer { name: "n".to_string() }.command(),
        Command::AddLayer { name } if name == "n"
    ));
    assert!(matches!(
        LayerAction::RemoveLayer(id(1)).command(),
        Command::RemoveLayer { id } if id.raw() == 1
    ));
    assert!(matches!(
        LayerAction::MoveLayer { id: id(1), new_index: 4 }.command(),
        Command::MoveLayer { new_index: 4, .. }
    ));
    assert!(matches!(
        LayerAction::SetActiveLayer(id(2)).command(),
        Command::SetActiveLayer { id } if id.raw() == 2
    ));
    assert!(matches!(
        LayerAction::SetLayerVisible { id: id(1), visible: true }.command(),
        Command::SetLayerVisible { visible: true, .. }
    ));
    assert!(matches!(
        LayerAction::SetLayerOpacity { id: id(1), opacity: f(0.5) }.command(),
        Command::SetLayerOpacity { opacity, .. } if v(opacity) == 0.5
    ));
    assert!(matches!(
        LayerAction::SetLayerBlendMode { id: id(1), mode: BlendMode::OklabMix }.command(),
        Command::SetLayerBlendMode { mode: BlendMode::OklabMix, .. }
    ));
}
