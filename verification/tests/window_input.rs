//! Keys, the mouse and gestures of the window.

use art_junk::brush::BrushParams;
use art_junk::engine::{Command, HistoryStatus};
use art_junk::geometry::{Float64, Page, Point, Size};
use art_junk::ids::{IdCounter, StrokeId};
use art_junk::shortcuts::{Key, Modifiers, Platform};
use art_junk::ui::ViewAction;
use art_junk::window_input::{
    canvas_takes_gesture, on_key, wheel_zooms, KeyResponse, MouseTool,
};

fn point(x: f64, y: f64) -> Point {
    Point::new(Float64::from_bits(x.to_bits()), Float64::from_bits(y.to_bits()))
}

fn size(width: f64, height: f64) -> Size {
    Size {
        width: Float64::from_bits(width.to_bits()),
        height: Float64::from_bits(height.to_bits()),
    }
}

fn ctrl() -> Modifiers {
    Modifiers { control: true, ..Modifiers::default() }
}

fn press_key(text: &str, history: HistoryStatus) -> KeyResponse {
    on_key(
        false,
        true,
        false,
        &Key::Character(text.to_string()),
        ctrl(),
        Platform::Other,
        history,
        Page::default(),
    )
}

#[test]
fn a_drag_draws_one_stroke() {
    let mut ids = IdCounter::new();
    let mut tool = MouseTool::new();
    let brush = BrushParams::default();
    assert!(tool.press(false, point(0.0, 0.0), 1, brush, &mut ids).is_none());
    assert!(tool.moved(point(5.0, 5.0), point(0.5, 0.5), 2).is_none());
    match tool.press(false, point(0.5, 0.5), 3, brush, &mut ids) {
        Some(Command::BeginStroke { id, sample, .. }) => {
            assert_eq!(id, StrokeId(1));
            assert_eq!(sample.position, point(0.5, 0.5));
            assert_eq!(sample.timestamp, 3);
        }
        other => panic!("expected BeginStroke, got {other:?}"),
    }
    match tool.moved(point(6.0, 6.0), point(0.6, 0.6), 4) {
        Some(Command::AddSample { id, sample }) => {
            assert_eq!(id, StrokeId(1));
            assert_eq!(sample.position, point(0.6, 0.6));
        }
        other => panic!("expected AddSample, got {other:?}"),
    }
    assert!(matches!(tool.release(), Some(Command::EndStroke { id: StrokeId(1) })));
    assert!(tool.release().is_none());
    assert!(tool.moved(point(7.0, 7.0), point(0.7, 0.7), 5).is_none());
    assert!(!tool.mouse_down);
}

#[test]
fn the_controls_have_the_pointer_first() {
    let mut ids = IdCounter::new();
    let mut tool = MouseTool::new();
    tool.moved(point(5.0, 5.0), point(0.5, 0.5), 2);
    assert!(tool.press(true, point(0.5, 0.5), 3, BrushParams::default(), &mut ids).is_none());
    assert!(tool.active_stroke.is_none());
    assert_eq!(StrokeId::next(&mut ids), StrokeId(1));
    assert!(canvas_takes_gesture(false, false, true));
    assert!(!canvas_takes_gesture(true, false, true));
    assert!(!canvas_takes_gesture(false, true, true));
    assert!(!canvas_takes_gesture(false, false, false));
}

#[test]
fn zooming_is_anchored_at_the_cursor() {
    let mut tool = MouseTool::new();
    assert_eq!(tool.zoom_anchor(size(1280.0, 800.0)), point(640.0, 400.0));
    tool.moved(point(5.0, 6.0), point(0.0, 0.0), 1);
    assert_eq!(tool.zoom_anchor(size(1280.0, 800.0)), point(5.0, 6.0));
}

#[test]
fn the_wheel_zooms_with_a_modifier() {
    let command = Modifiers { super_key: true, ..Modifiers::default() };
    assert!(wheel_zooms(ctrl(), Platform::Other));
    assert!(wheel_zooms(ctrl(), Platform::MacOs));
    assert!(wheel_zooms(command, Platform::MacOs));
    assert!(!wheel_zooms(command, Platform::Other));
    assert!(!wheel_zooms(Modifiers::default(), Platform::MacOs));
}

#[test]
fn keys_lead_to_actions_that_are_available() {
    let nothing = HistoryStatus { can_undo: false, can_redo: false };
    let undoable = HistoryStatus { can_undo: true, can_redo: false };
    assert!(matches!(press_key("z", undoable), KeyResponse::Send(Command::Undo)));
    assert!(matches!(press_key("z", nothing), KeyResponse::Ignore));
    assert!(matches!(press_key("y", undoable), KeyResponse::Ignore));
    assert!(matches!(press_key("=", nothing), KeyResponse::View(ViewAction::ZoomIn)));
    assert!(matches!(press_key("q", undoable), KeyResponse::Ignore));
}

#[test]
fn consumed_released_and_repeated_keys_are_ignored() {
    let undoable = HistoryStatus { can_undo: true, can_redo: true };
    let key = Key::Character("z".to_string());
    for (consumed, pressed, repeat) in
        [(true, true, false), (false, false, false), (false, true, true)]
    {
        let response = on_key(
            consumed,
            pressed,
            repeat,
            &key,
            ctrl(),
            Platform::Other,
            undoable,
            Page::default(),
        );
        assert!(matches!(response, KeyResponse::Ignore));
    }
}
