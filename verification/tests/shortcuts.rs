//! Keyboard shortcuts.

use art_junk::shortcuts::{
    bindings, display_for, resolve, Accel, AppAction, Binding, Key, Modifiers, Platform, ShiftReq,
};
use art_junk::ui::{Action, ViewAction};

const PLATFORMS: [Platform; 2] = [Platform::MacOs, Platform::Other];

fn character(text: &str) -> Key {
    Key::Character(text.to_string())
}

fn no_mods() -> Modifiers {
    Modifiers::default()
}

fn primary(platform: Platform) -> Modifiers {
    match platform {
        Platform::MacOs => Modifiers { super_key: true, ..no_mods() },
        Platform::Other => Modifiers { control: true, ..no_mods() },
    }
}

/// The canonical input for a binding: its first key with the modifiers it asks for.
fn canonical_input(b: &Binding, platform: Platform) -> (Key, Modifiers) {
    let mut mods = match b.accel {
        Accel::Primary => primary(platform),
        Accel::Ctrl => Modifiers { control: true, ..no_mods() },
    };
    if b.shift == ShiftReq::Required {
        mods.shift = true;
    }
    (character(b.keys[0]), mods)
}

fn shifts_can_coincide(a: ShiftReq, b: ShiftReq) -> bool {
    !matches!(
        (a, b),
        (ShiftReq::Required, ShiftReq::Forbidden) | (ShiftReq::Forbidden, ShiftReq::Required)
    )
}

fn accels_coincide(a: Accel, b: Accel, platform: Platform) -> bool {
    let modifier = |acc: Accel| match (acc, platform) {
        (Accel::Primary, Platform::MacOs) => "super",
        (Accel::Primary, Platform::Other) => "control",
        (Accel::Ctrl, _) => "control",
    };
    modifier(a) == modifier(b)
}

#[test]
fn resolves_each_binding() {
    for platform in PLATFORMS {
        for b in bindings(platform) {
            let (key, mods) = canonical_input(&b, platform);
            let resolved = resolve(&key, mods, platform);
            assert!(
                resolved.is_some(),
                "no resolution for binding {b:?} using its own canonical input"
            );
        }
    }
}

#[test]
fn displays_each_binding() {
    for platform in PLATFORMS {
        for b in bindings(platform) {
            let s = display_for(b.action, platform)
                .expect("every bound action has a display string");
            assert!(!s.is_empty(), "empty display for {b:?}");
            assert!(
                s.starts_with(b.accel.display_prefix(platform)),
                "display '{s}' does not start with accel prefix for {b:?}",
            );
        }
    }
}

#[test]
fn no_conflicting_bindings() {
    for platform in PLATFORMS {
        let table = bindings(platform);
        for (i, a) in table.iter().enumerate() {
            for b in &table[i + 1..] {
                if a.action == b.action {
                    continue;
                }
                let keys_overlap = a.keys.iter().any(|k| b.keys.contains(k));
                if !keys_overlap {
                    continue;
                }
                if !accels_coincide(a.accel, b.accel, platform) {
                    continue;
                }
                assert!(
                    !shifts_can_coincide(a.shift, b.shift),
                    "bindings conflict on this platform: {a:?} and {b:?}",
                );
            }
        }
    }
}

#[test]
fn case_insensitive_letter_match() {
    for platform in PLATFORMS {
        let key = character("Z");
        let mods = Modifiers { shift: true, ..primary(platform) };
        assert_eq!(resolve(&key, mods, platform), Some(AppAction::Edit(Action::Redo)));
    }
}

#[test]
fn shifted_key_pair_variants_both_resolve() {
    for platform in PLATFORMS {
        assert_eq!(
            resolve(&character("="), primary(platform), platform),
            Some(AppAction::View(ViewAction::ZoomIn))
        );
        assert_eq!(
            resolve(
                &character("+"),
                Modifiers { shift: true, ..primary(platform) },
                platform
            ),
            Some(AppAction::View(ViewAction::ZoomIn))
        );
    }
}

#[test]
fn unbound_action_has_no_display() {
    for platform in PLATFORMS {
        assert_eq!(display_for(AppAction::View(ViewAction::ResetView), platform), None);
        assert_eq!(display_for(AppAction::View(ViewAction::ZoomToFit), platform), None);
        assert_eq!(display_for(AppAction::View(ViewAction::TogglePageBounds), platform), None);
        assert_eq!(display_for(AppAction::View(ViewAction::ToggleClipToBounds), platform), None);
    }
}

#[test]
fn ctrl_y_resolves_to_redo_on_non_mac() {
    let mods = Modifiers { control: true, ..no_mods() };
    assert_eq!(
        resolve(&character("y"), mods, Platform::Other),
        Some(AppAction::Edit(Action::Redo))
    );
}

#[test]
fn cmd_y_does_not_resolve_on_mac() {
    let mods = Modifiers { super_key: true, ..no_mods() };
    assert_eq!(resolve(&character("y"), mods, Platform::MacOs), None);
}

#[test]
fn bare_key_without_accel_does_not_resolve() {
    for platform in PLATFORMS {
        assert_eq!(resolve(&character("z"), no_mods(), platform), None);
    }
}

#[test]
fn non_character_key_does_not_resolve() {
    for platform in PLATFORMS {
        assert_eq!(resolve(&Key::Named, primary(platform), platform), None);
    }
}

#[test]
fn display_texts_are_spelled_out() {
    let undo = AppAction::Edit(Action::Undo);
    let redo = AppAction::Edit(Action::Redo);
    assert_eq!(display_for(undo, Platform::Other).as_deref(), Some("Ctrl+Z"));
    assert_eq!(display_for(undo, Platform::MacOs).as_deref(), Some("⌘Z"));
    assert_eq!(display_for(redo, Platform::Other).as_deref(), Some("Ctrl+Shift+Z"));
    assert_eq!(display_for(redo, Platform::MacOs).as_deref(), Some("⌘⇧Z"));
}
