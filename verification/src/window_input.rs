//! What the window does with keys, the mouse and gestures: which commands they turn into and
//! when they belong to the controls instead.

use crate::brush::BrushParams;
use crate::engine::{Command, HistoryStatus};
use crate::geometry::{Page, Point, Size};
use crate::ids::{IdCounter, StrokeId};
use crate::sample::{PointerId, Sample, ToolCaps};
use crate::shortcuts::{AppAction, Key, Modifiers, Platform};
use crate::ui::ViewAction;
use vstd::prelude::*;

verus! {

/// Drawing with the mouse: where the cursor is and which stroke the pressed button draws.
#[derive(Debug, Clone, Copy)]
pub struct MouseTool {
    /// In physical pixels; unknown until the cursor first moves.
    pub cursor: Option<Point>,
    pub active_stroke: Option<StrokeId>,
    pub mouse_down: bool,
}

impl MouseTool {
    /// A stroke is being drawn exactly while the button is down.
    pub open spec fn wf(self) -> bool {
        self.mouse_down == (self.active_stroke is Some)
    }

    /// After the button went down on the canvas: the tool, and the command that it gives.
    pub open spec fn pressed(
        self,
        world: Point,
        now: u128,
        brush: BrushParams,
        id: StrokeId,
    ) -> (MouseTool, Command) {
        (
            MouseTool { active_stroke: Some(id), mouse_down: true, ..self },
            Command::BeginStroke {
                id,
                sample: Sample::of_mouse(world, now, PointerId(0)),
                caps: ToolCaps::none(),
                brush,
            },
        )
    }

    /// After the button went up: the tool, and the command that it gives, if any.
    pub open spec fn released(self) -> (MouseTool, Option<Command>) {
        (
            MouseTool { active_stroke: None, mouse_down: false, ..self },
            match self.active_stroke {
                Some(id) => Some(Command::EndStroke { id }),
                None => None,
            },
        )
    }

    /// After the cursor moved: the tool, and the command that it gives, if any.
    pub open spec fn dragged(self, position: Point, world: Point, now: u128) -> (
        MouseTool,
        Option<Command>,
    ) {
        (
            MouseTool { cursor: Some(position), ..self },
            match self.active_stroke {
                Some(id) => if self.mouse_down {
                    Some(
                        Command::AddSample {
                            id,
                            sample: Sample::of_mouse(world, now, PointerId(0)),
                        },
                    )
                } else {
                    None
                },
                None => None,
            },
        )
    }

    /// No button pressed, cursor unknown.
    pub fn new() -> (res: MouseTool)
        ensures
            res == (MouseTool { cursor: None, active_stroke: None, mouse_down: false }),
            res.wf(),
    {
        MouseTool { cursor: None, active_stroke: None, mouse_down: false }
    }

    /// The left button went down. Unless the controls have the pointer (`blocked`) or the
    /// cursor is unknown, a stroke begins at `world`, the cursor on the page.
    pub fn press(
        &mut self,
        blocked: bool,
        world: Point,
        now: u128,
        brush: BrushParams,
        ids: &mut IdCounter,
    ) -> (res: Option<Command>)
        requires
            !blocked && old(self).cursor is Some ==> old(ids).upcoming() < u64::MAX,
        ensures
            blocked || old(self).cursor is None ==> {
                &&& res is None
                &&& *final(self) == *old(self)
                &&& *final(ids) == *old(ids)
            },
            !blocked && old(self).cursor is Some ==> {
                let id = StrokeId(old(ids).upcoming());
                &&& res == Some(
                    (Command::BeginStroke {
                        id,
                        sample: Sample::of_mouse(world, now, PointerId(0)),
                        caps: ToolCaps::none(),
                        brush,
                    }),
                )
                &&& *final(self) == (MouseTool {
                    active_stroke: Some(id),
                    mouse_down: true,
                    ..*old(self)
                })
                &&& final(ids).upcoming() == crate::ids::stepped(old(ids).upcoming())
                &&& *final(self) == old(self).pressed(world, now, brush, id).0
                &&& res == Some(old(self).pressed(world, now, brush, id).1)
            },
            old(self).wf() ==> final(self).wf(),
    {
        if blocked || self.cursor.is_none() {
            return None;
        }
        let id = StrokeId::next(ids);
        self.active_stroke = Some(id);
        self.mouse_down = true;
        Some(
            Command::BeginStroke {
                id,
                sample: Sample::mouse(world, now, PointerId::mouse()),
                caps: ToolCaps::empty(),
                brush,
            },
        )
    }

    /// The left button went up: the stroke ends, wherever the pointer is.
    pub fn release(&mut self) -> (res: Option<Command>)
        ensures
            *final(self) == old(self).released().0,
            res == old(self).released().1,
            res == (match old(self).active_stroke {
                Some(id) => Some((Command::EndStroke { id })),
                None => None,
            }),
            *final(self) == (MouseTool { active_stroke: None, mouse_down: false, ..*old(self) }),
            final(self).wf(),
    {
        let res = match self.active_stroke {
            Some(id) => Some(Command::EndStroke { id }),
            None => None,
        };
        self.active_stroke = None;
        self.mouse_down = false;
        res
    }

    /// The cursor moved to `position`, which is `world` on the page. A stroke being drawn
    /// gets a sample there.
    pub fn moved(&mut self, position: Point, world: Point, now: u128) -> (res: Option<Command>)
        ensures
            *final(self) == old(self).dragged(position, world, now).0,
            res == old(self).dragged(position, world, now).1,
            *final(self) == (MouseTool { cursor: Some(position), ..*old(self) }),
            res == (match old(self).active_stroke {
                Some(id) => if old(self).mouse_down {
                    Some(
                        (Command::AddSample {
                            id,
                            sample: Sample::of_mouse(world, now, PointerId(0)),
                        }),
                    )
                } else {
                    None
                },
                None => None,
            }),
            old(self).wf() ==> final(self).wf(),
    {
        self.cursor = Some(position);
        match self.active_stroke {
            Some(id) => if self.mouse_down {
                Some(
                    Command::AddSample { id, sample: Sample::mouse(world, now, PointerId::mouse()) },
                )
            } else {
                None
            },
            None => None,
        }
    }

    /// The point that zooming keeps in place: the cursor, or the center of the window while the
    /// cursor is unknown.
    pub fn zoom_anchor(&self, window_px: Size) -> (res: Point)
        ensures
            res == (match self.cursor {
                Some(at) => at,
                None => crate::viewport::center_of(window_px),
            }),
    {
        match self.cursor {
            Some(at) => at,
            None => crate::viewport::center(window_px),
        }
    }
}

/// Whether the wheel zooms rather than pans: Control is held, or Command on macOS.
pub fn wheel_zooms(mods: Modifiers, platform: Platform) -> (res: bool)
    ensures
        res == (mods.control || (platform == Platform::MacOs && mods.super_key)),
{
    match platform {
        Platform::MacOs => mods.control || mods.super_key,
        Platform::Other => mods.control,
    }
}

/// Whether a wheel or pinch event goes to the canvas: the controls neither consumed it nor
/// have the pointer, and its amount is a finite number.
pub fn canvas_takes_gesture(consumed: bool, over_controls: bool, finite: bool) -> (res: bool)
    ensures
        res == (!consumed && !over_controls && finite),
{
    !consumed && !over_controls && finite
}

/// What a key press leads to.
#[derive(Debug)]
pub enum KeyResponse {
    Ignore,
    Send(Command),
    View(ViewAction),
}

/// What a key event leads to. Keys that the controls consumed, releases and repeats are
/// ignored; so is an action of the history that is not available. An action on the page is
/// a command, any other action on the view is left to the viewport.
pub fn on_key(
    consumed: bool,
    pressed: bool,
    repeat: bool,
    key: &Key,
    mods: Modifiers,
    platform: Platform,
    history: HistoryStatus,
    page: Page,
) -> (res: KeyResponse)
    ensures
        res == key_response(
            consumed || !pressed || repeat,
            crate::shortcuts::bound_action(*key, mods, platform),
            history,
            page,
        ),
{
    if consumed || !pressed || repeat {
        return KeyResponse::Ignore;
    }
    match crate::shortcuts::resolve(key, mods, platform) {
        None => KeyResponse::Ignore,
        Some(AppAction::Edit(action)) => if action.enabled(history) {
            KeyResponse::Send(action.command())
        } else {
            KeyResponse::Ignore
        },
        Some(AppAction::View(view)) => match view.page_command(page) {
            Some(command) => KeyResponse::Send(command),
            None => KeyResponse::View(view),
        },
    }
}

/// What a key event leads to, given whether it is to be ignored and which action the key is
/// bound to.
pub open spec fn key_response(
    ignored: bool,
    action: Option<AppAction>,
    history: HistoryStatus,
    page: Page,
) -> KeyResponse {
    if ignored {
        KeyResponse::Ignore
    } else {
        match action {
            None => KeyResponse::Ignore,
            Some(AppAction::Edit(edit)) => if edit.allowed(history) {
                KeyResponse::Send(edit.carried_out())
            } else {
                KeyResponse::Ignore
            },
            Some(AppAction::View(view)) => match view.on_page(page) {
                Some(command) => KeyResponse::Send(command),
                None => KeyResponse::View(view),
            },
        }
    }
}

} // verus!
