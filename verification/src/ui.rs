//! Actions of the user: what they are called, when they are available and which command
//! they stand for.

use crate::brush::{BrushType, LinearRgba};
use crate::engine::{Command, HistoryStatus};
use crate::float32::Float32;
use crate::geometry::Page;
use crate::ids::LayerId;
use crate::layer::BlendMode;
use vstd::prelude::*;

verus! {

/// An action on the history.
#[derive(Debug, Clone, Copy, PartialEq, Eq, Hash, Structural)]
pub enum Action {
    Undo,
    Redo,
}

impl Action {
    /// Every action, in menu order.
    pub fn all() -> (res: Vec<Action>)
        ensures
            res@ == seq![Action::Undo, Action::Redo],
    {
        let mut res: Vec<Action> = Vec::new();
        res.push(Action::Undo);
        res.push(Action::Redo);
        assert(res@ =~= seq![Action::Undo, Action::Redo]);
        res
    }

    /// The name in the menu.
    pub fn label(self) -> (res: &'static str)
        ensures
            res@ == (match self {
                Action::Undo => "Undo"@,
                Action::Redo => "Redo"@,
            }),
    {
        match self {
            Action::Undo => "Undo",
            Action::Redo => "Redo",
        }
    }

    /// Whether the history allows the action.
    pub open spec fn allowed(self, h: HistoryStatus) -> bool {
        match self {
            Action::Undo => h.can_undo,
            Action::Redo => h.can_redo,
        }
    }

    /// Whether the history allows the action.
    pub fn enabled(self, h: HistoryStatus) -> (res: bool)
        ensures
            res == self.allowed(h),
    {
        match self {
            Action::Undo => h.can_undo,
            Action::Redo => h.can_redo,
        }
    }

    /// The command that carries the action out.
    pub open spec fn carried_out(self) -> Command {
        match self {
            Action::Undo => Command::Undo,
            Action::Redo => Command::Redo,
        }
    }

    /// The command that carries the action out.
    pub fn command(self) -> (res: Command)
        ensures
            res == self.carried_out(),
    {
        match self {
            Action::Undo => Command::Undo,
            Action::Redo => Command::Redo,
        }
    }
}

/// An action on the view of the document.
#[derive(Debug, Clone, Copy, PartialEq, Eq, Hash, Structural)]
pub enum ViewAction {
    ZoomIn,
    ZoomOut,
    ZoomTo100,
    ZoomToFit,
    ResetView,
    TogglePageBounds,
    ToggleClipToBounds,
}

impl ViewAction {
    /// The name in the menu.
    pub fn label(self) -> (res: &'static str)
        ensures
            res@ == (match self {
                ViewAction::ZoomIn => "Zoom In"@,
                ViewAction::ZoomOut => "Zoom Out"@,
                ViewAction::ZoomTo100 => "Zoom to 100%"@,
                ViewAction::ZoomToFit => "Zoom to Fit"@,
                ViewAction::ResetView => "Reset View"@,
                ViewAction::TogglePageBounds => "Show page bounds"@,
                ViewAction::ToggleClipToBounds => "Clip strokes to page"@,
            }),
    {
        match self {
            ViewAction::ZoomIn => "Zoom In",
            ViewAction::ZoomOut => "Zoom Out",
            ViewAction::ZoomTo100 => "Zoom to 100%",
            ViewAction::ZoomToFit => "Zoom to Fit",
            ViewAction::ResetView => "Reset View",
            ViewAction::TogglePageBounds => "Show page bounds",
            ViewAction::ToggleClipToBounds => "Clip strokes to page",
        }
    }

    /// The actions that stand as plain entries of the view menu, in order. The two toggles
    /// follow as check boxes.
    pub fn menu_entries() -> (res: Vec<ViewAction>)
        ensures
            res@ == seq![
                ViewAction::ZoomIn,
                ViewAction::ZoomOut,
                ViewAction::ZoomTo100,
                ViewAction::ZoomToFit,
                ViewAction::ResetView,
            ],
    {
        let mut res: Vec<ViewAction> = Vec::new();
        res.push(ViewAction::ZoomIn);
        res.push(ViewAction::ZoomOut);
        res.push(ViewAction::ZoomTo100);
        res.push(ViewAction::ZoomToFit);
        res.push(ViewAction::ResetView);
        assert(res@ =~= seq![
            ViewAction::ZoomIn,
            ViewAction::ZoomOut,
            ViewAction::ZoomTo100,
            ViewAction::ZoomToFit,
            ViewAction::ResetView,
        ]);
        res
    }

    /// The command of an action that changes the page; the others change only the viewport.
    pub open spec fn on_page(self, page: Page) -> Option<Command> {
        match self {
            ViewAction::TogglePageBounds => Some(Command::SetShowBounds(!page.show_bounds)),
            ViewAction::ToggleClipToBounds => Some(Command::SetClipToBounds(!page.clip_to_bounds)),
            _ => None,
        }
    }

    /// The command of an action that changes the page; the others change only the viewport.
    pub fn page_command(self, page: Page) -> (res: Option<Command>)
        ensures
            res == self.on_page(page),
    {
        match self {
            ViewAction::TogglePageBounds => Some(Command::SetShowBounds(!page.show_bounds)),
            ViewAction::ToggleClipToBounds => Some(
                Command::SetClipToBounds(!page.clip_to_bounds),
            ),
            _ => None,
        }
    }
}

/// A change of the live brush.
#[derive(Debug, Clone, Copy, PartialEq)]
pub enum BrushAction {
    SetMaxWidth(Float32),
    SetMinRatio(Float32),
    SetBrushType(BrushType),
    SetColor(LinearRgba),
}

impl BrushAction {
    /// The command that carries the action out.
    pub open spec fn carried_out(self) -> Command {
        match self {
            BrushAction::SetMaxWidth(v) => Command::SetBrushMaxWidth(v),
            BrushAction::SetMinRatio(v) => Command::SetBrushMinRatio(v),
            BrushAction::SetBrushType(t) => Command::SetBrushType(t),
            BrushAction::SetColor(c) => Command::SetBrushColor(c),
        }
    }

    /// The command that carries the action out.
    pub fn command(self) -> (res: Command)
        ensures
            res == self.carried_out(),
            res == (match self {
                BrushAction::SetMaxWidth(v) => Command::SetBrushMaxWidth(v),
                BrushAction::SetMinRatio(v) => Command::SetBrushMinRatio(v),
                BrushAction::SetBrushType(t) => Command::SetBrushType(t),
                BrushAction::SetColor(c) => Command::SetBrushColor(c),
            }),
    {
        match self {
            BrushAction::SetMaxWidth(v) => Command::SetBrushMaxWidth(v),
            BrushAction::SetMinRatio(v) => Command::SetBrushMinRatio(v),
            BrushAction::SetBrushType(t) => Command::SetBrushType(t),
            BrushAction::SetColor(c) => Command::SetBrushColor(c),
        }
    }
}

/// A change of the layers.
#[derive(Debug, PartialEq)]
pub enum LayerAction {
    AddLayer { name: String },
    RemoveLayer(LayerId),
    MoveLayer { id: LayerId, new_index: usize },
    SetActiveLayer(LayerId),
    SetLayerVisible { id: LayerId, visible: bool },
    SetLayerOpacity { id: LayerId, opacity: Float32 },
    SetLayerBlendMode { id: LayerId, mode: BlendMode },
}

impl LayerAction {
    /// The command that carries the action out.
    pub open spec fn carried_out(self) -> Command {
        match self {
            LayerAction::AddLayer { name } => Command::AddLayer { name },
            LayerAction::RemoveLayer(id) => Command::RemoveLayer { id },
            LayerAction::MoveLayer { id, new_index } => Command::MoveLayer { id, new_index },
            LayerAction::SetActiveLayer(id) => Command::SetActiveLayer { id },
            LayerAction::SetLayerVisible { id, visible } => Command::SetLayerVisible {
                id,
                visible,
            },
            LayerAction::SetLayerOpacity { id, opacity } => Command::SetLayerOpacity {
                id,
                opacity,
            },
            LayerAction::SetLayerBlendMode { id, mode } => Command::SetLayerBlendMode {
                id,
                mode,
            },
        }
    }

    /// The command that carries the action out.
    pub fn command(self) -> (res: Command)
        ensures
            res == self.carried_out(),
            res == (match self {
                LayerAction::AddLayer { name } => Command::AddLayer { name },
                LayerAction::RemoveLayer(id) => Command::RemoveLayer { id },
                LayerAction::MoveLayer { id, new_index } => Command::MoveLayer { id, new_index },
                LayerAction::SetActiveLayer(id) => Command::SetActiveLayer { id },
                LayerAction::SetLayerVisible { id, visible } => Command::SetLayerVisible {
                    id,
                    visible,
                },
                LayerAction::SetLayerOpacity { id, opacity } => Command::SetLayerOpacity {
                    id,
                    opacity,
                },
                LayerAction::SetLayerBlendMode { id, mode } => Command::SetLayerBlendMode {
                    id,
                    mode,
                },
            }),
    {
        match self {
            LayerAction::AddLayer { name } => Command::AddLayer { name },
            LayerAction::RemoveLayer(id) => Command::RemoveLayer { id },
            LayerAction::MoveLayer { id, new_index } => Command::MoveLayer { id, new_index },
            LayerAction::SetActiveLayer(id) => Command::SetActiveLayer { id },
            LayerAction::SetLayerVisible { id, visible } => Command::SetLayerVisible {
                id,
                visible,
            },
            LayerAction::SetLayerOpacity { id, opacity } => Command::SetLayerOpacity {
                id,
                opacity,
            },
            LayerAction::SetLayerBlendMode { id, mode } => Command::SetLayerBlendMode { id, mode },
        }
    }
}

} // verus!
