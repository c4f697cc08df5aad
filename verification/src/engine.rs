//! The engine: commands applied to the document, with an undo and redo history.

use crate::brush::{BrushParams, BrushType, LinearRgba};
use crate::document::{DocumentState, DocumentView, Edit, EditView, SceneSnapshot};
use crate::float32::Float32;
use crate::geometry::Size;
use crate::ids::{IdCounter, LayerId, StrokeId};
use crate::layer::{BlendMode, Layer, LayerView, Stroke, StrokeView};
use crate::sample::{Sample, SampleRevision, ToolCaps};
use std::sync::Arc;
use vstd::prelude::*;

verus! {

/// Something the user or a device asks of the engine.
#[derive(Debug, Clone)]
#[non_exhaustive]
#[allow(inconsistent_fields)]
pub enum Command {
    BeginStroke { id: StrokeId, sample: Sample, caps: ToolCaps, brush: BrushParams },
    AddSample { id: StrokeId, sample: Sample },
    /// Updates an earlier estimated sample; makes no history.
    ReviseSample { stroke_id: StrokeId, update_index: u64, revision: SampleRevision },
    EndStroke { id: StrokeId },
    /// Drops the stroke being drawn without committing it.
    CancelStroke { id: StrokeId },
    SetPageSize(Size),
    SetShowBounds(bool),
    SetClipToBounds(bool),
    SetBrushMaxWidth(Float32),
    SetBrushMinWidth(Float32),
    SetBrushMinRatio(Float32),
    SetBrushColor(LinearRgba),
    SetBrushType(BrushType),
    /// Appends a new empty layer. Undoable.
    AddLayer { name: String },
    /// Removes a layer. Undoable; refused while a stroke is being drawn.
    RemoveLayer { id: LayerId },
    /// Moves a layer. Undoable.
    MoveLayer { id: LayerId, new_index: usize },
    SetActiveLayer { id: LayerId },
    SetLayerName { id: LayerId, name: String },
    SetLayerVisible { id: LayerId, visible: bool },
    SetLayerOpacity { id: LayerId, opacity: Float32 },
    SetLayerBlendMode { id: LayerId, mode: BlendMode },
    Undo,
    Redo,
    Shutdown,
}

/// Whether there is something to undo and to redo.
#[derive(Debug, Clone, Copy, PartialEq, Eq, Structural)]
pub struct HistoryStatus {
    pub can_undo: bool,
    pub can_redo: bool,
}

impl Default for HistoryStatus {
    fn default() -> (res: HistoryStatus)
        ensures
            res == (HistoryStatus { can_undo: false, can_redo: false }),
    {
        HistoryStatus { can_undo: false, can_redo: false }
    }
}

/// The contents of a list of edits.
pub open spec fn edit_views(edits: Seq<Edit>) -> Seq<EditView> {
    edits.map_values(|e: Edit| e@)
}

/// Linear history. Each stack holds the edit to apply for one step in its direction.
#[derive(Debug)]
pub struct History {
    /// Inverses of the edits that were applied; the last one undoes the last edit.
    past: Vec<Edit>,
    /// Edits that were undone; the last one redoes the last undo.
    future: Vec<Edit>,
}

/// The mathematical content of a history.
#[verifier::ext_equal]
pub struct HistoryView {
    pub past: Seq<EditView>,
    pub future: Seq<EditView>,
}

impl View for History {
    type V = HistoryView;

    closed spec fn view(&self) -> HistoryView {
        HistoryView { past: edit_views(self.past@), future: edit_views(self.future@) }
    }
}

impl HistoryView {
    /// A history without steps.
    pub open spec fn empty() -> HistoryView {
        HistoryView { past: Seq::empty(), future: Seq::empty() }
    }

    /// The history after an edit whose inverse is `undo`: what was undone before can no
    /// longer be redone.
    pub open spec fn recorded(self, undo: EditView) -> HistoryView {
        HistoryView { past: self.past.push(undo), future: Seq::empty() }
    }

    /// What the history allows.
    pub open spec fn status(self) -> HistoryStatus {
        HistoryStatus { can_undo: self.past.len() > 0, can_redo: self.future.len() > 0 }
    }
}

impl History {
    /// A history without steps.
    pub fn new() -> (res: History)
        ensures
            res@ == HistoryView::empty(),
    {
        let res = History { past: Vec::new(), future: Vec::new() };
        assert(res@ =~= HistoryView::empty());
        res
    }

    /// Records that an edit was applied, by its inverse, and drops what could be redone.
    pub fn record(&mut self, inverse_of_applied: Edit)
        ensures
            final(self)@ == old(self)@.recorded(inverse_of_applied@),
    {
        self.past.push(inverse_of_applied);
        self.future.clear();
        assert(self@ =~= old(self)@.recorded(inverse_of_applied@));
    }

    /// What the history allows.
    #[must_use]
    pub fn status(&self) -> (res: HistoryStatus)
        ensures
            res == self@.status(),
    {
        HistoryStatus { can_undo: self.past.len() > 0, can_redo: self.future.len() > 0 }
    }

    /// Takes the edit that undoes the last step.
    fn take_past(&mut self) -> (res: Option<Edit>)
        ensures
            match res {
                Some(e) => {
                    &&& old(self)@.past.len() > 0
                    &&& e@ == old(self)@.past.last()
                    &&& final(self)@ == (HistoryView {
                        past: old(self)@.past.drop_last(),
                        future: old(self)@.future,
                    })
                },
                None => old(self)@.past.len() == 0 && final(self)@ == old(self)@,
            },
    {
        let res = self.past.pop();
        assert(self@.past =~= if old(self)@.past.len() > 0 {
            old(self)@.past.drop_last()
        } else {
            old(self)@.past
        });
        res
    }

    /// Takes the edit that redoes the last undone step.
    fn take_future(&mut self) -> (res: Option<Edit>)
        ensures
            match res {
                Some(e) => {
                    &&& old(self)@.future.len() > 0
                    &&& e@ == old(self)@.future.last()
                    &&& final(self)@ == (HistoryView {
                        past: old(self)@.past,
                        future: old(self)@.future.drop_last(),
                    })
                },
                None => old(self)@.future.len() == 0 && final(self)@ == old(self)@,
            },
    {
        let res = self.future.pop();
        assert(self@.future =~= if old(self)@.future.len() > 0 {
            old(self)@.future.drop_last()
        } else {
            old(self)@.future
        });
        res
    }

    fn push_past(&mut self, edit: Edit)
        ensures
            final(self)@ == (HistoryView {
                past: old(self)@.past.push(edit@),
                future: old(self)@.future,
            }),
    {
        self.past.push(edit);
        assert(self@.past =~= old(self)@.past.push(edit@));
    }

    fn push_future(&mut self, edit: Edit)
        ensures
            final(self)@ == (HistoryView {
                past: old(self)@.past,
                future: old(self)@.future.push(edit@),
            }),
    {
        self.future.push(edit);
        assert(self@.future =~= old(self)@.future.push(edit@));
    }
}

impl Default for History {
    fn default() -> (res: History)
        ensures
            res@ == HistoryView::empty(),
    {
        History::new()
    }
}

/// What the engine owns: the document, its history and the counter of layer identifiers.
#[derive(Debug)]
pub struct EngineState {
    pub doc: DocumentState,
    pub history: History,
    pub layer_ids: IdCounter,
}

/// The mathematical content of the engine's state.
#[verifier::ext_equal]
pub struct EngineView {
    pub doc: DocumentView,
    pub history: HistoryView,
    pub next_layer: u64,
}

impl View for EngineState {
    type V = EngineView;

    open spec fn view(&self) -> EngineView {
        EngineView {
            doc: self.doc@,
            history: self.history@,
            next_layer: self.layer_ids.upcoming(),
        }
    }
}

/// What is published for the renderer (`scene`) and the panels (`history`).
#[derive(Debug, Clone, Default)]
pub struct AppSnapshot {
    pub scene: Arc<SceneSnapshot>,
    pub history: HistoryStatus,
}

/// Whether the engine goes on after a command.
#[derive(Debug, Clone, Copy, PartialEq, Eq, Structural)]
pub enum ApplyOutcome {
    Continue,
    Shutdown,
}

impl EngineView {
    /// A document with one empty layer, the initial page and brush, and nothing to undo.
    pub open spec fn fresh() -> EngineView {
        EngineView {
            doc: DocumentView {
                page: crate::geometry::Page::initial(),
                brush: BrushParams::initial(),
                layers: seq![
                    LayerView::empty(LayerId::numbered(1), DocumentState::first_layer_name()),
                ],
                active_layer: LayerId::numbered(1),
                active: None,
                active_stroke_layer: None,
            },
            history: HistoryView::empty(),
            next_layer: 2,
        }
    }

    /// The document is well-formed, and the layer that a stroke being drawn is bound for
    /// exists.
    pub open spec fn wf(self) -> bool {
        &&& self.doc.wf()
        &&& self.doc.active_stroke_layer matches Some(id) ==> crate::document::has_layer(
            self.doc.layers,
            id,
        )
    }

    /// The state with another document.
    pub open spec fn with_doc(self, doc: DocumentView) -> EngineView {
        EngineView { doc, ..self }
    }

    /// The state after an edit that is recorded; where the edit is refused nothing changes.
    pub open spec fn committed(self, edit: EditView) -> EngineView {
        if crate::document::edit_error(edit, self.doc) is None {
            EngineView {
                doc: crate::document::edited(edit, self.doc),
                history: self.history.recorded(crate::document::inverse(edit, self.doc)),
                ..self
            }
        } else {
            self
        }
    }

    /// The state after undoing one step. A step that cannot be undone is dropped.
    pub open spec fn undone(self) -> EngineView {
        if self.doc.active is Some || self.history.past.len() == 0 {
            self
        } else {
            let edit = self.history.past.last();
            let past = self.history.past.drop_last();
            if crate::document::edit_error(edit, self.doc) is None {
                EngineView {
                    doc: crate::document::edited(edit, self.doc),
                    history: HistoryView {
                        past,
                        future: self.history.future.push(
                            crate::document::inverse(edit, self.doc),
                        ),
                    },
                    ..self
                }
            } else {
                EngineView { history: HistoryView { past, ..self.history }, ..self }
            }
        }
    }

    /// The state after redoing one step. A step that cannot be redone is dropped.
    pub open spec fn redone(self) -> EngineView {
        if self.doc.active is Some || self.history.future.len() == 0 {
            self
        } else {
            let edit = self.history.future.last();
            let future = self.history.future.drop_last();
            if crate::document::edit_error(edit, self.doc) is None {
                EngineView {
                    doc: crate::document::edited(edit, self.doc),
                    history: HistoryView {
                        past: self.history.past.push(crate::document::inverse(edit, self.doc)),
                        future,
                    },
                    ..self
                }
            } else {
                EngineView { history: HistoryView { future, ..self.history }, ..self }
            }
        }
    }

    /// The state after a stroke has ended: it is committed to the layer it is bound for.
    pub open spec fn stroke_ended(self, id: StrokeId) -> EngineView {
        if self.doc.drawing(id) {
            self.with_doc(self.doc.without_active()).committed(
                EditView::AddStroke {
                    stroke: self.doc.active->0,
                    layer: self.doc.stroke_target(),
                },
            )
        } else {
            self
        }
    }

    /// The state with one layer replaced, where it exists.
    pub open spec fn with_layer_changed(self, id: LayerId, layer: LayerView) -> EngineView {
        if crate::document::has_layer(self.doc.layers, id) {
            self.with_doc(self.doc.with_layer(id, layer))
        } else {
            self
        }
    }

    /// The state after a command.
    pub open spec fn after(self, cmd: Command) -> EngineView {
        let doc = self.doc;
        match cmd {
            Command::BeginStroke { id, sample, caps, brush } => self.with_doc(
                doc.begun(StrokeView { id, samples: seq![sample], caps, brush }),
            ),
            Command::AddSample { id, sample } => self.with_doc(doc.sampled(id, sample)),
            Command::ReviseSample { stroke_id, update_index, revision } => self.with_doc(
                doc.after_revision(stroke_id, update_index, revision),
            ),
            Command::EndStroke { id } => self.stroke_ended(id),
            Command::CancelStroke { id } => if doc.drawing(id) {
                self.with_doc(doc.without_active())
            } else {
                self
            },
            Command::SetPageSize(size) => self.with_doc(
                DocumentView { page: crate::geometry::Page { size, ..doc.page }, ..doc },
            ),
            Command::SetShowBounds(show) => self.with_doc(
                DocumentView {
                    page: crate::geometry::Page { show_bounds: show, ..doc.page },
                    ..doc
                },
            ),
            Command::SetClipToBounds(clip) => self.with_doc(
                DocumentView {
                    page: crate::geometry::Page { clip_to_bounds: clip, ..doc.page },
                    ..doc
                },
            ),
            Command::SetBrushMaxWidth(v) => self.with_doc(
                DocumentView { brush: doc.brush.with_max_width(v), ..doc },
            ),
            Command::SetBrushMinWidth(v) => self.with_doc(
                DocumentView { brush: doc.brush.with_min_width(v), ..doc },
            ),
            Command::SetBrushMinRatio(r) => self.with_doc(
                DocumentView { brush: doc.brush.with_min_ratio(r), ..doc },
            ),
            Command::SetBrushColor(color) => self.with_doc(
                DocumentView { brush: BrushParams { color, ..doc.brush }, ..doc },
            ),
            Command::SetBrushType(brush_type) => self.with_doc(
                DocumentView { brush: BrushParams { brush_type, ..doc.brush }, ..doc },
            ),
            Command::AddLayer { name } => EngineView {
                next_layer: crate::ids::stepped(self.next_layer),
                ..self
            }.committed(
                EditView::AddLayer {
                    layer: LayerView::empty(LayerId::numbered(self.next_layer), name@),
                    index: doc.layers.len(),
                    was_active: false,
                },
            ),
            Command::RemoveLayer { id } => if doc.active is Some {
                self
            } else {
                self.committed(EditView::RemoveLayer { id })
            },
            Command::MoveLayer { id, new_index } => self.committed(
                EditView::MoveLayer { id, new_index: new_index as nat },
            ),
            Command::SetActiveLayer { id } => if crate::document::has_layer(doc.layers, id) {
                self.with_doc(DocumentView { active_layer: id, ..doc })
            } else {
                self
            },
            Command::SetLayerName { id, name } => self.with_layer_changed(
                id,
                LayerView { name: name@, ..doc.layer(id) },
            ),
            Command::SetLayerVisible { id, visible } => self.with_layer_changed(
                id,
                LayerView { visible, ..doc.layer(id) },
            ),
            Command::SetLayerOpacity { id, opacity } => self.with_layer_changed(
                id,
                LayerView {
                    opacity: opacity.clamped(Float32(0), Float32(0x3f80_0000)),
                    ..doc.layer(id)
                },
            ),
            Command::SetLayerBlendMode { id, mode } => self.with_layer_changed(
                id,
                LayerView { blend_mode: mode, ..doc.layer(id) },
            ),
            Command::Undo => self.undone(),
            Command::Redo => self.redone(),
            Command::Shutdown => self,
        }
    }

    /// The command can be carried out: setting the minimum width clamps it to 0 and the
    /// maximum, so the maximum must be a number that is not negative, and a new layer needs an
    /// identifier.
    pub open spec fn accepts(self, cmd: Command) -> bool {
        &&& cmd is SetBrushMinWidth ==> Float32(0).at_most(self.doc.brush.max_width)
        &&& cmd is AddLayer ==> self.next_layer < u64::MAX
    }
}

impl EngineState {
    /// A fresh document without history.
    #[must_use]
    pub fn new() -> (res: EngineState)
        ensures
            res@ == EngineView::fresh(),
            res@.wf(),
    {
        let mut layer_ids = IdCounter::new();
        let doc = DocumentState::new(&mut layer_ids);
        EngineState { doc, history: History::new(), layer_ids }
    }

    /// What would be published now.
    #[must_use]
    pub fn snapshot(&self) -> (res: AppSnapshot)
        ensures
            res.scene@ == self@.doc.scene(),
            res.history == self@.history.status(),
    {
        AppSnapshot { scene: Arc::new(self.doc.snapshot()), history: self.history.status() }
    }

    /// Applies an edit and records its inverse; a refused edit leaves everything as it was.
    fn commit(&mut self, edit: Edit)
        ensures
            final(self)@ == old(self)@.committed(edit@),
    {
        match edit.apply(&mut self.doc) {
            Ok(undo) => self.history.record(undo),
            Err(_) => {},
        }
    }
}

impl Default for EngineState {
    fn default() -> (res: EngineState)
        ensures
            res@ == EngineView::fresh(),
            res@.wf(),
    {
        EngineState::new()
    }
}

/// Applies one command.
pub fn apply(cmd: Command, state: &mut EngineState) -> (outcome: ApplyOutcome)
    requires
        old(state)@.wf(),
        old(state)@.accepts(cmd),
    ensures
        final(state)@ == old(state)@.after(cmd),
        final(state)@.wf(),
        outcome == (if cmd is Shutdown {
            ApplyOutcome::Shutdown
        } else {
            ApplyOutcome::Continue
        }),
{
    let ghost before = state@;
    proof {
        crate::document_laws::lemma_command_keeps_wf(before, cmd);
    }
    match cmd {
        Command::BeginStroke { id, sample, caps, brush } => {
            let mut samples: Vec<Sample> = Vec::new();
            samples.push(sample);
            assert(samples@ =~= seq![sample]);
            state.doc.begin_stroke(Stroke { id, samples, caps, brush });
        },
        Command::AddSample { id, sample } => {
            state.doc.add_sample(id, sample);
        },
        Command::ReviseSample { stroke_id, update_index, revision } => {
            state.doc.revise_sample(stroke_id, update_index, revision);
        },
        Command::EndStroke { id } => {
            if let Some((stroke, layer)) = state.doc.end_stroke(id) {
                state.commit(Edit::AddStroke { stroke, layer });
            }
        },
        Command::CancelStroke { id } => {
            state.doc.end_stroke(id);
        },
        Command::SetPageSize(size) => {
            state.doc.set_page_size(size);
        },
        Command::SetShowBounds(show) => {
            state.doc.set_show_bounds(show);
        },
        Command::SetClipToBounds(clip) => {
            state.doc.set_clip_to_bounds(clip);
        },
        Command::SetBrushMaxWidth(v) => {
            state.doc.set_brush_max_width(v);
        },
        Command::SetBrushMinWidth(v) => {
            state.doc.set_brush_min_width(v);
        },
        Command::SetBrushMinRatio(r) => {
            state.doc.set_brush_min_ratio(r);
        },
        Command::SetBrushColor(c) => {
            state.doc.set_brush_color(c);
        },
        Command::SetBrushType(brush_type) => {
            state.doc.set_brush_type(brush_type);
        },
        Command::AddLayer { name } => {
            let layer = Layer::new(&mut state.layer_ids, name);
            let index: usize = state.doc.layers().len();
            state.commit(Edit::AddLayer { layer, index, was_active: false });
        },
        Command::RemoveLayer { id } => {
            if !state.doc.has_active_stroke() {
                state.commit(Edit::RemoveLayer { id });
            }
        },
        Command::MoveLayer { id, new_index } => {
            state.commit(Edit::MoveLayer { id, new_index });
        },
        Command::SetActiveLayer { id } => {
            state.doc.set_active_layer(id);
        },
        Command::SetLayerName { id, name } => {
            state.doc.set_layer_name(id, name);
        },
        Command::SetLayerVisible { id, visible } => {
            state.doc.set_layer_visible(id, visible);
        },
        Command::SetLayerOpacity { id, opacity } => {
            state.doc.set_layer_opacity(id, opacity);
        },
        Command::SetLayerBlendMode { id, mode } => {
            state.doc.set_layer_blend_mode(id, mode);
        },
        Command::Undo => {
            if !state.doc.has_active_stroke() {
                if let Some(undo) = state.history.take_past() {
                    match undo.apply(&mut state.doc) {
                        Ok(forward_again) => state.history.push_future(forward_again),
                        Err(_) => {},
                    }
                }
            }
        },
        Command::Redo => {
            if !state.doc.has_active_stroke() {
                if let Some(forward) = state.history.take_future() {
                    match forward.apply(&mut state.doc) {
                        Ok(inverse_again) => state.history.push_past(inverse_again),
                        Err(_) => {},
                    }
                }
            }
        },
        Command::Shutdown => {
            return ApplyOutcome::Shutdown;
        },
    }
    ApplyOutcome::Continue
}

/// The state after the next command of a run.
#[verifier::opaque]
pub open spec fn after_next(state: EngineView, cmd: Command) -> EngineView {
    state.after(cmd)
}

/// The state after a run of commands.
pub open spec fn after_all(state: EngineView, cmds: Seq<Command>) -> EngineView
    decreases cmds.len(),
{
    if cmds.len() == 0 {
        state
    } else {
        after_next(after_all(state, cmds.drop_last()), cmds.last())
    }
}

/// Every command of the run can be carried out when its turn comes.
#[verifier::opaque]
pub open spec fn accepts_all(state: EngineView, cmds: Seq<Command>) -> bool {
    forall|i: int|
        0 <= i < cmds.len() ==> after_all(state, cmds.take(i)).accepts(#[trigger] cmds[i])
}

impl EngineState {
    /// Whether the command can be carried out now.
    pub fn can_apply(&self, cmd: &Command) -> (res: bool)
        ensures
            res == self@.accepts(*cmd),
    {
        match cmd {
            Command::SetBrushMinWidth(_) => Float32(0).le(self.doc.brush().max_width),
            Command::AddLayer { .. } => self.layer_ids.lasts(),
            _ => true,
        }
    }
}

/// Applies the next command of a run and says whether it asked the engine to stop.
fn apply_next(cmd: Command, state: &mut EngineState) -> (stop: bool)
    requires
        old(state)@.wf(),
        old(state)@.accepts(cmd),
    ensures
        final(state)@ == after_next(old(state)@, cmd),
        final(state)@.wf(),
        stop == cmd is Shutdown,
{
    reveal(after_next);
    match apply(cmd, state) {
        ApplyOutcome::Shutdown => true,
        ApplyOutcome::Continue => false,
    }
}

/// A run can be carried out with one more command where the command can be carried out after
/// it.
proof fn lemma_accepts_one_more(state: EngineView, cmds: Seq<Command>, cmd: Command)
    requires
        accepts_all(state, cmds),
        after_all(state, cmds).accepts(cmd),
    ensures
        accepts_all(state, cmds.push(cmd)),
        after_all(state, cmds.push(cmd)) == after_next(after_all(state, cmds), cmd),
{
    reveal(accepts_all);
    let more = cmds.push(cmd);
    assert(more.drop_last() =~= cmds);
    assert forall|i: int| 0 <= i < more.len() implies after_all(state, more.take(i)).accepts(
        #[trigger] more[i],
    ) by {
        if i < cmds.len() {
            assert(more.take(i) =~= cmds.take(i));
            assert(more[i] == cmds[i]);
        } else {
            assert(more.take(i) =~= cmds);
        }
    }
}

/// Some command of the run asks the engine to stop.
pub open spec fn stops(cmds: Seq<Command>) -> bool {
    exists|i: int| 0 <= i < cmds.len() && (#[trigger] cmds[i]) is Shutdown
}

proof fn lemma_stops_one_more(cmds: Seq<Command>, cmd: Command)
    ensures
        stops(cmds.push(cmd)) == (stops(cmds) || cmd is Shutdown),
{
    let more = cmds.push(cmd);
    if stops(cmds) {
        let i = choose|i: int| 0 <= i < cmds.len() && (#[trigger] cmds[i]) is Shutdown;
        assert(more[i] is Shutdown);
    }
    if cmd is Shutdown {
        assert(more[cmds.len() as int] is Shutdown);
    }
    if stops(more) && !(cmd is Shutdown) {
        let i = choose|i: int| 0 <= i < more.len() && (#[trigger] more[i]) is Shutdown;
        assert(cmds[i] is Shutdown);
    }
}

/// Applies a batch of commands that arrived together, in order, and says whether one of them
/// asked the engine to stop. The batch is carried out to its end either way, unless a command
/// cannot be carried out: it is given by its place, and nothing from it on is.
pub fn apply_batch(cmds: Vec<Command>, state: &mut EngineState) -> (res: Result<bool, usize>)
    requires
        old(state)@.wf(),
    ensures
        final(state)@.wf(),
        match res {
            Ok(stop) => {
                &&& accepts_all(old(state)@, cmds@)
                &&& final(state)@ == after_all(old(state)@, cmds@)
                &&& stop == stops(cmds@)
            },
            Err(i) => {
                &&& i < cmds@.len()
                &&& accepts_all(old(state)@, cmds@.take(i as int))
                &&& final(state)@ == after_all(old(state)@, cmds@.take(i as int))
                &&& !final(state)@.accepts(cmds@[i as int])
            },
        },
{
    let ghost all = cmds@;
    let ghost start = state@;
    let mut rest = cmds;
    let mut stop: bool = false;
    let mut done: usize = 0;
    let total: usize = rest.len();
    assert(all.take(0) =~= Seq::<Command>::empty());
    assert(rest@ =~= all.skip(0));
    assert(accepts_all(start, all.take(0))) by {
        reveal(accepts_all);
    }
    while done < total
        invariant
            done <= total == all.len(),
            all == cmds@,
            start == old(state)@,
            rest@ == all.skip(done as int),
            state@ == after_all(start, all.take(done as int)),
            state@.wf(),
            accepts_all(start, all.take(done as int)),
            stop == stops(all.take(done as int)),
        ensures
            done == total,
        decreases total - done,
    {
        let cmd = rest.remove(0);
        assert(cmd == all[done as int]);
        assert(rest@ =~= all.skip(done + 1));
        if !state.can_apply(&cmd) {
            return Err(done);
        }
        proof {
            assert(all.take(done + 1) =~= all.take(done as int).push(cmd));
            lemma_accepts_one_more(start, all.take(done as int), cmd);
            lemma_stops_one_more(all.take(done as int), cmd);
        }
        if apply_next(cmd, state) {
            stop = true;
        }
        done = done + 1;
    }
    assert(all.take(done as int) =~= all);
    Ok(stop)
}

} // verus!
