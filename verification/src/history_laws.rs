//! What holds of the undo and redo history over any run of commands.
//!
//! An edit's success, and which layers and strokes it leaves behind, depend only on the
//! identifiers in the document. Commands that are not recorded leave those alone, so a
//! recorded step can be taken back however the contents were changed in between.

use crate::brush::BrushParams;
use crate::document::{DocumentView, EditView};
use crate::engine::{Command, EngineView};
use crate::float32::Float32;
use crate::ids::{LayerId, StrokeId};
use crate::layer::{LayerView, StrokeView};
use crate::sample::ToolCaps;
use vstd::prelude::*;

verus! {

/// A stroke reduced to its identifier.
pub open spec fn bare_stroke(stroke: StrokeView) -> StrokeView {
    StrokeView {
        id: stroke.id,
        samples: Seq::empty(),
        caps: ToolCaps::none(),
        brush: BrushParams::initial(),
    }
}

/// Strokes reduced to their identifiers.
pub open spec fn bare_strokes(strokes: Seq<StrokeView>) -> Seq<StrokeView> {
    strokes.map_values(|s: StrokeView| bare_stroke(s))
}

/// A layer reduced to its identifier and those of its strokes.
pub open spec fn bare_layer(layer: LayerView) -> LayerView {
    LayerView {
        strokes: bare_strokes(layer.strokes),
        ..LayerView::empty(layer.id, Seq::empty())
    }
}

/// Layers reduced to identifiers.
pub open spec fn bare_layers(layers: Seq<LayerView>) -> Seq<LayerView> {
    layers.map_values(|l: LayerView| bare_layer(l))
}

/// A document of which only the layers are of interest.
pub open spec fn of_layers(layers: Seq<LayerView>) -> DocumentView {
    DocumentView {
        page: crate::geometry::Page::initial(),
        brush: BrushParams::initial(),
        layers,
        active_layer: layers[0].id,
        active: None,
        active_stroke_layer: None,
    }
}

/// An edit whose payload is reduced to identifiers.
pub open spec fn bare_edit(edit: EditView) -> EditView {
    match edit {
        EditView::AddStroke { stroke, layer } => EditView::AddStroke {
            stroke: bare_stroke(stroke),
            layer,
        },
        EditView::AddLayer { layer, index, was_active } => EditView::AddLayer {
            layer: bare_layer(layer),
            index,
            was_active: false,
        },
        _ => edit,
    }
}

/// Edits whose payloads are reduced to identifiers.
pub open spec fn bare_edits(edits: Seq<EditView>) -> Seq<EditView> {
    edits.map_values(|e: EditView| bare_edit(e))
}

/// The edits can be applied one after the other, the last one first, and each can be taken
/// back.
pub open spec fn replayable(edits: Seq<EditView>, layers: Seq<LayerView>) -> bool
    decreases edits.len(),
{
    edits.len() == 0 || {
        &&& crate::document_laws::reversible(edits.last(), layers)
        &&& replayable(
            edits.drop_last(),
            crate::document::edited(edits.last(), of_layers(layers)).layers,
        )
    }
}

/// The layers that the edits bring in were minted before the counter reached `next`.
pub open spec fn minted_before(edits: Seq<EditView>, next: u64) -> bool {
    forall|i: int|
        0 <= i < edits.len() ==> (#[trigger] edits[i] matches EditView::AddLayer { layer, .. }
            ==> layer.id.number() < next)
}

/// The history fits the document: layers are distinct and were minted before the counter,
/// and all steps of the history can be undone and redone.
#[verifier::opaque]
pub open spec fn coherent(state: EngineView) -> bool {
    &&& crate::document_laws::layers_are_distinct(state.doc.layers)
    &&& forall|i: int|
        0 <= i < state.doc.layers.len() ==> (#[trigger] state.doc.layers[i]).id.number()
            < state.next_layer
    &&& minted_before(state.history.past, state.next_layer)
    &&& minted_before(state.history.future, state.next_layer)
    &&& replayable(bare_edits(state.history.past), bare_layers(state.doc.layers))
    &&& replayable(bare_edits(state.history.future), bare_layers(state.doc.layers))
}

proof fn lemma_bare_layer_index(layers: Seq<LayerView>, id: LayerId)
    ensures
        crate::document::has_layer(bare_layers(layers), id) == crate::document::has_layer(
            layers,
            id,
        ),
        crate::document::has_layer(layers, id) ==> {
            &&& crate::document::layer_index(bare_layers(layers), id)
                == crate::document::layer_index(layers, id)
            &&& crate::document::is_first_layer(
                layers,
                id,
                crate::document::layer_index(layers, id),
            )
        },
{
    let bare = bare_layers(layers);
    if crate::document::has_layer(layers, id) {
        crate::document::lemma_layer_index_exists(layers, id);
        let i = crate::document::layer_index(layers, id);
        assert(crate::document::is_first_layer(bare, id, i));
        crate::document::lemma_layer_index(bare, id, i);
    }
    if crate::document::has_layer(bare, id) {
        let i = choose|i: int| 0 <= i < bare.len() && (#[trigger] bare[i]).id == id;
        assert(layers[i].id == id);
    }
}

proof fn lemma_bare_first_stroke(strokes: Seq<StrokeView>, id: StrokeId, i: int)
    ensures
        crate::document::is_first_stroke(bare_strokes(strokes), id, i)
            == crate::document::is_first_stroke(strokes, id, i),
{
    let bare = bare_strokes(strokes);
    if crate::document::is_first_stroke(bare, id, i) {
        assert forall|j: int| 0 <= j < i implies (#[trigger] strokes[j]).id != id by {
            assert(bare[j].id != id);
        }
    }
}

proof fn lemma_bare_has_stroke(strokes: Seq<StrokeView>, id: StrokeId)
    ensures
        crate::document::has_stroke(bare_strokes(strokes), id) == crate::document::has_stroke(
            strokes,
            id,
        ),
{
    let bare = bare_strokes(strokes);
    if crate::document::has_stroke(strokes, id) {
        let i = choose|i: int| 0 <= i < strokes.len() && (#[trigger] strokes[i]).id == id;
        assert(bare[i].id == id);
    }
    if crate::document::has_stroke(bare, id) {
        let i = choose|i: int| 0 <= i < bare.len() && (#[trigger] bare[i]).id == id;
        assert(strokes[i].id == id);
    }
}

/// Whether an edit can be taken back depends on identifiers only.
proof fn lemma_bare_reversible(edit: EditView, layers: Seq<LayerView>)
    ensures
        crate::document_laws::reversible(bare_edit(edit), bare_layers(layers))
            == crate::document_laws::reversible(edit, layers),
{
    match edit {
        EditView::AddStroke { stroke, layer } => {
            lemma_bare_layer_index(layers, layer);
            lemma_bare_has_stroke(
                layers[crate::document::layer_index(layers, layer)].strokes,
                stroke.id,
            );
        },
        EditView::RemoveStroke { id, layer } => {
            lemma_bare_layer_index(layers, layer);
            let strokes = layers[crate::document::layer_index(layers, layer)].strokes;
            lemma_bare_first_stroke(strokes, id, strokes.len() - 1);
        },
        EditView::AddLayer { layer, index, was_active } => {
            lemma_bare_layer_index(layers, layer.id);
        },
        EditView::RemoveLayer { id } => {
            lemma_bare_layer_index(layers, id);
        },
        EditView::MoveLayer { id, new_index } => {
            lemma_bare_layer_index(layers, id);
        },
    }
}

/// Which identifiers an edit leaves behind, and in what order, depends on identifiers only.
proof fn lemma_bare_edited(edit: EditView, doc: DocumentView)
    requires
        crate::document_laws::reversible(edit, doc.layers),
    ensures
        bare_layers(crate::document::edited(edit, doc).layers) == crate::document::edited(
            bare_edit(edit),
            of_layers(bare_layers(doc.layers)),
        ).layers,
{
    let bare = bare_layers(doc.layers);
    let left = bare_layers(crate::document::edited(edit, doc).layers);
    let right = crate::document::edited(bare_edit(edit), of_layers(bare)).layers;
    match edit {
        EditView::AddStroke { stroke, layer } => {
            lemma_bare_layer_index(doc.layers, layer);
            let i = crate::document::layer_index(doc.layers, layer);
            let strokes = doc.layers[i].strokes;
            assert(bare_strokes(strokes.push(stroke)) =~= bare_strokes(strokes).push(
                bare_stroke(stroke),
            ));
            assert(left =~= right);
        },
        EditView::RemoveStroke { id, layer } => {
            lemma_bare_layer_index(doc.layers, layer);
            let i = crate::document::layer_index(doc.layers, layer);
            let strokes = doc.layers[i].strokes;
            let last = strokes.len() - 1;
            lemma_bare_first_stroke(strokes, id, last);
            crate::document::lemma_stroke_index(strokes, id, last);
            crate::document::lemma_stroke_index(bare_strokes(strokes), id, last);
            assert(bare_strokes(strokes.remove(last)) =~= bare_strokes(strokes).remove(last));
            assert(left =~= right);
        },
        EditView::AddLayer { layer, index, was_active } => {
            assert(left =~= right);
        },
        EditView::RemoveLayer { id } => {
            lemma_bare_layer_index(doc.layers, id);
            assert(left =~= right);
        },
        EditView::MoveLayer { id, new_index } => {
            lemma_bare_layer_index(doc.layers, id);
            assert(left =~= right);
        },
    }
}

/// Applying a reversible edit and putting its inverse on a stack that could be replayed before
/// gives a stack that can be replayed.
proof fn lemma_inverse_extends_stack(edit: EditView, doc: DocumentView, stack: Seq<EditView>)
    requires
        doc.wf(),
        crate::document_laws::layers_are_distinct(doc.layers),
        crate::document_laws::reversible(edit, doc.layers),
        replayable(bare_edits(stack), bare_layers(doc.layers)),
    ensures
        replayable(
            bare_edits(stack.push(crate::document::inverse(edit, doc))),
            bare_layers(crate::document::edited(edit, doc).layers),
        ),
{
    let undo = crate::document::inverse(edit, doc);
    let after = crate::document::edited(edit, doc);
    crate::document_laws::lemma_inverse_restores(edit, doc);
    lemma_bare_reversible(undo, after.layers);
    lemma_bare_edited(undo, after);
    let longer = bare_edits(stack.push(undo));
    assert(longer.drop_last() =~= bare_edits(stack));
    assert(longer.last() == bare_edit(undo));
}

/// The last step of a stack that can be replayed is reversible, and the rest can be replayed
/// after it.
proof fn lemma_stack_step(stack: Seq<EditView>, doc: DocumentView)
    requires
        stack.len() > 0,
        replayable(bare_edits(stack), bare_layers(doc.layers)),
    ensures
        crate::document_laws::reversible(stack.last(), doc.layers),
        replayable(
            bare_edits(stack.drop_last()),
            bare_layers(crate::document::edited(stack.last(), doc).layers),
        ),
{
    let bare = bare_edits(stack);
    assert(bare.last() == bare_edit(stack.last()));
    assert(bare.drop_last() =~= bare_edits(stack.drop_last()));
    lemma_bare_reversible(stack.last(), doc.layers);
    lemma_bare_edited(stack.last(), doc);
}

/// A reversible edit that brings in no layer minted later keeps all layers minted before, and
/// so does its inverse.
proof fn lemma_minted(edit: EditView, doc: DocumentView, next: u64)
    requires
        crate::document_laws::reversible(edit, doc.layers),
        edit matches EditView::AddLayer { layer, .. } ==> layer.id.number() < next,
        forall|i: int| 0 <= i < doc.layers.len() ==> (#[trigger] doc.layers[i]).id.number() < next,
    ensures
        forall|i: int|
            0 <= i < crate::document::edited(edit, doc).layers.len() ==> (
            #[trigger] crate::document::edited(edit, doc).layers[i]).id.number() < next,
        crate::document::inverse(edit, doc) matches EditView::AddLayer { layer, .. }
            ==> layer.id.number() < next,
{
    let after = crate::document::edited(edit, doc).layers;
    match edit {
        EditView::AddStroke { stroke, layer } => {
            crate::document::lemma_layer_index_exists(doc.layers, layer);
            assert forall|i: int| 0 <= i < after.len() implies (#[trigger] after[i]).id.number()
                < next by {
                assert(after[i].id == doc.layers[i].id);
            }
        },
        EditView::RemoveStroke { id, layer } => {
            crate::document::lemma_layer_index_exists(doc.layers, layer);
            assert forall|i: int| 0 <= i < after.len() implies (#[trigger] after[i]).id.number()
                < next by {
                assert(after[i].id == doc.layers[i].id);
            }
        },
        EditView::AddLayer { layer, index, was_active } => {
            assert forall|i: int| 0 <= i < after.len() implies (#[trigger] after[i]).id.number()
                < next by {
                if i != index {
                    assert(after[i] == doc.layers[if i < index { i } else { i - 1 }]);
                }
            }
        },
        EditView::RemoveLayer { id } => {
            crate::document::lemma_layer_index_exists(doc.layers, id);
            let k = crate::document::layer_index(doc.layers, id);
            assert forall|i: int| 0 <= i < after.len() implies (#[trigger] after[i]).id.number()
                < next by {
                assert(after[i] == doc.layers[if i < k { i } else { i + 1 }]);
            }
        },
        EditView::MoveLayer { id, new_index } => {
            crate::document::lemma_layer_index_exists(doc.layers, id);
            let k = crate::document::layer_index(doc.layers, id);
            let target = crate::document::smaller(new_index as int, doc.layers.len() - 1);
            assert forall|i: int| 0 <= i < after.len() implies (#[trigger] after[i]).id.number()
                < next by {
                if i != target {
                    let m = if i < target { i } else { i - 1 };
                    assert(after[i] == doc.layers.remove(k)[m]);
                    assert(after[i] == doc.layers[if m < k { m } else { m + 1 }]);
                } else {
                    assert(after[i] == doc.layers[k]);
                }
            }
        },
    }
}

/// A recorded edit that can be taken back keeps the history coherent.
proof fn lemma_commit_keeps_coherence(state: EngineView, edit: EditView)
    requires
        state.wf(),
        coherent(state),
        crate::document_laws::reversible(edit, state.doc.layers),
        edit matches EditView::AddLayer { layer, .. } ==> layer.id.number() < state.next_layer,
    ensures
        coherent(state.committed(edit)),
{
    reveal(coherent);
    crate::document_laws::lemma_inverse_restores(edit, state.doc);
    lemma_inverse_extends_stack(edit, state.doc, state.history.past);
    lemma_minted(edit, state.doc, state.next_layer);
    let after = state.committed(edit);
    assert(bare_edits(after.history.future).len() == 0);
}

/// A state whose document has the same identifiers in the same places stays coherent.
proof fn lemma_same_identifiers_keep_coherence(before: EngineView, after: EngineView)
    requires
        coherent(before),
        after.history == before.history,
        after.next_layer == before.next_layer,
        bare_layers(after.doc.layers) == bare_layers(before.doc.layers),
    ensures
        coherent(after),
{
    reveal(coherent);
    let a = after.doc.layers;
    let b = before.doc.layers;
    assert(a.len() == bare_layers(a).len() && b.len() == bare_layers(b).len());
    assert forall|i: int| 0 <= i < a.len() implies (#[trigger] a[i]).id == b[i].id by {
        assert(bare_layers(a)[i].id == bare_layers(b)[i].id);
    }
}

pub(crate) proof fn lemma_layer_change_keeps_identifiers(doc: DocumentView, id: LayerId, layer: LayerView)
    requires
        crate::document::has_layer(doc.layers, id),
        layer.id == doc.layer(id).id,
        layer.strokes == doc.layer(id).strokes,
    ensures
        bare_layers(doc.with_layer(id, layer).layers) == bare_layers(doc.layers),
{
    crate::document::lemma_layer_index_exists(doc.layers, id);
    assert(bare_layer(layer) == bare_layer(doc.layer(id)));
    assert(bare_layers(doc.with_layer(id, layer).layers) =~= bare_layers(doc.layers));
}

pub(crate) proof fn lemma_revision_keeps_identifiers(
    doc: DocumentView,
    id: StrokeId,
    update_index: u64,
    revision: crate::sample::SampleRevision,
)
    ensures
        bare_layers(doc.after_revision(id, update_index, revision).layers) == bare_layers(
            doc.layers,
        ),
{
    let after = doc.after_revision(id, update_index, revision).layers;
    if crate::document::any_awaits(doc.layers, id, update_index) {
        crate::document::lemma_top_awaiting(doc.layers, id, update_index);
        let i = crate::document::top_awaiting(doc.layers, id, update_index);
        let l = doc.layers[i];
        crate::document::lemma_newest_awaiting_exists(l, id, update_index);
        let r = crate::document::revised_layer(l, id, update_index, revision);
        assert(bare_strokes(r.strokes) =~= bare_strokes(l.strokes));
        assert(bare_layer(r) == bare_layer(l));
        assert(bare_layers(after) =~= bare_layers(doc.layers));
    }
}

proof fn lemma_undo_keeps_coherence(state: EngineView)
    requires
        state.wf(),
        coherent(state),
    ensures
        coherent(state.undone()),
        coherent(state.redone()),
{
    reveal(coherent);
    if state.doc.active is None && state.history.past.len() > 0 {
        let edit = state.history.past.last();
        lemma_stack_step(state.history.past, state.doc);
        crate::document_laws::lemma_inverse_restores(edit, state.doc);
        lemma_inverse_extends_stack(edit, state.doc, state.history.future);
        lemma_minted(edit, state.doc, state.next_layer);
    }
    if state.doc.active is None && state.history.future.len() > 0 {
        let edit = state.history.future.last();
        lemma_stack_step(state.history.future, state.doc);
        crate::document_laws::lemma_inverse_restores(edit, state.doc);
        lemma_inverse_extends_stack(edit, state.doc, state.history.past);
        lemma_minted(edit, state.doc, state.next_layer);
    }
}

proof fn lemma_add_layer_keeps_coherence(state: EngineView, name: Seq<char>)
    requires
        state.wf(),
        coherent(state),
        state.next_layer < u64::MAX,
    ensures
        coherent(
            EngineView {
                next_layer: crate::ids::stepped(state.next_layer),
                ..state
            }.committed(
                EditView::AddLayer {
                    layer: LayerView::empty(LayerId::numbered(state.next_layer), name),
                    index: state.doc.layers.len(),
                    was_active: false,
                },
            ),
        ),
{
    broadcast use crate::ids::lemma_layer_id_has_number;

    reveal(coherent);
    let stepped = EngineView { next_layer: crate::ids::stepped(state.next_layer), ..state };
    let id = LayerId::numbered(state.next_layer);
    assert(coherent(stepped));
    assert(!crate::document::has_layer(state.doc.layers, id));
    lemma_commit_keeps_coherence(
        stepped,
        EditView::AddLayer {
            layer: LayerView::empty(id, name),
            index: state.doc.layers.len(),
            was_active: false,
        },
    );
}

/// The command names no stroke twice in a layer and does not use up the layer counter.
pub open spec fn mints_fresh(state: EngineView, cmd: Command) -> bool {
    &&& cmd matches Command::EndStroke { id } ==> state.doc.drawing(id)
        ==> !crate::document::has_stroke(state.doc.layer(state.doc.stroke_target()).strokes, id)
    &&& cmd is AddLayer ==> state.next_layer < u64::MAX
}

proof fn lemma_layer_command_keeps_coherence(state: EngineView, cmd: Command)
    requires
        coherent(state),
        cmd is SetLayerName || cmd is SetLayerVisible || cmd is SetLayerOpacity
            || cmd is SetLayerBlendMode,
    ensures
        coherent(state.after(cmd)),
{
    let doc = state.doc;
    let after = state.after(cmd);
    match cmd {
        Command::SetLayerName { id, name } => {
            if crate::document::has_layer(doc.layers, id) {
                lemma_layer_change_keeps_identifiers(
                    doc,
                    id,
                    LayerView { name: name@, ..doc.layer(id) },
                );
                lemma_same_identifiers_keep_coherence(state, after);
            }
        },
        Command::SetLayerVisible { id, visible } => {
            if crate::document::has_layer(doc.layers, id) {
                lemma_layer_change_keeps_identifiers(
                    doc,
                    id,
                    LayerView { visible, ..doc.layer(id) },
                );
                lemma_same_identifiers_keep_coherence(state, after);
            }
        },
        Command::SetLayerOpacity { id, opacity } => {
            if crate::document::has_layer(doc.layers, id) {
                let opacity = opacity.clamped(Float32(0), Float32(0x3f80_0000));
                lemma_layer_change_keeps_identifiers(
                    doc,
                    id,
                    LayerView { opacity, ..doc.layer(id) },
                );
                lemma_same_identifiers_keep_coherence(state, after);
            }
        },
        Command::SetLayerBlendMode { id, mode } => {
            if crate::document::has_layer(doc.layers, id) {
                lemma_layer_change_keeps_identifiers(
                    doc,
                    id,
                    LayerView { blend_mode: mode, ..doc.layer(id) },
                );
                lemma_same_identifiers_keep_coherence(state, after);
            }
        },
        _ => {},
    }
}

proof fn lemma_recorded_command_keeps_coherence(state: EngineView, cmd: Command)
    requires
        state.wf(),
        coherent(state),
        mints_fresh(state, cmd),
        cmd is EndStroke || cmd is AddLayer || cmd is RemoveLayer || cmd is MoveLayer,
    ensures
        coherent(state.after(cmd)),
{
    let doc = state.doc;
    match cmd {
        Command::EndStroke { id } => {
            if doc.drawing(id) {
                let idle = state.with_doc(doc.without_active());
                lemma_same_identifiers_keep_coherence(state, idle);
                lemma_commit_keeps_coherence(
                    idle,
                    EditView::AddStroke { stroke: doc.active->0, layer: doc.stroke_target() },
                );
            }
        },
        Command::AddLayer { name } => {
            lemma_add_layer_keeps_coherence(state, name@);
        },
        Command::RemoveLayer { id } => {
            let edit = EditView::RemoveLayer { id };
            if doc.active is None && crate::document::edit_error(edit, doc) is None {
                lemma_commit_keeps_coherence(state, edit);
            }
        },
        Command::MoveLayer { id, new_index } => {
            let edit = EditView::MoveLayer { id, new_index: new_index as nat };
            if crate::document::edit_error(edit, doc) is None {
                lemma_commit_keeps_coherence(state, edit);
            }
        },
        _ => {},
    }
}

/// Every command keeps the history coherent, as long as stroke identifiers are not reused and
/// the layer counter lasts.
pub proof fn lemma_command_keeps_coherence(state: EngineView, cmd: Command)
    requires
        state.wf(),
        coherent(state),
        mints_fresh(state, cmd),
    ensures
        coherent(state.after(cmd)),
{
    match cmd {
        Command::EndStroke { .. } | Command::AddLayer { .. } | Command::RemoveLayer { .. }
        | Command::MoveLayer { .. } => {
            lemma_recorded_command_keeps_coherence(state, cmd);
        },
        Command::SetLayerName { .. } | Command::SetLayerVisible { .. }
        | Command::SetLayerOpacity { .. } | Command::SetLayerBlendMode { .. } => {
            lemma_layer_command_keeps_coherence(state, cmd);
        },
        Command::ReviseSample { stroke_id, update_index, revision } => {
            lemma_revision_keeps_identifiers(state.doc, stroke_id, update_index, revision);
            lemma_same_identifiers_keep_coherence(state, state.after(cmd));
        },
        Command::Undo | Command::Redo => {
            lemma_undo_keeps_coherence(state);
        },
        _ => {
            lemma_same_identifiers_keep_coherence(state, state.after(cmd));
        },
    }
}

/// A new engine has a coherent history.
pub proof fn lemma_new_engine_is_coherent()
    ensures
        coherent(EngineView::fresh()),
{
    reveal(coherent);
    broadcast use crate::ids::lemma_layer_id_has_number;

    let state = EngineView::fresh();
    assert(bare_edits(state.history.past) =~= seq![]);
    assert(bare_edits(state.history.future) =~= seq![]);
}

/// With a coherent history and no stroke being drawn, undo takes the last step back whenever
/// there is one, and redo brings it again: the layers are as before and so is what is left to
/// undo and to redo.
pub proof fn lemma_undo_then_redo_restores(state: EngineView)
    requires
        state.wf(),
        coherent(state),
        state.doc.active is None,
        state.history.past.len() > 0,
    ensures
        crate::document::edit_error(state.history.past.last(), state.doc) is None,
        state.undone().history.past == state.history.past.drop_last(),
        state.undone().history.future.len() == state.history.future.len() + 1,
        state.undone().redone().doc.layers == state.doc.layers,
        state.undone().redone().history.future == state.history.future,
        state.undone().redone().history.past.drop_last() == state.history.past.drop_last(),
        state.undone().redone().history.past.len() == state.history.past.len(),
{
    reveal(coherent);
    let edit = state.history.past.last();
    lemma_stack_step(state.history.past, state.doc);
    crate::document_laws::lemma_inverse_restores(edit, state.doc);
    let undone = state.undone();
    assert(undone.history.future.drop_last() =~= state.history.future);
    assert(undone.redone().history.past.drop_last() =~= undone.history.past);
}

/// With a coherent history and no stroke being drawn, redo brings back the last undone step
/// whenever there is one, and undo takes it away again.
pub proof fn lemma_redo_then_undo_restores(state: EngineView)
    requires
        state.wf(),
        coherent(state),
        state.doc.active is None,
        state.history.future.len() > 0,
    ensures
        crate::document::edit_error(state.history.future.last(), state.doc) is None,
        state.redone().history.future == state.history.future.drop_last(),
        state.redone().history.past.len() == state.history.past.len() + 1,
        state.redone().undone().doc.layers == state.doc.layers,
        state.redone().undone().history.past == state.history.past,
        state.redone().undone().history.future.drop_last() == state.history.future.drop_last(),
        state.redone().undone().history.future.len() == state.history.future.len(),
{
    reveal(coherent);
    let edit = state.history.future.last();
    lemma_stack_step(state.history.future, state.doc);
    crate::document_laws::lemma_inverse_restores(edit, state.doc);
    let redone = state.redone();
    assert(redone.history.past.drop_last() =~= state.history.past);
    assert(redone.undone().history.future.drop_last() =~= redone.history.future);
}

/// Undoing a step that was just recorded gives back the layers and the earlier history; a
/// document in which the step made no layer active is given back whole.
pub proof fn lemma_commit_then_undo_restores(state: EngineView, edit: EditView)
    requires
        state.wf(),
        crate::document_laws::layers_are_distinct(state.doc.layers),
        crate::document_laws::reversible(edit, state.doc.layers),
        state.doc.active is None,
    ensures
        state.committed(edit).undone().doc.layers == state.doc.layers,
        !(edit is AddLayer && edit->was_active) ==> state.committed(edit).undone().doc
            == state.doc,
        state.committed(edit).undone().history.past == state.history.past,
        state.committed(edit).history.future.len() == 0,
{
    crate::document_laws::lemma_inverse_restores(edit, state.doc);
    let committed = state.committed(edit);
    assert(committed.history.past.drop_last() =~= state.history.past);
}

/// The command made a step that can be undone.
pub open spec fn makes_step(state: EngineView, cmd: Command) -> bool {
    &&& cmd is EndStroke || cmd is AddLayer || cmd is RemoveLayer || cmd is MoveLayer
    &&& state.after(cmd).history.past.len() > state.history.past.len()
}

/// Undo takes a step back and redo brings it again: the layers are those before it and those
/// after it, and what the history allows is what it allowed.
pub open spec fn undone_and_redone(before: EngineView, changed: EngineView) -> bool {
    let undone = changed.undone();
    let redone = undone.redone();
    &&& undone.doc.layers == before.doc.layers
    &&& undone.history.past == before.history.past
    &&& undone.history.status().can_redo
    &&& redone.doc.layers == changed.doc.layers
    &&& redone.history.status() == changed.history.status()
    &&& redone.history.past.len() == changed.history.past.len()
    &&& redone.history.future == changed.history.future
}

/// Committing an edit to an idle document, undoing it and redoing it.
proof fn lemma_committed_step(state: EngineView, edit: EditView)
    requires
        state.wf(),
        crate::document_laws::layers_are_distinct(state.doc.layers),
        crate::document_laws::reversible(edit, state.doc.layers),
        state.doc.active is None,
    ensures
        undone_and_redone(state, state.committed(edit)),
{
    let changed = state.committed(edit);
    let undo = crate::document::inverse(edit, state.doc);
    crate::document_laws::lemma_inverse_restores(edit, state.doc);
    crate::document_laws::lemma_edit_keeps_wf(edit, state.doc);
    crate::document_laws::lemma_inverse_restores(undo, changed.doc);
    let undone = changed.undone();
    assert(changed.history.past.last() == undo);
    assert(undone.history.past =~= state.history.past);
    assert(undone.redone().history.future =~= changed.history.future);
}

/// A step can be undone and redone, whichever command made it.
pub proof fn lemma_step_is_undone_and_redone(state: EngineView, cmd: Command)
    requires
        state.wf(),
        crate::document_laws::layers_are_distinct(state.doc.layers),
        mints_fresh(state, cmd),
        cmd is AddLayer ==> !crate::document::has_layer(
            state.doc.layers,
            LayerId::numbered(state.next_layer),
        ),
        makes_step(state, cmd),
        state.after(cmd).doc.active is None,
    ensures
        undone_and_redone(state, state.after(cmd)),
{
    let doc = state.doc;
    match cmd {
        Command::EndStroke { id } => {
            let idle = state.with_doc(doc.without_active());
            lemma_committed_step(
                idle,
                EditView::AddStroke { stroke: doc.active->0, layer: doc.stroke_target() },
            );
        },
        Command::AddLayer { name } => {
            let stepped = EngineView {
                next_layer: crate::ids::stepped(state.next_layer),
                ..state
            };
            let layer = LayerView::empty(LayerId::numbered(state.next_layer), name@);
            lemma_committed_step(
                stepped,
                EditView::AddLayer { layer, index: doc.layers.len(), was_active: false },
            );
        },
        Command::RemoveLayer { id } => {
            lemma_committed_step(state, EditView::RemoveLayer { id });
        },
        Command::MoveLayer { id, new_index } => {
            lemma_committed_step(state, EditView::MoveLayer { id, new_index: new_index as nat });
        },
        _ => {},
    }
}

/// Only committing a stroke, adding, removing or moving a layer, undoing and redoing touch the
/// history.
pub proof fn lemma_other_commands_keep_history(state: EngineView, cmd: Command)
    requires
        !(cmd is EndStroke),
        !(cmd is AddLayer),
        !(cmd is RemoveLayer),
        !(cmd is MoveLayer),
        !(cmd is Undo),
        !(cmd is Redo),
    ensures
        state.after(cmd).history == state.history,
{
}

/// While a stroke is being drawn, undo, redo and removing a layer change nothing.
pub proof fn lemma_refused_while_drawing(state: EngineView, cmd: Command)
    requires
        state.doc.active is Some,
        cmd is Undo || cmd is Redo || cmd is RemoveLayer,
    ensures
        state.after(cmd) == state,
{
}

/// A stroke goes to the layer that was active when it began: switching the active layer,
/// adding samples, layers and properties in between does not redirect it.
pub proof fn lemma_stroke_target_is_frozen(state: EngineView, cmd: Command)
    requires
        state.wf(),
        state.doc.active is Some,
        !(cmd is BeginStroke),
        state.after(cmd).doc.active is Some,
    ensures
        state.after(cmd).doc.stroke_target() == state.doc.stroke_target(),
        state.after(cmd).doc.active->0.id == state.doc.active->0.id,
        state.after(cmd).doc.active->0.brush == state.doc.active->0.brush,
        state.after(cmd).doc.active->0.caps == state.doc.active->0.caps,
{
    let after = state.after(cmd).doc;
    match cmd {
        Command::EndStroke { id } => {
            assert(!state.doc.drawing(id));
        },
        Command::CancelStroke { id } => {
            assert(!state.doc.drawing(id));
        },
        Command::Undo | Command::Redo | Command::RemoveLayer { .. } => {
            lemma_refused_while_drawing(state, cmd);
        },
        Command::AddLayer { .. } | Command::MoveLayer { .. } => {
            assert(after.active == state.doc.active);
        },
        Command::SetLayerName { .. } | Command::SetLayerVisible { .. }
        | Command::SetLayerOpacity { .. } | Command::SetLayerBlendMode { .. } => {
            assert(after.active == state.doc.active);
        },
        _ => {},
    }
}

/// Ending or cancelling a stroke that is not the one being drawn changes nothing.
pub proof fn lemma_other_stroke_is_ignored(state: EngineView, id: StrokeId)
    requires
        !state.doc.drawing(id),
    ensures
        state.after(Command::EndStroke { id }) == state,
        state.after(Command::CancelStroke { id }) == state,
{
}

/// Beginning a stroke and cancelling it gives back the document without a stroke being drawn.
pub proof fn lemma_cancel_drops_stroke(state: EngineView, begin: Command)
    requires
        begin is BeginStroke,
    ensures
        state.after(begin).after(Command::CancelStroke { id: begin->BeginStroke_id })
            == state.with_doc(state.doc.without_active()),
{
}

} // verus!
