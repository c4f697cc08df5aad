//! What holds of documents, edits and commands as a whole.

use crate::document::{DocumentView, EditView};
use crate::engine::{Command, EngineView};
use crate::ids::{LayerId, StrokeId};
use crate::layer::{LayerView, StrokeView};
use crate::sample::{Sample, SampleClass, SampleRevision};
use vstd::prelude::*;

verus! {

/// An edit that is not refused keeps a document well-formed.
pub proof fn lemma_edit_keeps_wf(edit: EditView, doc: DocumentView)
    requires
        doc.wf(),
        crate::document::edit_error(edit, doc) is None,
    ensures
        crate::document::edited(edit, doc).wf(),
        forall|id: LayerId|
            crate::document::has_layer(doc.layers, id) && edit != (EditView::RemoveLayer { id })
                ==> #[trigger] crate::document::has_layer(
                crate::document::edited(edit, doc).layers,
                id,
            ),
{
    let after = crate::document::edited(edit, doc);
    assert forall|id: LayerId|
        crate::document::has_layer(doc.layers, id) && edit != (EditView::RemoveLayer {
            id,
        }) implies #[trigger] crate::document::has_layer(after.layers, id) by {
        lemma_edit_keeps_layer(edit, doc, id);
    }
    match edit {
        EditView::RemoveLayer { id } => {
            crate::document::lemma_layer_index_exists(doc.layers, id);
            assert(doc.active_layer != id ==> crate::document::has_layer(
                after.layers,
                doc.active_layer,
            ));
            let i = crate::document::layer_index(doc.layers, id);
            let rest = doc.layers.remove(i);
            if doc.active_layer == id {
                let k = crate::document::smaller(i, rest.len() - 1);
                assert(rest[k].id == after.active_layer);
            }
        },
        EditView::AddLayer { layer, index, was_active } => {
            let i = crate::document::smaller(index as int, doc.layers.len() as int);
            assert(after.layers[i].id == layer.id);
        },
        _ => {},
    }
    assert(crate::document::has_layer(after.layers, after.active_layer));
}

proof fn lemma_edit_keeps_layer(edit: EditView, doc: DocumentView, id: LayerId)
    requires
        crate::document::edit_error(edit, doc) is None,
        crate::document::has_layer(doc.layers, id),
        edit != (EditView::RemoveLayer { id }),
    ensures
        crate::document::has_layer(crate::document::edited(edit, doc).layers, id),
{
    let after = crate::document::edited(edit, doc).layers;
    let k = choose|k: int| 0 <= k < doc.layers.len() && (#[trigger] doc.layers[k]).id == id;
    match edit {
        EditView::AddStroke { stroke, layer } => {
            crate::document::lemma_layer_index_exists(doc.layers, layer);
            assert(after[k].id == id);
        },
        EditView::RemoveStroke { id: _, layer } => {
            crate::document::lemma_layer_index_exists(doc.layers, layer);
            assert(after[k].id == id);
        },
        EditView::AddLayer { layer, index, was_active } => {
            let i = crate::document::smaller(index as int, doc.layers.len() as int);
            assert(after[if k < i { k } else { k + 1 }].id == id);
        },
        EditView::RemoveLayer { id: removed } => {
            crate::document::lemma_layer_index_exists(doc.layers, removed);
            let i = crate::document::layer_index(doc.layers, removed);
            assert(after[if k < i { k } else { k - 1 }].id == id);
        },
        EditView::MoveLayer { id: moved, new_index } => {
            crate::document::lemma_layer_index_exists(doc.layers, moved);
            let i = crate::document::layer_index(doc.layers, moved);
            let target = crate::document::smaller(new_index as int, doc.layers.len() - 1);
            let without = doc.layers.remove(i);
            if k == i {
                assert(after[target].id == id);
            } else {
                let m = if k < i { k } else { k - 1 };
                assert(without[m].id == id);
                assert(after[if m < target { m } else { m + 1 }].id == id);
            }
        },
    }
}

proof fn lemma_committed_keeps_wf(state: EngineView, edit: EditView)
    requires
        state.wf(),
        edit is RemoveLayer ==> state.doc.active is None,
    ensures
        state.committed(edit).wf(),
{
    if crate::document::edit_error(edit, state.doc) is None {
        lemma_edit_keeps_wf(edit, state.doc);
    }
}

proof fn lemma_layer_change_keeps_wf(state: EngineView, id: LayerId, layer: LayerView)
    requires
        state.wf(),
        layer.id == state.doc.layer(id).id,
    ensures
        state.with_layer_changed(id, layer).wf(),
{
    if crate::document::has_layer(state.doc.layers, id) {
        crate::document::lemma_layer_index_exists(state.doc.layers, id);
        lemma_same_ids_same_layers(
            state.doc.layers,
            state.with_layer_changed(id, layer).doc.layers,
        );
    }
}

proof fn lemma_undo_keeps_wf(state: EngineView)
    requires
        state.wf(),
    ensures
        state.undone().wf(),
        state.redone().wf(),
{
    let doc = state.doc;
    if doc.active is None && state.history.past.len() > 0 {
        let edit = state.history.past.last();
        if crate::document::edit_error(edit, doc) is None {
            lemma_edit_keeps_wf(edit, doc);
        }
    }
    if doc.active is None && state.history.future.len() > 0 {
        let edit = state.history.future.last();
        if crate::document::edit_error(edit, doc) is None {
            lemma_edit_keeps_wf(edit, doc);
        }
    }
}

/// Lists with the same identifiers in the same places have the same layers.
proof fn lemma_same_ids_same_layers(a: Seq<LayerView>, b: Seq<LayerView>)
    requires
        a.len() == b.len(),
        forall|i: int| 0 <= i < a.len() ==> (#[trigger] a[i]).id == b[i].id,
    ensures
        forall|id: LayerId|
            crate::document::has_layer(a, id) ==> #[trigger] crate::document::has_layer(b, id),
{
    assert forall|id: LayerId| crate::document::has_layer(
        a,
        id,
    ) implies #[trigger] crate::document::has_layer(b, id) by {
        let k = choose|k: int| 0 <= k < a.len() && (#[trigger] a[k]).id == id;
        assert(b[k].id == id);
    }
}

/// Every command keeps the engine's state well-formed.
pub proof fn lemma_command_keeps_wf(state: EngineView, cmd: Command)
    requires
        state.wf(),
    ensures
        state.after(cmd).wf(),
{
    match cmd {
        Command::EndStroke { .. } | Command::AddLayer { .. } | Command::RemoveLayer { .. }
        | Command::MoveLayer { .. } | Command::Undo | Command::Redo => {
            lemma_recorded_command_keeps_wf(state, cmd);
        },
        Command::ReviseSample { .. } | Command::SetLayerName { .. }
        | Command::SetLayerVisible { .. } | Command::SetLayerOpacity { .. }
        | Command::SetLayerBlendMode { .. } => {
            lemma_layer_command_keeps_wf(state, cmd);
        },
        _ => {
            },
    }
}

proof fn lemma_layer_command_keeps_wf(state: EngineView, cmd: Command)
    requires
        state.wf(),
        cmd is ReviseSample || cmd is SetLayerName || cmd is SetLayerVisible
            || cmd is SetLayerOpacity || cmd is SetLayerBlendMode,
    ensures
        state.after(cmd).wf(),
{
    let doc = state.doc;
    match cmd {
        Command::ReviseSample { stroke_id, update_index, revision } => {
            if crate::document::any_awaits(doc.layers, stroke_id, update_index) {
                crate::document::lemma_top_awaiting(doc.layers, stroke_id, update_index);
            }
            lemma_same_ids_same_layers(
                doc.layers,
                doc.after_revision(stroke_id, update_index, revision).layers,
            );
        },
        Command::SetLayerName { id, name } => {
            lemma_layer_change_keeps_wf(state, id, LayerView { name: name@, ..doc.layer(id) });
        },
        Command::SetLayerVisible { id, visible } => {
            lemma_layer_change_keeps_wf(state, id, LayerView { visible, ..doc.layer(id) });
        },
        Command::SetLayerOpacity { id, opacity } => {
            let opacity = opacity.clamped(
                crate::float32::Float32(0),
                crate::float32::Float32(0x3f80_0000),
            );
            lemma_layer_change_keeps_wf(state, id, LayerView { opacity, ..doc.layer(id) });
        },
        Command::SetLayerBlendMode { id, mode } => {
            lemma_layer_change_keeps_wf(
                state,
                id,
                LayerView { blend_mode: mode, ..doc.layer(id) },
            );
        },
        _ => {},
    }
}

proof fn lemma_recorded_command_keeps_wf(state: EngineView, cmd: Command)
    requires
        state.wf(),
        cmd is EndStroke || cmd is AddLayer || cmd is RemoveLayer || cmd is MoveLayer
            || cmd is Undo || cmd is Redo,
    ensures
        state.after(cmd).wf(),
{
    let doc = state.doc;
    match cmd {
        Command::EndStroke { id } => {
            if doc.drawing(id) {
                lemma_committed_keeps_wf(
                    state.with_doc(doc.without_active()),
                    EditView::AddStroke { stroke: doc.active->0, layer: doc.stroke_target() },
                );
            }
        },
        Command::AddLayer { name } => {
            let stepped = EngineView {
                next_layer: crate::ids::stepped(state.next_layer),
                ..state
            };
            lemma_committed_keeps_wf(
                stepped,
                EditView::AddLayer {
                    layer: LayerView::empty(LayerId::numbered(state.next_layer), name@),
                    index: doc.layers.len(),
                    was_active: false,
                },
            );
        },
        Command::RemoveLayer { id } => {
            if doc.active is None {
                lemma_committed_keeps_wf(state, EditView::RemoveLayer { id });
            }
        },
        Command::MoveLayer { id, new_index } => {
            lemma_committed_keeps_wf(state, EditView::MoveLayer { id, new_index: new_index as nat });
        },
        Command::Undo | Command::Redo => {
            lemma_undo_keeps_wf(state);
        },
        _ => {},
    }
}

/// No two layers share an identifier.
pub open spec fn layers_are_distinct(layers: Seq<LayerView>) -> bool {
    forall|i: int, j: int|
        0 <= i < j < layers.len() ==> (#[trigger] layers[i]).id != (#[trigger] layers[j]).id
}

/// Applying the inverse after the edit leads back: an added stroke or layer is new, a removed
/// stroke is the last of its layer and the only one of its name, a removed or moved layer
/// exists.
pub open spec fn reversible(edit: EditView, layers: Seq<LayerView>) -> bool {
    match edit {
        EditView::AddStroke { stroke, layer } => {
            &&& crate::document::has_layer(layers, layer)
            &&& !crate::document::has_stroke(
                layers[crate::document::layer_index(layers, layer)].strokes,
                stroke.id,
            )
        },
        EditView::RemoveStroke { id, layer } => {
            let strokes = layers[crate::document::layer_index(layers, layer)].strokes;
            &&& crate::document::has_layer(layers, layer)
            &&& strokes.len() > 0
            &&& crate::document::is_first_stroke(strokes, id, strokes.len() - 1)
        },
        EditView::AddLayer { layer, index, was_active } => {
            &&& layers.len() > 0
            &&& index <= layers.len()
            &&& !crate::document::has_layer(layers, layer.id)
        },
        EditView::RemoveLayer { id } => {
            &&& layers.len() > 1
            &&& crate::document::has_layer(layers, id)
        },
        EditView::MoveLayer { id, new_index } => crate::document::has_layer(layers, id),
    }
}

/// In a list of distinct layers, a layer is where its identifier is found.
proof fn lemma_distinct_layer_index(layers: Seq<LayerView>, i: int)
    requires
        layers_are_distinct(layers),
        0 <= i < layers.len(),
    ensures
        crate::document::has_layer(layers, layers[i].id),
        crate::document::layer_index(layers, layers[i].id) == i,
{
    assert(crate::document::is_first_layer(layers, layers[i].id, i));
    crate::document::lemma_layer_index(layers, layers[i].id, i);
}

/// A reversible edit of a document with distinct layers is not refused, keeps the layers
/// distinct, has an inverse that is reversible and not refused either, and applying that
/// inverse restores the layers exactly. It restores the whole document unless the edit
/// brought in a layer and made it active.
pub proof fn lemma_inverse_restores(edit: EditView, doc: DocumentView)
    requires
        doc.wf(),
        layers_are_distinct(doc.layers),
        reversible(edit, doc.layers),
    ensures
        crate::document::edit_error(edit, doc) is None,
        layers_are_distinct(crate::document::edited(edit, doc).layers),
        ({
            let undo = crate::document::inverse(edit, doc);
            let after = crate::document::edited(edit, doc);
            &&& reversible(undo, after.layers)
            &&& crate::document::edit_error(undo, after) is None
            &&& crate::document::edited(undo, after).layers == doc.layers
            &&& !(edit is AddLayer && edit->was_active) ==> crate::document::edited(undo, after)
                == doc
        }),
{
    match edit {
        EditView::AddStroke { stroke, layer } => {
            lemma_add_stroke_restores(stroke, layer, doc);
        },
        EditView::RemoveStroke { id, layer } => {
            lemma_remove_stroke_restores(id, layer, doc);
        },
        EditView::AddLayer { layer, index, was_active } => {
            lemma_add_layer_restores(layer, index, was_active, doc);
        },
        EditView::RemoveLayer { id } => {
            lemma_remove_layer_restores(id, doc);
        },
        EditView::MoveLayer { id, new_index } => {
            lemma_move_layer_restores(id, new_index, doc);
        },
    }
}

spec fn restores(edit: EditView, doc: DocumentView) -> bool {
    let undo = crate::document::inverse(edit, doc);
    let after = crate::document::edited(edit, doc);
    &&& crate::document::edit_error(edit, doc) is None
    &&& layers_are_distinct(after.layers)
    &&& reversible(undo, after.layers)
    &&& crate::document::edit_error(undo, after) is None
    &&& crate::document::edited(undo, after).layers == doc.layers
    &&& !(edit is AddLayer && edit->was_active) ==> crate::document::edited(undo, after) == doc
}

proof fn lemma_add_stroke_restores(stroke: StrokeView, layer: LayerId, doc: DocumentView)
    requires
        doc.wf(),
        layers_are_distinct(doc.layers),
        reversible(EditView::AddStroke { stroke, layer }, doc.layers),
    ensures
        restores(EditView::AddStroke { stroke, layer }, doc),
{
    let after = crate::document::edited(EditView::AddStroke { stroke, layer }, doc);
    let i = crate::document::layer_index(doc.layers, layer);
    crate::document::lemma_layer_index_exists(doc.layers, layer);
    assert(crate::document::is_first_layer(after.layers, layer, i));
    crate::document::lemma_layer_index(after.layers, layer, i);
    let strokes = doc.layers[i].strokes;
    let added = strokes.push(stroke);
    assert(crate::document::is_first_stroke(added, stroke.id, strokes.len() as int));
    crate::document::lemma_stroke_index(added, stroke.id, strokes.len() as int);
    assert(added.remove(strokes.len() as int) =~= strokes);
    let back = crate::document::edited(
        EditView::RemoveStroke { id: stroke.id, layer },
        after,
    );
    assert(back.layers =~= doc.layers);
}

proof fn lemma_remove_stroke_restores(id: StrokeId, layer: LayerId, doc: DocumentView)
    requires
        doc.wf(),
        layers_are_distinct(doc.layers),
        reversible(EditView::RemoveStroke { id, layer }, doc.layers),
    ensures
        restores(EditView::RemoveStroke { id, layer }, doc),
{
    let edit = EditView::RemoveStroke { id, layer };
    let i = crate::document::layer_index(doc.layers, layer);
    crate::document::lemma_layer_index_exists(doc.layers, layer);
    let strokes = doc.layers[i].strokes;
    let last = strokes.len() - 1;
    crate::document::lemma_stroke_index(strokes, id, last);
    let after = crate::document::edited(edit, doc);
    assert(crate::document::is_first_layer(after.layers, layer, i));
    crate::document::lemma_layer_index(after.layers, layer, i);
    assert(strokes.remove(last) =~= strokes.drop_last());
    assert(strokes.drop_last().push(strokes[last]) =~= strokes);
    let back = crate::document::edited(crate::document::inverse(edit, doc), after);
    assert(back.layers =~= doc.layers);
}

proof fn lemma_add_layer_restores(
    layer: LayerView,
    index: nat,
    was_active: bool,
    doc: DocumentView,
)
    requires
        doc.wf(),
        layers_are_distinct(doc.layers),
        reversible(EditView::AddLayer { layer, index, was_active }, doc.layers),
    ensures
        restores(EditView::AddLayer { layer, index, was_active }, doc),
{
    let edit = EditView::AddLayer { layer, index, was_active };
    let after = crate::document::edited(edit, doc);
    let i = index as int;
    assert(after.layers == doc.layers.insert(i, layer));
    assert forall|j: int, k: int| 0 <= j < k < after.layers.len() implies (
    #[trigger] after.layers[j]).id != (#[trigger] after.layers[k]).id by {
        if j == i {
            assert(after.layers[k] == doc.layers[k - 1]);
        } else if k == i {
            assert(after.layers[j] == doc.layers[j]);
        } else {
            let a = if j < i { j } else { j - 1 };
            let b = if k < i { k } else { k - 1 };
            assert(after.layers[j] == doc.layers[a] && after.layers[k] == doc.layers[b]);
        }
    }
    lemma_distinct_layer_index(after.layers, i);
    assert(after.layers.remove(i) =~= doc.layers);
}

proof fn lemma_remove_layer_restores(id: LayerId, doc: DocumentView)
    requires
        doc.wf(),
        layers_are_distinct(doc.layers),
        reversible(EditView::RemoveLayer { id }, doc.layers),
    ensures
        restores(EditView::RemoveLayer { id }, doc),
{
    let edit = EditView::RemoveLayer { id };
    let i = crate::document::layer_index(doc.layers, id);
    crate::document::lemma_layer_index_exists(doc.layers, id);
    let after = crate::document::edited(edit, doc);
    assert(after.layers == doc.layers.remove(i));
    assert forall|j: int, k: int| 0 <= j < k < after.layers.len() implies (
    #[trigger] after.layers[j]).id != (#[trigger] after.layers[k]).id by {
        let a = if j < i { j } else { j + 1 };
        let b = if k < i { k } else { k + 1 };
        assert(after.layers[j] == doc.layers[a] && after.layers[k] == doc.layers[b]);
    }
    assert forall|j: int| 0 <= j < after.layers.len() implies (#[trigger] after.layers[j]).id
        != id by {
        let a = if j < i { j } else { j + 1 };
        assert(after.layers[j] == doc.layers[a]);
    }
    assert(after.layers.insert(i, doc.layers[i]) =~= doc.layers);
}

proof fn lemma_move_layer_restores(id: LayerId, new_index: nat, doc: DocumentView)
    requires
        doc.wf(),
        layers_are_distinct(doc.layers),
        reversible(EditView::MoveLayer { id, new_index }, doc.layers),
    ensures
        restores(EditView::MoveLayer { id, new_index }, doc),
{
    let edit = EditView::MoveLayer { id, new_index };
    let i = crate::document::layer_index(doc.layers, id);
    crate::document::lemma_layer_index_exists(doc.layers, id);
    let target = crate::document::smaller(new_index as int, doc.layers.len() - 1);
    let after = crate::document::edited(edit, doc);
    let without = doc.layers.remove(i);
    assert(after.layers == without.insert(target, doc.layers[i]));
    assert forall|j: int, k: int| 0 <= j < k < after.layers.len() implies (
    #[trigger] after.layers[j]).id != (#[trigger] after.layers[k]).id by {
        let a = lemma_moved_from(doc.layers, i, target, j);
        let b = lemma_moved_from(doc.layers, i, target, k);
        assert(a != b);
        if a < b {
            assert(doc.layers[a].id != doc.layers[b].id);
        } else {
            assert(doc.layers[b].id != doc.layers[a].id);
        }
    }
    lemma_distinct_layer_index(after.layers, target);
    assert(after.layers.remove(target) =~= without);
    assert(without.insert(i, doc.layers[i]) =~= doc.layers);
    assert(crate::document::smaller(i, after.layers.len() - 1) == i);
}

/// Where the layer that ends up at `j` was before layer `i` moved to `target`.
proof fn lemma_moved_from(layers: Seq<LayerView>, i: int, target: int, j: int) -> (k: int)
    requires
        0 <= i < layers.len(),
        0 <= target < layers.len(),
        0 <= j < layers.len(),
    ensures
        0 <= k < layers.len(),
        layers.remove(i).insert(target, layers[i])[j] == layers[k],
        k == (if j == target {
            i
        } else {
            let m = if j < target { j } else { j - 1 };
            if m < i { m } else { m + 1 }
        }),
{
    if j == target {
        i
    } else {
        let m = if j < target { j } else { j - 1 };
        let k = if m < i { m } else { m + 1 };
        assert(layers.remove(i)[m] == layers[k]);
        k
    }
}

/// Loading a saved document gives back the document without the stroke being drawn.
pub proof fn lemma_load_of_save(doc: DocumentView, fresh: LayerId)
    requires
        doc.wf(),
    ensures
        crate::document::loaded(crate::document::saved(doc), fresh) == doc.without_active(),
{
}

/// A saved document does not depend on the stroke being drawn.
pub proof fn lemma_save_drops_active_stroke(doc: DocumentView, stroke: StrokeView)
    ensures
        crate::document::saved(doc.begun(stroke)) == crate::document::saved(doc),
{
}

/// After loading, the next stroke identifier exceeds every loaded one below the end of the
/// range.
pub proof fn lemma_loaded_strokes_are_passed(upcoming: u64, strokes: Seq<StrokeView>, i: int)
    requires
        0 <= i < strokes.len(),
        strokes[i].id.0 < u64::MAX,
    ensures
        crate::document::raised_past_strokes(upcoming, strokes) > strokes[i].id.0,
        crate::document::raised_past_strokes(upcoming, strokes) >= upcoming,
    decreases strokes.len(),
{
    lemma_raising_past_strokes_never_goes_back(upcoming, strokes.drop_last());
    if i < strokes.len() - 1 {
        lemma_loaded_strokes_are_passed(upcoming, strokes.drop_last(), i);
    }
}

proof fn lemma_raising_past_strokes_never_goes_back(upcoming: u64, strokes: Seq<StrokeView>)
    ensures
        crate::document::raised_past_strokes(upcoming, strokes) >= upcoming,
    decreases strokes.len(),
{
    if strokes.len() > 0 {
        lemma_raising_past_strokes_never_goes_back(upcoming, strokes.drop_last());
    }
}

/// After loading, the next layer identifier exceeds every loaded one below the end of the
/// range.
pub proof fn lemma_loaded_layers_are_passed(upcoming: u64, layers: Seq<LayerView>, i: int)
    requires
        0 <= i < layers.len(),
        layers[i].id.number() < u64::MAX,
    ensures
        crate::document::raised_past_layers(upcoming, layers) > layers[i].id.number(),
        crate::document::raised_past_layers(upcoming, layers) >= upcoming,
    decreases layers.len(),
{
    lemma_raising_past_layers_never_goes_back(upcoming, layers.drop_last());
    if i < layers.len() - 1 {
        lemma_loaded_layers_are_passed(upcoming, layers.drop_last(), i);
    }
}

proof fn lemma_raising_past_layers_never_goes_back(upcoming: u64, layers: Seq<LayerView>)
    ensures
        crate::document::raised_past_layers(upcoming, layers) >= upcoming,
    decreases layers.len(),
{
    if layers.len() > 0 {
        lemma_raising_past_layers_never_goes_back(upcoming, layers.drop_last());
    }
}

/// A revision commits the sample it applies to: where no other sample waits for it, a second
/// revision with the same index finds none.
pub proof fn lemma_second_revision_is_ignored(
    samples: Seq<Sample>,
    update_index: u64,
    k: int,
    revision: SampleRevision,
)
    requires
        0 <= k < samples.len(),
        samples[k].class == (SampleClass::Estimated { update_index }),
        forall|j: int|
            0 <= j < samples.len() && j != k ==> (#[trigger] samples[j]).class != (
            SampleClass::Estimated { update_index }),
    ensures
        !crate::layer::has_estimate(
            crate::layer::revised(samples, update_index, revision),
            update_index,
        ),
        crate::layer::revised(samples, update_index, revision)[k] == (Sample {
            class: SampleClass::Committed,
            ..revision.applied(samples[k])
        }),
{
    assert(crate::layer::has_estimate(samples, update_index));
    crate::layer::lemma_last_estimate(samples, update_index);
    assert(crate::layer::last_estimate(samples, update_index) == k);
}

/// A stroke being drawn is seen once, on top of everything, even where its layer is hidden.
pub proof fn lemma_active_stroke_is_shown(doc: DocumentView)
    requires
        doc.active is Some,
    ensures
        doc.scene().strokes.last() == doc.active->0,
        doc.scene().strokes.drop_last() == doc.without_active().scene().strokes,
{
    assert(doc.scene().strokes.drop_last() =~= crate::document::visible_strokes(doc.layers));
}

} // verus!
