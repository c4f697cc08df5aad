//! Layer identifiers stay distinct over any run of commands, whatever the strokes are called.

use crate::document::{edit_error, edited, has_layer, inverse, DocumentView, EditView};
use crate::document_laws::{layers_are_distinct, lemma_command_keeps_wf};
use crate::engine::{after_all, after_next, Command, EngineView};
use crate::float32::Float32;
use crate::history_laws::{
    bare_layers, lemma_layer_change_keeps_identifiers, lemma_revision_keeps_identifiers,
};
use crate::ids::LayerId;
use crate::layer::LayerView;
use vstd::prelude::*;

verus! {

broadcast use {
    crate::ids::lemma_layer_id_has_number,
    crate::ids::lemma_layer_id_is_numbered,
};

/// The identifiers of the layers.
pub open spec fn ids_of(layers: Seq<LayerView>) -> Set<LayerId> {
    Set::new(|id: LayerId| has_layer(layers, id))
}

/// Some identifier of the set is another one.
pub open spec fn has_other(ids: Set<LayerId>, id: LayerId) -> bool {
    exists|x: LayerId| #[trigger] ids.contains(x) && x != id
}

/// The identifiers after an edit; one that is refused leaves them.
pub open spec fn ids_after(edit: EditView, ids: Set<LayerId>) -> Set<LayerId> {
    match edit {
        EditView::AddLayer { layer, .. } => ids.insert(layer.id),
        EditView::RemoveLayer { id } => if ids.contains(id) && has_other(ids, id) {
            ids.remove(id)
        } else {
            ids
        },
        _ => ids,
    }
}

/// Taking the steps of the stack one after the other never brings in a layer that is there.
pub open spec fn adds_fresh(stack: Seq<EditView>, ids: Set<LayerId>) -> bool
    decreases stack.len(),
{
    if stack.len() == 0 {
        true
    } else {
        let edit = stack.last();
        &&& edit matches EditView::AddLayer { layer, .. } ==> !ids.contains(layer.id)
        &&& adds_fresh(stack.drop_last(), ids_after(edit, ids))
    }
}

/// A layer that the edit brings in was minted before `next`.
pub open spec fn adds_minted(edit: EditView, next: u64) -> bool {
    edit matches EditView::AddLayer { layer, .. } ==> layer.id.number() < next
}

/// The layers are distinct and were minted before the counter, and the history keeps that so.
#[verifier::opaque]
pub open spec fn layers_in_order(state: EngineView) -> bool {
    &&& state.doc.layers.len() > 0
    &&& layers_are_distinct(state.doc.layers)
    &&& forall|id: LayerId| #[trigger]
        has_layer(state.doc.layers, id) ==> id.number() < state.next_layer
    &&& forall|i: int|
        0 <= i < state.history.past.len() ==> adds_minted(
            #[trigger] state.history.past[i],
            state.next_layer,
        )
    &&& forall|i: int|
        0 <= i < state.history.future.len() ==> adds_minted(
            #[trigger] state.history.future[i],
            state.next_layer,
        )
    &&& adds_fresh(state.history.past, ids_of(state.doc.layers))
    &&& adds_fresh(state.history.future, ids_of(state.doc.layers))
}

proof fn lemma_insert_ids(layers: Seq<LayerView>, i: int, layer: LayerView)
    requires
        0 <= i <= layers.len(),
        layers_are_distinct(layers),
        !has_layer(layers, layer.id),
    ensures
        layers_are_distinct(layers.insert(i, layer)),
        ids_of(layers.insert(i, layer)) == ids_of(layers).insert(layer.id),
{
    let after = layers.insert(i, layer);
    assert forall|j: int, k: int| 0 <= j < k < after.len() implies (#[trigger] after[j]).id != (
    #[trigger] after[k]).id by {
        let a = if j < i { j } else { j - 1 };
        let b = if k < i { k } else { k - 1 };
        if j == i {
            assert(after[k] == layers[b]);
        } else if k == i {
            assert(after[j] == layers[a]);
        } else {
            assert(after[j] == layers[a] && after[k] == layers[b]);
        }
    }
    assert forall|id: LayerId| has_layer(after, id) == (has_layer(layers, id) || id == layer.id) by {
        if has_layer(layers, id) {
            let k = choose|k: int| 0 <= k < layers.len() && (#[trigger] layers[k]).id == id;
            assert(after[if k < i { k } else { k + 1 }].id == id);
        }
        if id == layer.id {
            assert(after[i].id == id);
        }
        if has_layer(after, id) && id != layer.id {
            let k = choose|k: int| 0 <= k < after.len() && (#[trigger] after[k]).id == id;
            assert(layers[if k < i { k } else { k - 1 }].id == id);
        }
    }
    assert(ids_of(after) =~= ids_of(layers).insert(layer.id));
}

proof fn lemma_remove_ids(layers: Seq<LayerView>, i: int)
    requires
        0 <= i < layers.len(),
        layers_are_distinct(layers),
    ensures
        layers_are_distinct(layers.remove(i)),
        !has_layer(layers.remove(i), layers[i].id),
        ids_of(layers.remove(i)) == ids_of(layers).remove(layers[i].id),
{
    let after = layers.remove(i);
    assert forall|j: int, k: int| 0 <= j < k < after.len() implies (#[trigger] after[j]).id != (
    #[trigger] after[k]).id by {
        let a = if j < i { j } else { j + 1 };
        let b = if k < i { k } else { k + 1 };
        assert(after[j] == layers[a] && after[k] == layers[b]);
    }
    assert forall|id: LayerId|
        has_layer(after, id) == (has_layer(layers, id) && id != layers[i].id) by {
        if has_layer(after, id) {
            let k = choose|k: int| 0 <= k < after.len() && (#[trigger] after[k]).id == id;
            let b = if k < i { k } else { k + 1 };
            assert(after[k] == layers[b]);
            assert(layers[b].id != layers[i].id);
        }
        if has_layer(layers, id) && id != layers[i].id {
            let k = choose|k: int| 0 <= k < layers.len() && (#[trigger] layers[k]).id == id;
            assert(after[if k < i { k } else { k - 1 }].id == id);
        }
    }
    assert(ids_of(after) =~= ids_of(layers).remove(layers[i].id));
}

/// Lists with the same identifiers in the same places.
proof fn lemma_same_ids(before: Seq<LayerView>, after: Seq<LayerView>)
    requires
        before.len() == after.len(),
        forall|i: int| 0 <= i < before.len() ==> (#[trigger] after[i]).id == before[i].id,
    ensures
        layers_are_distinct(before) ==> layers_are_distinct(after),
        ids_of(after) == ids_of(before),
{
    assert forall|id: LayerId| has_layer(after, id) == has_layer(before, id) by {
        if has_layer(before, id) {
            let k = choose|k: int| 0 <= k < before.len() && (#[trigger] before[k]).id == id;
            assert(after[k].id == id);
        }
        if has_layer(after, id) {
            let k = choose|k: int| 0 <= k < after.len() && (#[trigger] after[k]).id == id;
            assert(before[k].id == id);
        }
    }
    assert(ids_of(after) =~= ids_of(before));
}

/// In a list of distinct layers there is another one wherever there are two.
proof fn lemma_other(layers: Seq<LayerView>, i: int)
    requires
        0 <= i < layers.len(),
        layers_are_distinct(layers),
    ensures
        has_other(ids_of(layers), layers[i].id) == (layers.len() > 1),
{
    if layers.len() > 1 {
        let k: int = if i == 0 { 1 } else { 0 };
        assert(layers[k].id != layers[i].id) by {
            if k < i {
                assert(layers[k].id != layers[i].id);
            } else {
                assert(layers[i].id != layers[k].id);
            }
        }
        assert(has_layer(layers, layers[k].id));
        assert(ids_of(layers).contains(layers[k].id));
    } else {
        assert forall|x: LayerId| #[trigger] ids_of(layers).contains(x) implies x
            == layers[i].id by {
            let k = choose|k: int| 0 <= k < layers.len() && (#[trigger] layers[k]).id == x;
            assert(k == i);
        }
    }
}

/// What an edit that is carried out does to the identifiers, and what its inverse does.
proof fn lemma_edit_ids(edit: EditView, doc: DocumentView)
    requires
        doc.layers.len() > 0,
        layers_are_distinct(doc.layers),
        edit_error(edit, doc) is None,
        edit matches EditView::AddLayer { layer, .. } ==> !has_layer(doc.layers, layer.id),
    ensures
        ({
            let ids = ids_of(doc.layers);
            let after = edited(edit, doc).layers;
            let undo = inverse(edit, doc);
            &&& after.len() > 0
            &&& layers_are_distinct(after)
            &&& ids_of(after) == ids_after(edit, ids)
            &&& undo matches EditView::AddLayer { layer, .. } ==> !ids_of(after).contains(layer.id)
                && ids.contains(layer.id)
            &&& ids_after(undo, ids_of(after)) == ids
        }),
{
    let layers = doc.layers;
    let ids = ids_of(layers);
    let after = edited(edit, doc).layers;
    match edit {
        EditView::AddStroke { stroke, layer } => {
            crate::document::lemma_layer_index_exists(layers, layer);
            lemma_same_ids(layers, after);
        },
        EditView::RemoveStroke { id, layer } => {
            crate::document::lemma_layer_index_exists(layers, layer);
            lemma_same_ids(layers, after);
        },
        EditView::AddLayer { layer, index, was_active } => {
            let i = crate::document::smaller(index as int, layers.len() as int);
            lemma_insert_ids(layers, i, layer);
            assert(after[i].id == layer.id);
            lemma_other(after, i);
            assert(ids_of(after).remove(layer.id) =~= ids);
        },
        EditView::RemoveLayer { id } => {
            crate::document::lemma_layer_index_exists(layers, id);
            let i = crate::document::layer_index(layers, id);
            lemma_remove_ids(layers, i);
            lemma_other(layers, i);
            assert(ids_of(after).insert(id) =~= ids);
        },
        EditView::MoveLayer { id, new_index } => {
            crate::document::lemma_layer_index_exists(layers, id);
            let i = crate::document::layer_index(layers, id);
            let target = crate::document::smaller(new_index as int, layers.len() - 1);
            lemma_remove_ids(layers, i);
            lemma_insert_ids(layers.remove(i), target, layers[i]);
            assert(ids_of(after) =~= ids);
        },
    }
}

/// An edit that is refused counts as one that leaves the identifiers.
proof fn lemma_refused_ids(edit: EditView, doc: DocumentView)
    requires
        doc.layers.len() > 0,
        layers_are_distinct(doc.layers),
        edit_error(edit, doc) is Some,
    ensures
        ids_after(edit, ids_of(doc.layers)) == ids_of(doc.layers),
{
    if let EditView::RemoveLayer { id } = edit {
        if has_layer(doc.layers, id) {
            crate::document::lemma_layer_index_exists(doc.layers, id);
            lemma_other(doc.layers, crate::document::layer_index(doc.layers, id));
        }
    }
}

/// An edit that is carried out keeps the order, with its inverse on the other stack.
proof fn lemma_step_keeps_order(state: EngineView, edit: EditView, other: Seq<EditView>)
    requires
        state.doc.layers.len() > 0,
        layers_are_distinct(state.doc.layers),
        forall|id: LayerId| #[trigger]
            has_layer(state.doc.layers, id) ==> id.number() < state.next_layer,
        edit_error(edit, state.doc) is None,
        edit matches EditView::AddLayer { layer, .. } ==> !has_layer(state.doc.layers, layer.id),
        adds_minted(edit, state.next_layer),
        adds_fresh(other, ids_of(state.doc.layers)),
        forall|i: int| 0 <= i < other.len() ==> adds_minted(#[trigger] other[i], state.next_layer),
    ensures
        ({
            let after = edited(edit, state.doc).layers;
            let grown = other.push(inverse(edit, state.doc));
            &&& after.len() > 0
            &&& layers_are_distinct(after)
            &&& forall|id: LayerId| #[trigger] has_layer(after, id) ==> id.number()
                < state.next_layer
            &&& adds_fresh(grown, ids_of(after))
            &&& forall|i: int|
                0 <= i < grown.len() ==> adds_minted(#[trigger] grown[i], state.next_layer)
            &&& ids_of(after) == ids_after(edit, ids_of(state.doc.layers))
        }),
{
    let doc = state.doc;
    let after = edited(edit, doc).layers;
    let undo = inverse(edit, doc);
    let grown = other.push(undo);
    lemma_edit_ids(edit, doc);
    assert(grown.drop_last() =~= other);
    assert forall|id: LayerId| #[trigger] has_layer(after, id) implies id.number()
        < state.next_layer by {
        assert(ids_of(after).contains(id));
        assert(ids_after(edit, ids_of(doc.layers)).contains(id));
        assert(has_layer(doc.layers, id) || edit is AddLayer);
    }
    if let EditView::AddLayer { layer, .. } = undo {
        assert(ids_of(doc.layers).contains(layer.id));
        assert(has_layer(doc.layers, layer.id));
    }
}

proof fn lemma_commit_keeps_order(state: EngineView, edit: EditView)
    requires
        layers_in_order(state),
        edit matches EditView::AddLayer { layer, .. } ==> !has_layer(state.doc.layers, layer.id)
            && layer.id.number() < state.next_layer,
    ensures
        layers_in_order(state.committed(edit)),
{
    reveal(layers_in_order);
    if edit_error(edit, state.doc) is None {
        lemma_step_keeps_order(state, edit, state.history.past);
    }
}

proof fn lemma_undo_keeps_order(state: EngineView)
    requires
        layers_in_order(state),
    ensures
        layers_in_order(state.undone()),
        layers_in_order(state.redone()),
{
    reveal(layers_in_order);
    if state.doc.active is None && state.history.past.len() > 0 {
        let edit = state.history.past.last();
        let rest = state.history.past.drop_last();
        assert(adds_minted(state.history.past[state.history.past.len() - 1], state.next_layer));
        if edit_error(edit, state.doc) is None {
            lemma_step_keeps_order(state, edit, state.history.future);
        } else {
            lemma_refused_ids(edit, state.doc);
        }
        assert forall|i: int| 0 <= i < rest.len() implies adds_minted(
            #[trigger] rest[i],
            state.next_layer,
        ) by {
            assert(rest[i] == state.history.past[i]);
        }
    }
    if state.doc.active is None && state.history.future.len() > 0 {
        let edit = state.history.future.last();
        let rest = state.history.future.drop_last();
        assert(adds_minted(state.history.future[state.history.future.len() - 1], state.next_layer));
        if edit_error(edit, state.doc) is None {
            lemma_step_keeps_order(state, edit, state.history.past);
        } else {
            lemma_refused_ids(edit, state.doc);
        }
        assert forall|i: int| 0 <= i < rest.len() implies adds_minted(
            #[trigger] rest[i],
            state.next_layer,
        ) by {
            assert(rest[i] == state.history.future[i]);
        }
    }
}

/// What leaves identifiers, history and counter alone keeps the order.
proof fn lemma_unmoved_layers_keep_order(before: EngineView, after: EngineView)
    requires
        layers_in_order(before),
        bare_layers(after.doc.layers) == bare_layers(before.doc.layers),
        after.history == before.history,
        after.next_layer == before.next_layer,
    ensures
        layers_in_order(after),
{
    reveal(layers_in_order);
    let a = before.doc.layers;
    let b = after.doc.layers;
    assert(bare_layers(a).len() == a.len() && bare_layers(b).len() == b.len());
    assert forall|i: int| 0 <= i < a.len() implies (#[trigger] b[i]).id == a[i].id by {
        assert(bare_layers(a)[i].id == a[i].id);
        assert(bare_layers(b)[i].id == b[i].id);
    }
    lemma_same_ids(a, b);
    assert forall|id: LayerId| #[trigger] has_layer(b, id) implies id.number()
        < after.next_layer by {
        assert(ids_of(b).contains(id));
        assert(ids_of(a).contains(id));
    }
}

proof fn lemma_add_layer_keeps_order(state: EngineView, name: Seq<char>)
    requires
        layers_in_order(state),
        state.next_layer < u64::MAX,
    ensures
        ({
            let minted = EngineView {
                next_layer: crate::ids::stepped(state.next_layer),
                ..state
            };
            layers_in_order(
                minted.committed(
                    EditView::AddLayer {
                        layer: LayerView::empty(LayerId::numbered(state.next_layer), name),
                        index: state.doc.layers.len(),
                        was_active: false,
                    },
                ),
            )
        }),
{
    let minted = EngineView { next_layer: crate::ids::stepped(state.next_layer), ..state };
    assert(layers_in_order(minted) && !has_layer(
        state.doc.layers,
        LayerId::numbered(state.next_layer),
    )) by {
        reveal(layers_in_order);
        assert forall|i: int| 0 <= i < state.history.past.len() implies adds_minted(
            #[trigger] minted.history.past[i],
            minted.next_layer,
        ) by {
            assert(adds_minted(state.history.past[i], state.next_layer));
        }
        assert forall|i: int| 0 <= i < state.history.future.len() implies adds_minted(
            #[trigger] minted.history.future[i],
            minted.next_layer,
        ) by {
            assert(adds_minted(state.history.future[i], state.next_layer));
        }
    }
    lemma_commit_keeps_order(
        minted,
        EditView::AddLayer {
            layer: LayerView::empty(LayerId::numbered(state.next_layer), name),
            index: state.doc.layers.len(),
            was_active: false,
        },
    );
}

proof fn lemma_layer_command_keeps_order(state: EngineView, cmd: Command)
    requires
        layers_in_order(state),
        cmd is SetLayerName || cmd is SetLayerVisible || cmd is SetLayerOpacity
            || cmd is SetLayerBlendMode,
    ensures
        layers_in_order(state.after(cmd)),
{
    let doc = state.doc;
    let after = state.after(cmd);
    match cmd {
        Command::SetLayerName { id, name } => {
            if has_layer(doc.layers, id) {
                let layer = LayerView { name: name@, ..doc.layer(id) };
                lemma_layer_change_keeps_identifiers(doc, id, layer);
            }
        },
        Command::SetLayerVisible { id, visible } => {
            if has_layer(doc.layers, id) {
                let layer = LayerView { visible, ..doc.layer(id) };
                lemma_layer_change_keeps_identifiers(doc, id, layer);
            }
        },
        Command::SetLayerOpacity { id, opacity } => {
            if has_layer(doc.layers, id) {
                let opacity = opacity.clamped(Float32(0), Float32(0x3f80_0000));
                let layer = LayerView { opacity, ..doc.layer(id) };
                lemma_layer_change_keeps_identifiers(doc, id, layer);
            }
        },
        Command::SetLayerBlendMode { id, mode } => {
            if has_layer(doc.layers, id) {
                let layer = LayerView { blend_mode: mode, ..doc.layer(id) };
                lemma_layer_change_keeps_identifiers(doc, id, layer);
            }
        },
        _ => {},
    }
    lemma_unmoved_layers_keep_order(state, after);
}

/// Every command that can be carried out keeps the layers distinct and the history fit for it.
pub proof fn lemma_command_keeps_layers_in_order(state: EngineView, cmd: Command)
    requires
        layers_in_order(state),
        cmd is AddLayer ==> state.next_layer < u64::MAX,
    ensures
        layers_in_order(state.after(cmd)),
{
    match cmd {
        Command::EndStroke { id } => {
            if state.doc.drawing(id) {
                let idle = state.with_doc(state.doc.without_active());
                lemma_unmoved_layers_keep_order(state, idle);
                lemma_commit_keeps_order(
                    idle,
                    EditView::AddStroke {
                        stroke: state.doc.active->0,
                        layer: state.doc.stroke_target(),
                    },
                );
            }
        },
        Command::AddLayer { name } => {
            lemma_add_layer_keeps_order(state, name@);
        },
        Command::RemoveLayer { id } => {
            lemma_commit_keeps_order(state, EditView::RemoveLayer { id });
        },
        Command::MoveLayer { id, new_index } => {
            lemma_commit_keeps_order(
                state,
                EditView::MoveLayer { id, new_index: new_index as nat },
            );
        },
        Command::Undo | Command::Redo => {
            lemma_undo_keeps_order(state);
        },
        Command::SetLayerName { .. } | Command::SetLayerVisible { .. }
        | Command::SetLayerOpacity { .. } | Command::SetLayerBlendMode { .. } => {
            lemma_layer_command_keeps_order(state, cmd);
        },
        Command::ReviseSample { stroke_id, update_index, revision } => {
            lemma_revision_keeps_identifiers(state.doc, stroke_id, update_index, revision);
            lemma_unmoved_layers_keep_order(state, state.after(cmd));
        },
        _ => {
            lemma_unmoved_layers_keep_order(state, state.after(cmd));
        },
    }
}

/// A new engine has its layer in order.
pub proof fn lemma_new_layers_are_in_order()
    ensures
        layers_in_order(EngineView::fresh()),
{
    reveal(layers_in_order);
    let layers = EngineView::fresh().doc.layers;
    assert forall|id: LayerId| #[trigger] has_layer(layers, id) implies id.number() < 2 by {
        let k = choose|k: int| 0 <= k < layers.len() && (#[trigger] layers[k]).id == id;
        assert(k == 0);
    }
}

/// Whatever run of commands a new engine has carried out, as long as the counter for layers
/// lasts: there is a layer, the identifiers of the layers are distinct, the active layer is
/// one of them, and so is the layer that a stroke being drawn is bound for.
pub proof fn lemma_every_state_has_distinct_layers(cmds: Seq<Command>)
    requires
        cmds.len() + 2 <= u64::MAX,
    ensures
        ({
            let state = after_all(EngineView::fresh(), cmds);
            &&& layers_in_order(state)
            &&& layers_are_distinct(state.doc.layers)
            &&& state.doc.layers.len() > 0
            &&& has_layer(state.doc.layers, state.doc.active_layer)
            &&& state.doc.active is Some ==> has_layer(
                state.doc.layers,
                state.doc.stroke_target(),
            )
        }),
{
    lemma_run_keeps_layers_in_order(cmds);
    reveal(layers_in_order);
}

proof fn lemma_run_keeps_layers_in_order(cmds: Seq<Command>)
    requires
        cmds.len() + 2 <= u64::MAX,
    ensures
        layers_in_order(after_all(EngineView::fresh(), cmds)),
        after_all(EngineView::fresh(), cmds).wf(),
        after_all(EngineView::fresh(), cmds).next_layer <= cmds.len() + 2,
    decreases cmds.len(),
{
    if cmds.len() == 0 {
        lemma_new_layers_are_in_order();
        let start = EngineView::fresh();
        assert(start.doc.layers[0].id == start.doc.active_layer);
    } else {
        let before = after_all(EngineView::fresh(), cmds.drop_last());
        lemma_run_keeps_layers_in_order(cmds.drop_last());
        lemma_command_keeps_wf(before, cmds.last());
        lemma_command_keeps_layers_in_order(before, cmds.last());
        lemma_counter_steps_by_one(before, cmds.last());
        reveal(after_next);
    }
}

/// A command mints at most one layer.
pub proof fn lemma_counter_steps_by_one(state: EngineView, cmd: Command)
    requires
        state.next_layer < u64::MAX,
    ensures
        state.next_layer <= state.after(cmd).next_layer <= state.next_layer + 1,
{
}

} // verus!
