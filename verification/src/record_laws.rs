//! What becomes of recorded samples and strokes: what a revision changes of them, which strokes
//! are seen, what a loaded document holds, and what the menu does with the history.

use crate::document::{
    all_strokes, edit_error, is_newest_awaiting, is_top_awaiting, loaded, visible_strokes,
    DocumentView, EditError, EditView, SavedView,
};
use crate::engine::{Command, EngineView};
use crate::float32::Float32;
use crate::geometry::Point;
use crate::ids::{LayerId, StrokeId};
use crate::layer::{has_estimate, is_last_estimate, revised, BlendMode, LayerView, StrokeView};
use crate::sample::{PointerId, Sample, SampleClass, SampleRevision, StylusButtons, ToolKind};
use crate::ui::{Action, ViewAction};
use vstd::prelude::*;

verus! {

/// The sample `now` is the sample `then` with what the revision carries, and final.
pub open spec fn takes_revision(then: Sample, now: Sample, revision: SampleRevision) -> bool {
    &&& revision.pressure is Some ==> now.pressure == revision.pressure->0
    &&& revision.pressure is None ==> now.pressure == then.pressure
    &&& revision.tilt is Some ==> now.tilt == revision.tilt
    &&& revision.tilt is None ==> now.tilt == then.tilt
    &&& revision.twist_deg is Some ==> now.twist_deg == revision.twist_deg
    &&& revision.twist_deg is None ==> now.twist_deg == then.twist_deg
    &&& revision.tangential_pressure is Some ==> now.tangential_pressure
        == revision.tangential_pressure
    &&& revision.tangential_pressure is None ==> now.tangential_pressure
        == then.tangential_pressure
    &&& now.position == then.position
    &&& now.timestamp == then.timestamp
    &&& now.tool == then.tool
    &&& now.pointer_id == then.pointer_id
    &&& now.buttons == then.buttons
    &&& now.class == SampleClass::Committed
}

/// The samples `now` are the samples `then` with the last one that waited for the revision
/// revised.
pub open spec fn last_waiting_is_revised(
    then: Seq<Sample>,
    now: Seq<Sample>,
    update_index: u64,
    revision: SampleRevision,
) -> bool {
    &&& now.len() == then.len()
    &&& forall|k: int|
        #![trigger now[k]]
        0 <= k < then.len() ==> {
            &&& is_last_estimate(then, update_index, k) ==> takes_revision(
                then[k],
                now[k],
                revision,
            )
            &&& !is_last_estimate(then, update_index, k) ==> now[k] == then[k]
        }
}

/// A revision overwrites what it carries of the last sample that waits for it, makes that sample
/// final, and leaves the others as they are.
pub proof fn lemma_revision_reaches_the_last_waiting(
    samples: Seq<Sample>,
    update_index: u64,
    revision: SampleRevision,
)
    ensures
        last_waiting_is_revised(
            samples,
            revised(samples, update_index, revision),
            update_index,
            revision,
        ),
{
    if has_estimate(samples, update_index) {
        crate::layer::lemma_last_estimate(samples, update_index);
        let k = crate::layer::last_estimate(samples, update_index);
        assert forall|j: int| is_last_estimate(samples, update_index, j) implies j == k by {
            if j < k {
                assert(samples[k].class != (SampleClass::Estimated { update_index }));
            }
            if k < j {
                assert(samples[j].class != (SampleClass::Estimated { update_index }));
            }
        }
    } else {
        assert forall|j: int| 0 <= j < samples.len() implies !is_last_estimate(
            samples,
            update_index,
            j,
        ) by {
            if is_last_estimate(samples, update_index, j) {
                assert(samples[j].class == (SampleClass::Estimated { update_index }));
            }
        }
    }
}

/// A revision of the stroke being drawn reaches its samples; nothing else changes.
pub proof fn lemma_drawn_stroke_is_revised(
    state: EngineView,
    stroke: StrokeView,
    update_index: u64,
    revision: SampleRevision,
)
    requires
        state.doc.active == Some(stroke),
        has_estimate(stroke.samples, update_index),
    ensures
        ({
            let after = state.after(
                Command::ReviseSample { stroke_id: stroke.id, update_index, revision },
            );
            &&& after.doc.active is Some
            &&& after.doc.active->0.id == stroke.id
            &&& after.doc.active->0.caps == stroke.caps
            &&& after.doc.active->0.brush == stroke.brush
            &&& last_waiting_is_revised(
                stroke.samples,
                after.doc.active->0.samples,
                update_index,
                revision,
            )
            &&& after.doc.layers == state.doc.layers
            &&& after.doc.page == state.doc.page
            &&& after.doc.brush == state.doc.brush
            &&& after.doc.active_layer == state.doc.active_layer
            &&& after.history == state.history
        }),
{
    lemma_revision_reaches_the_last_waiting(stroke.samples, update_index, revision);
}

/// A revision of a stroke that is not being drawn reaches the newest stroke of its name that
/// waits for it, in the topmost layer that has one; nothing else changes.
pub proof fn lemma_committed_stroke_is_revised(
    state: EngineView,
    id: StrokeId,
    update_index: u64,
    revision: SampleRevision,
    i: int,
    k: int,
)
    requires
        !state.doc.drawing(id),
        is_top_awaiting(state.doc.layers, id, update_index, i),
        is_newest_awaiting(state.doc.layers[i].strokes, id, update_index, k),
    ensures
        ({
            let after = state.after(
                Command::ReviseSample { stroke_id: id, update_index, revision },
            );
            let then = state.doc.layers[i];
            let now = after.doc.layers[i];
            &&& after.doc.layers.len() == state.doc.layers.len()
            &&& forall|j: int|
                0 <= j < state.doc.layers.len() && j != i ==> #[trigger] after.doc.layers[j]
                    == state.doc.layers[j]
            &&& now.id == then.id && now.name == then.name && now.visible == then.visible
            &&& now.opacity == then.opacity && now.blend_mode == then.blend_mode
            &&& now.strokes.len() == then.strokes.len()
            &&& forall|j: int|
                0 <= j < then.strokes.len() && j != k ==> #[trigger] now.strokes[j]
                    == then.strokes[j]
            &&& now.strokes[k].id == id
            &&& now.strokes[k].brush == then.strokes[k].brush
            &&& now.strokes[k].caps == then.strokes[k].caps
            &&& last_waiting_is_revised(
                then.strokes[k].samples,
                now.strokes[k].samples,
                update_index,
                revision,
            )
            &&& after.doc.active == state.doc.active
            &&& after.history == state.history
        }),
{
    let layers = state.doc.layers;
    assert(crate::document::any_awaits(layers, id, update_index)) by {
        assert(crate::document::awaits_revision(layers[i], id, update_index));
    }
    crate::document::lemma_top_awaiting(layers, id, update_index);
    let t = crate::document::top_awaiting(layers, id, update_index);
    assert(t == i) by {
        if t < i {
            assert(!crate::document::awaits_revision(layers[i], id, update_index));
        }
        if i < t {
            assert(!crate::document::awaits_revision(layers[t], id, update_index));
        }
    }
    crate::document::lemma_newest_awaiting(layers[i].strokes, id, update_index, k);
    lemma_revision_reaches_the_last_waiting(
        layers[i].strokes[k].samples,
        update_index,
        revision,
    );
}

/// A revision that no sample waits for changes nothing.
pub proof fn lemma_unawaited_revision_is_ignored(
    state: EngineView,
    id: StrokeId,
    update_index: u64,
    revision: SampleRevision,
)
    requires
        !state.doc.can_revise(id, update_index),
    ensures
        state.after(Command::ReviseSample { stroke_id: id, update_index, revision }) == state,
{
    assert(state.after(Command::ReviseSample { stroke_id: id, update_index, revision }) =~= state);
}

/// A mouse presses fully and touches; a finger presses as hard as it says, or fully; a pen
/// presses and touches only as it goes on to say. None of them tilts, twists or estimates.
pub proof fn lemma_kinds_of_samples(
    position: Point,
    timestamp: u128,
    pointer_id: PointerId,
    tool: ToolKind,
    force: Float32,
)
    ensures
        ({
            let mouse = Sample::of_mouse(position, timestamp, pointer_id);
            let finger = Sample::of_finger(position, timestamp, pointer_id, Some(force));
            let bare = Sample::of_finger(position, timestamp, pointer_id, None);
            let pen = Sample::of_pen(position, timestamp, pointer_id, tool);
            &&& stands(mouse, position, timestamp, pointer_id)
            &&& stands(finger, position, timestamp, pointer_id)
            &&& stands(bare, position, timestamp, pointer_id)
            &&& stands(pen, position, timestamp, pointer_id)
            &&& mouse.tool == ToolKind::Mouse
            &&& finger.tool == ToolKind::Finger && bare.tool == ToolKind::Finger
            &&& pen.tool == tool
            &&& mouse.pressure == Float32(crate::brush::ONE)
            &&& finger.pressure == force
            &&& bare.pressure == Float32(crate::brush::ONE)
            &&& pen.pressure == Float32(0)
            &&& touches_only(mouse.buttons) && touches_only(finger.buttons)
            &&& touches_only(bare.buttons)
            &&& !pen.buttons.contact && !pen.buttons.barrel
            &&& !pen.buttons.secondary && !pen.buttons.inverted
        }),
{
}

/// The sample is where and when it was reported, by whom, and carries no optional axis.
pub open spec fn stands(
    sample: Sample,
    position: Point,
    timestamp: u128,
    pointer_id: PointerId,
) -> bool {
    &&& sample.position == position
    &&& sample.timestamp == timestamp
    &&& sample.pointer_id == pointer_id
    &&& sample.tilt is None
    &&& sample.twist_deg is None
    &&& sample.tangential_pressure is None
    &&& sample.class == SampleClass::Committed
}

/// The tip touches and no button is pressed.
pub open spec fn touches_only(buttons: StylusButtons) -> bool {
    buttons.contact && !buttons.barrel && !buttons.secondary && !buttons.inverted
}

/// What is seen of a stack is what is seen of its lower part, then what is seen of its upper
/// part. Of one layer all strokes are seen where it is visible and none where it is not.
pub proof fn lemma_visible_layers_are_seen(
    lower: Seq<LayerView>,
    upper: Seq<LayerView>,
    layer: LayerView,
)
    ensures
        visible_strokes(lower + upper) == visible_strokes(lower) + visible_strokes(upper),
        all_strokes(lower + upper) == all_strokes(lower) + all_strokes(upper),
        visible_strokes(seq![layer]) == if layer.visible {
            layer.strokes
        } else {
            seq![]
        },
        all_strokes(seq![layer]) == layer.strokes,
    decreases upper.len(),
{
    assert(seq![layer].drop_last() =~= seq![]);
    assert(visible_strokes(seq![]) =~= seq![]);
    assert(all_strokes(seq![]) =~= seq![]);
    assert(visible_strokes(seq![layer]) =~= if layer.visible {
        layer.strokes
    } else {
        seq![]
    });
    assert(all_strokes(seq![layer]) =~= layer.strokes);
    if upper.len() == 0 {
        assert(lower + upper =~= lower);
        assert(visible_strokes(lower) =~= visible_strokes(lower) + visible_strokes(upper));
        assert(all_strokes(lower) =~= all_strokes(lower) + all_strokes(upper));
    } else {
        lemma_visible_layers_are_seen(lower, upper.drop_last(), layer);
        assert((lower + upper).drop_last() =~= lower + upper.drop_last());
        assert((lower + upper).last() == upper.last());
        assert(visible_strokes(lower + upper) =~= visible_strokes(lower) + visible_strokes(upper));
        assert(all_strokes(lower + upper) =~= all_strokes(lower) + all_strokes(upper));
    }
}

/// A saved document is loaded with its page, its brush and its layers, and with no stroke being
/// drawn. One without layers gets a single one, opaque, visible and normal, that holds its
/// strokes. The active layer is the one that was saved as such where it is there, and the
/// lowest one otherwise.
pub proof fn lemma_loaded_document_holds_what_was_saved(saved: SavedView, fresh: LayerId)
    ensures
        ({
            let doc = loaded(saved, fresh);
            &&& doc.page == saved.page
            &&& doc.brush == saved.brush
            &&& doc.active is None
            &&& doc.active_stroke_layer is None
            &&& saved.layers.len() > 0 ==> doc.layers == saved.layers
            &&& saved.layers.len() == 0 ==> {
                &&& doc.layers.len() == 1
                &&& doc.layers[0].id == fresh
                &&& doc.layers[0].strokes == saved.strokes
                &&& doc.layers[0].visible
                &&& doc.layers[0].opacity == Float32(crate::brush::ONE)
                &&& doc.layers[0].blend_mode == BlendMode::Normal
                &&& doc.active_layer == fresh
            }
            &&& saved.active_layer is Some && crate::document::has_layer(
                saved.layers,
                saved.active_layer->0,
            ) ==> doc.active_layer == saved.active_layer->0
            &&& saved.layers.len() > 0 && (saved.active_layer is None
                || !crate::document::has_layer(saved.layers, saved.active_layer->0))
                ==> doc.active_layer == saved.layers[0].id
        }),
{
}

/// An edit is refused where what it is about is missing, and the last layer is not removed.
pub proof fn lemma_edits_about_what_is_missing_are_refused(
    doc: DocumentView,
    layer: LayerId,
    id: StrokeId,
    stroke: StrokeView,
    index: nat,
    added: LayerView,
    was_active: bool,
)
    ensures
        ({
            let there = crate::document::has_layer(doc.layers, layer);
            let add = edit_error(EditView::AddStroke { stroke, layer }, doc);
            let remove = edit_error(EditView::RemoveStroke { id, layer }, doc);
            let raise = edit_error(EditView::AddLayer { layer: added, index, was_active }, doc);
            let lower = edit_error(EditView::RemoveLayer { id: layer }, doc);
            let shift = edit_error(EditView::MoveLayer { id: layer, new_index: index }, doc);
            &&& raise is None
            &&& there ==> add is None && shift is None
            &&& !there ==> add == Some(EditError::MissingLayer(layer))
            &&& !there ==> shift == Some(EditError::MissingLayer(layer))
            &&& !there ==> remove == Some(EditError::MissingLayer(layer))
            &&& there ==> (remove is None <==> crate::document::has_stroke(
                doc.layer(layer).strokes,
                id,
            ))
            &&& there && remove is Some ==> remove == Some(EditError::MissingStroke(id))
            &&& doc.layers.len() <= 1 ==> lower == Some(EditError::LastLayer)
            &&& doc.layers.len() > 1 && !there ==> lower == Some(EditError::MissingLayer(layer))
            &&& doc.layers.len() > 1 && there ==> lower is None
        }),
{
}

/// Undo is offered where there is a step to undo and redo where there is one to redo. A step that
/// is recorded can be undone and leaves nothing to redo.
pub proof fn lemma_menu_offers_what_the_history_has(state: EngineView, undo: EditView)
    ensures
        Action::Undo.allowed(state.history.status()) <==> state.history.past.len() > 0,
        Action::Redo.allowed(state.history.status()) <==> state.history.future.len() > 0,
        state.after(Action::Undo.carried_out()) == state.after(Command::Undo),
        state.after(Action::Redo.carried_out()) == state.after(Command::Redo),
        Action::Undo.carried_out() == Command::Undo,
        Action::Redo.carried_out() == Command::Redo,
        Action::Undo.allowed(state.history.recorded(undo).status()),
        !Action::Redo.allowed(state.history.recorded(undo).status()),
        state.history.recorded(undo).past.last() == undo,
        state.history.recorded(undo).past.drop_last() == state.history.past,
{
    assert(state.history.recorded(undo).past.drop_last() =~= state.history.past);
}

/// The toggles of the view menu turn a setting of the page over and keep the rest of it. The
/// other entries leave the page alone.
pub proof fn lemma_toggles_turn_over(state: EngineView)
    ensures
        ({
            let bounds = state.after(ViewAction::TogglePageBounds.on_page(state.doc.page)->0);
            let clip = state.after(ViewAction::ToggleClipToBounds.on_page(state.doc.page)->0);
            &&& bounds.doc.page.show_bounds == !state.doc.page.show_bounds
            &&& bounds.doc.page.clip_to_bounds == state.doc.page.clip_to_bounds
            &&& bounds.doc.page.size == state.doc.page.size
            &&& clip.doc.page.clip_to_bounds == !state.doc.page.clip_to_bounds
            &&& clip.doc.page.show_bounds == state.doc.page.show_bounds
            &&& clip.doc.page.size == state.doc.page.size
        }),
        ViewAction::TogglePageBounds.on_page(state.doc.page) is Some,
        ViewAction::ToggleClipToBounds.on_page(state.doc.page) is Some,
        ViewAction::ZoomIn.on_page(state.doc.page) is None,
        ViewAction::ZoomOut.on_page(state.doc.page) is None,
        ViewAction::ZoomTo100.on_page(state.doc.page) is None,
        ViewAction::ZoomToFit.on_page(state.doc.page) is None,
        ViewAction::ResetView.on_page(state.doc.page) is None,
{
}

} // verus!
