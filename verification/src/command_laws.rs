//! What each command does to what can be read of the document afterwards: a setting that was
//! set is read back, a stroke that was drawn stands in its layer, a layer that was added, moved
//! or removed is found where it should be, and nothing else changes.

use crate::brush::{BrushParams, BrushType, LinearRgba, MAX_WIDTH_MAX, MAX_WIDTH_MIN, ONE};
use crate::document::{has_layer, is_first_layer, DocumentView};
use crate::document_laws::layers_are_distinct;
use crate::engine::{after_all, after_next, Command, EngineView};
use crate::float32::Float32;
use crate::geometry::Size;
use crate::ids::{LayerId, StrokeId};
use crate::layer::{BlendMode, StrokeView};
use crate::sample::{Sample, ToolCaps};
use vstd::prelude::*;

verus! {

/// Nothing but the page and the brush can differ.
pub open spec fn same_picture(before: EngineView, after: EngineView) -> bool {
    &&& after.doc.layers == before.doc.layers
    &&& after.doc.active_layer == before.doc.active_layer
    &&& after.doc.active == before.doc.active
    &&& after.doc.active_stroke_layer == before.doc.active_stroke_layer
    &&& after.history == before.history
    &&& after.next_layer == before.next_layer
}

/// Nothing but the layers and the history can differ.
pub open spec fn same_settings(before: EngineView, after: EngineView) -> bool {
    &&& after.doc.page == before.doc.page
    &&& after.doc.brush == before.doc.brush
}

/// A number from 0 to 1.
pub open spec fn in_unit(x: Float32) -> bool {
    Float32(0).at_most(x) && x.at_most(Float32(ONE))
}

/// The size of the page is read back, in the document and in what is published, and nothing else
/// changes.
pub proof fn lemma_page_size_is_read_back(state: EngineView, size: Size)
    ensures
        ({
            let after = state.after(Command::SetPageSize(size));
            &&& after.doc.page.size == size
            &&& after.doc.scene().page.size == size
            &&& after.doc.page.show_bounds == state.doc.page.show_bounds
            &&& after.doc.page.clip_to_bounds == state.doc.page.clip_to_bounds
            &&& after.doc.brush == state.doc.brush
            &&& same_picture(state, after)
        }),
{
}

/// Whether the bounds of the page are shown, and whether the picture is clipped to them, is read
/// back, and nothing else changes.
pub proof fn lemma_page_flags_are_read_back(state: EngineView, flag: bool)
    ensures
        ({
            let shown = state.after(Command::SetShowBounds(flag));
            let clipped = state.after(Command::SetClipToBounds(flag));
            &&& shown.doc.page.show_bounds == flag
            &&& shown.doc.scene().page.show_bounds == flag
            &&& shown.doc.page.clip_to_bounds == state.doc.page.clip_to_bounds
            &&& shown.doc.page.size == state.doc.page.size
            &&& shown.doc.brush == state.doc.brush
            &&& same_picture(state, shown)
            &&& clipped.doc.page.clip_to_bounds == flag
            &&& clipped.doc.scene().page.clip_to_bounds == flag
            &&& clipped.doc.page.show_bounds == state.doc.page.show_bounds
            &&& clipped.doc.page.size == state.doc.page.size
            &&& clipped.doc.brush == state.doc.brush
            &&& same_picture(state, clipped)
        }),
{
}

/// The type of the brush is read back, in the document and in what is published, and nothing
/// else changes.
pub proof fn lemma_brush_type_is_read_back(state: EngineView, brush_type: BrushType)
    ensures
        ({
            let after = state.after(Command::SetBrushType(brush_type));
            &&& after.doc.brush.brush_type == brush_type
            &&& after.doc.scene().brush.brush_type == brush_type
            &&& after.doc.brush.color == state.doc.brush.color
            &&& after.doc.brush.curve == state.doc.brush.curve
            &&& after.doc.brush.min_width == state.doc.brush.min_width
            &&& after.doc.brush.max_width == state.doc.brush.max_width
            &&& after.doc.page == state.doc.page
            &&& same_picture(state, after)
        }),
{
}

/// The color of the brush is read back, in the document and in what is published, and nothing
/// else changes.
pub proof fn lemma_brush_color_is_read_back(state: EngineView, color: LinearRgba)
    ensures
        ({
            let after = state.after(Command::SetBrushColor(color));
            &&& after.doc.brush.color == color
            &&& after.doc.scene().brush.color == color
            &&& after.doc.brush.brush_type == state.doc.brush.brush_type
            &&& after.doc.brush.curve == state.doc.brush.curve
            &&& after.doc.brush.min_width == state.doc.brush.min_width
            &&& after.doc.brush.max_width == state.doc.brush.max_width
            &&& after.doc.page == state.doc.page
            &&& same_picture(state, after)
        }),
{
}

/// Nothing of the brush but its widths differs.
pub open spec fn same_but_widths(before: BrushParams, after: BrushParams) -> bool {
    &&& after.color == before.color
    &&& after.curve == before.curve
    &&& after.brush_type == before.brush_type
}

/// A maximum width within its bounds is read back; one beyond them becomes the bound.
pub proof fn lemma_max_width_is_read_back(state: EngineView, v: Float32)
    ensures
        ({
            let after = state.after(Command::SetBrushMaxWidth(v));
            let low = Float32(MAX_WIDTH_MIN);
            let high = Float32(MAX_WIDTH_MAX);
            &&& low.at_most(v) && v.at_most(high) ==> after.doc.brush.max_width == v
            &&& v.below(low) ==> after.doc.brush.max_width == low
            &&& high.below(v) ==> after.doc.brush.max_width == high
            &&& after.doc.scene().brush == after.doc.brush
            &&& same_but_widths(state.doc.brush, after.doc.brush)
            &&& after.doc.page == state.doc.page
            &&& same_picture(state, after)
        }),
{
}

/// A minimum width from 0 to the maximum is read back; one beyond becomes 0 or the maximum.
pub proof fn lemma_min_width_is_read_back(state: EngineView, v: Float32)
    requires
        Float32(0).at_most(state.doc.brush.max_width),
    ensures
        ({
            let after = state.after(Command::SetBrushMinWidth(v));
            let high = state.doc.brush.max_width;
            &&& Float32(0).at_most(v) && v.at_most(high) ==> after.doc.brush.min_width == v
            &&& v.below(Float32(0)) ==> after.doc.brush.min_width == Float32(0)
            &&& high.below(v) ==> after.doc.brush.min_width == high
            &&& after.doc.brush.max_width == state.doc.brush.max_width
            &&& after.doc.scene().brush == after.doc.brush
            &&& same_but_widths(state.doc.brush, after.doc.brush)
            &&& after.doc.page == state.doc.page
            &&& same_picture(state, after)
        }),
{
}

/// Setting the ratio of the widths leaves all but the minimum width as it was.
pub proof fn lemma_min_ratio_leaves_the_rest(state: EngineView, ratio: Float32)
    ensures
        ({
            let after = state.after(Command::SetBrushMinRatio(ratio));
            &&& after.doc.brush.max_width == state.doc.brush.max_width
            &&& after.doc.scene().brush == after.doc.brush
            &&& same_but_widths(state.doc.brush, after.doc.brush)
            &&& after.doc.page == state.doc.page
            &&& same_picture(state, after)
        }),
{
}

/// The layer at `i` is the one that a command about layer `id` speaks of: the first with that
/// identifier.
pub open spec fn spoken_of(state: EngineView, id: LayerId, i: int) -> bool {
    is_first_layer(state.doc.layers, id, i)
}

/// Every layer but the one at `i` is as it was, and so is everything outside the layers.
pub open spec fn same_but_layer(before: EngineView, after: EngineView, i: int) -> bool {
    &&& after.doc.layers.len() == before.doc.layers.len()
    &&& forall|j: int|
        0 <= j < before.doc.layers.len() && j != i ==> #[trigger] after.doc.layers[j]
            == before.doc.layers[j]
    &&& after.doc.layers[i].id == before.doc.layers[i].id
    &&& after.doc.layers[i].strokes == before.doc.layers[i].strokes
    &&& after.doc.active_layer == before.doc.active_layer
    &&& after.doc.active == before.doc.active
    &&& after.doc.active_stroke_layer == before.doc.active_stroke_layer
    &&& after.history == before.history
    &&& after.next_layer == before.next_layer
    &&& same_settings(before, after)
}

/// The name of a layer is read back, and nothing else changes.
pub proof fn lemma_layer_name_is_read_back(
    state: EngineView,
    id: LayerId,
    name: String,
    i: int,
)
    requires
        spoken_of(state, id, i),
    ensures
        ({
            let after = state.after(Command::SetLayerName { id, name });
            let layer = after.doc.layers[i];
            &&& layer.name == name@
            &&& layer.visible == state.doc.layers[i].visible
            &&& layer.opacity == state.doc.layers[i].opacity
            &&& layer.blend_mode == state.doc.layers[i].blend_mode
            &&& same_but_layer(state, after, i)
        }),
{
    crate::document::lemma_layer_index(state.doc.layers, id, i);
}

/// Whether a layer is visible is read back, and nothing else changes.
pub proof fn lemma_layer_visibility_is_read_back(
    state: EngineView,
    id: LayerId,
    visible: bool,
    i: int,
)
    requires
        spoken_of(state, id, i),
    ensures
        ({
            let after = state.after(Command::SetLayerVisible { id, visible });
            let layer = after.doc.layers[i];
            &&& layer.visible == visible
            &&& layer.name == state.doc.layers[i].name
            &&& layer.opacity == state.doc.layers[i].opacity
            &&& layer.blend_mode == state.doc.layers[i].blend_mode
            &&& same_but_layer(state, after, i)
        }),
{
    crate::document::lemma_layer_index(state.doc.layers, id, i);
}

/// An opacity from 0 to 1 is read back, one beyond becomes 0 or 1, and nothing else changes.
pub proof fn lemma_layer_opacity_is_read_back(
    state: EngineView,
    id: LayerId,
    opacity: Float32,
    i: int,
)
    requires
        spoken_of(state, id, i),
    ensures
        ({
            let after = state.after(Command::SetLayerOpacity { id, opacity });
            let layer = after.doc.layers[i];
            &&& in_unit(opacity) ==> layer.opacity == opacity
            &&& opacity.below(Float32(0)) ==> layer.opacity == Float32(0)
            &&& Float32(ONE).below(opacity) ==> layer.opacity == Float32(ONE)
            &&& layer.name == state.doc.layers[i].name
            &&& layer.visible == state.doc.layers[i].visible
            &&& layer.blend_mode == state.doc.layers[i].blend_mode
            &&& same_but_layer(state, after, i)
        }),
{
    crate::document::lemma_layer_index(state.doc.layers, id, i);
}

/// The blend mode of a layer is read back, and nothing else changes.
pub proof fn lemma_layer_blend_mode_is_read_back(
    state: EngineView,
    id: LayerId,
    mode: BlendMode,
    i: int,
)
    requires
        spoken_of(state, id, i),
    ensures
        ({
            let after = state.after(Command::SetLayerBlendMode { id, mode });
            let layer = after.doc.layers[i];
            &&& layer.blend_mode == mode
            &&& layer.name == state.doc.layers[i].name
            &&& layer.visible == state.doc.layers[i].visible
            &&& layer.opacity == state.doc.layers[i].opacity
            &&& same_but_layer(state, after, i)
        }),
{
    crate::document::lemma_layer_index(state.doc.layers, id, i);
}

/// The command is about the layer with this identifier.
pub open spec fn is_about(cmd: Command, id: LayerId) -> bool {
    match cmd {
        Command::SetLayerName { id: i, .. } => i == id,
        Command::SetLayerVisible { id: i, .. } => i == id,
        Command::SetLayerOpacity { id: i, .. } => i == id,
        Command::SetLayerBlendMode { id: i, .. } => i == id,
        Command::SetActiveLayer { id: i } => i == id,
        Command::RemoveLayer { id: i } => i == id,
        Command::MoveLayer { id: i, .. } => i == id,
        _ => false,
    }
}

/// A command about a layer that does not exist changes nothing.
pub proof fn lemma_unknown_layer_is_left_alone(state: EngineView, cmd: Command, id: LayerId)
    requires
        is_about(cmd, id),
        !has_layer(state.doc.layers, id),
    ensures
        state.after(cmd) == state,
{
}

/// A layer that is made active is the active one, in the document and in what is published, and
/// nothing else changes.
pub proof fn lemma_active_layer_is_read_back(state: EngineView, id: LayerId)
    requires
        has_layer(state.doc.layers, id),
    ensures
        ({
            let after = state.after(Command::SetActiveLayer { id });
            &&& after.doc.active_layer == id
            &&& after.doc.scene().active_layer == id
            &&& after.doc.layers == state.doc.layers
            &&& after.doc.active == state.doc.active
            &&& after.doc.active_stroke_layer == state.doc.active_stroke_layer
            &&& after.history == state.history
            &&& after.next_layer == state.next_layer
            &&& same_settings(state, after)
        }),
{
}

/// A new layer lies on top: it has the name that was asked for and a number that was not handed
/// out before, holds no stroke, is visible, opaque and blended normally. The layers below it and
/// the active layer stay.
pub proof fn lemma_new_layer_lies_on_top(state: EngineView, name: String)
    requires
        state.next_layer < u64::MAX,
    ensures
        ({
            let after = state.after(Command::AddLayer { name });
            let n = state.doc.layers.len() as int;
            let top = after.doc.layers[n];
            &&& after.doc.layers.len() == n + 1
            &&& after.doc.layers.take(n) == state.doc.layers
            &&& top.id.number() == state.next_layer
            &&& after.next_layer == state.next_layer + 1
            &&& top.name == name@
            &&& top.strokes.len() == 0
            &&& top.visible
            &&& top.opacity == Float32(ONE)
            &&& top.blend_mode == BlendMode::Normal
            &&& after.doc.active_layer == state.doc.active_layer
            &&& after.doc.active == state.doc.active
            &&& after.history.past.len() == state.history.past.len() + 1
            &&& after.history.future.len() == 0
            &&& same_settings(state, after)
        }),
{
    broadcast use crate::ids::lemma_layer_id_has_number;

    let after = state.after(Command::AddLayer { name });
    let n = state.doc.layers.len() as int;
    assert(after.doc.layers.take(n) =~= state.doc.layers);
}

/// A layer that is removed is gone, and the others lie in the order in which they lay. Where it
/// was the active one, the layer that took its place becomes active, or the topmost one.
pub proof fn lemma_removed_layer_is_gone(state: EngineView, id: LayerId, i: int)
    requires
        spoken_of(state, id, i),
        layers_are_distinct(state.doc.layers),
        state.doc.layers.len() > 1,
        state.doc.active is None,
    ensures
        ({
            let before = state.doc.layers;
            let after = state.after(Command::RemoveLayer { id });
            let layers = after.doc.layers;
            &&& !has_layer(layers, id)
            &&& layers.len() == before.len() - 1
            &&& forall|j: int| 0 <= j < i ==> #[trigger] layers[j] == before[j]
            &&& forall|j: int| i <= j < layers.len() ==> #[trigger] layers[j] == before[j + 1]
            &&& state.doc.active_layer != id ==> after.doc.active_layer == state.doc.active_layer
            &&& state.doc.active_layer == id && i < layers.len() ==> after.doc.active_layer
                == before[i + 1].id
            &&& state.doc.active_layer == id && i == layers.len() ==> after.doc.active_layer
                == before[i - 1].id
            &&& after.history.past.len() == state.history.past.len() + 1
            &&& after.history.future.len() == 0
            &&& same_settings(state, after)
        }),
{
    crate::document::lemma_layer_index(state.doc.layers, id, i);
    let before = state.doc.layers;
    let layers = state.after(Command::RemoveLayer { id }).doc.layers;
    assert(layers =~= before.remove(i));
    assert(!has_layer(layers, id)) by {
        if has_layer(layers, id) {
            let j = choose|j: int| 0 <= j < layers.len() && (#[trigger] layers[j]).id == id;
            let k = if j < i {
                j
            } else {
                j + 1
            };
            assert(before[k].id == before[i].id);
        }
    }
}

/// The last layer and, while a stroke is being drawn, every layer stays.
pub proof fn lemma_some_layers_are_not_removed(state: EngineView, id: LayerId)
    requires
        state.doc.layers.len() <= 1 || state.doc.active is Some,
    ensures
        state.after(Command::RemoveLayer { id }) == state,
{
}

/// A layer that is moved lies where it was moved to, or on top where that is beyond the top,
/// and the others keep their order.
pub proof fn lemma_moved_layer_lies_there(
    state: EngineView,
    id: LayerId,
    new_index: usize,
    i: int,
)
    requires
        spoken_of(state, id, i),
    ensures
        ({
            let before = state.doc.layers;
            let after = state.after(Command::MoveLayer { id, new_index });
            let layers = after.doc.layers;
            let there = if (new_index as int) < before.len() {
                new_index as int
            } else {
                before.len() - 1
            };
            &&& layers.len() == before.len()
            &&& layers[there] == before[i]
            &&& layers.remove(there) == before.remove(i)
            &&& after.doc.active_layer == state.doc.active_layer
            &&& after.doc.active == state.doc.active
            &&& after.history.past.len() == state.history.past.len() + 1
            &&& after.history.future.len() == 0
            &&& same_settings(state, after)
        }),
{
    crate::document::lemma_layer_index(state.doc.layers, id, i);
    let before = state.doc.layers;
    let layers = state.after(Command::MoveLayer { id, new_index }).doc.layers;
    let there = if (new_index as int) < before.len() {
        new_index as int
    } else {
        before.len() - 1
    };
    assert(layers.remove(there) =~= before.remove(i));
}

/// A stroke that has begun is being drawn: it has the first sample and the brush that were given
/// and is bound for the layer that is active. The layers are as they were.
pub proof fn lemma_begun_stroke_is_being_drawn(
    state: EngineView,
    id: StrokeId,
    sample: Sample,
    caps: ToolCaps,
    brush: BrushParams,
)
    ensures
        ({
            let after = state.after(Command::BeginStroke { id, sample, caps, brush });
            &&& after.doc.active matches Some(stroke)
            &&& stroke.id == id
            &&& stroke.samples.len() == 1
            &&& stroke.samples[0] == sample
            &&& stroke.caps == caps
            &&& stroke.brush == brush
            &&& after.doc.active_stroke_layer == Some(state.doc.active_layer)
            &&& after.doc.active_layer == state.doc.active_layer
            &&& after.doc.layers == state.doc.layers
            &&& after.history == state.history
            &&& after.next_layer == state.next_layer
            &&& same_settings(state, after)
        }),
{
}

/// A sample for the stroke being drawn comes after those that it has; one for another stroke is
/// dropped.
pub proof fn lemma_sample_is_added_to_its_stroke(state: EngineView, id: StrokeId, sample: Sample)
    ensures
        ({
            let after = state.after(Command::AddSample { id, sample });
            let stroke = state.doc.active->0;
            let longer = after.doc.active->0;
            let drawn = state.doc.active is Some && stroke.id == id;
            &&& drawn ==> {
                &&& after.doc.active is Some
                &&& longer.samples.len() == stroke.samples.len() + 1
                &&& longer.samples.last() == sample
                &&& longer.samples.drop_last() == stroke.samples
                &&& longer.id == id
                &&& longer.caps == stroke.caps
                &&& longer.brush == stroke.brush
            }
            &&& !drawn ==> after.doc.active == state.doc.active
            &&& after.doc.layers == state.doc.layers
            &&& after.doc.active_layer == state.doc.active_layer
            &&& after.doc.active_stroke_layer == state.doc.active_stroke_layer
            &&& after.history == state.history
            &&& after.next_layer == state.next_layer
            &&& same_settings(state, after)
        }),
{
    if let Some(stroke) = state.doc.active {
        assert(stroke.samples.push(sample).drop_last() =~= stroke.samples);
    }
}

/// A stroke that has ended is the last one of the layer that it was bound for, as it was drawn;
/// no stroke is being drawn any more, and nothing else of the layers changes.
pub proof fn lemma_ended_stroke_is_committed(
    state: EngineView,
    stroke: StrokeView,
    target: LayerId,
    i: int,
)
    requires
        state.doc.active == Some(stroke),
        state.doc.active_stroke_layer == Some(target),
        spoken_of(state, target, i),
    ensures
        ({
            let before = state.doc.layers;
            let after = state.after(Command::EndStroke { id: stroke.id });
            let layers = after.doc.layers;
            &&& after.doc.active is None
            &&& after.doc.active_stroke_layer is None
            &&& layers.len() == before.len()
            &&& layers[i].strokes.len() == before[i].strokes.len() + 1
            &&& layers[i].strokes.last() == stroke
            &&& layers[i].strokes.drop_last() == before[i].strokes
            &&& layers[i].id == before[i].id
            &&& layers[i].name == before[i].name
            &&& layers[i].visible == before[i].visible
            &&& layers[i].opacity == before[i].opacity
            &&& layers[i].blend_mode == before[i].blend_mode
            &&& forall|j: int|
                0 <= j < before.len() && j != i ==> #[trigger] layers[j] == before[j]
            &&& after.doc.active_layer == state.doc.active_layer
            &&& after.history.past.len() == state.history.past.len() + 1
            &&& after.history.future.len() == 0
            &&& same_settings(state, after)
        }),
{
    crate::document::lemma_layer_index(state.doc.layers, target, i);
    assert(state.doc.layers[i].strokes.push(stroke).drop_last() =~= state.doc.layers[i].strokes);
}

/// A stroke that is cancelled is gone, and the layers and the history are as they were; what is
/// cancelled or ended under another identifier is not.
pub proof fn lemma_cancelled_stroke_is_gone(state: EngineView, id: StrokeId)
    ensures
        ({
            let after = state.after(Command::CancelStroke { id });
            let drawn = state.doc.active is Some && (state.doc.active->0).id == id;
            &&& drawn ==> after.doc.active is None && after.doc.active_stroke_layer is None
            &&& drawn ==> after.doc.layers == state.doc.layers
            &&& drawn ==> after.doc.active_layer == state.doc.active_layer
            &&& drawn ==> after.history == state.history
            &&& drawn ==> after.next_layer == state.next_layer
            &&& !drawn ==> after == state
            &&& !drawn ==> state.after(Command::EndStroke { id }) == state
            &&& same_settings(state, after)
        }),
{
}

/// The commands that draw samples one after the other into a stroke.
pub open spec fn drawing_run(id: StrokeId, samples: Seq<Sample>) -> Seq<Command> {
    samples.map_values(|sample: Sample| Command::AddSample { id, sample })
}

/// Drawing more samples appends them in order.
proof fn lemma_run_appends(state: EngineView, id: StrokeId, more: Seq<Sample>)
    requires
        state.doc.active matches Some(stroke) && stroke.id == id,
    ensures
        ({
            let before = state.doc.active->0;
            let after = after_all(state, drawing_run(id, more));
            &&& after.doc.active == Some(
                StrokeView { samples: before.samples + more, ..before },
            )
            &&& after.doc.layers == state.doc.layers
            &&& after.doc.active_layer == state.doc.active_layer
            &&& after.doc.active_stroke_layer == state.doc.active_stroke_layer
            &&& after.history == state.history
        }),
    decreases more.len(),
{
    reveal(after_next);
    let run = drawing_run(id, more);
    let before = state.doc.active->0;
    if more.len() == 0 {
        assert(before.samples + more =~= before.samples);
    } else {
        let front = more.drop_last();
        lemma_run_appends(state, id, front);
        assert(run.drop_last() =~= drawing_run(id, front));
        assert(run.last() == (Command::AddSample { id, sample: more.last() }));
        assert((before.samples + front).push(more.last()) =~= before.samples + more);
    }
}

/// A stroke that is begun, drawn and ended stands at the end of the layer that was active when
/// it began, with all of its samples in the order in which they came and with its brush.
pub proof fn lemma_drawn_stroke_stands_in_its_layer(
    state: EngineView,
    id: StrokeId,
    first: Sample,
    more: Seq<Sample>,
    caps: ToolCaps,
    brush: BrushParams,
    i: int,
)
    requires
        spoken_of(state, state.doc.active_layer, i),
    ensures
        ({
            let begun = state.after(Command::BeginStroke { id, sample: first, caps, brush });
            let drawn = after_all(begun, drawing_run(id, more));
            let after = drawn.after(Command::EndStroke { id });
            let strokes = after.doc.layers[i].strokes;
            &&& strokes.len() == state.doc.layers[i].strokes.len() + 1
            &&& strokes.drop_last() == state.doc.layers[i].strokes
            &&& strokes.last().id == id
            &&& strokes.last().samples == seq![first] + more
            &&& strokes.last().caps == caps
            &&& strokes.last().brush == brush
            &&& after.doc.active is None
            &&& after.history.past.len() == state.history.past.len() + 1
        }),
{
    let begun = state.after(Command::BeginStroke { id, sample: first, caps, brush });
    lemma_run_appends(begun, id, more);
    let drawn = after_all(begun, drawing_run(id, more));
    lemma_ended_stroke_is_committed(drawn, drawn.doc.active->0, state.doc.active_layer, i);
}

/// What is published shows the page, the brush and the active layer of the document; its layers
/// are those of the document, with the stroke being drawn at the end of the one that it is bound
/// for.
pub proof fn lemma_scene_shows_the_document(doc: DocumentView)
    ensures
        ({
            let scene = doc.scene();
            &&& scene.page == doc.page
            &&& scene.brush == doc.brush
            &&& scene.active_layer == doc.active_layer
            &&& scene.layers.len() == doc.layers.len()
            &&& doc.active is None ==> scene.layers == doc.layers
            &&& forall|i: int|
                #![trigger scene.layers[i]]
                0 <= i < doc.layers.len() ==> {
                    let here = scene.layers[i];
                    let there = doc.layers[i];
                    let drawn_on = doc.active is Some && is_first_layer(
                        doc.layers,
                        doc.stroke_target(),
                        i,
                    );
                    &&& here.id == there.id
                    &&& here.name == there.name
                    &&& here.visible == there.visible
                    &&& here.opacity == there.opacity
                    &&& here.blend_mode == there.blend_mode
                    &&& drawn_on ==> {
                        &&& here.strokes.len() == there.strokes.len() + 1
                        &&& here.strokes.last() == doc.active->0
                        &&& here.strokes.drop_last() == there.strokes
                    }
                    &&& !drawn_on ==> here.strokes == there.strokes
                }
        }),
{
    let target = doc.stroke_target();
    if doc.active is Some && has_layer(doc.layers, target) {
        crate::document::lemma_layer_index_exists(doc.layers, target);
        let k = crate::document::layer_index(doc.layers, target);
        assert forall|i: int| is_first_layer(doc.layers, target, i) implies i == k by {
            crate::document::lemma_layer_index(doc.layers, target, i);
        }
        let strokes = doc.layers[k].strokes;
        assert(strokes.push(doc.active->0).drop_last() =~= strokes);
    }
}

} // verus!
