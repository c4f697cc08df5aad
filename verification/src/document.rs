//! The document: page, live brush, layers and the stroke being drawn; and the reversible
//! edits of it.

use crate::brush::{BrushParams, BrushType, LinearRgba};
use crate::float32::Float32;
use crate::geometry::{Page, Size};
use crate::ids::{IdCounter, LayerId, StrokeId};
use crate::layer::{BlendMode, Layer, LayerView, Stroke, StrokeView};
use crate::sample::{Sample, SampleRevision};
use vstd::prelude::*;

verus! {

/// The authoritative document state.
#[derive(Debug)]
pub struct DocumentState {
    page: Page,
    brush: BrushParams,
    /// In z-order, bottom first.
    layers: Vec<Layer>,
    active_layer: LayerId,
    /// The stroke being drawn, frozen as of its begin.
    active: Option<Stroke>,
    /// The layer that the stroke being drawn will be committed to, captured at its begin.
    active_stroke_layer: Option<LayerId>,
}

/// The mathematical content of a document.
#[verifier::ext_equal]
pub struct DocumentView {
    pub page: Page,
    pub brush: BrushParams,
    pub layers: Seq<LayerView>,
    pub active_layer: LayerId,
    pub active: Option<StrokeView>,
    pub active_stroke_layer: Option<LayerId>,
}

/// What an optional stroke holds.
pub open spec fn optional_stroke_view(stroke: Option<Stroke>) -> Option<StrokeView> {
    match stroke {
        Some(s) => Some(s@),
        None => None,
    }
}

impl View for DocumentState {
    type V = DocumentView;

    closed spec fn view(&self) -> DocumentView {
        DocumentView {
            page: self.page,
            brush: self.brush,
            layers: crate::layer::layer_views(self.layers@),
            active_layer: self.active_layer,
            active: optional_stroke_view(self.active),
            active_stroke_layer: self.active_stroke_layer,
        }
    }
}

/// A layer with this identifier exists.
pub open spec fn has_layer(layers: Seq<LayerView>, id: LayerId) -> bool {
    exists|i: int| 0 <= i < layers.len() && (#[trigger] layers[i]).id == id
}

/// Layer `i` is the first one with this identifier.
pub open spec fn is_first_layer(layers: Seq<LayerView>, id: LayerId, i: int) -> bool {
    &&& 0 <= i < layers.len()
    &&& layers[i].id == id
    &&& forall|j: int| 0 <= j < i ==> (#[trigger] layers[j]).id != id
}

/// The place of the first layer with this identifier.
pub open spec fn layer_index(layers: Seq<LayerView>, id: LayerId) -> int {
    choose|i: int| is_first_layer(layers, id, i)
}

/// The first layer with an identifier is where `layer_index` says.
pub proof fn lemma_layer_index(layers: Seq<LayerView>, id: LayerId, i: int)
    requires
        is_first_layer(layers, id, i),
    ensures
        has_layer(layers, id),
        layer_index(layers, id) == i,
{
    let c = layer_index(layers, id);
    assert(is_first_layer(layers, id, c));
    if c < i {
        assert(layers[c].id != id);
    } else if i < c {
        assert(layers[i].id != id);
    }
    assert(layers[i].id == id);
}

/// Where a layer exists, `layer_index` is its first place.
pub proof fn lemma_layer_index_exists(layers: Seq<LayerView>, id: LayerId)
    requires
        has_layer(layers, id),
    ensures
        is_first_layer(layers, id, layer_index(layers, id)),
{
    let i = choose|i: int| 0 <= i < layers.len() && (#[trigger] layers[i]).id == id;
    lemma_first_layer_exists(layers, id, i);
}

proof fn lemma_first_layer_exists(layers: Seq<LayerView>, id: LayerId, i: int)
    requires
        0 <= i < layers.len(),
        layers[i].id == id,
    ensures
        exists|k: int| is_first_layer(layers, id, k),
    decreases i,
{
    if exists|j: int| 0 <= j < i && (#[trigger] layers[j]).id == id {
        let j = choose|j: int| 0 <= j < i && (#[trigger] layers[j]).id == id;
        lemma_first_layer_exists(layers, id, j);
    } else {
        assert(is_first_layer(layers, id, i));
    }
}

/// A stroke with this identifier is in the list.
pub open spec fn has_stroke(strokes: Seq<StrokeView>, id: StrokeId) -> bool {
    exists|i: int| 0 <= i < strokes.len() && (#[trigger] strokes[i]).id == id
}

/// Stroke `i` is the first one with this identifier.
pub open spec fn is_first_stroke(strokes: Seq<StrokeView>, id: StrokeId, i: int) -> bool {
    &&& 0 <= i < strokes.len()
    &&& strokes[i].id == id
    &&& forall|j: int| 0 <= j < i ==> (#[trigger] strokes[j]).id != id
}

/// The place of the first stroke with this identifier.
pub open spec fn stroke_index(strokes: Seq<StrokeView>, id: StrokeId) -> int {
    choose|i: int| is_first_stroke(strokes, id, i)
}

/// The first stroke with an identifier is where `stroke_index` says.
pub proof fn lemma_stroke_index(strokes: Seq<StrokeView>, id: StrokeId, i: int)
    requires
        is_first_stroke(strokes, id, i),
    ensures
        has_stroke(strokes, id),
        stroke_index(strokes, id) == i,
{
    let c = stroke_index(strokes, id);
    assert(is_first_stroke(strokes, id, c));
    if c < i {
        assert(strokes[c].id != id);
    } else if i < c {
        assert(strokes[i].id != id);
    }
    assert(strokes[i].id == id);
}

impl DocumentView {
    /// There is at least one layer, and the active layer is one of them.
    pub open spec fn wf(self) -> bool {
        &&& self.layers.len() > 0
        &&& has_layer(self.layers, self.active_layer)
        &&& self.active is Some <==> self.active_stroke_layer is Some
    }

    /// The document with another list of layers.
    pub open spec fn with_layers(self, layers: Seq<LayerView>) -> DocumentView {
        DocumentView { layers, ..self }
    }

    /// The document with its first layer of the given identifier replaced.
    pub open spec fn with_layer(self, id: LayerId, layer: LayerView) -> DocumentView {
        self.with_layers(self.layers.update(layer_index(self.layers, id), layer))
    }

    /// The first layer with the given identifier.
    pub open spec fn layer(self, id: LayerId) -> LayerView {
        self.layers[layer_index(self.layers, id)]
    }
}

/// Where the first layer with an identifier is, in executable form.
fn find_layer(layers: &Vec<Layer>, id: LayerId) -> (res: Option<usize>)
    ensures
        match res {
            Some(i) => {
                &&& is_first_layer(crate::layer::layer_views(layers@), id, i as int)
                &&& layer_index(crate::layer::layer_views(layers@), id) == i
                &&& has_layer(crate::layer::layer_views(layers@), id)
                &&& i < layers.len()
            },
            None => !has_layer(crate::layer::layer_views(layers@), id),
        },
{
    let ghost views = crate::layer::layer_views(layers@);
    let mut i: usize = 0;
    while i < layers.len()
        invariant
            views == crate::layer::layer_views(layers@),
            i <= layers.len(),
            forall|j: int| 0 <= j < i ==> (#[trigger] views[j]).id != id,
        decreases layers.len() - i,
    {
        assert(views[i as int] == layers@[i as int]@);
        if layers[i].id == id {
            proof {
                assert(is_first_layer(views, id, i as int));
                lemma_layer_index(views, id, i as int);
            }
            return Some(i);
        }
        i = i + 1;
    }
    None
}

/// Where the first stroke with an identifier is, in executable form.
fn find_stroke(strokes: &Vec<Stroke>, id: StrokeId) -> (res: Option<usize>)
    ensures
        match res {
            Some(i) => {
                &&& is_first_stroke(crate::layer::stroke_views(strokes@), id, i as int)
                &&& stroke_index(crate::layer::stroke_views(strokes@), id) == i
                &&& has_stroke(crate::layer::stroke_views(strokes@), id)
                &&& i < strokes.len()
            },
            None => !has_stroke(crate::layer::stroke_views(strokes@), id),
        },
{
    let ghost views = crate::layer::stroke_views(strokes@);
    let mut i: usize = 0;
    while i < strokes.len()
        invariant
            views == crate::layer::stroke_views(strokes@),
            i <= strokes.len(),
            forall|j: int| 0 <= j < i ==> (#[trigger] views[j]).id != id,
        decreases strokes.len() - i,
    {
        assert(views[i as int] == strokes@[i as int]@);
        if strokes[i].id == id {
            proof {
                assert(is_first_stroke(views, id, i as int));
                lemma_stroke_index(views, id, i as int);
            }
            return Some(i);
        }
        i = i + 1;
    }
    None
}

impl DocumentState {
    /// The name of a document's first layer.
    pub open spec fn first_layer_name() -> Seq<char> {
        "Layer 1"@
    }

    /// A document with one empty layer, which is active.
    #[must_use]
    pub fn new(layer_ids: &mut IdCounter) -> (res: DocumentState)
        requires
            old(layer_ids).upcoming() < u64::MAX,
        ensures
            res@.wf(),
            res@ == (DocumentView {
                page: Page::initial(),
                brush: BrushParams::initial(),
                layers: seq![
                    LayerView::empty(res@.active_layer, DocumentState::first_layer_name()),
                ],
                active_layer: res@.active_layer,
                active: None,
                active_stroke_layer: None,
            }),
            res@.active_layer == LayerId::numbered(old(layer_ids).upcoming()),
            final(layer_ids).upcoming() == crate::ids::stepped(old(layer_ids).upcoming()),
    {
        let initial = Layer::new(layer_ids, "Layer 1".to_string());
        let active_layer = initial.id;
        let ghost view = initial@;
        let mut layers: Vec<Layer> = Vec::new();
        layers.push(initial);
        let res = DocumentState {
            page: Page::default(),
            brush: BrushParams::default(),
            layers,
            active_layer,
            active: None,
            active_stroke_layer: None,
        };
        assert(res@.layers =~= seq![view]);
        assert(res@.layers[0].id == active_layer);
        res
    }

    /// The page.
    #[must_use]
    pub fn page(&self) -> (res: Page)
        ensures
            res == self@.page,
    {
        self.page
    }

    pub fn set_page_size(&mut self, size: Size)
        ensures
            final(self)@ == (DocumentView { page: Page { size, ..old(self)@.page }, ..old(self)@ }),
    {
        self.page.size = size;
    }

    pub fn set_show_bounds(&mut self, show: bool)
        ensures
            final(self)@ == (DocumentView {
                page: Page { show_bounds: show, ..old(self)@.page },
                ..old(self)@
            }),
    {
        self.page.show_bounds = show;
    }

    pub fn set_clip_to_bounds(&mut self, clip: bool)
        ensures
            final(self)@ == (DocumentView {
                page: Page { clip_to_bounds: clip, ..old(self)@.page },
                ..old(self)@
            }),
    {
        self.page.clip_to_bounds = clip;
    }

    /// The live brush.
    #[must_use]
    pub fn brush(&self) -> (res: BrushParams)
        ensures
            res == self@.brush,
    {
        self.brush
    }

    pub fn set_brush(&mut self, brush: BrushParams)
        ensures
            final(self)@ == (DocumentView { brush, ..old(self)@ }),
    {
        self.brush = brush;
    }

    /// Sets the maximum width within its bounds and scales the minimum width along, so that
    /// the ratio of the two is kept.
    pub fn set_brush_max_width(&mut self, v: Float32)
        ensures
            final(self)@ == (DocumentView {
                brush: old(self)@.brush.with_max_width(v),
                ..old(self)@
            }),
    {
        self.brush.set_max_width(v);
    }

    /// Sets the minimum width directly, within 0 and the current maximum.
    pub fn set_brush_min_width(&mut self, v: Float32)
        requires
            Float32(0).at_most(old(self)@.brush.max_width),
        ensures
            final(self)@ == (DocumentView {
                brush: old(self)@.brush.with_min_width(v),
                ..old(self)@
            }),
    {
        self.brush.set_min_width(v);
    }

    /// Sets the minimum width as a ratio, within 0 and 1, of the current maximum.
    pub fn set_brush_min_ratio(&mut self, ratio: Float32)
        ensures
            final(self)@ == (DocumentView {
                brush: old(self)@.brush.with_min_ratio(ratio),
                ..old(self)@
            }),
    {
        self.brush.set_min_ratio(ratio);
    }

    /// Sets the color of the brush as given.
    pub fn set_brush_color(&mut self, color: LinearRgba)
        ensures
            final(self)@ == (DocumentView {
                brush: BrushParams { color, ..old(self)@.brush },
                ..old(self)@
            }),
    {
        self.brush.color = color;
    }

    /// Sets the type of the brush for later strokes.
    pub fn set_brush_type(&mut self, brush_type: BrushType)
        ensures
            final(self)@ == (DocumentView {
                brush: BrushParams { brush_type, ..old(self)@.brush },
                ..old(self)@
            }),
    {
        self.brush.brush_type = brush_type;
    }

    /// All layers in z-order, bottom first.
    #[must_use]
    pub fn layers(&self) -> (res: &Vec<Layer>)
        ensures
            crate::layer::layer_views(res@) == self@.layers,
    {
        &self.layers
    }

    /// The layer that the next stroke goes to.
    #[must_use]
    pub fn active_layer(&self) -> (res: LayerId)
        ensures
            res == self@.active_layer,
    {
        self.active_layer
    }

    /// The stroke being drawn.
    #[must_use]
    pub fn active_stroke(&self) -> (res: Option<&Stroke>)
        ensures
            match res {
                Some(s) => self@.active == Some(s@),
                None => self@.active is None,
            },
    {
        self.active.as_ref()
    }

    /// The layer with the given identifier.
    #[must_use]
    pub fn layer(&self, id: LayerId) -> (res: Option<&Layer>)
        ensures
            match res {
                Some(l) => has_layer(self@.layers, id) && l@ == self@.layer(id),
                None => !has_layer(self@.layers, id),
            },
    {
        match find_layer(&self.layers, id) {
            Some(i) => Some(&self.layers[i]),
            None => None,
        }
    }

    /// Makes a layer the active one. An unknown identifier is refused.
    pub fn set_active_layer(&mut self, id: LayerId) -> (res: bool)
        ensures
            res == has_layer(old(self)@.layers, id),
            final(self)@ == (if res {
                DocumentView { active_layer: id, ..old(self)@ }
            } else {
                old(self)@
            }),
    {
        match find_layer(&self.layers, id) {
            Some(_) => {
                self.active_layer = id;
                true
            },
            None => false,
        }
    }

    /// Appends a new empty layer above the top one. Not undoable by itself.
    pub fn add_layer(&mut self, layer_ids: &mut IdCounter, name: String) -> (id: LayerId)
        requires
            old(layer_ids).upcoming() < u64::MAX,
        ensures
            id == LayerId::numbered(old(layer_ids).upcoming()),
            final(layer_ids).upcoming() == crate::ids::stepped(old(layer_ids).upcoming()),
            final(self)@ == old(self)@.with_layers(
                old(self)@.layers.push(LayerView::empty(id, name@)),
            ),
    {
        let layer = Layer::new(layer_ids, name);
        let id = layer.id;
        let ghost view = layer@;
        self.layers.push(layer);
        assert(self@.layers =~= old(self)@.layers.push(view));
        id
    }

    /// Renames a layer. Returns whether it exists.
    pub fn set_layer_name(&mut self, id: LayerId, name: String) -> (res: bool)
        ensures
            res == has_layer(old(self)@.layers, id),
            final(self)@ == (if res {
                old(self)@.with_layer(id, LayerView { name: name@, ..old(self)@.layer(id) })
            } else {
                old(self)@
            }),
    {
        match find_layer(&self.layers, id) {
            Some(i) => {
                self.layers[i].name = name;
                assert(self@.layers =~= old(self)@.with_layer(
                    id,
                    LayerView { name: name@, ..old(self)@.layer(id) },
                ).layers);
                true
            },
            None => false,
        }
    }

    /// Shows or hides a layer. Returns whether it exists.
    pub fn set_layer_visible(&mut self, id: LayerId, visible: bool) -> (res: bool)
        ensures
            res == has_layer(old(self)@.layers, id),
            final(self)@ == (if res {
                old(self)@.with_layer(id, LayerView { visible, ..old(self)@.layer(id) })
            } else {
                old(self)@
            }),
    {
        match find_layer(&self.layers, id) {
            Some(i) => {
                self.layers[i].visible = visible;
                assert(self@.layers =~= old(self)@.with_layer(
                    id,
                    LayerView { visible, ..old(self)@.layer(id) },
                ).layers);
                true
            },
            None => false,
        }
    }

    /// Sets the opacity of a layer, within 0 and 1. Returns whether it exists.
    pub fn set_layer_opacity(&mut self, id: LayerId, opacity: Float32) -> (res: bool)
        ensures
            res == has_layer(old(self)@.layers, id),
            final(self)@ == (if res {
                old(self)@.with_layer(
                    id,
                    LayerView {
                        opacity: opacity.clamped(Float32(0), Float32(0x3f80_0000)),
                        ..old(self)@.layer(id)
                    },
                )
            } else {
                old(self)@
            }),
    {
        match find_layer(&self.layers, id) {
            Some(i) => {
                let opacity = opacity.clamp(Float32(0), Float32(0x3f80_0000));
                self.layers[i].opacity = opacity;
                assert(self@.layers =~= old(self)@.with_layer(
                    id,
                    LayerView { opacity, ..old(self)@.layer(id) },
                ).layers);
                true
            },
            None => false,
        }
    }

    /// Sets the blend mode of a layer. Returns whether it exists.
    pub fn set_layer_blend_mode(&mut self, id: LayerId, mode: BlendMode) -> (res: bool)
        ensures
            res == has_layer(old(self)@.layers, id),
            final(self)@ == (if res {
                old(self)@.with_layer(id, LayerView { blend_mode: mode, ..old(self)@.layer(id) })
            } else {
                old(self)@
            }),
    {
        match find_layer(&self.layers, id) {
            Some(i) => {
                self.layers[i].blend_mode = mode;
                assert(self@.layers =~= old(self)@.with_layer(
                    id,
                    LayerView { blend_mode: mode, ..old(self)@.layer(id) },
                ).layers);
                true
            },
            None => false,
        }
    }
}

/// The stroke is stroke `id` and has a sample that waits for `update_index`.
pub open spec fn stroke_awaits(stroke: StrokeView, id: StrokeId, update_index: u64) -> bool {
    stroke.id == id && crate::layer::has_estimate(stroke.samples, update_index)
}

/// Some stroke of the layer awaits the revision.
pub open spec fn awaits_revision(layer: LayerView, id: StrokeId, update_index: u64) -> bool {
    exists|k: int|
        0 <= k < layer.strokes.len() && stroke_awaits(
            #[trigger] layer.strokes[k],
            id,
            update_index,
        )
}

/// Stroke `k` is the newest one that awaits the revision.
pub open spec fn is_newest_awaiting(
    strokes: Seq<StrokeView>,
    id: StrokeId,
    update_index: u64,
    k: int,
) -> bool {
    &&& 0 <= k < strokes.len()
    &&& stroke_awaits(strokes[k], id, update_index)
    &&& forall|j: int|
        k < j < strokes.len() ==> !stroke_awaits(#[trigger] strokes[j], id, update_index)
}

/// The newest stroke that awaits the revision.
pub open spec fn newest_awaiting(
    strokes: Seq<StrokeView>,
    id: StrokeId,
    update_index: u64,
) -> int {
    choose|k: int| is_newest_awaiting(strokes, id, update_index, k)
}

/// The newest stroke that awaits a revision is where `newest_awaiting` says.
pub proof fn lemma_newest_awaiting(
    strokes: Seq<StrokeView>,
    id: StrokeId,
    update_index: u64,
    k: int,
)
    requires
        is_newest_awaiting(strokes, id, update_index, k),
    ensures
        newest_awaiting(strokes, id, update_index) == k,
{
    let c = newest_awaiting(strokes, id, update_index);
    assert(is_newest_awaiting(strokes, id, update_index, c));
    if c < k {
        assert(!stroke_awaits(strokes[k], id, update_index));
    } else if k < c {
        assert(!stroke_awaits(strokes[c], id, update_index));
    }
}

/// Where some stroke of a layer awaits the revision, `newest_awaiting` is the newest.
pub proof fn lemma_newest_awaiting_exists(layer: LayerView, id: StrokeId, update_index: u64)
    requires
        awaits_revision(layer, id, update_index),
    ensures
        is_newest_awaiting(
            layer.strokes,
            id,
            update_index,
            newest_awaiting(layer.strokes, id, update_index),
        ),
{
    let k = choose|k: int|
        0 <= k < layer.strokes.len() && stroke_awaits(
            #[trigger] layer.strokes[k],
            id,
            update_index,
        );
    lemma_newest_after(layer.strokes, id, update_index, k);
}

proof fn lemma_newest_after(strokes: Seq<StrokeView>, id: StrokeId, update_index: u64, k: int)
    requires
        0 <= k < strokes.len(),
        stroke_awaits(strokes[k], id, update_index),
    ensures
        exists|c: int| is_newest_awaiting(strokes, id, update_index, c),
    decreases strokes.len() - k,
{
    if exists|j: int|
        k < j < strokes.len() && stroke_awaits(#[trigger] strokes[j], id, update_index) {
        let j = choose|j: int|
            k < j < strokes.len() && stroke_awaits(#[trigger] strokes[j], id, update_index);
        lemma_newest_after(strokes, id, update_index, j);
    } else {
        assert(is_newest_awaiting(strokes, id, update_index, k));
    }
}

/// Layer `i` is the topmost one with a stroke that awaits the revision.
pub open spec fn is_top_awaiting(
    layers: Seq<LayerView>,
    id: StrokeId,
    update_index: u64,
    i: int,
) -> bool {
    &&& 0 <= i < layers.len()
    &&& awaits_revision(layers[i], id, update_index)
    &&& forall|j: int|
        i < j < layers.len() ==> !awaits_revision(#[trigger] layers[j], id, update_index)
}

/// Some stroke of some layer awaits the revision.
pub open spec fn any_awaits(layers: Seq<LayerView>, id: StrokeId, update_index: u64) -> bool {
    exists|i: int|
        0 <= i < layers.len() && awaits_revision(#[trigger] layers[i], id, update_index)
}

/// The topmost layer with a stroke that awaits the revision.
pub open spec fn top_awaiting(layers: Seq<LayerView>, id: StrokeId, update_index: u64) -> int {
    choose|i: int| is_top_awaiting(layers, id, update_index, i)
}

/// Where some layer awaits the revision, `top_awaiting` is the topmost one that does.
pub proof fn lemma_top_awaiting(layers: Seq<LayerView>, id: StrokeId, update_index: u64)
    requires
        any_awaits(layers, id, update_index),
    ensures
        is_top_awaiting(layers, id, update_index, top_awaiting(layers, id, update_index)),
{
    let i = choose|i: int|
        0 <= i < layers.len() && awaits_revision(#[trigger] layers[i], id, update_index);
    lemma_top_awaiting_exists(layers, id, update_index, i);
}

proof fn lemma_top_awaiting_exists(
    layers: Seq<LayerView>,
    id: StrokeId,
    update_index: u64,
    i: int,
)
    requires
        0 <= i < layers.len(),
        awaits_revision(layers[i], id, update_index),
    ensures
        exists|k: int| is_top_awaiting(layers, id, update_index, k),
    decreases layers.len() - i,
{
    if exists|j: int|
        i < j < layers.len() && awaits_revision(#[trigger] layers[j], id, update_index) {
        let j = choose|j: int|
            i < j < layers.len() && awaits_revision(#[trigger] layers[j], id, update_index);
        lemma_top_awaiting_exists(layers, id, update_index, j);
    } else {
        assert(is_top_awaiting(layers, id, update_index, i));
    }
}

/// The stroke with the last estimate for `update_index` revised.
pub open spec fn revised_stroke(
    stroke: StrokeView,
    update_index: u64,
    revision: SampleRevision,
) -> StrokeView {
    StrokeView {
        samples: crate::layer::revised(stroke.samples, update_index, revision),
        ..stroke
    }
}

/// The layer with the newest stroke that awaits the revision revised.
pub open spec fn revised_layer(
    layer: LayerView,
    id: StrokeId,
    update_index: u64,
    revision: SampleRevision,
) -> LayerView {
    let k = newest_awaiting(layer.strokes, id, update_index);
    LayerView {
        strokes: layer.strokes.update(
            k,
            revised_stroke(layer.strokes[k], update_index, revision),
        ),
        ..layer
    }
}

/// Applies a revision to the newest stroke of a layer that awaits it.
fn revise_in_layer(
    layer: &mut Layer,
    id: StrokeId,
    update_index: u64,
    revision: SampleRevision,
) -> (found: bool)
    ensures
        found == awaits_revision(old(layer)@, id, update_index),
        final(layer)@ == (if found {
            revised_layer(old(layer)@, id, update_index, revision)
        } else {
            old(layer)@
        }),
{
    let ghost views = old(layer)@.strokes;
    let mut k: usize = layer.strokes.len();
    while k > 0
        invariant
            k <= layer.strokes.len(),
            views == old(layer)@.strokes,
            layer@ == old(layer)@,
            forall|j: int|
                k <= j < views.len() ==> !stroke_awaits(#[trigger] views[j], id, update_index),
        decreases k,
    {
        k = k - 1;
        assert(views[k as int] == layer.strokes@[k as int]@);
        if layer.strokes[k].id == id {
            if layer.strokes[k].revise(update_index, revision) {
                proof {
                    assert(stroke_awaits(views[k as int], id, update_index));
                    assert(is_newest_awaiting(views, id, update_index, k as int));
                    lemma_newest_awaiting(views, id, update_index, k as int);
                    assert(layer@ =~= revised_layer(old(layer)@, id, update_index, revision));
                }
                return true;
            }
            assert(layer@ =~= old(layer)@);
        }
    }
    false
}

/// The strokes of the visible layers, bottom to top.
pub open spec fn visible_strokes(layers: Seq<LayerView>) -> Seq<StrokeView>
    decreases layers.len(),
{
    if layers.len() == 0 {
        Seq::empty()
    } else {
        visible_strokes(layers.drop_last()) + (if layers.last().visible {
            layers.last().strokes
        } else {
            Seq::empty()
        })
    }
}

/// The strokes of all layers, bottom to top.
pub open spec fn all_strokes(layers: Seq<LayerView>) -> Seq<StrokeView>
    decreases layers.len(),
{
    if layers.len() == 0 {
        Seq::empty()
    } else {
        all_strokes(layers.drop_last()) + layers.last().strokes
    }
}

impl DocumentView {
    /// The stroke being drawn is stroke `id`.
    pub open spec fn drawing(self, id: StrokeId) -> bool {
        self.active matches Some(s) && s.id == id
    }

    /// The document after a stroke has begun, bound for the layer that is active now.
    pub open spec fn begun(self, stroke: StrokeView) -> DocumentView {
        DocumentView {
            active: Some(stroke),
            active_stroke_layer: Some(self.active_layer),
            ..self
        }
    }

    /// The document after a sample for stroke `id`.
    pub open spec fn sampled(self, id: StrokeId, sample: Sample) -> DocumentView {
        if self.drawing(id) {
            let stroke = self.active->0;
            DocumentView {
                active: Some(StrokeView { samples: stroke.samples.push(sample), ..stroke }),
                ..self
            }
        } else {
            self
        }
    }

    /// Some sample of stroke `id` can take the revision: one of the stroke being drawn, or
    /// else one of a committed stroke.
    pub open spec fn can_revise(self, id: StrokeId, update_index: u64) -> bool {
        ||| self.drawing(id) && crate::layer::has_estimate(self.active->0.samples, update_index)
        ||| any_awaits(self.layers, id, update_index)
    }

    /// The document after a revision.
    pub open spec fn after_revision(
        self,
        id: StrokeId,
        update_index: u64,
        revision: SampleRevision,
    ) -> DocumentView {
        if self.drawing(id) && crate::layer::has_estimate(self.active->0.samples, update_index) {
            DocumentView {
                active: Some(revised_stroke(self.active->0, update_index, revision)),
                ..self
            }
        } else if any_awaits(self.layers, id, update_index) {
            let i = top_awaiting(self.layers, id, update_index);
            self.with_layers(
                self.layers.update(i, revised_layer(self.layers[i], id, update_index, revision)),
            )
        } else {
            self
        }
    }

    /// The layer that the stroke being drawn is bound for.
    pub open spec fn stroke_target(self) -> LayerId {
        match self.active_stroke_layer {
            Some(id) => id,
            None => self.active_layer,
        }
    }

    /// The document without the stroke being drawn.
    pub open spec fn without_active(self) -> DocumentView {
        DocumentView { active: None, active_stroke_layer: None, ..self }
    }

    /// The layers with the stroke being drawn put on top of the layer it is bound for.
    pub open spec fn layers_with_active(self) -> Seq<LayerView> {
        match self.active {
            Some(stroke) if has_layer(self.layers, self.stroke_target()) => {
                let layer = self.layer(self.stroke_target());
                self.with_layer(
                    self.stroke_target(),
                    LayerView { strokes: layer.strokes.push(stroke), ..layer },
                ).layers
            },
            _ => self.layers,
        }
    }

    /// The strokes to be seen: those of the visible layers, then the one being drawn, whether
    /// its layer is visible or not.
    pub open spec fn shown_strokes(self) -> Seq<StrokeView> {
        match self.active {
            Some(stroke) => visible_strokes(self.layers).push(stroke),
            None => visible_strokes(self.layers),
        }
    }
}

/// A read-only picture of the scene for the renderer and the panels.
#[derive(Debug)]
pub struct SceneSnapshot {
    pub page: Page,
    /// The live brush: what the next stroke will be stamped with. Each stroke carries its own.
    pub brush: BrushParams,
    /// The strokes of the visible layers and the one being drawn.
    pub strokes: Vec<Stroke>,
    /// Every layer; the stroke being drawn is in the one it is bound for.
    pub layers: Vec<Layer>,
    pub active_layer: LayerId,
}

/// The mathematical content of a scene snapshot.
#[verifier::ext_equal]
pub struct SceneView {
    pub page: Page,
    pub brush: BrushParams,
    pub strokes: Seq<StrokeView>,
    pub layers: Seq<LayerView>,
    pub active_layer: LayerId,
}

impl View for SceneSnapshot {
    type V = SceneView;

    open spec fn view(&self) -> SceneView {
        SceneView {
            page: self.page,
            brush: self.brush,
            strokes: crate::layer::stroke_views(self.strokes@),
            layers: crate::layer::layer_views(self.layers@),
            active_layer: self.active_layer,
        }
    }
}

impl Clone for SceneSnapshot {
    fn clone(&self) -> (res: SceneSnapshot)
        ensures
            res@ == self@,
    {
        SceneSnapshot {
            page: self.page,
            brush: self.brush,
            strokes: crate::layer::clone_strokes(&self.strokes),
            layers: crate::layer::clone_layers(&self.layers),
            active_layer: self.active_layer,
        }
    }
}

impl Default for SceneSnapshot {
    fn default() -> (res: SceneSnapshot)
        ensures
            res.page == Page::initial(),
            res.brush == BrushParams::initial(),
            res.strokes@.len() == 0,
            res.layers@.len() == 0,
            res.active_layer.number() == 0,
    {
        SceneSnapshot {
            page: Page::default(),
            brush: BrushParams::default(),
            strokes: Vec::new(),
            layers: Vec::new(),
            active_layer: LayerId::default(),
        }
    }
}

impl DocumentView {
    /// The picture of this document.
    pub open spec fn scene(self) -> SceneView {
        SceneView {
            page: self.page,
            brush: self.brush,
            strokes: self.shown_strokes(),
            layers: self.layers_with_active(),
            active_layer: self.active_layer,
        }
    }
}

impl DocumentState {
    /// Begins a stroke, bound for the layer that is active now.
    pub fn begin_stroke(&mut self, stroke: Stroke)
        ensures
            final(self)@ == old(self)@.begun(stroke@),
    {
        self.active_stroke_layer = Some(self.active_layer);
        self.active = Some(stroke);
    }

    /// Adds a sample to the stroke being drawn if its identifier matches.
    pub fn add_sample(&mut self, id: StrokeId, sample: Sample)
        ensures
            final(self)@ == old(self)@.sampled(id, sample),
    {
        if let Some(active) = self.active.as_mut() {
            if active.id == id {
                active.samples.push(sample);
            }
        }
    }

    /// Applies a revision to an earlier sample of the named stroke: of the stroke being drawn,
    /// or else of a stroke that is committed, since a revision can arrive after that. Layers are
    /// searched from the top, and the strokes of each from the newest. The sample is committed
    /// by it. Returns whether there was such a sample.
    pub fn revise_sample(
        &mut self,
        id: StrokeId,
        update_index: u64,
        revision: SampleRevision,
    ) -> (found: bool)
        ensures
            found == old(self)@.can_revise(id, update_index),
            final(self)@ == old(self)@.after_revision(id, update_index, revision),
    {
        if let Some(active) = self.active.as_mut() {
            if active.id == id {
                if active.revise(update_index, revision) {
                    return true;
                }
            }
        }
        let ghost views = old(self)@.layers;
        let mut i: usize = self.layers.len();
        while i > 0
            invariant
                i <= self.layers.len(),
                views == old(self)@.layers,
                self@ == old(self)@,
                !(old(self)@.drawing(id) && crate::layer::has_estimate(
                    old(self)@.active->0.samples,
                    update_index,
                )),
                forall|j: int|
                    i <= j < views.len() ==> !awaits_revision(#[trigger] views[j], id, update_index),
            decreases i,
        {
            i = i - 1;
            assert(views[i as int] == self.layers@[i as int]@);
            if revise_in_layer(&mut self.layers[i], id, update_index, revision) {
                proof {
                    assert(is_top_awaiting(views, id, update_index, i as int));
                    lemma_top_awaiting(views, id, update_index);
                    assert(top_awaiting(views, id, update_index) == i);
                    assert(self@.layers =~= views.update(
                        i as int,
                        revised_layer(views[i as int], id, update_index, revision),
                    ));
                }
                return true;
            }
            assert(self@.layers =~= views);
        }
        false
    }

    /// Takes the stroke being drawn if its identifier matches, with the layer it is bound for.
    pub fn end_stroke(&mut self, id: StrokeId) -> (res: Option<(Stroke, LayerId)>)
        ensures
            res is Some <==> old(self)@.drawing(id),
            res matches Some((stroke, layer)) ==> stroke@ == old(self)@.active->0 && layer
                == old(self)@.stroke_target(),
            final(self)@ == (if old(self)@.drawing(id) {
                old(self)@.without_active()
            } else {
                old(self)@
            }),
    {
        let is_match = match self.active.as_ref() {
            Some(s) => s.id == id,
            None => false,
        };
        if !is_match {
            return None;
        }
        let target = match self.active_stroke_layer.take() {
            Some(layer) => layer,
            None => self.active_layer,
        };
        match self.active.take() {
            Some(stroke) => Some((stroke, target)),
            None => None,
        }
    }

    /// Whether a stroke is being drawn.
    #[must_use]
    pub fn has_active_stroke(&self) -> (res: bool)
        ensures
            res == self@.active is Some,
    {
        self.active.is_some()
    }

    /// The picture of the scene, with the stroke being drawn in it.
    #[must_use]
    pub fn snapshot(&self) -> (res: SceneSnapshot)
        ensures
            res@ == self@.scene(),
    {
        let mut layers = crate::layer::clone_layers(&self.layers);
        if let Some(active) = self.active.as_ref() {
            let target = match self.active_stroke_layer {
                Some(layer) => layer,
                None => self.active_layer,
            };
            if let Some(i) = find_layer(&layers, target) {
                let copy = active.clone();
                let ghost before = layers@[i as int];
                layers[i].strokes.push(copy);
                proof {
                    assert(layers@[i as int]@ =~= LayerView {
                        strokes: before@.strokes.push(active@),
                        ..before@
                    });
                }
            }
        }
        assert(crate::layer::layer_views(layers@) =~= self@.layers_with_active());
        let mut strokes: Vec<Stroke> = Vec::new();
        let mut i: usize = 0;
        while i < self.layers.len()
            invariant
                i <= self.layers.len(),
                crate::layer::stroke_views(strokes@) == visible_strokes(
                    self@.layers.take(i as int),
                ),
            decreases self.layers.len() - i,
        {
            let layer = &self.layers[i];
            assert(self@.layers[i as int] == layer@);
            assert(self@.layers.take(i + 1).drop_last() =~= self@.layers.take(i as int));
            if layer.visible {
                let ghost before = strokes@;
                let mut copies = crate::layer::clone_strokes(&layer.strokes);
                let ghost copied = copies@;
                strokes.append(&mut copies);
                assert(crate::layer::stroke_views(strokes@) =~= crate::layer::stroke_views(before)
                    + crate::layer::stroke_views(copied));
            } else {
                assert(visible_strokes(self@.layers.take(i as int)) + Seq::<StrokeView>::empty()
                    =~= visible_strokes(self@.layers.take(i as int)));
            }
            i = i + 1;
        }
        assert(self@.layers.take(i as int) =~= self@.layers);
        if let Some(active) = self.active.as_ref() {
            let copy = active.clone();
            let ghost before = strokes@;
            strokes.push(copy);
            assert(crate::layer::stroke_views(strokes@) =~= crate::layer::stroke_views(before).push(
                active@,
            ));
        }
        SceneSnapshot {
            page: self.page,
            brush: self.brush,
            strokes,
            layers,
            active_layer: self.active_layer,
        }
    }

    /// All committed strokes, bottom to top.
    pub fn committed_strokes(&self) -> (res: Vec<&Stroke>)
        ensures
            res@.map_values(|s: &Stroke| s@) == all_strokes(self@.layers),
    {
        let mut res: Vec<&Stroke> = Vec::new();
        let mut i: usize = 0;
        while i < self.layers.len()
            invariant
                i <= self.layers.len(),
                res@.map_values(|s: &Stroke| s@) == all_strokes(self@.layers.take(i as int)),
            decreases self.layers.len() - i,
        {
            let strokes = &self.layers[i].strokes;
            let ghost before = all_strokes(self@.layers.take(i as int));
            let mut k: usize = 0;
            assert(before + crate::layer::stroke_views(strokes@).take(0) =~= before);
            while k < strokes.len()
                invariant
                    k <= strokes.len(),
                    res@.map_values(|s: &Stroke| s@) == before + crate::layer::stroke_views(
                        strokes@,
                    ).take(k as int),
                decreases strokes.len() - k,
            {
                let ghost old_res = res@.map_values(|s: &Stroke| s@);
                res.push(&strokes[k]);
                assert(res@.map_values(|s: &Stroke| s@) =~= old_res.push(strokes@[k as int]@));
                assert(crate::layer::stroke_views(strokes@).take(k + 1)
                    =~= crate::layer::stroke_views(strokes@).take(k as int).push(
                    strokes@[k as int]@,
                ));
                k = k + 1;
            }
            assert(crate::layer::stroke_views(strokes@).take(k as int)
                =~= crate::layer::stroke_views(strokes@));
            assert(self@.layers.take(i + 1).drop_last() =~= self@.layers.take(i as int));
            assert(self@.layers[i as int] == self.layers@[i as int]@);
            i = i + 1;
        }
        assert(self@.layers.take(i as int) =~= self@.layers);
        res
    }
}

/// Why an edit could not be applied.
#[derive(Debug, Clone, Copy, PartialEq, Eq, Structural)]
#[non_exhaustive]
pub enum EditError {
    MissingStroke(StrokeId),
    MissingLayer(LayerId),
    /// At least one layer must remain.
    LastLayer,
}

/// A reversible change of a document. Applying one gives its inverse, computed against the
/// document as it was, so that what is destroyed is captured. Every edit names the layer it
/// concerns, whichever layer is active.
#[derive(Debug)]
#[non_exhaustive]
#[allow(inconsistent_fields)]
pub enum Edit {
    /// Adds a stroke on top of a layer. Undone by `RemoveStroke`.
    AddStroke { stroke: Stroke, layer: LayerId },
    /// Takes a stroke out of a layer. Undone by `AddStroke`.
    RemoveStroke { id: StrokeId, layer: LayerId },
    /// Inserts a layer at an index, at most the number of layers, and makes it active if
    /// `was_active`. Undone by `RemoveLayer`.
    AddLayer { layer: Layer, index: usize, was_active: bool },
    /// Takes a layer out; where it was active, a sibling becomes active. Undone by `AddLayer`.
    RemoveLayer { id: LayerId },
    /// Moves a layer to an index, at most the last one. Undone by `MoveLayer`.
    MoveLayer { id: LayerId, new_index: usize },
}

/// The mathematical content of an edit.
#[verifier::ext_equal]
#[allow(inconsistent_fields)]
pub enum EditView {
    AddStroke { stroke: StrokeView, layer: LayerId },
    RemoveStroke { id: StrokeId, layer: LayerId },
    AddLayer { layer: LayerView, index: nat, was_active: bool },
    RemoveLayer { id: LayerId },
    MoveLayer { id: LayerId, new_index: nat },
}

impl View for Edit {
    type V = EditView;

    open spec fn view(&self) -> EditView {
        match *self {
            Edit::AddStroke { stroke, layer } => EditView::AddStroke { stroke: stroke@, layer },
            Edit::RemoveStroke { id, layer } => EditView::RemoveStroke { id, layer },
            Edit::AddLayer { layer, index, was_active } => EditView::AddLayer {
                layer: layer@,
                index: index as nat,
                was_active,
            },
            Edit::RemoveLayer { id } => EditView::RemoveLayer { id },
            Edit::MoveLayer { id, new_index } => EditView::MoveLayer {
                id,
                new_index: new_index as nat,
            },
        }
    }
}

impl Clone for Edit {
    fn clone(&self) -> (res: Edit)
        ensures
            res@ == self@,
    {
        match self {
            Edit::AddStroke { stroke, layer } => Edit::AddStroke {
                stroke: stroke.clone(),
                layer: *layer,
            },
            Edit::RemoveStroke { id, layer } => Edit::RemoveStroke { id: *id, layer: *layer },
            Edit::AddLayer { layer, index, was_active } => Edit::AddLayer {
                layer: layer.clone(),
                index: *index,
                was_active: *was_active,
            },
            Edit::RemoveLayer { id } => Edit::RemoveLayer { id: *id },
            Edit::MoveLayer { id, new_index } => Edit::MoveLayer { id: *id, new_index: *new_index },
        }
    }
}

/// The smaller of two numbers.
pub open spec fn smaller(a: int, b: int) -> int {
    if a <= b {
        a
    } else {
        b
    }
}

/// The error that keeps an edit from being applied to a document, if any.
pub open spec fn edit_error(edit: EditView, doc: DocumentView) -> Option<EditError> {
    match edit {
        EditView::AddStroke { stroke, layer } => if has_layer(doc.layers, layer) {
            None
        } else {
            Some(EditError::MissingLayer(layer))
        },
        EditView::RemoveStroke { id, layer } => if !has_layer(doc.layers, layer) {
            Some(EditError::MissingLayer(layer))
        } else if !has_stroke(doc.layer(layer).strokes, id) {
            Some(EditError::MissingStroke(id))
        } else {
            None
        },
        EditView::AddLayer { layer, index, was_active } => None,
        EditView::RemoveLayer { id } => if doc.layers.len() <= 1 {
            Some(EditError::LastLayer)
        } else if !has_layer(doc.layers, id) {
            Some(EditError::MissingLayer(id))
        } else {
            None
        },
        EditView::MoveLayer { id, new_index } => if has_layer(doc.layers, id) {
            None
        } else {
            Some(EditError::MissingLayer(id))
        },
    }
}

/// The document after an edit that no error prevents.
pub open spec fn edited(edit: EditView, doc: DocumentView) -> DocumentView {
    match edit {
        EditView::AddStroke { stroke, layer } => {
            let l = doc.layer(layer);
            doc.with_layer(layer, LayerView { strokes: l.strokes.push(stroke), ..l })
        },
        EditView::RemoveStroke { id, layer } => {
            let l = doc.layer(layer);
            let i = stroke_index(l.strokes, id);
            doc.with_layer(layer, LayerView { strokes: l.strokes.remove(i), ..l })
        },
        EditView::AddLayer { layer, index, was_active } => {
            let i = smaller(index as int, doc.layers.len() as int);
            DocumentView {
                layers: doc.layers.insert(i, layer),
                active_layer: if was_active {
                    layer.id
                } else {
                    doc.active_layer
                },
                ..doc
            }
        },
        EditView::RemoveLayer { id } => {
            let i = layer_index(doc.layers, id);
            let rest = doc.layers.remove(i);
            DocumentView {
                layers: rest,
                active_layer: if doc.active_layer == id {
                    rest[smaller(i, rest.len() - 1)].id
                } else {
                    doc.active_layer
                },
                ..doc
            }
        },
        EditView::MoveLayer { id, new_index } => {
            let i = layer_index(doc.layers, id);
            let target = smaller(new_index as int, doc.layers.len() - 1);
            doc.with_layers(doc.layers.remove(i).insert(target, doc.layers[i]))
        },
    }
}

/// The edit that undoes an edit of a document.
pub open spec fn inverse(edit: EditView, doc: DocumentView) -> EditView {
    match edit {
        EditView::AddStroke { stroke, layer } => EditView::RemoveStroke { id: stroke.id, layer },
        EditView::RemoveStroke { id, layer } => {
            let l = doc.layer(layer);
            EditView::AddStroke { stroke: l.strokes[stroke_index(l.strokes, id)], layer }
        },
        EditView::AddLayer { layer, index, was_active } => EditView::RemoveLayer { id: layer.id },
        EditView::RemoveLayer { id } => EditView::AddLayer {
            layer: doc.layer(id),
            index: layer_index(doc.layers, id) as nat,
            was_active: doc.active_layer == id,
        },
        EditView::MoveLayer { id, new_index } => EditView::MoveLayer {
            id,
            new_index: layer_index(doc.layers, id) as nat,
        },
    }
}

impl Edit {
    /// Applies the edit and returns its inverse. On an error the document is unchanged.
    pub fn apply(self, doc: &mut DocumentState) -> (res: Result<Edit, EditError>)
        ensures
            match res {
                Ok(undo) => {
                    &&& edit_error(self@, old(doc)@) is None
                    &&& final(doc)@ == edited(self@, old(doc)@)
                    &&& undo@ == inverse(self@, old(doc)@)
                },
                Err(e) => edit_error(self@, old(doc)@) == Some(e) && final(doc)@ == old(doc)@,
            },
    {
        let ghost before = doc@;
        match self {
            Edit::AddStroke { stroke, layer } => {
                let i = match find_layer(&doc.layers, layer) {
                    Some(i) => i,
                    None => return Err(EditError::MissingLayer(layer)),
                };
                let id = stroke.id;
                let ghost l = doc.layers@[i as int]@;
                let ghost view = stroke@;
                doc.layers[i].strokes.push(stroke);
                proof {
                    assert(doc.layers@[i as int]@ =~= LayerView {
                        strokes: l.strokes.push(view),
                        ..l
                    });
                    assert(doc@.layers =~= edited(
                        EditView::AddStroke { stroke: view, layer },
                        before,
                    ).layers);
                }
                Ok(Edit::RemoveStroke { id, layer })
            },
            Edit::RemoveStroke { id, layer } => {
                let i = match find_layer(&doc.layers, layer) {
                    Some(i) => i,
                    None => return Err(EditError::MissingLayer(layer)),
                };
                let k = match find_stroke(&doc.layers[i].strokes, id) {
                    Some(k) => k,
                    None => return Err(EditError::MissingStroke(id)),
                };
                let ghost l = doc.layers@[i as int]@;
                let stroke = doc.layers[i].strokes.remove(k);
                proof {
                    assert(doc.layers@[i as int]@ =~= LayerView {
                        strokes: l.strokes.remove(k as int),
                        ..l
                    });
                    assert(doc@.layers =~= edited(EditView::RemoveStroke { id, layer }, before).layers);
                }
                Ok(Edit::AddStroke { stroke, layer })
            },
            Edit::AddLayer { layer, index, was_active } => {
                let id = layer.id;
                let n: usize = doc.layers.len();
                let at: usize = if index <= n { index } else { n };
                let ghost view = layer@;
                doc.layers.insert(at, layer);
                proof {
                    assert(doc@.layers =~= before.layers.insert(at as int, view));
                }
                if was_active {
                    doc.active_layer = id;
                }
                Ok(Edit::RemoveLayer { id })
            },
            Edit::RemoveLayer { id } => {
                if doc.layers.len() <= 1 {
                    return Err(EditError::LastLayer);
                }
                let i = match find_layer(&doc.layers, id) {
                    Some(i) => i,
                    None => return Err(EditError::MissingLayer(id)),
                };
                let was_active: bool = doc.active_layer == id;
                let layer = doc.layers.remove(i);
                proof {
                    assert(doc@.layers =~= before.layers.remove(i as int));
                }
                if was_active {
                    let n: usize = doc.layers.len();
                    let k: usize = if i <= n - 1 { i } else { n - 1 };
                    assert(doc@.layers[k as int] == doc.layers@[k as int]@);
                    doc.active_layer = doc.layers[k].id;
                }
                Ok(Edit::AddLayer { layer, index: i, was_active })
            },
            Edit::MoveLayer { id, new_index } => {
                let i = match find_layer(&doc.layers, id) {
                    Some(i) => i,
                    None => return Err(EditError::MissingLayer(id)),
                };
                let n: usize = doc.layers.len();
                let target: usize = if new_index <= n - 1 { new_index } else { n - 1 };
                if i == target {
                    proof {
                        assert(before.layers.remove(i as int).insert(i as int, before.layers[i as int])
                            =~= before.layers);
                    }
                    return Ok(Edit::MoveLayer { id, new_index: i });
                }
                let layer = doc.layers.remove(i);
                doc.layers.insert(target, layer);
                proof {
                    assert(doc@.layers =~= before.layers.remove(i as int).insert(
                        target as int,
                        before.layers[i as int],
                    ));
                }
                Ok(Edit::MoveLayer { id, new_index: i })
            },
        }
    }
}

/// The version that documents are saved with.
pub const CURRENT_DOC_VERSION: u32 = 2;

/// What of a document is kept in a file: the committed strokes, the layers, the page and
/// the live brush. The stroke being drawn and the history are dropped.
///
/// Version 1 had no layers and kept its strokes in `strokes`; version 2 leaves that empty and
/// fills `layers` and `active_layer`.
#[derive(Debug, PartialEq)]
pub struct DocumentSnapshot {
    pub doc_version: u32,
    pub page: Page,
    pub brush: BrushParams,
    pub strokes: Vec<Stroke>,
    pub layers: Vec<Layer>,
    pub active_layer: Option<LayerId>,
}

/// The mathematical content of a saved document.
#[verifier::ext_equal]
pub struct SavedView {
    pub doc_version: u32,
    pub page: Page,
    pub brush: BrushParams,
    pub strokes: Seq<StrokeView>,
    pub layers: Seq<LayerView>,
    pub active_layer: Option<LayerId>,
}

impl View for DocumentSnapshot {
    type V = SavedView;

    open spec fn view(&self) -> SavedView {
        SavedView {
            doc_version: self.doc_version,
            page: self.page,
            brush: self.brush,
            strokes: crate::layer::stroke_views(self.strokes@),
            layers: crate::layer::layer_views(self.layers@),
            active_layer: self.active_layer,
        }
    }
}

impl Clone for DocumentSnapshot {
    fn clone(&self) -> (res: DocumentSnapshot)
        ensures
            res@ == self@,
    {
        DocumentSnapshot {
            doc_version: self.doc_version,
            page: self.page,
            brush: self.brush,
            strokes: crate::layer::clone_strokes(&self.strokes),
            layers: crate::layer::clone_layers(&self.layers),
            active_layer: self.active_layer,
        }
    }
}

/// What is saved of a document.
pub open spec fn saved(doc: DocumentView) -> SavedView {
    SavedView {
        doc_version: CURRENT_DOC_VERSION,
        page: doc.page,
        brush: doc.brush,
        strokes: Seq::empty(),
        layers: doc.layers,
        active_layer: Some(doc.active_layer),
    }
}

/// The document that a saved one is loaded as, where `fresh` names the layer that is made
/// for a saved document without layers.
pub open spec fn loaded(saved: SavedView, fresh: LayerId) -> DocumentView {
    let layers = if saved.layers.len() > 0 {
        saved.layers
    } else {
        seq![
            LayerView {
                strokes: saved.strokes,
                ..LayerView::empty(fresh, DocumentState::first_layer_name())
            },
        ]
    };
    DocumentView {
        page: saved.page,
        brush: saved.brush,
        layers,
        active_layer: match saved.active_layer {
            Some(id) if saved.layers.len() > 0 && has_layer(layers, id) => id,
            _ => layers[0].id,
        },
        active: None,
        active_stroke_layer: None,
    }
}

/// A stroke counter raised past the identifiers of all the strokes.
pub open spec fn raised_past_strokes(upcoming: u64, strokes: Seq<StrokeView>) -> u64
    decreases strokes.len(),
{
    if strokes.len() == 0 {
        upcoming
    } else {
        crate::ids::raised(
            raised_past_strokes(upcoming, strokes.drop_last()),
            strokes.last().id.0,
        )
    }
}

/// A layer counter raised past the identifiers of all the layers.
pub open spec fn raised_past_layers(upcoming: u64, layers: Seq<LayerView>) -> u64
    decreases layers.len(),
{
    if layers.len() == 0 {
        upcoming
    } else {
        crate::ids::raised(
            raised_past_layers(upcoming, layers.drop_last()),
            layers.last().id.number(),
        )
    }
}

impl DocumentSnapshot {
    /// The projection of a document that is saved.
    pub fn from(state: &DocumentState) -> (res: DocumentSnapshot)
        ensures
            res@ == saved(state@),
    {
        let res = DocumentSnapshot {
            doc_version: CURRENT_DOC_VERSION,
            page: state.page,
            brush: state.brush,
            strokes: Vec::new(),
            layers: crate::layer::clone_layers(&state.layers),
            active_layer: Some(state.active_layer),
        };
        assert(res@.strokes =~= Seq::<StrokeView>::empty());
        res
    }
}

fn raise_past_layers(layer_ids: &mut IdCounter, layers: &Vec<Layer>)
    ensures
        final(layer_ids).upcoming() == raised_past_layers(
            old(layer_ids).upcoming(),
            crate::layer::layer_views(layers@),
        ),
{
    let ghost views = crate::layer::layer_views(layers@);
    let mut i: usize = 0;
    assert(views.take(0) =~= Seq::<LayerView>::empty());
    while i < layers.len()
        invariant
            views == crate::layer::layer_views(layers@),
            i <= layers.len(),
            layer_ids.upcoming() == raised_past_layers(
                old(layer_ids).upcoming(),
                views.take(i as int),
            ),
        decreases layers.len() - i,
    {
        assert(views.take(i + 1).drop_last() =~= views.take(i as int));
        assert(views[i as int] == layers@[i as int]@);
        LayerId::bump_to(layer_ids, layers[i].id.raw());
        i = i + 1;
    }
    assert(views.take(i as int) =~= views);
}

fn raise_past_strokes(stroke_ids: &mut IdCounter, layers: &Vec<Layer>)
    ensures
        final(stroke_ids).upcoming() == raised_past_strokes(
            old(stroke_ids).upcoming(),
            all_strokes(crate::layer::layer_views(layers@)),
        ),
{
    let ghost views = crate::layer::layer_views(layers@);
    let mut i: usize = 0;
    assert(views.take(0) =~= Seq::<LayerView>::empty());
    while i < layers.len()
        invariant
            views == crate::layer::layer_views(layers@),
            i <= layers.len(),
            stroke_ids.upcoming() == raised_past_strokes(
                old(stroke_ids).upcoming(),
                all_strokes(views.take(i as int)),
            ),
        decreases layers.len() - i,
    {
        let strokes = &layers[i].strokes;
        let ghost before = all_strokes(views.take(i as int));
        let ghost here = crate::layer::stroke_views(strokes@);
        assert(before + here.take(0) =~= before);
        let mut k: usize = 0;
        while k < strokes.len()
            invariant
                here == crate::layer::stroke_views(strokes@),
                k <= strokes.len(),
                stroke_ids.upcoming() == raised_past_strokes(
                    old(stroke_ids).upcoming(),
                    before + here.take(k as int),
                ),
            decreases strokes.len() - k,
        {
            assert((before + here.take(k + 1)).drop_last() =~= before + here.take(k as int));
            assert((before + here.take(k + 1)).last() == strokes@[k as int]@);
            StrokeId::bump_to(stroke_ids, strokes[k].id.0);
            k = k + 1;
        }
        assert(here.take(k as int) =~= here);
        assert(views.take(i + 1).drop_last() =~= views.take(i as int));
        assert(views[i as int] == layers@[i as int]@);
        i = i + 1;
    }
    assert(views.take(i as int) =~= views);
}

impl DocumentState {
    /// Loads a saved document of any version. Where it has layers those are taken, and an
    /// active layer that is not among them falls back to the first; otherwise its strokes are
    /// wrapped into one new layer. The counters are raised past every loaded identifier.
    pub fn from(
        snap: DocumentSnapshot,
        layer_ids: &mut IdCounter,
        stroke_ids: &mut IdCounter,
    ) -> (res: DocumentState)
        requires
            snap@.layers.len() == 0 ==> old(layer_ids).upcoming() < u64::MAX,
        ensures
            ({
                let fresh = res@.layers[0].id;
                let minted = snap@.layers.len() == 0;
                &&& res@ == loaded(snap@, fresh)
                &&& res@.wf()
                &&& minted ==> fresh == LayerId::numbered(old(layer_ids).upcoming())
                &&& final(layer_ids).upcoming() == raised_past_layers(
                    if minted {
                        crate::ids::stepped(old(layer_ids).upcoming())
                    } else {
                        old(layer_ids).upcoming()
                    },
                    res@.layers,
                )
                &&& final(stroke_ids).upcoming() == raised_past_strokes(
                    old(stroke_ids).upcoming(),
                    all_strokes(res@.layers),
                )
            }),
    {
        let ghost saved_view = snap@;
        let DocumentSnapshot { doc_version: _, page, brush, strokes, layers, active_layer } = snap;
        if layers.len() > 0 {
            let first = layers[0].id;
            let active = match active_layer {
                Some(id) => match find_layer(&layers, id) {
                    Some(_) => id,
                    None => first,
                },
                None => first,
            };
            raise_past_strokes(stroke_ids, &layers);
            raise_past_layers(layer_ids, &layers);
            let res = DocumentState {
                page,
                brush,
                layers,
                active_layer: active,
                active: None,
                active_stroke_layer: None,
            };
            assert(res@.layers[0].id == first);
            return res;
        }
        let mut layer = Layer::new(layer_ids, "Layer 1".to_string());
        layer.strokes = strokes;
        let active = layer.id;
        let ghost view = layer@;
        let mut layers: Vec<Layer> = Vec::new();
        layers.push(layer);
        raise_past_strokes(stroke_ids, &layers);
        raise_past_layers(layer_ids, &layers);
        let res = DocumentState {
            page,
            brush,
            layers,
            active_layer: active,
            active: None,
            active_stroke_layer: None,
        };
        assert(res@.layers =~= seq![view]);
        assert(res@.layers[0].id == active);
        res
    }
}

} // verus!
