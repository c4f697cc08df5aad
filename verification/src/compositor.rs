//! How a frame is put together. Every layer paints into a substrate of its own, which has
//! two sides: a brush program reads one and writes the other. The substrates of the layers
//! that show are then blended, bottom to top, into a composite with two sides of the same
//! kind. This module decides which substrates exist, which side each pass reads and writes,
//! and which program it runs.

use crate::brush::{BrushType, ONE};
use crate::float32::Float32;
use crate::ids::{LayerId, StrokeId};
use crate::layer::{BlendMode, Layer, LayerView, StrokeView};
use std::collections::HashMap;
use vstd::prelude::*;

verus! {

broadcast use {
    crate::ids::lemma_layer_id_has_number,
    crate::ids::lemma_layer_id_is_numbered,
    vstd::std_specs::hash::group_hash_axioms,
};

/// The program that deposits a stroke.
#[derive(Debug, Clone, Copy, PartialEq, Eq, Hash, Structural)]
pub enum BrushProgram {
    /// Alpha-over in linear RGB.
    Plain,
    /// A multiplicative tint.
    Highlighter,
    /// Mixing of pigments.
    Pigment,
}

/// The program for a brush type. A type of a later version is painted plainly.
pub open spec fn program_of(brush_type: BrushType) -> BrushProgram {
    match brush_type {
        BrushType::Normal => BrushProgram::Plain,
        BrushType::Highlighter => BrushProgram::Highlighter,
        BrushType::Pigment => BrushProgram::Pigment,
        BrushType::Unknown => BrushProgram::Plain,
    }
}

/// The program for a brush type.
pub fn brush_program(brush_type: BrushType) -> (res: BrushProgram)
    ensures
        res == program_of(brush_type),
{
    match brush_type {
        BrushType::Highlighter => BrushProgram::Highlighter,
        BrushType::Pigment => BrushProgram::Pigment,
        _ => BrushProgram::Plain,
    }
}

/// The blend mode that a layer is composited with. A mode of a later version blends as
/// `Normal`.
pub open spec fn blended_as(mode: BlendMode) -> BlendMode {
    match mode {
        BlendMode::Unknown => BlendMode::Normal,
        _ => mode,
    }
}

/// One deposit of a stroke into the substrate of its layer.
#[derive(Debug, Clone, Copy, PartialEq, Eq, Structural)]
pub struct BrushPass {
    pub program: BrushProgram,
    /// The side of the substrate that is read.
    pub read: usize,
    /// The side of the substrate that is written.
    pub write: usize,
}

/// One blend of a layer into the composite.
#[derive(Debug, Clone, Copy, PartialEq)]
pub struct BlendPass {
    pub layer: LayerId,
    /// The side of the layer's substrate that holds its paint.
    pub substrate: usize,
    pub mode: BlendMode,
    pub opacity: Float32,
    /// The side of the composite that is read.
    pub read: usize,
    /// The side of the composite that is written.
    pub write: usize,
}

/// What has to happen to the substrates before a frame.
#[derive(Debug)]
pub struct FramePlan {
    /// Layers whose substrate goes, in no particular order.
    pub dropped: Vec<LayerId>,
    /// Layers that get a substrate, in the order in which they were asked for.
    pub allocated: Vec<LayerId>,
}

/// The substrates that exist and the sides that are in front.
#[derive(Debug)]
pub struct Compositor {
    width: u32,
    height: u32,
    /// The front side of the substrate of each layer, by the number of the layer.
    fronts: HashMap<u64, usize>,
    composite_front: usize,
}

/// The mathematical content of a compositor.
#[verifier::ext_equal]
pub struct CompositorView {
    pub width: u32,
    pub height: u32,
    pub fronts: Map<u64, usize>,
    pub composite_front: usize,
}

impl View for Compositor {
    type V = CompositorView;

    closed spec fn view(&self) -> CompositorView {
        CompositorView {
            width: self.width,
            height: self.height,
            fronts: self.fronts@,
            composite_front: self.composite_front,
        }
    }
}

/// The other one of two sides.
pub open spec fn flipped(side: usize) -> usize {
    if side == 0 {
        1
    } else {
        0
    }
}

fn flip(side: usize) -> (res: usize)
    ensures
        res == flipped(side),
{
    if side == 0 {
        1
    } else {
        0
    }
}

/// A texture is at least one pixel wide and high.
pub open spec fn texture_size(n: u32) -> u32 {
    if n == 0 {
        1
    } else {
        n
    }
}

fn at_least_one(n: u32) -> (res: u32)
    ensures
        res == texture_size(n),
{
    if n == 0 {
        1
    } else {
        n
    }
}

/// The numbers of the given layers.
pub open spec fn numbers_of(ids: Seq<LayerId>) -> Set<u64> {
    Set::new(|n: u64| ids.contains(LayerId::numbered(n)))
}

impl CompositorView {
    /// The size is positive and every side is one of the two.
    pub open spec fn wf(self) -> bool {
        &&& self.width > 0
        &&& self.height > 0
        &&& self.composite_front < 2
        &&& forall|n: u64| #[trigger] self.fronts.contains_key(n) ==> self.fronts[n] < 2
    }

    /// A layer shows: it is visible, or the stroke being drawn goes to it, and it has a
    /// substrate.
    pub open spec fn shows(self, layer: Layer, active: Option<LayerId>) -> bool {
        &&& layer.visible || active == Some(layer.id)
        &&& self.fronts.contains_key(layer.id.number())
    }

    /// The side of the composite in front after the given number of passes.
    pub open spec fn front_after(self, passes: nat) -> usize {
        if passes % 2 == 0 {
            self.composite_front
        } else {
            flipped(self.composite_front)
        }
    }

    /// The passes that blend the layers that show, bottom to top.
    pub open spec fn passes(self, layers: Seq<Layer>, active: Option<LayerId>) -> Seq<BlendPass>
        decreases layers.len(),
    {
        if layers.len() == 0 {
            seq![]
        } else {
            let below = self.passes(layers.drop_last(), active);
            let layer = layers.last();
            if self.shows(layer, active) {
                let read = self.front_after(below.len());
                below.push(
                    BlendPass {
                        layer: layer.id,
                        substrate: self.fronts[layer.id.number()],
                        mode: blended_as(layer.blend_mode),
                        opacity: layer.opacity.clamped(Float32(0), Float32(ONE)),
                        read,
                        write: flipped(read),
                    },
                )
            } else {
                below
            }
        }
    }
}

impl Compositor {
    /// A compositor for a surface of the given size, without substrates.
    pub fn new(width: u32, height: u32) -> (res: Compositor)
        ensures
            res@ == (CompositorView {
                width: texture_size(width),
                height: texture_size(height),
                fronts: Map::empty(),
                composite_front: 0,
            }),
            res@.wf(),
    {
        Compositor {
            width: at_least_one(width),
            height: at_least_one(height),
            fronts: HashMap::new(),
            composite_front: 0,
        }
    }

    /// Width of the textures.
    pub fn width(&self) -> (res: u32)
        ensures
            res == self@.width,
    {
        self.width
    }

    /// Height of the textures.
    pub fn height(&self) -> (res: u32)
        ensures
            res == self@.height,
    {
        self.height
    }

    /// The side of the composite that is presented.
    pub fn composite_front(&self) -> (res: usize)
        ensures
            res == self@.composite_front,
    {
        self.composite_front
    }

    /// Whether a layer has a substrate.
    pub fn has_substrate(&self, layer: LayerId) -> (res: bool)
        ensures
            res == self@.fronts.contains_key(layer.number()),
    {
        self.fronts.contains_key(&layer.raw())
    }

    /// Follows the surface to a new size. Returns whether the textures have to be made anew;
    /// every substrate is gone then.
    pub fn resize(&mut self, width: u32, height: u32) -> (res: bool)
        ensures
            res == !(texture_size(width) == old(self)@.width && texture_size(height) == old(
                self,
            )@.height),
            final(self)@ == (if res {
                CompositorView {
                    width: texture_size(width),
                    height: texture_size(height),
                    fronts: Map::empty(),
                    composite_front: 0,
                }
            } else {
                old(self)@
            }),
            old(self)@.wf() ==> final(self)@.wf(),
    {
        let w: u32 = at_least_one(width);
        let h: u32 = at_least_one(height);
        if self.width == w && self.height == h {
            return false;
        }
        self.fronts.clear();
        self.composite_front = 0;
        self.width = w;
        self.height = h;
        true
    }

    /// Begins a frame: the layers to keep have a substrate each, no other has one, and every
    /// substrate and the composite start at their first side.
    pub fn begin_frame(&mut self, keep: &Vec<LayerId>) -> (res: FramePlan)
        ensures
            final(self)@.fronts.dom() == numbers_of(keep@),
            forall|n: u64| #[trigger]
                final(self)@.fronts.contains_key(n) ==> final(self)@.fronts[n] == 0,
            final(self)@.composite_front == 0,
            final(self)@.width == old(self)@.width,
            final(self)@.height == old(self)@.height,
            res.dropped@.no_duplicates(),
            forall|id: LayerId| #[trigger]
                res.dropped@.contains(id) <==> old(self)@.fronts.contains_key(id.number())
                    && !keep@.contains(id),
            res.allocated@ == missing(keep@, old(self)@.fronts.dom()),
            old(self)@.wf() ==> final(self)@.wf(),
    {
        let dropped = self.orphans(keep);
        let mut fronts: HashMap<u64, usize> = HashMap::new();
        let mut allocated: Vec<LayerId> = Vec::new();
        let mut i: usize = 0;
        assert(numbers_of(keep@.take(0)) =~= Set::empty());
        while i < keep.len()
            invariant
                i <= keep@.len(),
                fronts@.dom() == numbers_of(keep@.take(i as int)),
                forall|n: u64| #[trigger] fronts@.contains_key(n) ==> fronts@[n] == 0,
                allocated@ == missing(keep@.take(i as int), self@.fronts.dom()),
            decreases keep@.len() - i,
        {
            let id = keep[i];
            let ghost before = keep@.take(i as int);
            let ghost after = keep@.take(i + 1);
            proof {
                assert(after.drop_last() =~= before);
                assert(after =~= before.push(id));
                assert(numbers_of(after) =~= numbers_of(before).insert(id.number())) by {
                    assert forall|n: u64|
                        numbers_of(after).contains(n) == numbers_of(before).insert(
                            id.number(),
                        ).contains(n) by {
                        let x = LayerId::numbered(n);
                        if before.contains(x) {
                            let k = before.index_of(x);
                            assert(after[k] == x);
                        }
                        if n == id.number() {
                            assert(after[i as int] == x);
                        }
                        if after.contains(x) {
                            let k = after.index_of(x);
                            if k < i {
                                assert(before[k] == x);
                            }
                        }
                    }
                }
                assert(numbers_of(before).contains(id.number()) == before.contains(id));
            }
            if !self.fronts.contains_key(&id.raw()) && !fronts.contains_key(&id.raw()) {
                allocated.push(id);
            }
            fronts.insert(id.raw(), 0);
            i += 1;
        }
        assert(keep@.take(i as int) =~= keep@);
        self.fronts = fronts;
        self.composite_front = 0;
        FramePlan { dropped, allocated }
    }

    /// The layers with a substrate that are not to be kept.
    fn orphans(&self, keep: &Vec<LayerId>) -> (res: Vec<LayerId>)
        ensures
            res@.no_duplicates(),
            forall|id: LayerId| #[trigger]
                res@.contains(id) <==> self@.fronts.contains_key(id.number()) && !keep@.contains(
                    id,
                ),
    {
        let keys = keys_of(&self.fronts);
        let mut res: Vec<LayerId> = Vec::new();
        let mut i: usize = 0;
        while i < keys.len()
            invariant
                i <= keys@.len(),
                keys@.no_duplicates(),
                res@.no_duplicates(),
                forall|id: LayerId| #[trigger]
                    res@.contains(id) <==> keys@.take(i as int).contains(id.number())
                        && !keep@.contains(id),
            decreases keys@.len() - i,
        {
            let id = LayerId::from_raw(keys[i]);
            let ghost before = keys@.take(i as int);
            let ghost after = keys@.take(i + 1);
            let ghost found = res@;
            proof {
                assert(after =~= before.push(keys@[i as int]));
                assert(!before.contains(keys@[i as int])) by {
                    if before.contains(keys@[i as int]) {
                        let k = before.index_of(keys@[i as int]);
                        assert(keys@[k] == keys@[i as int]);
                    }
                }
                assert forall|n: u64|
                    after.contains(n) == (before.contains(n) || n == keys@[i as int]) by {
                    if before.contains(n) {
                        assert(after[before.index_of(n)] == n);
                    }
                    if n == keys@[i as int] {
                        assert(after[i as int] == n);
                    }
                    if after.contains(n) && n != keys@[i as int] {
                        assert(before[after.index_of(n)] == n);
                    }
                }
            }
            let kept = contains(keep, id);
            if !kept {
                assert(!found.contains(id));
                res.push(id);
                assert forall|x: LayerId| #[trigger]
                    res@.contains(x) == (found.contains(x) || x == id) by {
                    if found.contains(x) {
                        assert(res@[found.index_of(x)] == x);
                    }
                    if x == id {
                        assert(res@[found.len() as int] == x);
                    }
                    if res@.contains(x) && x != id {
                        assert(found[res@.index_of(x)] == x);
                    }
                }
            }
            i += 1;
        }
        assert(keys@.take(i as int) =~= keys@);
        proof {
            assert forall|id: LayerId| #[trigger]
                res@.contains(id) <==> self@.fronts.contains_key(id.number()) && !keep@.contains(
                    id,
                ) by {
                assert(keys@.to_set().contains(id.number()) == keys@.contains(id.number()));
            }
        }
        res
    }

    /// Deposits a stroke into the substrate of a layer: the pass reads the front side and
    /// writes the other, which is in front from then on. Without a substrate nothing happens.
    pub fn apply_stroke(&mut self, target: LayerId, brush_type: BrushType) -> (res: Option<
        BrushPass,
    >)
        ensures
            match res {
                Some(pass) => {
                    let read = old(self)@.fronts[target.number()];
                    &&& old(self)@.fronts.contains_key(target.number())
                    &&& pass == (BrushPass {
                        program: program_of(brush_type),
                        read,
                        write: flipped(read),
                    })
                    &&& final(self)@ == (CompositorView {
                        fronts: old(self)@.fronts.insert(target.number(), flipped(read)),
                        ..old(self)@
                    })
                },
                None => {
                    &&& !old(self)@.fronts.contains_key(target.number())
                    &&& final(self)@ == old(self)@
                },
            },
            old(self)@.wf() ==> final(self)@.wf(),
    {
        let read: usize = match self.fronts.get(&target.raw()) {
            Some(side) => *side,
            None => return None,
        };
        let write: usize = flip(read);
        self.fronts.insert(target.raw(), write);
        Some(BrushPass { program: brush_program(brush_type), read, write })
    }

    /// Blends the layers that show into the composite, bottom to top. The layer of the
    /// stroke being drawn shows even where it is hidden.
    pub fn composite_layers(&mut self, layers: &Vec<Layer>, active: Option<LayerId>) -> (res: Vec<
        BlendPass,
    >)
        requires
            old(self)@.wf(),
        ensures
            res@ == old(self)@.passes(layers@, active),
            final(self)@ == (CompositorView {
                composite_front: old(self)@.front_after(res@.len()),
                ..old(self)@
            }),
            final(self)@.wf(),
    {
        let ghost start = self@;
        let mut res: Vec<BlendPass> = Vec::new();
        let mut i: usize = 0;
        while i < layers.len()
            invariant
                i <= layers@.len(),
                res@ == start.passes(layers@.take(i as int), active),
                self@ == (CompositorView { composite_front: start.front_after(res@.len()), ..start }),
                start.wf(),
            decreases layers@.len() - i,
        {
            assert(layers@.take(i + 1).drop_last() =~= layers@.take(i as int));
            let layer = &layers[i];
            let drawn = match active {
                Some(id) => id == layer.id,
                None => false,
            };
            if layer.visible || drawn {
                match self.fronts.get(&layer.id.raw()) {
                    Some(side) => {
                        let mode = match layer.blend_mode {
                            BlendMode::Unknown => BlendMode::Normal,
                            mode => mode,
                        };
                        let read: usize = self.composite_front;
                        let write: usize = flip(read);
                        res.push(
                            BlendPass {
                                layer: layer.id,
                                substrate: *side,
                                mode,
                                opacity: layer.opacity.clamp(Float32(0), Float32(ONE)),
                                read,
                                write,
                            },
                        );
                        self.composite_front = write;
                    },
                    None => {},
                }
            }
            i += 1;
        }
        assert(layers@.take(i as int) =~= layers@);
        res
    }
}

fn keys_of(m: &HashMap<u64, usize>) -> (res: Vec<u64>)
    ensures
        res@.no_duplicates(),
        res@.to_set() == m@.dom(),
{
    let mut res: Vec<u64> = Vec::new();
    for k in it: m.keys()
        invariant
            res@ == it.seq().unref().take(it.index() as int),
            it.seq().unref().to_set() == m@.dom(),
            it.seq().no_duplicates(),
            it.index() == it.seq().len() ==> res@ == it.seq().unref(),
    {
        res.push(*k);
        assert(res@ =~= it.seq().unref().take(it.index() + 1));
        assert(it.index() + 1 == it.seq().len() ==> res@ =~= it.seq().unref());
    }
    res
}

fn contains(ids: &Vec<LayerId>, id: LayerId) -> (res: bool)
    ensures
        res == ids@.contains(id),
{
    let mut i: usize = 0;
    while i < ids.len()
        invariant
            i <= ids@.len(),
            forall|k: int| 0 <= k < i ==> ids@[k] != id,
        decreases ids@.len() - i,
    {
        if ids[i] == id {
            assert(ids@[i as int] == id);
            return true;
        }
        i += 1;
    }
    false
}

/// The layers of the list that have no substrate yet, each once, in order.
pub open spec fn missing(keep: Seq<LayerId>, present: Set<u64>) -> Seq<LayerId>
    decreases keep.len(),
{
    if keep.len() == 0 {
        seq![]
    } else {
        let front = keep.drop_last();
        let id = keep.last();
        if present.contains(id.number()) || front.contains(id) {
            missing(front, present)
        } else {
            missing(front, present).push(id)
        }
    }
}

/// The layers whose substrates a frame needs: those of the document, and the layer of the
/// stroke being drawn.
pub fn kept_layers(layers: &Vec<Layer>, active: Option<LayerId>) -> (res: Vec<LayerId>)
    ensures
        res@ == layer_ids(layers@) + (match active {
            Some(id) => seq![id],
            None => seq![],
        }),
{
    let mut res: Vec<LayerId> = Vec::new();
    let mut i: usize = 0;
    while i < layers.len()
        invariant
            i <= layers@.len(),
            res@ == layer_ids(layers@.take(i as int)),
        decreases layers@.len() - i,
    {
        res.push(layers[i].id);
        i += 1;
        assert(res@ =~= layer_ids(layers@.take(i as int)));
    }
    assert(layers@.take(i as int) =~= layers@);
    if let Some(id) = active {
        res.push(id);
    }
    assert(res@ =~= layer_ids(layers@) + (match active {
        Some(id) => seq![id],
        None => seq![],
    }));
    res
}

/// The ids of the layers, in order.
pub open spec fn layer_ids(layers: Seq<Layer>) -> Seq<LayerId> {
    layers.map_values(|l: Layer| l.id)
}

/// A stroke to deposit: the stroke `stroke` of the layer `layer`, both by their index.
#[derive(Debug, Clone, Copy, PartialEq, Eq, Structural)]
pub struct Deposit {
    pub layer: usize,
    pub stroke: usize,
}

/// Whether a stroke of a layer leaves a mark: it has a sample, and its layer is visible. The
/// stroke being drawn, `drawing`, is told apart from the others: it leaves its mark on a hidden
/// layer too.
pub open spec fn leaves_mark(
    layer: LayerView,
    stroke: StrokeView,
    drawing: Option<StrokeId>,
    being_drawn: bool,
) -> bool {
    &&& stroke.samples.len() > 0
    &&& being_drawn == (drawing == Some(stroke.id))
    &&& being_drawn || layer.visible
}

/// The first `n` strokes of the layer with index `k` that leave a mark, in order.
pub open spec fn layer_deposits(
    k: int,
    layer: LayerView,
    n: int,
    drawing: Option<StrokeId>,
    being_drawn: bool,
) -> Seq<Deposit>
    decreases n,
{
    if n <= 0 {
        seq![]
    } else {
        let front = layer_deposits(k, layer, n - 1, drawing, being_drawn);
        if leaves_mark(layer, layer.strokes[n - 1], drawing, being_drawn) {
            front.push(Deposit { layer: k as usize, stroke: (n - 1) as usize })
        } else {
            front
        }
    }
}

/// The strokes of the lowest `m` layers that leave a mark, bottom layer first.
pub open spec fn deposits_below(
    layers: Seq<LayerView>,
    m: int,
    drawing: Option<StrokeId>,
    being_drawn: bool,
) -> Seq<Deposit>
    decreases m,
{
    if m <= 0 {
        seq![]
    } else {
        deposits_below(layers, m - 1, drawing, being_drawn) + layer_deposits(
            m - 1,
            layers[m - 1],
            layers[m - 1].strokes.len() as int,
            drawing,
            being_drawn,
        )
    }
}

/// The strokes that leave a mark: those of the visible layers, bottom layer first, then the
/// one being drawn.
pub open spec fn all_deposits(layers: Seq<LayerView>, drawing: Option<StrokeId>) -> Seq<Deposit> {
    deposits_below(layers, layers.len() as int, drawing, false) + deposits_below(
        layers,
        layers.len() as int,
        drawing,
        true,
    )
}

fn deposits_of(layers: &Vec<Layer>, drawing: Option<StrokeId>, being_drawn: bool) -> (res: Vec<
    Deposit,
>)
    ensures
        res@ == deposits_below(
            crate::layer::layer_views(layers@),
            layers@.len() as int,
            drawing,
            being_drawn,
        ),
{
    let ghost views = crate::layer::layer_views(layers@);
    let mut res: Vec<Deposit> = Vec::new();
    let mut i: usize = 0;
    while i < layers.len()
        invariant
            i <= layers@.len(),
            views == crate::layer::layer_views(layers@),
            res@ == deposits_below(views, i as int, drawing, being_drawn),
        decreases layers@.len() - i,
    {
        let strokes = &layers[i].strokes;
        let visible: bool = layers[i].visible;
        let ghost below = res@;
        let mut j: usize = 0;
        assert(views[i as int] == layers@[i as int]@);
        assert(res@ =~= below + layer_deposits(i as int, views[i as int], 0, drawing, being_drawn));
        while j < strokes.len()
            invariant
                j <= strokes@.len(),
                views[i as int].strokes == crate::layer::stroke_views(strokes@),
                views[i as int].visible == visible,
                res@ == below + layer_deposits(
                    i as int,
                    views[i as int],
                    j as int,
                    drawing,
                    being_drawn,
                ),
            decreases strokes@.len() - j,
        {
            assert(views[i as int].strokes[j as int] == strokes@[j as int]@);
            let is_drawing: bool = match drawing {
                Some(id) => id == strokes[j].id,
                None => false,
            };
            if !strokes[j].samples.is_empty() && being_drawn == is_drawing && (being_drawn
                || visible) {
                res.push(Deposit { layer: i, stroke: j });
            }
            j += 1;
            assert(res@ =~= below + layer_deposits(
                i as int,
                views[i as int],
                j as int,
                drawing,
                being_drawn,
            ));
        }
        i += 1;
    }
    res
}

/// The strokes to deposit in a frame: those of the visible layers, bottom layer first and in
/// order within a layer, then the one being drawn, `drawing`, whether its layer is visible or
/// not.
pub fn deposits(layers: &Vec<Layer>, drawing: Option<StrokeId>) -> (res: Vec<Deposit>)
    ensures
        res@ == all_deposits(crate::layer::layer_views(layers@), drawing),
{
    let mut res = deposits_of(layers, drawing, false);
    let mut last = deposits_of(layers, drawing, true);
    res.append(&mut last);
    res
}

/// The passes of a frame chain: the first reads the side in front, each next one reads what
/// the one before wrote, none reads the side that it writes, and what is in front at the end
/// is what the last one wrote.
pub proof fn lemma_passes_chain(c: CompositorView, layers: Seq<Layer>, active: Option<LayerId>)
    requires
        c.composite_front < 2,
    ensures
        ({
            let passes = c.passes(layers, active);
            &&& passes.len() > 0 ==> passes[0].read == c.composite_front
            &&& passes.len() > 0 ==> passes.last().write == c.front_after(passes.len())
            &&& forall|i: int|
                0 <= i < passes.len() ==> (#[trigger] passes[i]).read != passes[i].write
            &&& forall|i: int, j: int|
                0 <= i && j == i + 1 && j < passes.len() ==> (#[trigger] passes[j]).read == (
                #[trigger] passes[i]).write
        }),
    decreases layers.len(),
{
    if layers.len() > 0 {
        lemma_passes_chain(c, layers.drop_last(), active);
        lemma_pass_count(c, layers.drop_last(), active);
    }
}

proof fn lemma_pass_count(c: CompositorView, layers: Seq<Layer>, active: Option<LayerId>)
    ensures
        c.passes(layers, active).len() <= layers.len(),
    decreases layers.len(),
{
    if layers.len() > 0 {
        lemma_pass_count(c, layers.drop_last(), active);
    }
}

/// In a frame that kept the layers of the document, a layer is blended exactly if it is
/// visible or the stroke being drawn goes to it.
pub proof fn lemma_every_visible_layer_is_blended(
    c: CompositorView,
    layers: Seq<Layer>,
    active: Option<LayerId>,
    keep: Seq<LayerId>,
    i: int,
)
    requires
        c.fronts.dom() == numbers_of(keep),
        0 <= i < layers.len(),
        keep.contains(layers[i].id),
    ensures
        c.shows(layers[i], active) <==> layers[i].visible || active == Some(layers[i].id),
        c.shows(layers[i], active) ==> exists|k: int|
            0 <= k < c.passes(layers, active).len() && (#[trigger] c.passes(
                layers,
                active,
            )[k]).layer == layers[i].id,
    decreases layers.len(),
{
    let passes = c.passes(layers, active);
    let below = c.passes(layers.drop_last(), active);
    assert(numbers_of(keep).contains(layers[i].id.number()));
    if c.shows(layers[i], active) {
        if i < layers.len() - 1 {
            lemma_every_visible_layer_is_blended(c, layers.drop_last(), active, keep, i);
            let k = choose|k: int|
                0 <= k < below.len() && (#[trigger] below[k]).layer == layers[i].id;
            assert(passes[k] == below[k]);
        } else {
            assert(passes[below.len() as int].layer == layers[i].id);
        }
    }
}

} // verus!
