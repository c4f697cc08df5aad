//! Strokes and the layers that hold them.

use crate::brush::BrushParams;
use crate::float32::Float32;
use crate::ids::{IdCounter, LayerId, StrokeId};
use crate::sample::{Sample, SampleClass, SampleRevision, ToolCaps};
use vstd::prelude::*;

verus! {

/// One drawn line: its samples in order, what the tool could report, and the brush that
/// was live when it began.
#[derive(Debug, PartialEq)]
pub struct Stroke {
    pub id: StrokeId,
    pub samples: Vec<Sample>,
    pub caps: ToolCaps,
    pub brush: BrushParams,
}

/// The mathematical content of a stroke.
#[verifier::ext_equal]
pub struct StrokeView {
    pub id: StrokeId,
    pub samples: Seq<Sample>,
    pub caps: ToolCaps,
    pub brush: BrushParams,
}

impl View for Stroke {
    type V = StrokeView;

    open spec fn view(&self) -> StrokeView {
        StrokeView { id: self.id, samples: self.samples@, caps: self.caps, brush: self.brush }
    }
}

impl Clone for Stroke {
    fn clone(&self) -> (res: Stroke)
        ensures
            res@ == self@,
    {
        let samples = self.samples.clone();
        assert(samples@ =~= self.samples@);
        Stroke { id: self.id, samples, caps: self.caps, brush: self.brush }
    }
}

/// The contents of a list of strokes.
pub open spec fn stroke_views(strokes: Seq<Stroke>) -> Seq<StrokeView> {
    strokes.map_values(|s: Stroke| s@)
}

/// Copies a list of strokes.
pub fn clone_strokes(strokes: &Vec<Stroke>) -> (res: Vec<Stroke>)
    ensures
        stroke_views(res@) == stroke_views(strokes@),
{
    let res = strokes.clone();
    assert(stroke_views(res@) =~= stroke_views(strokes@));
    res
}

/// How a layer composites onto the layers below it.
#[derive(Debug, Clone, Copy, PartialEq, Eq, Hash, Structural)]
#[non_exhaustive]
pub enum BlendMode {
    /// Alpha-over in linear RGB.
    Normal,
    /// Mixing in the Oklab color space.
    OklabMix,
    /// Read from a document of a later version; composited as `Normal`.
    Unknown,
}

impl Default for BlendMode {
    fn default() -> (res: BlendMode)
        ensures
            res == BlendMode::Normal,
    {
        BlendMode::Normal
    }
}

/// One layer: its strokes and how it is composited.
#[derive(Debug, PartialEq)]
pub struct Layer {
    pub id: LayerId,
    pub name: String,
    pub strokes: Vec<Stroke>,
    pub blend_mode: BlendMode,
    /// From 0 to 1.
    pub opacity: Float32,
    /// A hidden layer is skipped when compositing; its strokes stay.
    pub visible: bool,
}

/// The mathematical content of a layer.
#[verifier::ext_equal]
pub struct LayerView {
    pub id: LayerId,
    pub name: Seq<char>,
    pub strokes: Seq<StrokeView>,
    pub blend_mode: BlendMode,
    pub opacity: Float32,
    pub visible: bool,
}

impl View for Layer {
    type V = LayerView;

    open spec fn view(&self) -> LayerView {
        LayerView {
            id: self.id,
            name: self.name@,
            strokes: stroke_views(self.strokes@),
            blend_mode: self.blend_mode,
            opacity: self.opacity,
            visible: self.visible,
        }
    }
}

impl Clone for Layer {
    fn clone(&self) -> (res: Layer)
        ensures
            res@ == self@,
    {
        Layer {
            id: self.id,
            name: self.name.clone(),
            strokes: clone_strokes(&self.strokes),
            blend_mode: self.blend_mode,
            opacity: self.opacity,
            visible: self.visible,
        }
    }
}

/// The contents of a list of layers.
pub open spec fn layer_views(layers: Seq<Layer>) -> Seq<LayerView> {
    layers.map_values(|l: Layer| l@)
}

/// Copies a list of layers.
pub fn clone_layers(layers: &Vec<Layer>) -> (res: Vec<Layer>)
    ensures
        layer_views(res@) == layer_views(layers@),
{
    let res = layers.clone();
    assert(layer_views(res@) =~= layer_views(layers@));
    res
}

impl LayerView {
    /// A visible, opaque, normally blended layer without strokes.
    pub open spec fn empty(id: LayerId, name: Seq<char>) -> LayerView {
        LayerView {
            id,
            name,
            strokes: Seq::empty(),
            blend_mode: BlendMode::Normal,
            opacity: Float32(0x3f80_0000),
            visible: true,
        }
    }
}

impl Layer {
    /// A new empty layer with a fresh identifier.
    #[must_use]
    pub fn new(counter: &mut IdCounter, name: String) -> (res: Layer)
        requires
            old(counter).upcoming() < u64::MAX,
        ensures
            res.id == LayerId::numbered(old(counter).upcoming()),
            res@ == LayerView::empty(res.id, name@),
            final(counter).upcoming() == crate::ids::stepped(old(counter).upcoming()),
    {
        let id = LayerId::next(counter);
        let res = Layer {
            id,
            name,
            strokes: Vec::new(),
            blend_mode: BlendMode::Normal,
            opacity: Float32(0x3f80_0000),
            visible: true,
        };
        assert(res@ =~= LayerView::empty(id, name@));
        res
    }
}

/// Sample `k` is the last one that waits for revision `update_index`.
pub open spec fn is_last_estimate(samples: Seq<Sample>, update_index: u64, k: int) -> bool {
    &&& 0 <= k < samples.len()
    &&& samples[k].class == (SampleClass::Estimated { update_index })
    &&& forall|j: int|
        k < j < samples.len() ==> (#[trigger] samples[j]).class != (SampleClass::Estimated {
            update_index,
        })
}

/// Some sample waits for revision `update_index`.
pub open spec fn has_estimate(samples: Seq<Sample>, update_index: u64) -> bool {
    exists|k: int|
        0 <= k < samples.len() && (#[trigger] samples[k]).class == (SampleClass::Estimated {
            update_index,
        })
}

/// The last sample that waits for revision `update_index`.
pub open spec fn last_estimate(samples: Seq<Sample>, update_index: u64) -> int {
    choose|k: int| is_last_estimate(samples, update_index, k)
}

/// Where some sample waits for the revision, `last_estimate` is the last one that does.
pub proof fn lemma_last_estimate(samples: Seq<Sample>, update_index: u64)
    requires
        has_estimate(samples, update_index),
    ensures
        is_last_estimate(samples, update_index, last_estimate(samples, update_index)),
{
    let k = choose|k: int|
        0 <= k < samples.len() && (#[trigger] samples[k]).class == (SampleClass::Estimated {
            update_index,
        });
    lemma_last_estimate_exists(samples, update_index, k);
}

proof fn lemma_last_estimate_exists(samples: Seq<Sample>, update_index: u64, k: int)
    requires
        0 <= k < samples.len(),
        samples[k].class == (SampleClass::Estimated { update_index }),
    ensures
        exists|i: int| is_last_estimate(samples, update_index, i),
    decreases samples.len() - k,
{
    if exists|j: int|
        k < j < samples.len() && (#[trigger] samples[j]).class == (SampleClass::Estimated {
            update_index,
        }) {
        let j = choose|j: int|
            k < j < samples.len() && (#[trigger] samples[j]).class == (SampleClass::Estimated {
                update_index,
            });
        lemma_last_estimate_exists(samples, update_index, j);
    } else {
        assert(is_last_estimate(samples, update_index, k));
    }
}

/// The samples with the last estimate for `update_index` revised and committed; unchanged
/// where there is none.
pub open spec fn revised(
    samples: Seq<Sample>,
    update_index: u64,
    revision: SampleRevision,
) -> Seq<Sample> {
    if has_estimate(samples, update_index) {
        let k = last_estimate(samples, update_index);
        samples.update(
            k,
            Sample { class: SampleClass::Committed, ..revision.applied(samples[k]) },
        )
    } else {
        samples
    }
}

proof fn lemma_last_estimate_is_unique(samples: Seq<Sample>, update_index: u64, a: int, b: int)
    requires
        is_last_estimate(samples, update_index, a),
        is_last_estimate(samples, update_index, b),
    ensures
        a == b,
{
}

impl Stroke {
    /// Applies the revision to the last sample that waits for `update_index` and commits
    /// that sample. Returns whether there was one.
    pub fn revise(&mut self, update_index: u64, revision: SampleRevision) -> (found: bool)
        ensures
            found == has_estimate(old(self).samples@, update_index),
            final(self)@ == (StrokeView {
                samples: revised(old(self).samples@, update_index, revision),
                ..old(self)@
            }),
    {
        let mut k: usize = self.samples.len();
        while k > 0
            invariant
                k <= self.samples.len(),
                *self == *old(self),
                forall|j: int|
                    k <= j < self.samples.len() ==> (#[trigger] self.samples@[j]).class != (
                    SampleClass::Estimated { update_index }),
            decreases k,
        {
            k = k - 1;
            let is_match = match self.samples[k].class {
                SampleClass::Estimated { update_index: i } => i == update_index,
                _ => false,
            };
            if is_match {
                let mut sample = self.samples[k];
                revision.apply_to(&mut sample);
                sample.class = SampleClass::Committed;
                self.samples.set(k, sample);
                proof {
                    let samples = old(self).samples@;
                    assert(is_last_estimate(samples, update_index, k as int));
                    lemma_last_estimate_is_unique(
                        samples,
                        update_index,
                        k as int,
                        last_estimate(samples, update_index),
                    );
                    assert(samples[k as int].class == (SampleClass::Estimated { update_index }));
                    assert(self.samples@ =~= revised(samples, update_index, revision));
                }
                return true;
            }
        }
        false
    }
}

} // verus!
